use std::collections::hash_map::RandomState;
use std::hash::BuildHasher;
use std::hash::Hash;
use vstd::prelude::*;
use vstd::std_specs::cmp::PartialEqSpec;

use crate::table::{first_failure, lemma_lookup_returns_first_equal, max_load, reachable_capacity, INITIAL_CAPACITY};
use crate::table::{Comparison, Entry, KeyComparator, Lookup, Table};

verus! {

/// Why `HashTable::set` failed.
#[derive(Clone, Copy, Debug, PartialEq, Eq, Structural)]
pub enum HashTableError {
    /// The bucket array could not grow any further.
    NoMem,
}

/// Compares key handles by identity: each stored key has a handle of its own.
#[derive(Debug)]
pub struct SameHandle;

impl KeyComparator for SameHandle {
    open spec fn spec_compare(&self, needle: usize, stored: usize) -> Comparison {
        if needle == stored {
            Comparison::Equal
        } else {
            Comparison::NotEqual
        }
    }

    fn compare(&self, needle: usize, stored: usize) -> (r: Comparison) {
        if needle == stored {
            Comparison::Equal
        } else {
            Comparison::NotEqual
        }
    }
}

/// Relies on std's `RandomState::new`: a hashing state with fresh random keys.
#[verifier::external_body]
fn fresh_state() -> RandomState {
    RandomState::new()
}

/// Relies on std's `BuildHasher::hash_one`: the 64-bit hash of `key` under `state`.
#[verifier::external_body]
fn hash_under<K: Hash>(state: &RandomState, key: &K) -> u64 {
    state.hash_one(key)
}

proof fn lemma_same_handle_never_fails(needle: usize, entries: Seq<Entry>, idxs: Seq<usize>)
    ensures
        first_failure(SameHandle, needle, entries, idxs) == None::<u32>,
    decreases idxs.len(),
{
    if idxs.len() > 0 {
        lemma_same_handle_never_fails(needle, entries, idxs.drop_first());
    }
}

/// A map from keys to values that owns both and keeps the association in a `Table`.
///
/// Key `i` (in insertion order) is stored in the table under handle `i`, with the hash it
/// was given when inserted, and value handle `i`.
#[derive(Debug)]
pub struct HashTable<K, V> {
    table: Table<SameHandle>,
    keys: Vec<(K, u32)>,
    values: Vec<V>,
}

impl<K: Eq + Hash, V> HashTable<K, V> {
    /// The keys inserted so far, in insertion order.
    pub closed spec fn keys(&self) -> Seq<K> {
        self.keys@.map_values(|p: (K, u32)| p.0)
    }

    /// The values inserted so far, in insertion order.
    pub closed spec fn values(&self) -> Seq<V> {
        self.values@
    }

    /// The hashes the keys were stored under, in insertion order.
    pub closed spec fn hashes(&self) -> Seq<u32> {
        self.keys@.map_values(|p: (K, u32)| p.1)
    }

    /// Number of buckets of the underlying table.
    pub closed spec fn capacity(&self) -> nat {
        self.table.capacity()
    }

    /// Whether one more key would pass the load bound.
    pub open spec fn needs_growth(&self) -> bool {
        self.keys().len() + 1 > max_load(self.capacity())
    }

    /// Whether the table cannot take another entry: it must grow and its bucket count
    /// cannot be doubled.
    pub open spec fn is_full(&self) -> bool {
        self.needs_growth() && self.capacity() * 2 > usize::MAX
    }

    /// What every table returned by `new` and changed by `set` or `get` satisfies.
    pub open spec fn shape_ok(&self) -> bool {
        &&& self.keys().len() == self.values().len()
        &&& self.hashes().len() == self.keys().len()
        &&& self.keys().len() <= max_load(self.capacity())
        &&& reachable_capacity(self.capacity())
    }

    pub closed spec fn wf(&self) -> bool {
        &&& self.table.wf()
        &&& self.keys@.len() == self.values@.len()
        &&& self.keys@.len() == self.table.entries().len()
        &&& forall|i: int|
            0 <= i < self.keys@.len() ==> #[trigger] self.table.entries()[i] == (Entry {
                key: i as usize,
                hash: self.keys@[i].1,
                value: i as usize,
            })
    }

    /// An empty table.
    pub fn new() -> (r: Option<Self>)
        ensures
            r is Some,
            r matches Some(t) ==> {
                &&& t.wf()
                &&& t.shape_ok()
                &&& t.capacity() == INITIAL_CAPACITY
                &&& t.keys() == Seq::<K>::empty()
                &&& t.values() == Seq::<V>::empty()
            },
    {
        let t = HashTable { table: Table::new(SameHandle), keys: Vec::new(), values: Vec::new() };
        assert(t.keys() =~= Seq::<K>::empty());
        assert(t.hashes() =~= Seq::<u32>::empty());
        Some(t)
    }

    /// Stores `key` with `value`. A key equal to one already stored is kept as a further
    /// entry; lookups keep finding the value stored first.
    pub fn set(&mut self, key: K, value: V) -> (r: Result<(), HashTableError>)
        requires
            old(self).wf(),
        ensures
            final(self).wf(),
            r is Ok <==> !old(self).is_full(),
            old(self).keys().len() < usize::MAX / 4 ==> r is Ok,
            final(self).shape_ok(),
            r is Ok ==> {
                &&& final(self).keys() == old(self).keys().push(key)
                &&& final(self).values() == old(self).values().push(value)
                &&& final(self).hashes().drop_last() == old(self).hashes()
                &&& final(self).capacity() == if old(self).needs_growth() {
                    2 * old(self).capacity()
                } else {
                    old(self).capacity()
                }
            },
            r is Err ==> {
                &&& final(self).keys() == old(self).keys()
                &&& final(self).values() == old(self).values()
                &&& final(self).hashes() == old(self).hashes()
                &&& final(self).capacity() == old(self).capacity()
            },
    {
        let state = fresh_state();
        let full_hash = hash_under(&state, &key);
        let hash = (full_hash % 4294967296) as u32;
        let n = self.keys.len();
        proof {
            lemma_same_handle_never_fails(n, self.table.entries(), self.table.chain(hash));
        }
        match self.table.insert(n, hash, n) {
            Ok(()) => {
                assert(self.keys@.len() == self.keys().len());
                self.keys.push((key, hash));
                self.values.push(value);
                assert(self.keys() =~= old(self).keys().push(key));
                assert(self.hashes().drop_last() =~= old(self).hashes());
                proof {
                    self.table.lemma_load_invariant();
                }
                Ok(())
            },
            Err(_) => {
                proof {
                    self.table.lemma_load_invariant();
                }
                Err(HashTableError::NoMem)
            },
        }
    }

    /// The value stored with the first key equal to `needle`, if any.
    pub fn get(&mut self, needle: &K) -> (r: Option<&mut V>)
        where
            V: Eq,
        requires
            old(self).wf(),
        ensures
            final(self).wf(),
            final(self).shape_ok(),
            final(self).keys() == old(self).keys(),
            final(self).hashes() == old(self).hashes(),
            final(self).capacity() == old(self).capacity(),
            final(self).values().len() == old(self).values().len(),
            r is None ==> final(self).values() == old(self).values(),
            K::obeys_eq_spec() && r is None ==> forall|i: int|
                0 <= i < old(self).keys().len() ==> !(#[trigger] old(self).keys()[i]).eq_spec(needle),
            r matches Some(v) ==> exists|i: int|
                0 <= i < old(self).keys().len() && (K::obeys_eq_spec() ==> (#[trigger] old(
                    self,
                ).keys()[i]).eq_spec(needle) && forall|j: int|
                    0 <= j < i ==> !old(self).keys()[j].eq_spec(needle)) && *v == old(
                    self,
                ).values()[i] && final(self).values() == old(self).values().update(i, *final(v)),
    {
        let n = self.keys.len();
        proof {
            self.table.lemma_load_invariant();
        }
        let mut i: usize = 0;
        while i < n
            invariant
                self.wf(),
                *self == *old(self),
                n == self.keys@.len(),
                i <= n,
                K::obeys_eq_spec() ==> forall|j: int|
                    0 <= j < i ==> !(#[trigger] self.keys()[j]).eq_spec(needle),
                self.shape_ok(),
            decreases n - i,
        {
            if self.keys[i].0 == *needle {
                let hash = self.keys[i].1;
                proof {
                    let t = self.table;
                    assert(t.entries()[i as int].key == i);
                    assert forall|j: int| 0 <= j < i implies t.comparator().spec_compare(
                        i,
                        t.entries()[j].key,
                    ) != Comparison::Equal by {
                        assert(t.entries()[j].key == j);
                    }
                    assert forall|j: int| 0 <= j < t.entries().len() implies {
                        let c = #[trigger] t.comparator().spec_compare(i, t.entries()[j].key);
                        &&& !(c is Failed)
                        &&& c == Comparison::Equal ==> t.entries()[j].hash == hash
                    } by {
                        assert(t.entries()[j].key == j);
                    }
                    lemma_lookup_returns_first_equal(t, i, hash, i as int);
                }
                match self.table.get(i, hash) {
                    Lookup::Found(v) => {
                        assert(self.keys()[i as int] == self.keys@[i as int].0);
                        proof {
                            self.table.lemma_load_invariant();
                        }
                        return Some(&mut self.values[v]);
                    },
                    _ => {
                        return None;
                    },
                }
            }
            assert(self.keys()[i as int] == self.keys@[i as int].0);
            i += 1;
        }
        None
    }
}

} // verus!
