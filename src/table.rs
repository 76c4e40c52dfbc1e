use vstd::prelude::*;

verus! {

/// Result of comparing a looked-up key with a stored key.
#[derive(Clone, Copy, Debug, PartialEq, Eq, Structural)]
pub enum Comparison {
    Equal,
    NotEqual,
    /// The comparator could not decide; the code is handed back to the caller unchanged.
    Failed(u32),
}

/// Bucket selected by a hash for a given number of buckets.
pub open spec fn bucket_of(hash: u32, capacity: nat) -> nat {
    (hash as nat) % capacity
}

/// Largest number of entries a table with `capacity` buckets may hold (a load factor of 3/4).
pub open spec fn max_load(capacity: nat) -> nat {
    (capacity - capacity / 4) as nat
}

/// A caller-supplied equality test on key handles.
///
/// The comparator carries whatever state it needs (the keys the handles refer to, say);
/// the table never looks at keys itself.
pub trait KeyComparator {
    /// What `compare` answers for a looked-up key handle and a stored one.
    spec fn spec_compare(&self, needle: usize, stored: usize) -> Comparison;

    fn compare(&self, needle: usize, stored: usize) -> (r: Comparison)
        ensures
            r == self.spec_compare(needle, stored),
    ;
}

/// A stored association: key handle, the hash the caller gave for it, and value handle.
#[derive(Clone, Copy, Debug, PartialEq, Eq, Structural)]
pub struct Entry {
    pub key: usize,
    pub hash: u32,
    pub value: usize,
}

/// Outcome of a lookup.
#[derive(Clone, Copy, Debug, PartialEq, Eq, Structural)]
pub enum Lookup {
    /// The value handle of the first matching entry.
    Found(usize),
    NotFound,
    /// The comparator failed with this code.
    Failed(u32),
}

/// Why an insert did not take place.
#[derive(Clone, Copy, Debug, PartialEq, Eq, Structural)]
pub enum InsertError {
    /// The bucket array could not grow any further.
    NoMem,
    /// The comparator failed with this code.
    Comparator(u32),
}

/// Indices `i < n`, in increasing order, of the entries that fall into bucket `b`.
pub open spec fn members(entries: Seq<Entry>, capacity: nat, b: nat, n: nat) -> Seq<usize>
    decreases n,
{
    if n == 0 {
        Seq::empty()
    } else {
        let rest = members(entries, capacity, b, (n - 1) as nat);
        if bucket_of(entries[n - 1].hash, capacity) == b {
            rest.push((n - 1) as usize)
        } else {
            rest
        }
    }
}

/// Scan the entries at `idxs` in order: the first one the comparator does not call
/// different decides the outcome.
pub open spec fn scan<C: KeyComparator>(
    cmp: C,
    needle: usize,
    entries: Seq<Entry>,
    idxs: Seq<usize>,
) -> Lookup
    decreases idxs.len(),
{
    if idxs.len() == 0 {
        Lookup::NotFound
    } else {
        let e = entries[idxs[0] as int];
        match cmp.spec_compare(needle, e.key) {
            Comparison::Equal => Lookup::Found(e.value),
            Comparison::NotEqual => scan(cmp, needle, entries, idxs.drop_first()),
            Comparison::Failed(c) => Lookup::Failed(c),
        }
    }
}

/// The first comparator failure met when comparing `needle` with every entry at `idxs`.
pub open spec fn first_failure<C: KeyComparator>(
    cmp: C,
    needle: usize,
    entries: Seq<Entry>,
    idxs: Seq<usize>,
) -> Option<u32>
    decreases idxs.len(),
{
    if idxs.len() == 0 {
        None
    } else {
        match cmp.spec_compare(needle, entries[idxs[0] as int].key) {
            Comparison::Failed(c) => Some(c),
            _ => first_failure(cmp, needle, entries, idxs.drop_first()),
        }
    }
}

/// Lookup over all entries in insertion order, regardless of buckets.
pub open spec fn find_first<C: KeyComparator>(cmp: C, needle: usize, entries: Seq<Entry>) -> Lookup
    decreases entries.len(),
{
    if entries.len() == 0 {
        Lookup::NotFound
    } else {
        match cmp.spec_compare(needle, entries[0].key) {
            Comparison::Equal => Lookup::Found(entries[0].value),
            Comparison::NotEqual => find_first(cmp, needle, entries.drop_first()),
            Comparison::Failed(c) => Lookup::Failed(c),
        }
    }
}

/// Number of buckets of a new table.
pub const INITIAL_CAPACITY: usize = 8;

/// Bucket counts a table can have: `INITIAL_CAPACITY` doubled some number of times.
pub open spec fn reachable_capacity(capacity: nat) -> bool
    decreases capacity,
{
    if capacity <= INITIAL_CAPACITY {
        capacity == INITIAL_CAPACITY
    } else {
        capacity % 2 == 0 && reachable_capacity(capacity / 2)
    }
}

/// A hash table of key and value handles with separate chaining.
///
/// Entries are kept in insertion order; each bucket lists, in increasing order, the
/// positions of the entries whose hash selects it.
#[derive(Debug)]
pub struct Table<C> {
    comparator: C,
    entries: Vec<Entry>,
    buckets: Vec<Vec<usize>>,
}

impl<C: KeyComparator> Table<C> {
    /// The entries, in insertion order.
    pub closed spec fn entries(&self) -> Seq<Entry> {
        self.entries@
    }

    /// Number of buckets.
    pub closed spec fn capacity(&self) -> nat {
        self.buckets@.len()
    }

    pub closed spec fn comparator(&self) -> C {
        self.comparator
    }

    pub closed spec fn wf(&self) -> bool {
        let cap = self.buckets@.len();
        &&& INITIAL_CAPACITY <= cap <= usize::MAX
        &&& cap % 4 == 0
        &&& reachable_capacity(cap)
        &&& self.entries@.len() <= max_load(cap)
        &&& forall|b: int|
            0 <= b < cap ==> (#[trigger] self.buckets@[b])@ == members(
                self.entries@,
                cap,
                b as nat,
                self.entries@.len(),
            )
    }

    /// The load bound and the shape of the bucket count hold of every well-formed table.
    pub proof fn lemma_load_invariant(&self)
        requires
            self.wf(),
        ensures
            self.entries().len() <= max_load(self.capacity()),
            reachable_capacity(self.capacity()),
            self.capacity() >= INITIAL_CAPACITY,
    {
    }

    /// Entry positions in the bucket that `hash` selects.
    pub open spec fn chain(&self, hash: u32) -> Seq<usize> {
        members(self.entries(), self.capacity(), bucket_of(hash, self.capacity()), self.entries().len())
    }

    /// What a lookup of `needle` under `hash` answers.
    pub open spec fn lookup(&self, needle: usize, hash: u32) -> Lookup {
        scan(self.comparator(), needle, self.entries(), self.chain(hash))
    }

    /// Whether an insert must grow the bucket array first.
    pub open spec fn needs_growth(&self) -> bool {
        self.entries().len() + 1 > max_load(self.capacity())
    }

    /// Whether the bucket array is too large to be doubled.
    pub open spec fn at_limit(&self) -> bool {
        self.capacity() * 2 > usize::MAX
    }

    /// An empty table with `INITIAL_CAPACITY` buckets.
    pub fn new(comparator: C) -> (r: Self)
        ensures
            r.wf(),
            r.entries() == Seq::<Entry>::empty(),
            r.capacity() == INITIAL_CAPACITY,
            r.comparator() == comparator,
    {
        let buckets = empty_buckets(INITIAL_CAPACITY);
        Table { comparator, entries: Vec::new(), buckets }
    }

    /// Number of entries.
    pub fn len(&self) -> (r: usize)
        ensures
            r == self.entries().len(),
    {
        self.entries.len()
    }

    /// Number of buckets.
    pub fn capacity_now(&self) -> (r: usize)
        ensures
            r == self.capacity(),
    {
        self.buckets.len()
    }

    /// Looks `needle` up in the bucket of `hash`, comparing in insertion order.
    pub fn get(&self, needle: usize, hash: u32) -> (r: Lookup)
        requires
            self.wf(),
        ensures
            r == self.lookup(needle, hash),
    {
        let b = bucket_index(hash, self.buckets.len());
        let chain = &self.buckets[b];
        proof {
            lemma_members_bounded(self.entries@, self.buckets@.len() as nat, b as nat, self.entries@.len());
        }
        let mut k: usize = 0;
        assert(chain@.skip(0) =~= chain@);
        while k < chain.len()
            invariant
                self.wf(),
                b < self.buckets@.len(),
                chain@ == self.chain(hash),
                forall|j: int| 0 <= j < chain@.len() ==> #[trigger] chain@[j] < self.entries@.len(),
                k <= chain@.len(),
                scan(self.comparator, needle, self.entries@, chain@) == scan(
                    self.comparator,
                    needle,
                    self.entries@,
                    chain@.skip(k as int),
                ),
            decreases chain@.len() - k,
        {
            let e = self.entries[chain[k]];
            let ghost tail = chain@.skip(k as int);
            assert(tail[0] == chain@[k as int]);
            match self.comparator.compare(needle, e.key) {
                Comparison::Equal => {
                    return Lookup::Found(e.value);
                },
                Comparison::NotEqual => {
                    assert(tail.drop_first() =~= chain@.skip(k + 1));
                },
                Comparison::Failed(c) => {
                    return Lookup::Failed(c);
                },
            }
            k += 1;
        }
        Lookup::NotFound
    }

    /// Compares `needle` with every key in the bucket of `hash`; the first failure, if any.
    fn chain_failure(&self, needle: usize, hash: u32) -> (r: Option<u32>)
        requires
            self.wf(),
        ensures
            r == first_failure(self.comparator(), needle, self.entries(), self.chain(hash)),
    {
        let b = bucket_index(hash, self.buckets.len());
        let chain = &self.buckets[b];
        proof {
            lemma_members_bounded(self.entries@, self.buckets@.len() as nat, b as nat, self.entries@.len());
        }
        let mut k: usize = 0;
        assert(chain@.skip(0) =~= chain@);
        while k < chain.len()
            invariant
                self.wf(),
                b < self.buckets@.len(),
                chain@ == self.chain(hash),
                forall|j: int| 0 <= j < chain@.len() ==> #[trigger] chain@[j] < self.entries@.len(),
                k <= chain@.len(),
                first_failure(self.comparator, needle, self.entries@, chain@) == first_failure(
                    self.comparator,
                    needle,
                    self.entries@,
                    chain@.skip(k as int),
                ),
            decreases chain@.len() - k,
        {
            let e = self.entries[chain[k]];
            let ghost tail = chain@.skip(k as int);
            assert(tail[0] == chain@[k as int]);
            if let Comparison::Failed(c) = self.comparator.compare(needle, e.key) {
                return Some(c);
            }
            assert(tail.drop_first() =~= chain@.skip(k + 1));
            k += 1;
        }
        None
    }

    /// Doubles the number of buckets and redistributes every entry by its stored hash.
    fn grow(&mut self)
        requires
            old(self).wf(),
            old(self).capacity() * 2 <= usize::MAX,
        ensures
            final(self).wf(),
            final(self).entries() == old(self).entries(),
            final(self).comparator() == old(self).comparator(),
            final(self).capacity() == old(self).capacity() * 2,
    {
        let new_cap = self.buckets.len() * 2;
        let mut nb = empty_buckets(new_cap);
        let n = self.entries.len();
        let mut i: usize = 0;
        while i < n
            invariant
                n == self.entries@.len(),
                i <= n,
                nb@.len() == new_cap,
                new_cap > 0,
                forall|b: int|
                    0 <= b < new_cap ==> (#[trigger] nb@[b])@ == members(
                        self.entries@,
                        new_cap as nat,
                        b as nat,
                        i as nat,
                    ),
            decreases n - i,
        {
            let b = bucket_index(self.entries[i].hash, new_cap);
            nb[b].push(i);
            i += 1;
        }
        self.buckets = nb;
    }

    /// Adds an entry for `key` under `hash`, growing the bucket array first when the load
    /// would pass 3/4.
    ///
    /// The key is compared with every key already in its bucket; the first comparator
    /// failure aborts the insert. An equal key does not stop it: equal keys are kept as
    /// separate entries, and lookups find the one inserted first.
    pub fn insert(&mut self, key: usize, hash: u32, value: usize) -> (r: Result<(), InsertError>)
        requires
            old(self).wf(),
        ensures
            final(self).wf(),
            final(self).comparator() == old(self).comparator(),
            old(self).entries().len() < usize::MAX / 4 ==> !(old(self).needs_growth() && old(
                self,
            ).at_limit()),
            match first_failure(old(self).comparator(), key, old(self).entries(), old(self).chain(hash)) {
                Some(c) => r == Err::<(), InsertError>(InsertError::Comparator(c)) && *final(self) == *old(self),
                None => if old(self).needs_growth() && old(self).at_limit() {
                    r == Err::<(), InsertError>(InsertError::NoMem) && *final(self) == *old(self)
                } else {
                    &&& r == Ok::<(), InsertError>(())
                    &&& final(self).entries() == old(self).entries().push(Entry { key, hash, value })
                    &&& final(self).capacity() == if old(self).needs_growth() {
                        old(self).capacity() * 2
                    } else {
                        old(self).capacity()
                    }
                },
            },
    {
        if let Some(c) = self.chain_failure(key, hash) {
            return Err(InsertError::Comparator(c));
        }
        let cap = self.buckets.len();
        if self.entries.len() + 1 > cap - cap / 4 {
            if cap > usize::MAX / 2 {
                return Err(InsertError::NoMem);
            }
            self.grow();
        }
        let n = self.entries.len();
        let b = bucket_index(hash, self.buckets.len());
        let ghost before = self.entries@;
        self.entries.push(Entry { key, hash, value });
        self.buckets[b].push(n);
        proof {
            let cap = self.buckets@.len();
            assert forall|bb: int| 0 <= bb < cap implies (#[trigger] self.buckets@[bb])@ == members(
                self.entries@,
                cap,
                bb as nat,
                self.entries@.len(),
            ) by {
                lemma_members_prefix(before, self.entries@, cap, bb as nat, n as nat);
            }
        }
        Ok(())
    }
}

/// `n` empty buckets.
fn empty_buckets(n: usize) -> (r: Vec<Vec<usize>>)
    ensures
        r@.len() == n,
        forall|b: int| 0 <= b < n ==> (#[trigger] r@[b])@ == Seq::<usize>::empty(),
{
    let mut r: Vec<Vec<usize>> = Vec::new();
    let mut i: usize = 0;
    while i < n
        invariant
            i <= n,
            r@.len() == i,
            forall|b: int| 0 <= b < i ==> (#[trigger] r@[b])@ == Seq::<usize>::empty(),
        decreases n - i,
    {
        r.push(Vec::new());
        i += 1;
    }
    r
}

/// Every member of a bucket is a valid position of an entry that selects that bucket.
proof fn lemma_members_bounded(entries: Seq<Entry>, capacity: nat, b: nat, n: nat)
    requires
        n <= entries.len(),
        n <= usize::MAX,
    ensures
        forall|j: int|
            0 <= j < members(entries, capacity, b, n).len() ==> {
                let i = #[trigger] members(entries, capacity, b, n)[j];
                &&& i < n
                &&& bucket_of(entries[i as int].hash, capacity) == b
            },
    decreases n,
{
    if n > 0 {
        lemma_members_bounded(entries, capacity, b, (n - 1) as nat);
        let rest = members(entries, capacity, b, (n - 1) as nat);
        assert forall|j: int| 0 <= j < rest.len() implies #[trigger] rest.push((n - 1) as usize)[j] == rest[j] by {}
    }
}

proof fn lemma_scan_push<C: KeyComparator>(
    cmp: C,
    needle: usize,
    entries: Seq<Entry>,
    idxs: Seq<usize>,
    x: usize,
)
    ensures
        scan(cmp, needle, entries, idxs.push(x)) == if scan(cmp, needle, entries, idxs)
            == Lookup::NotFound {
            scan(cmp, needle, entries, seq![x])
        } else {
            scan(cmp, needle, entries, idxs)
        },
    decreases idxs.len(),
{
    if idxs.len() == 0 {
        assert(idxs.push(x) =~= seq![x]);
    } else {
        assert(idxs.push(x).drop_first() =~= idxs.drop_first().push(x));
        lemma_scan_push(cmp, needle, entries, idxs.drop_first(), x);
    }
}

proof fn lemma_find_first_push<C: KeyComparator>(
    cmp: C,
    needle: usize,
    entries: Seq<Entry>,
    e: Entry,
)
    ensures
        find_first(cmp, needle, entries.push(e)) == if find_first(cmp, needle, entries)
            == Lookup::NotFound {
            find_first(cmp, needle, seq![e])
        } else {
            find_first(cmp, needle, entries)
        },
    decreases entries.len(),
{
    if entries.len() == 0 {
        assert(entries.push(e) =~= seq![e]);
    } else {
        assert(entries.push(e).drop_first() =~= entries.drop_first().push(e));
        lemma_find_first_push(cmp, needle, entries.drop_first(), e);
    }
}

/// The comparator never fails on `needle` against a stored key, and every stored key equal
/// to `needle` was stored under `hash`.
pub open spec fn consistent<C: KeyComparator>(
    cmp: C,
    needle: usize,
    hash: u32,
    entries: Seq<Entry>,
) -> bool {
    forall|i: int|
        0 <= i < entries.len() ==> {
            let c = #[trigger] cmp.spec_compare(needle, entries[i].key);
            &&& !(c is Failed)
            &&& c == Comparison::Equal ==> entries[i].hash == hash
        }
}

proof fn lemma_chain_prefix<C: KeyComparator>(
    cmp: C,
    needle: usize,
    hash: u32,
    entries: Seq<Entry>,
    capacity: nat,
    n: nat,
)
    requires
        capacity > 0,
        n <= entries.len(),
        n <= usize::MAX,
        consistent(cmp, needle, hash, entries),
    ensures
        scan(cmp, needle, entries, members(entries, capacity, bucket_of(hash, capacity), n))
            == find_first(cmp, needle, entries.take(n as int)),
    decreases n,
{
    let b = bucket_of(hash, capacity);
    if n == 0 {
        assert(entries.take(0) =~= Seq::<Entry>::empty());
    } else {
        let m = (n - 1) as nat;
        lemma_chain_prefix(cmp, needle, hash, entries, capacity, m);
        let e = entries[m as int];
        assert(entries.take(n as int) =~= entries.take(m as int).push(e));
        lemma_find_first_push(cmp, needle, entries.take(m as int), e);
        let c = cmp.spec_compare(needle, e.key);
        assert(c == cmp.spec_compare(needle, entries[m as int].key));
        assert(seq![e].drop_first() =~= Seq::<Entry>::empty());
        let single = find_first(cmp, needle, seq![e]);
        assert(seq![e][0] == e);
        assert(find_first(cmp, needle, Seq::<Entry>::empty()) == Lookup::NotFound);
        let rest = members(entries, capacity, b, m);
        if bucket_of(e.hash, capacity) == b {
            assert(members(entries, capacity, b, n) == rest.push(m as usize));
            lemma_scan_push(cmp, needle, entries, rest, m as usize);
            assert(seq![m as usize][0] == m as usize);
            assert(seq![m as usize].drop_first() =~= Seq::<usize>::empty());
            assert(scan(cmp, needle, entries, Seq::<usize>::empty()) == Lookup::NotFound);
            assert(scan(cmp, needle, entries, seq![m as usize]) == single);
        } else {
            assert(members(entries, capacity, b, n) == rest);
            assert(c != Comparison::Equal);
            assert(c == Comparison::NotEqual);
            assert(single == Lookup::NotFound);
        }
    }
}

/// With a comparator that does not fail on `needle` and a hash that all keys equal to
/// `needle` share, a lookup answers as a scan of every entry in insertion order does:
/// the value of the first entry whose key is equal, or not found. In particular the
/// answer does not depend on the number of buckets.
pub proof fn lemma_lookup_in_insertion_order<C: KeyComparator>(t: Table<C>, needle: usize, hash: u32)
    requires
        t.wf(),
        consistent(t.comparator(), needle, hash, t.entries()),
    ensures
        t.lookup(needle, hash) == find_first(t.comparator(), needle, t.entries()),
{
    lemma_chain_prefix(t.comparator(), needle, hash, t.entries(), t.capacity(), t.entries().len());
    assert(t.entries().take(t.entries().len() as int) =~= t.entries());
}

/// Closed form of `find_first` for a comparator that does not fail on `needle`.
proof fn lemma_find_first_closed<C: KeyComparator>(cmp: C, needle: usize, entries: Seq<Entry>)
    requires
        forall|i: int|
            0 <= i < entries.len() ==> !(#[trigger] cmp.spec_compare(needle, entries[i].key) is Failed),
    ensures
        !(find_first(cmp, needle, entries) is Failed),
        find_first(cmp, needle, entries) == Lookup::NotFound <==> forall|i: int|
            0 <= i < entries.len() ==> #[trigger] cmp.spec_compare(needle, entries[i].key)
                != Comparison::Equal,
        forall|i: int|
            0 <= i < entries.len() && #[trigger] cmp.spec_compare(needle, entries[i].key)
                == Comparison::Equal && (forall|j: int|
                0 <= j < i ==> cmp.spec_compare(needle, entries[j].key) != Comparison::Equal)
                ==> find_first(cmp, needle, entries) == Lookup::Found(entries[i].value),
    decreases entries.len(),
{
    if entries.len() > 0 {
        let rest = entries.drop_first();
        assert forall|i: int| 0 <= i < rest.len() implies !(#[trigger] cmp.spec_compare(
            needle,
            rest[i].key,
        ) is Failed) by {
            assert(rest[i] == entries[i + 1]);
        }
        lemma_find_first_closed(cmp, needle, rest);
        assert(!(cmp.spec_compare(needle, entries[0].key) is Failed));
        if cmp.spec_compare(needle, entries[0].key) != Comparison::Equal {
            assert forall|i: int|
                0 <= i < entries.len() && #[trigger] cmp.spec_compare(needle, entries[i].key)
                    == Comparison::Equal && (forall|j: int|
                    0 <= j < i ==> cmp.spec_compare(needle, entries[j].key) != Comparison::Equal)
                    implies find_first(cmp, needle, entries) == Lookup::Found(entries[i].value) by {
                assert(i > 0);
                assert(rest[i - 1] == entries[i]);
                assert forall|j: int| 0 <= j < i - 1 implies cmp.spec_compare(needle, rest[j].key)
                    != Comparison::Equal by {
                    assert(rest[j] == entries[j + 1]);
                }
                assert(cmp.spec_compare(needle, rest[i - 1].key) == Comparison::Equal);
            }
            if find_first(cmp, needle, entries) != Lookup::NotFound {
                let k = choose|k: int|
                    0 <= k < rest.len() && #[trigger] cmp.spec_compare(needle, rest[k].key)
                        == Comparison::Equal;
                assert(rest[k] == entries[k + 1]);
                assert(cmp.spec_compare(needle, entries[k + 1].key) == Comparison::Equal);
            } else {
                assert forall|i: int| 0 <= i < entries.len() implies #[trigger] cmp.spec_compare(
                    needle,
                    entries[i].key,
                ) != Comparison::Equal by {
                    if i > 0 {
                        assert(rest[i - 1] == entries[i]);
                    }
                }
            }
        }
    }
}

/// A lookup finds an entry whose key is equal to `needle`, under consistent hashing and a
/// comparator that does not fail: the first such entry, in insertion order. So of two
/// entries with equal keys, the one inserted first is returned.
pub proof fn lemma_lookup_returns_first_equal<C: KeyComparator>(
    t: Table<C>,
    needle: usize,
    hash: u32,
    i: int,
)
    requires
        t.wf(),
        consistent(t.comparator(), needle, hash, t.entries()),
        0 <= i < t.entries().len(),
        t.comparator().spec_compare(needle, t.entries()[i].key) == Comparison::Equal,
        forall|j: int|
            0 <= j < i ==> t.comparator().spec_compare(needle, t.entries()[j].key)
                != Comparison::Equal,
    ensures
        t.lookup(needle, hash) == Lookup::Found(t.entries()[i].value),
{
    lemma_lookup_in_insertion_order(t, needle, hash);
    lemma_find_first_closed(t.comparator(), needle, t.entries());
}

/// Every stored key can be retrieved: under consistent hashing and a comparator that does
/// not fail, looking up a key equal to a stored one finds the value of a stored entry
/// whose key is equal to it.
pub proof fn lemma_lookup_finds_stored_key<C: KeyComparator>(
    t: Table<C>,
    needle: usize,
    hash: u32,
    i: int,
)
    requires
        t.wf(),
        consistent(t.comparator(), needle, hash, t.entries()),
        0 <= i < t.entries().len(),
        t.comparator().spec_compare(needle, t.entries()[i].key) == Comparison::Equal,
    ensures
        exists|j: int|
            0 <= j <= i && #[trigger] t.comparator().spec_compare(needle, t.entries()[j].key)
                == Comparison::Equal && t.lookup(needle, hash) == Lookup::Found(
                t.entries()[j].value,
            ),
    decreases i,
{
    let cmp = t.comparator();
    let e = t.entries();
    if exists|j: int| 0 <= j < i && #[trigger] cmp.spec_compare(needle, e[j].key) == Comparison::Equal {
        let j = choose|j: int| 0 <= j < i && #[trigger] cmp.spec_compare(needle, e[j].key) == Comparison::Equal;
        lemma_lookup_finds_stored_key(t, needle, hash, j);
    } else {
        lemma_lookup_returns_first_equal(t, needle, hash, i);
    }
}

/// A key that no stored key equals is not found, whatever the hash.
pub proof fn lemma_lookup_absent_key<C: KeyComparator>(t: Table<C>, needle: usize, hash: u32)
    requires
        t.wf(),
        forall|i: int|
            0 <= i < t.entries().len() ==> t.comparator().spec_compare(needle, t.entries()[i].key)
                == Comparison::NotEqual,
    ensures
        t.lookup(needle, hash) == Lookup::NotFound,
{
    lemma_lookup_in_insertion_order(t, needle, hash);
    lemma_find_first_closed(t.comparator(), needle, t.entries());
}

/// Growth loses no entry: two well-formed tables with the same entries and comparator
/// answer every consistent lookup alike, whatever their numbers of buckets.
pub proof fn lemma_lookup_independent_of_capacity<C: KeyComparator>(
    t1: Table<C>,
    t2: Table<C>,
    needle: usize,
    hash: u32,
)
    requires
        t1.wf(),
        t2.wf(),
        t1.entries() == t2.entries(),
        t1.comparator() == t2.comparator(),
        consistent(t1.comparator(), needle, hash, t1.entries()),
    ensures
        t1.lookup(needle, hash) == t2.lookup(needle, hash),
{
    lemma_lookup_in_insertion_order(t1, needle, hash);
    lemma_lookup_in_insertion_order(t2, needle, hash);
}

/// An insert, whether or not it grew the bucket array, keeps what consistent lookups
/// already found: the new entry comes after every earlier one in insertion order.
pub proof fn lemma_insert_keeps_lookups<C: KeyComparator>(
    before: Table<C>,
    after: Table<C>,
    e: Entry,
    needle: usize,
    hash: u32,
)
    requires
        before.wf(),
        after.wf(),
        after.entries() == before.entries().push(e),
        after.comparator() == before.comparator(),
        consistent(after.comparator(), needle, hash, after.entries()),
        before.lookup(needle, hash) != Lookup::NotFound,
    ensures
        after.lookup(needle, hash) == before.lookup(needle, hash),
{
    let cmp = before.comparator();
    assert forall|i: int| 0 <= i < before.entries().len() implies {
        let c = #[trigger] cmp.spec_compare(needle, before.entries()[i].key);
        &&& !(c is Failed)
        &&& c == Comparison::Equal ==> before.entries()[i].hash == hash
    } by {
        assert(before.entries()[i] == after.entries()[i]);
    }
    lemma_lookup_in_insertion_order(before, needle, hash);
    lemma_lookup_in_insertion_order(after, needle, hash);
    lemma_find_first_push(cmp, needle, before.entries(), e);
}

/// Bucket membership among the first `n` entries depends on their hashes alone.
proof fn lemma_members_prefix(s1: Seq<Entry>, s2: Seq<Entry>, capacity: nat, b: nat, n: nat)
    requires
        n <= s1.len(),
        n <= s2.len(),
        forall|i: int| 0 <= i < n ==> #[trigger] s1[i].hash == s2[i].hash,
    ensures
        members(s1, capacity, b, n) == members(s2, capacity, b, n),
    decreases n,
{
    if n > 0 {
        lemma_members_prefix(s1, s2, capacity, b, (n - 1) as nat);
    }
}

fn bucket_index(hash: u32, capacity: usize) -> (r: usize)
    requires
        capacity > 0,
    ensures
        r == bucket_of(hash, capacity as nat),
        r < capacity,
{
    (hash as usize) % capacity
}

} // verus!
