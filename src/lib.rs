use vstd::prelude::*;

pub mod arena;
pub mod hashtable;
pub mod table;

pub use crate::arena::KeyArena;
pub use crate::hashtable::{HashTable, HashTableError, SameHandle};
pub use crate::table::{Comparison, Entry, InsertError, KeyComparator, Lookup, Table};

verus! {

} // verus!
