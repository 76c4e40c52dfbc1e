use vstd::prelude::*;

use crate::table::{Comparison, KeyComparator};

verus! {

/// Keys held in a caller-side arena and addressed by position.
///
/// Two handles compare equal when the keys at those positions are equal. A handle past the
/// end of the arena refers to no key: comparing it fails with `dangling_code`.
pub struct KeyArena {
    keys: Vec<u64>,
    dangling_code: u32,
}

impl KeyArena {
    pub closed spec fn keys(&self) -> Seq<u64> {
        self.keys@
    }

    pub closed spec fn dangling_code(&self) -> u32 {
        self.dangling_code
    }

    pub fn new(keys: Vec<u64>, dangling_code: u32) -> (r: Self)
        ensures
            r.keys() == keys@,
            r.dangling_code() == dangling_code,
    {
        KeyArena { keys, dangling_code }
    }
}

impl KeyComparator for KeyArena {
    open spec fn spec_compare(&self, needle: usize, stored: usize) -> Comparison {
        if needle >= self.keys().len() || stored >= self.keys().len() {
            Comparison::Failed(self.dangling_code())
        } else if self.keys()[needle as int] == self.keys()[stored as int] {
            Comparison::Equal
        } else {
            Comparison::NotEqual
        }
    }

    fn compare(&self, needle: usize, stored: usize) -> (r: Comparison) {
        if needle >= self.keys.len() || stored >= self.keys.len() {
            Comparison::Failed(self.dangling_code)
        } else if self.keys[needle] == self.keys[stored] {
            Comparison::Equal
        } else {
            Comparison::NotEqual
        }
    }
}

} // verus!
