//! A page table: 512 entries of 64 bits.

use vstd::prelude::*;
use crate::entry::Entry;

verus! {

/// Number of entries in a table.
pub const ENTRY_COUNT: usize = 512;

/// One table of the 4-level hierarchy.  The level a table serves at is not
/// part of its contents; the store that holds all tables tracks it.
pub struct Table {
    entries: Vec<u64>,
}

impl View for Table {
    type V = Seq<u64>;

    closed spec fn view(&self) -> Seq<u64> {
        self.entries@
    }
}

impl Table {
    /// A freshly zeroed table.
    pub fn new() -> (r: Table)
        ensures
            r@.len() == ENTRY_COUNT,
            forall|i: int| 0 <= i < ENTRY_COUNT ==> r@[i] == 0,
    {
        Table { entries: vec![0u64; ENTRY_COUNT] }
    }

    /// Clear every entry.
    pub fn zero(&mut self)
        requires
            old(self)@.len() == ENTRY_COUNT,
        ensures
            final(self)@.len() == ENTRY_COUNT,
            forall|i: int| 0 <= i < ENTRY_COUNT ==> final(self)@[i] == 0,
    {
        let mut i: usize = 0;
        while i < ENTRY_COUNT
            invariant
                self@.len() == ENTRY_COUNT,
                0 <= i <= ENTRY_COUNT,
                forall|j: int| 0 <= j < i ==> self@[j] == 0,
            decreases ENTRY_COUNT - i,
        {
            self.entries[i] = 0;
            i = i + 1;
        }
    }

    /// Read the entry at `index`.
    pub fn entry(&self, index: usize) -> (e: Entry)
        requires
            index < self@.len(),
        ensures
            e.0 == self@[index as int],
    {
        Entry(self.entries[index])
    }

    /// Write the entry at `index`.
    pub fn set_entry(&mut self, index: usize, e: Entry)
        requires
            index < old(self)@.len(),
        ensures
            final(self)@ == old(self)@.update(index as int, e.0),
    {
        self.entries[index] = e.0;
    }
}

} // verus!
