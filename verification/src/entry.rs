//! The record that a successful search hands back.

use vstd::prelude::*;
use crate::subsets::{popcount, table_size};

verus! {

/// Mask, multiplier, shift and table size of one square's hash table.
#[derive(Debug, Clone, Copy, PartialEq, Eq, Structural)]
pub struct MagicEntry {
    pub mask: u64,
    pub magic: u64,
    pub shift: u32,
    pub size: usize,
}

impl MagicEntry {
    /// Shift and size are those that belong to the mask: the table has one
    /// slot for each subset of the mask, and the shift leaves as many bits
    /// as the mask has ones.
    pub open spec fn wf(&self) -> bool {
        &&& self.shift == 64 - popcount(self.mask)
        &&& self.size == table_size(self.mask)
    }

    pub fn new(mask: u64, magic: u64, shift: u32, size: usize) -> (entry: Self)
        ensures
            entry == (MagicEntry { mask, magic, shift, size }),
    {
        Self { mask, magic, shift, size }
    }
}

impl Default for MagicEntry {
    fn default() -> (entry: Self)
        ensures
            entry == (MagicEntry { mask: 0, magic: 0, shift: 0, size: 0 }),
    {
        Self { mask: 0, magic: 0, shift: 0, size: 0 }
    }
}

} // verus!
