//! A search target: the hash state a password must reach, and the
//! password's length.

use vstd::prelude::*;

verus! {

use crate::cpu::Memory;

/// A target hash state and password length.  Lengths run up to 14
/// characters; the bound keeps the popcount accumulator from wrapping, on
/// which the search's pruning relies.
#[derive(Clone, Copy)]
pub struct Target {
    pub memory: Memory,
    pub len: u8,
}

impl Target {
    /// The password length as stored.
    pub open spec fn spec_len(&self) -> u8 {
        self.len
    }

    /// A target for a password of `len` characters.
    pub fn new(memory: Memory, len: u8) -> (r: Target)
        requires
            len <= 14,
        ensures
            r.memory == memory,
            r.spec_len() == len,
    {
        Target { memory, len }
    }

    /// The password length.
    pub fn len(&self) -> (r: usize)
        ensures
            r == self.spec_len() as usize,
    {
        self.len as usize
    }
}

} // verus!
