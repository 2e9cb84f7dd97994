//! Tape array storage.

use std::ops::Deref;
use vstd::prelude::*;

verus! {

/// Backing storage for one tape array (`structural` or `pair_pos`).
///
/// Kept behind an enum so that a storage kind owned by another allocator can
/// be added without the navigator, which only reads the entries, changing.
#[derive(Debug, Clone)]
pub enum TapeStorage {
    /// Plain heap-allocated array: used by the CPU reference builder and by
    /// hand-written test tapes.
    Owned(Vec<i32>),
}

impl View for TapeStorage {
    type V = Seq<i32>;

    open spec fn view(&self) -> Seq<i32> {
        match self {
            TapeStorage::Owned(v) => v@,
        }
    }
}

impl TapeStorage {
    /// The entries as a slice.
    pub fn as_slice(&self) -> (s: &[i32])
        ensures
            s@ == self@,
    {
        match self {
            TapeStorage::Owned(v) => v.as_slice(),
        }
    }

    /// Number of entries.
    pub fn len(&self) -> (n: usize)
        ensures
            n == self@.len(),
    {
        match self {
            TapeStorage::Owned(v) => v.len(),
        }
    }

    /// Entry `i`.
    pub fn get(&self, i: usize) -> (x: i32)
        requires
            i < self@.len(),
        ensures
            x == self@[i as int],
    {
        match self {
            TapeStorage::Owned(v) => v[i],
        }
    }
}

impl Deref for TapeStorage {
    type Target = [i32];

    /// The contents.
    fn deref(&self) -> (s: &[i32])
        ensures
            s@ == self@,
    {
        self.as_slice()
    }
}

impl From<Vec<i32>> for TapeStorage {
    fn from(v: Vec<i32>) -> (s: TapeStorage) {
        TapeStorage::Owned(v)
    }
}

impl vstd::std_specs::convert::FromSpecImpl<Vec<i32>> for TapeStorage {
    open spec fn obeys_from_spec() -> bool {
        true
    }

    open spec fn from_spec(v: Vec<i32>) -> TapeStorage {
        TapeStorage::Owned(v)
    }
}

/// The two tape arrays plus max nesting depth.
#[derive(Debug, Clone)]
pub struct Tape {
    pub structural: TapeStorage,
    pub pair_pos: TapeStorage,
    /// Max bracket-nesting depth, computed by this crate for navigator use
    /// only: the GPU parser never writes a depth.
    pub depth: i32,
}

impl Tape {
    /// Total tape length: number of structural entries, including the two
    /// artificial wrapper entries at index `0` and `len() - 1`.
    pub fn len(&self) -> (n: usize)
        ensures
            n == self.structural@.len(),
    {
        self.structural.len()
    }

    pub fn is_empty(&self) -> (b: bool)
        ensures
            b == (self.structural@.len() == 0),
    {
        self.len() == 0
    }

    /// One row of a tape dump for `input`: entry `i`'s offset, the input
    /// byte at that 1-based offset (`?` when it is out of range), and its
    /// `pair_pos` entry.
    pub fn row(&self, input: &[u8], i: usize) -> (r: (i32, u8, i32))
        requires
            i < self.structural@.len(),
            i < self.pair_pos@.len(),
        ensures
            r.0 == self.structural@[i as int],
            r.1 == (if 1 <= r.0 && r.0 - 1 < input@.len() {
                input@[r.0 - 1]
            } else {
                0x3Fu8
            }),
            r.2 == self.pair_pos@[i as int],
    {
        let offset = self.structural.get(i);
        let ch = if offset >= 1 && ((offset - 1) as usize) < input.len() {
            input[(offset - 1) as usize]
        } else {
            0x3F
        };
        (offset, ch, self.pair_pos.get(i))
    }
}

} // verus!
