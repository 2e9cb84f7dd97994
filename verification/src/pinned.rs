//! Host buffers for parser input.

use std::ops::Deref;
use vstd::prelude::*;

use crate::Error;

verus! {

/// A byte buffer for parser input. With CUDA support it would live in
/// page-locked (pinned) host memory, from which the copy to the GPU runs at
/// close to the bus rate; in this build it is ordinary heap memory. Keep
/// and reuse buffers rather than making one per parse.
#[derive(Debug)]
pub struct PinnedBuffer {
    data: Vec<u8>,
}

impl View for PinnedBuffer {
    type V = Seq<u8>;

    closed spec fn view(&self) -> Seq<u8> {
        self.data@
    }
}

impl PinnedBuffer {
    /// A zero-filled buffer of `len` bytes.
    pub fn new(len: usize) -> (res: Result<Self, Error>)
        ensures
            res matches Ok(b) && b@ == Seq::new(len as nat, |i: int| 0u8),
    {
        let mut data: Vec<u8> = Vec::with_capacity(len);
        let mut i: usize = 0;
        while i < len
            invariant
                0 <= i <= len,
                data@ == Seq::new(i as nat, |k: int| 0u8),
            decreases len - i,
        {
            data.push(0);
            i += 1;
        }
        Ok(PinnedBuffer { data })
    }

    /// A buffer holding a copy of `bytes`.
    pub fn from_slice(bytes: &[u8]) -> (res: Result<Self, Error>)
        ensures
            res matches Ok(b) && b@ == bytes@,
    {
        let mut buf = Self::new(bytes.len())?;
        let n = bytes.len();
        let mut i: usize = 0;
        while i < n
            invariant
                n == bytes@.len(),
                0 <= i <= n,
                buf@.len() == n,
                forall|k: int| 0 <= k < i ==> buf@[k] == bytes@[k],
            decreases n - i,
        {
            buf.data.set(i, bytes[i]);
            i += 1;
        }
        assert(buf@ =~= bytes@);
        Ok(buf)
    }

    /// Length in bytes.
    pub fn len(&self) -> (n: usize)
        ensures
            n == self@.len(),
    {
        self.data.len()
    }

    /// Whether the buffer holds no bytes.
    pub fn is_empty(&self) -> (b: bool)
        ensures
            b == (self@.len() == 0),
    {
        self.data.len() == 0
    }

    /// The contents.
    pub fn as_slice(&self) -> (s: &[u8])
        ensures
            s@ == self@,
    {
        self.data.as_slice()
    }

    /// The contents, for writing in place.
    pub fn as_mut_slice(&mut self) -> (s: &mut [u8])
        ensures
            s@ == old(self)@,
            final(s)@ == final(self)@,
    {
        self.data.as_mut_slice()
    }
}

impl Deref for PinnedBuffer {
    type Target = [u8];

    /// The contents.
    fn deref(&self) -> (s: &[u8])
        ensures
            s@ == self@,
    {
        self.as_slice()
    }
}

} // verus!
