//! A contiguous selection of a document's elementary units.

use vstd::prelude::*;

verus! {

/// A half-open window `[start, start + len)` over a document's unit space.
///
/// It is valid for a document of `n` units when `start + len <= n`.
#[derive(Clone, Copy)]
pub struct ByteRange {
    pub start: usize,
    pub len: usize,
}

impl ByteRange {
    /// Whether the window lies inside a document of `n` units.
    pub open spec fn valid_for(self, n: nat) -> bool {
        self.start + self.len <= n
    }

    pub fn new(start: usize, len: usize) -> (r: ByteRange)
        ensures
            r.start == start,
            r.len == len,
    {
        ByteRange { start, len }
    }
}

} // verus!
