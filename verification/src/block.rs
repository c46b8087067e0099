//! One contiguous range of the managed buffer.

use vstd::prelude::*;

verus! {

/// A contiguous, non-empty range of the buffer, tagged free or used.
///
/// Both bounds are offsets into the buffer and both are inclusive, so a block
/// with `start == end` covers exactly one byte.
#[derive(Debug, Clone, Copy, PartialEq, Eq, Structural)]
pub struct MemoryBlock {
    /// Offset of the first byte of the block.
    pub start: usize,
    /// Offset of the last byte of the block.
    pub end: usize,
    /// Whether the range is currently unallocated.
    pub free: bool,
}

impl MemoryBlock {
    /// Number of bytes the block covers.
    pub open spec fn len(self) -> int {
        self.end - self.start + 1
    }

    /// The bounds are in order and the length fits in a `usize`.
    pub open spec fn well_formed(self) -> bool {
        self.start <= self.end && self.len() <= usize::MAX
    }

    /// Builds the block that covers `start..=end`.
    pub fn new(start: usize, end: usize, free: bool) -> (block: Self)
        ensures
            block == (MemoryBlock { start, end, free }),
    {
        Self { start, end, free }
    }

    /// Number of bytes the block covers.
    pub fn size(&self) -> (n: usize)
        requires
            self.well_formed(),
        ensures
            n == self.len(),
    {
        self.end - self.start + 1
    }
}

} // verus!
