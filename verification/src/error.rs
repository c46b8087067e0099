//! Errors reported by the allocator.

use vstd::prelude::*;

verus! {

/// Why an allocator operation was refused. A refused operation leaves the
/// allocator exactly as it was.
#[derive(Debug, Clone, Copy, PartialEq, Eq, Structural)]
pub enum AllocError {
    /// No free block is large enough for the request.
    OutOfMemory,
    /// The handle does not name a block that is currently in use.
    InvalidHandle,
    /// The request asked for zero bytes.
    InvalidRequest,
}

} // verus!
