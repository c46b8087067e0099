//! The mathematical model of the block list.
//!
//! A block list is a `Seq<MemoryBlock>`. Everything the allocator promises is
//! stated over the functions of this module.

use vstd::prelude::*;
use crate::block::MemoryBlock;
use crate::error::AllocError;

verus! {

/// The block at `i` ends right before the block at `i + 1` starts.
pub open spec fn abuts(blocks: Seq<MemoryBlock>, i: int) -> bool {
    blocks[i].end + 1 == blocks[i + 1].start
}

/// The blocks at `i` and at `i + 1` are both free.
pub open spec fn both_free(blocks: Seq<MemoryBlock>, i: int) -> bool {
    blocks[i].free && blocks[i + 1].free
}

/// Every block is non-empty and each block starts right after the one
/// before it ends.
pub open spec fn chained(blocks: Seq<MemoryBlock>) -> bool {
    &&& forall|i: int| 0 <= i < blocks.len() ==> (#[trigger] blocks[i]).start <= blocks[i].end
    &&& forall|i: int| 0 <= i < blocks.len() - 1 ==> #[trigger] abuts(blocks, i)
}

/// The blocks, in order, cover the offsets `0..size` with no gap and no
/// overlap.
pub open spec fn tiles(blocks: Seq<MemoryBlock>, size: int) -> bool {
    &&& blocks.len() >= 1
    &&& blocks.first().start == 0
    &&& blocks.last().end + 1 == size
    &&& chained(blocks)
}

/// No two neighbouring blocks are both free.
pub open spec fn coalesced(blocks: Seq<MemoryBlock>) -> bool {
    forall|i: int| 0 <= i < blocks.len() - 1 ==> !#[trigger] both_free(blocks, i)
}

/// No two neighbouring blocks are both free, except possibly where one of the
/// two is the block at `idx`.
pub open spec fn coalesced_apart_from(blocks: Seq<MemoryBlock>, idx: int) -> bool {
    forall|i: int|
        0 <= i < blocks.len() - 1 && i != idx && i + 1 != idx ==> !#[trigger] both_free(blocks, i)
}

/// The list of a new allocator of capacity `size`: one free block that spans
/// the buffer.
pub open spec fn fresh(size: int) -> Seq<MemoryBlock> {
    seq![MemoryBlock { start: 0, end: (size - 1) as usize, free: true }]
}

/// Total length of the free blocks.
pub open spec fn free_bytes(blocks: Seq<MemoryBlock>) -> int
    decreases blocks.len(),
{
    if blocks.len() == 0 {
        0
    } else {
        free_bytes(blocks.drop_last()) + if blocks.last().free {
            blocks.last().len()
        } else {
            0
        }
    }
}

/// Total length of the used blocks.
pub open spec fn used_bytes(blocks: Seq<MemoryBlock>) -> int
    decreases blocks.len(),
{
    if blocks.len() == 0 {
        0
    } else {
        used_bytes(blocks.drop_last()) + if blocks.last().free {
            0
        } else {
            blocks.last().len()
        }
    }
}

/// `block` can satisfy a request for `requested` bytes.
pub open spec fn fits(block: MemoryBlock, requested: int) -> bool {
    block.free && block.len() >= requested
}

/// Some block of the list can satisfy a request for `requested` bytes.
pub open spec fn has_fit(blocks: Seq<MemoryBlock>, requested: int) -> bool {
    exists|i: int| 0 <= i < blocks.len() && fits(#[trigger] blocks[i], requested)
}

/// `idx` is the position of the last block, in list order, that can satisfy
/// a request for `requested` bytes.
pub open spec fn is_last_fit(blocks: Seq<MemoryBlock>, requested: int, idx: int) -> bool {
    &&& 0 <= idx < blocks.len()
    &&& fits(blocks[idx], requested)
    &&& forall|j: int| idx < j < blocks.len() ==> !fits(#[trigger] blocks[j], requested)
}

/// The position that a request for `requested` bytes is served from: that of
/// the last block that can satisfy it. Meaningful when `has_fit` holds.
pub open spec fn last_fit(blocks: Seq<MemoryBlock>, requested: int) -> int {
    choose|idx: int| is_last_fit(blocks, requested, idx)
}

/// The used block that a request for `requested` bytes makes of `block`: its
/// first `requested` bytes.
pub open spec fn taken(block: MemoryBlock, requested: int) -> MemoryBlock {
    MemoryBlock { start: block.start, end: (block.start + requested - 1) as usize, free: false }
}

/// The free block that a request for `requested` bytes leaves of a larger
/// `block`: all but its first `requested` bytes.
pub open spec fn remainder(block: MemoryBlock, requested: int) -> MemoryBlock {
    MemoryBlock { start: (block.start + requested) as usize, end: block.end, free: true }
}

/// The list after the first `requested` bytes of the free block at `idx`
/// have been handed out: the block becomes used, and what is left of it, if
/// anything, follows as a free block of its own.
pub open spec fn carve(blocks: Seq<MemoryBlock>, idx: int, requested: int) -> Seq<MemoryBlock> {
    let marked = blocks.update(idx, taken(blocks[idx], requested));
    if blocks[idx].len() == requested {
        marked
    } else {
        marked.insert(idx + 1, remainder(blocks[idx], requested))
    }
}

/// What a request for `requested` bytes returns.
pub open spec fn allocate_outcome(blocks: Seq<MemoryBlock>, requested: int) -> Result<
    usize,
    AllocError,
> {
    if requested <= 0 {
        Err(AllocError::InvalidRequest)
    } else if !has_fit(blocks, requested) {
        Err(AllocError::OutOfMemory)
    } else {
        Ok(blocks[last_fit(blocks, requested)].start)
    }
}

/// The list after a request for `requested` bytes.
pub open spec fn after_allocate(blocks: Seq<MemoryBlock>, requested: int) -> Seq<MemoryBlock> {
    if requested >= 1 && has_fit(blocks, requested) {
        carve(blocks, last_fit(blocks, requested), requested)
    } else {
        blocks
    }
}

/// The block at `idx` is in use and starts at offset `handle`.
pub open spec fn held_at(blocks: Seq<MemoryBlock>, handle: int, idx: int) -> bool {
    &&& 0 <= idx < blocks.len()
    &&& !blocks[idx].free
    &&& blocks[idx].start == handle
}

/// `handle` is the start of a block that is in use.
pub open spec fn is_allocated(blocks: Seq<MemoryBlock>, handle: int) -> bool {
    exists|idx: int| held_at(blocks, handle, idx)
}

/// The position of the used block that starts at `handle`. Meaningful when
/// `is_allocated` holds.
pub open spec fn index_of(blocks: Seq<MemoryBlock>, handle: int) -> int {
    choose|idx: int| held_at(blocks, handle, idx)
}

/// `block` marked free.
pub open spec fn released(block: MemoryBlock) -> MemoryBlock {
    MemoryBlock { start: block.start, end: block.end, free: true }
}

/// The first position of the run that releasing the block at `idx` merges:
/// that of the block before it where that one is free, else `idx`.
pub open spec fn merge_low(blocks: Seq<MemoryBlock>, idx: int) -> int {
    if idx > 0 && blocks[idx - 1].free {
        idx - 1
    } else {
        idx
    }
}

/// The last position of the run that releasing the block at `idx` merges:
/// that of the block after it where that one is free, else `idx`.
pub open spec fn merge_high(blocks: Seq<MemoryBlock>, idx: int) -> int {
    if idx + 1 < blocks.len() && blocks[idx + 1].free {
        idx + 1
    } else {
        idx
    }
}

/// The list with the blocks at `lo` to `hi` replaced by one free block that
/// covers what they covered.
pub open spec fn merge_run(blocks: Seq<MemoryBlock>, lo: int, hi: int) -> Seq<MemoryBlock> {
    let merged = MemoryBlock { start: blocks[lo].start, end: blocks[hi].end, free: true };
    blocks.subrange(0, lo).push(merged) + blocks.subrange(hi + 1, blocks.len() as int)
}

/// The list after the block at `idx` has been released: one free block takes
/// the place of that block together with each direct neighbour that is free.
pub open spec fn merge_around(blocks: Seq<MemoryBlock>, idx: int) -> Seq<MemoryBlock> {
    merge_run(blocks, merge_low(blocks, idx), merge_high(blocks, idx))
}

/// What releasing `handle` returns.
pub open spec fn free_outcome(blocks: Seq<MemoryBlock>, handle: int) -> Result<(), AllocError> {
    if is_allocated(blocks, handle) {
        Ok(())
    } else {
        Err(AllocError::InvalidHandle)
    }
}

/// The list after releasing `handle`.
pub open spec fn after_free(blocks: Seq<MemoryBlock>, handle: int) -> Seq<MemoryBlock> {
    if is_allocated(blocks, handle) {
        merge_around(blocks, index_of(blocks, handle))
    } else {
        blocks
    }
}

} // verus!
