//! Laws of the allocator, proved over the model.
//!
//! Each law is stated over the functions that the contracts of
//! `FixedBufferAllocator` use, so it holds of every allocator that the
//! operations can produce.

use vstd::prelude::*;
use crate::block::MemoryBlock;
use crate::error::AllocError;
use crate::lemmas::{
    lemma_block_within, lemma_bytes_extent, lemma_carve, lemma_chained_ordered,
    lemma_coalesced_apart, lemma_has_fit_has_last, lemma_index_of_is, lemma_last_fit_is,
    lemma_merge_around,
};
use crate::model::{
    after_allocate, after_free, allocate_outcome, both_free, carve, chained, coalesced, fits,
    free_bytes, free_outcome, fresh, has_fit, held_at, index_of, is_allocated, is_last_fit,
    last_fit, merge_around, merge_high, merge_low, tiles, used_bytes,
};

verus! {

/// One call on an allocator.
pub enum Request {
    /// A call of `allocate` for `size` bytes.
    Allocate { size: int },
    /// A call of `free` with `handle`.
    Free { handle: int },
}

/// The list after one call, whether the call succeeds or is refused.
pub open spec fn step(blocks: Seq<MemoryBlock>, request: Request) -> Seq<MemoryBlock> {
    match request {
        Request::Allocate { size } => after_allocate(blocks, size),
        Request::Free { handle } => after_free(blocks, handle),
    }
}

/// The list of an allocator of capacity `size` after the calls of `requests`
/// have been made on it, in order, since it was new.
pub open spec fn replay(size: int, requests: Seq<Request>) -> Seq<MemoryBlock>
    decreases requests.len(),
{
    if requests.len() == 0 {
        fresh(size)
    } else {
        step(replay(size, requests.drop_last()), requests.last())
    }
}

/// The used block that `handle` names. Meaningful when `is_allocated` holds.
pub open spec fn block_of(blocks: Seq<MemoryBlock>, handle: int) -> MemoryBlock {
    blocks[index_of(blocks, handle)]
}

/// The list of a new allocator tiles the buffer with nothing to coalesce, and
/// all of the buffer is free.
pub proof fn lemma_fresh(size: int)
    requires
        1 <= size <= usize::MAX,
    ensures
        tiles(fresh(size), size),
        coalesced(fresh(size)),
        free_bytes(fresh(size)) == size,
        used_bytes(fresh(size)) == 0,
{
    lemma_bytes_extent(fresh(size));
    assert(fresh(size).drop_last() =~= Seq::<MemoryBlock>::empty());
    assert(used_bytes(Seq::<MemoryBlock>::empty()) == 0);
}

/// A call of `allocate`, served or refused, keeps the blocks tiling the
/// buffer with no two free neighbours. A served call moves exactly the
/// requested bytes from free to used, and the handle it returns, which named
/// no allocation before, then names a used block of exactly that many bytes.
/// A refused call changes nothing.
pub proof fn lemma_allocate_keeps_well_formed(blocks: Seq<MemoryBlock>, size: int, requested: int)
    requires
        tiles(blocks, size),
        coalesced(blocks),
    ensures
        tiles(after_allocate(blocks, requested), size),
        coalesced(after_allocate(blocks, requested)),
        match allocate_outcome(blocks, requested) {
            Ok(handle) => {
                &&& free_bytes(after_allocate(blocks, requested)) == free_bytes(blocks) - requested
                &&& used_bytes(after_allocate(blocks, requested)) == used_bytes(blocks) + requested
                &&& !is_allocated(blocks, handle as int)
                &&& is_allocated(after_allocate(blocks, requested), handle as int)
                &&& block_of(after_allocate(blocks, requested), handle as int).len() == requested
            },
            Err(_) => after_allocate(blocks, requested) == blocks,
        },
{
    if requested >= 1 && has_fit(blocks, requested) {
        let idx = last_fit(blocks, requested);
        let handle = blocks[idx].start as int;
        lemma_has_fit_has_last(blocks, requested);
        lemma_carve(blocks, size, idx, requested);
        lemma_index_of_is(carve(blocks, idx, requested), handle, idx);
        if is_allocated(blocks, handle) {
            lemma_index_of_is(blocks, handle, index_of(blocks, handle));
            lemma_same_start(blocks, idx, index_of(blocks, handle));
        }
    }
}

/// In a chained list two blocks that start at the same offset are one block.
proof fn lemma_same_start(blocks: Seq<MemoryBlock>, i: int, j: int)
    requires
        chained(blocks),
        0 <= i < blocks.len(),
        0 <= j < blocks.len(),
        blocks[i].start == blocks[j].start,
    ensures
        i == j,
{
    if i < j {
        lemma_chained_ordered(blocks, i, j);
    } else if j < i {
        lemma_chained_ordered(blocks, j, i);
    }
}

/// A call of `free`, accepted or refused, keeps the blocks tiling the buffer
/// and leaves no two free neighbours. An accepted call moves exactly the
/// bytes of the released block from used to free. A refused call changes
/// nothing.
pub proof fn lemma_free_keeps_well_formed(blocks: Seq<MemoryBlock>, size: int, handle: int)
    requires
        tiles(blocks, size),
        coalesced(blocks),
    ensures
        tiles(after_free(blocks, handle), size),
        coalesced(after_free(blocks, handle)),
        match free_outcome(blocks, handle) {
            Ok(_) => {
                let released = block_of(blocks, handle);
                &&& held_at(blocks, handle, index_of(blocks, handle))
                &&& free_bytes(after_free(blocks, handle)) == free_bytes(blocks) + released.len()
                &&& used_bytes(after_free(blocks, handle)) == used_bytes(blocks) - released.len()
            },
            Err(_) => after_free(blocks, handle) == blocks,
        },
{
    if is_allocated(blocks, handle) {
        let idx = index_of(blocks, handle);
        lemma_coalesced_apart(blocks, idx);
        lemma_merge_around(blocks, size, idx);
    }
}

/// Capacity conservation: whenever the blocks tile the buffer, the free bytes
/// and the used bytes add up to its capacity.
pub proof fn lemma_capacity_conserved(blocks: Seq<MemoryBlock>, size: int)
    requires
        tiles(blocks, size),
    ensures
        free_bytes(blocks) + used_bytes(blocks) == size,
        0 <= free_bytes(blocks) <= size,
        0 <= used_bytes(blocks) <= size,
{
    lemma_bytes_extent(blocks);
}

/// Whatever calls have been made on an allocator since it was new, served or
/// refused, its blocks tile the buffer, no two neighbours are both free, and
/// the free and the used bytes add up to the capacity.
pub proof fn lemma_every_state_well_formed(size: int, requests: Seq<Request>)
    requires
        1 <= size <= usize::MAX,
    ensures
        tiles(replay(size, requests), size),
        coalesced(replay(size, requests)),
        free_bytes(replay(size, requests)) + used_bytes(replay(size, requests)) == size,
    decreases requests.len(),
{
    if requests.len() == 0 {
        lemma_fresh(size);
    } else {
        let before = replay(size, requests.drop_last());
        lemma_every_state_well_formed(size, requests.drop_last());
        match requests.last() {
            Request::Allocate { size: requested } => {
                lemma_allocate_keeps_well_formed(before, size, requested);
            },
            Request::Free { handle } => {
                lemma_free_keeps_well_formed(before, size, handle);
            },
        }
        lemma_capacity_conserved(replay(size, requests), size);
    }
}

/// Round trip: releasing the handle that a served `allocate` returned, right
/// after that call, is accepted and restores the list of blocks as it was
/// before the allocation, and with it the number of free bytes.
pub proof fn lemma_allocate_then_free(blocks: Seq<MemoryBlock>, size: int, requested: int)
    requires
        tiles(blocks, size),
        coalesced(blocks),
        allocate_outcome(blocks, requested) is Ok,
    ensures
        ({
            let handle = allocate_outcome(blocks, requested)->Ok_0 as int;
            let allocated = after_allocate(blocks, requested);
            &&& free_outcome(allocated, handle) == Ok::<(), AllocError>(())
            &&& after_free(allocated, handle) == blocks
            &&& free_bytes(after_free(allocated, handle)) == free_bytes(blocks)
        }),
{
    let idx = last_fit(blocks, requested);
    lemma_has_fit_has_last(blocks, requested);
    let handle = blocks[idx].start as int;
    let allocated = carve(blocks, idx, requested);
    lemma_carve(blocks, size, idx, requested);
    lemma_index_of_is(allocated, handle, idx);
    if idx > 0 {
        assert(!both_free(blocks, idx - 1));
    }
    if idx + 1 < blocks.len() {
        assert(!both_free(blocks, idx));
    }
    assert(merge_around(allocated, idx) =~= blocks);
}

/// Double free: once a call of `free` with a handle has been accepted, a
/// second call with the same handle is refused with `InvalidHandle` and
/// changes nothing.
pub proof fn lemma_double_free_refused(blocks: Seq<MemoryBlock>, size: int, handle: int)
    requires
        tiles(blocks, size),
        coalesced(blocks),
        free_outcome(blocks, handle) is Ok,
    ensures
        free_outcome(after_free(blocks, handle), handle) == Err::<(), AllocError>(
            AllocError::InvalidHandle,
        ),
        after_free(after_free(blocks, handle), handle) == after_free(blocks, handle),
{
    let idx = index_of(blocks, handle);
    let released = merge_around(blocks, idx);
    let lo = merge_low(blocks, idx);
    let hi = merge_high(blocks, idx);
    assert forall|j: int| !held_at(released, handle, j) by {
        if 0 <= j < lo {
            assert(released[j] == blocks[j]);
            lemma_chained_ordered(blocks, j, idx);
        } else if lo < j < released.len() {
            assert(released[j] == blocks[j + (hi - lo)]);
            lemma_chained_ordered(blocks, idx, j + (hi - lo));
        }
    }
}

/// A handle stays valid across allocations: a served or refused `allocate`
/// leaves every allocation made before in place, with the same block.
pub proof fn lemma_allocate_keeps_handles(
    blocks: Seq<MemoryBlock>,
    size: int,
    requested: int,
    handle: int,
)
    requires
        tiles(blocks, size),
        coalesced(blocks),
        is_allocated(blocks, handle),
    ensures
        is_allocated(after_allocate(blocks, requested), handle),
        block_of(after_allocate(blocks, requested), handle) == block_of(blocks, handle),
{
    if requested >= 1 && has_fit(blocks, requested) {
        let idx = last_fit(blocks, requested);
        let held = index_of(blocks, handle);
        let after = carve(blocks, idx, requested);
        lemma_has_fit_has_last(blocks, requested);
        lemma_carve(blocks, size, idx, requested);
        let moved = if held < idx {
            held
        } else {
            held + (after.len() - blocks.len())
        };
        assert(after[moved] == blocks[held]);
        lemma_index_of_is(after, handle, moved);
    }
}

/// A handle stays valid until it is released: a call of `free` with another
/// handle, accepted or refused, leaves the allocation in place, with the same
/// block.
pub proof fn lemma_free_keeps_other_handles(
    blocks: Seq<MemoryBlock>,
    size: int,
    released: int,
    handle: int,
)
    requires
        tiles(blocks, size),
        coalesced(blocks),
        is_allocated(blocks, handle),
        handle != released,
    ensures
        is_allocated(after_free(blocks, released), handle),
        block_of(after_free(blocks, released), handle) == block_of(blocks, handle),
{
    if is_allocated(blocks, released) {
        let idx = index_of(blocks, released);
        let held = index_of(blocks, handle);
        let after = merge_around(blocks, idx);
        lemma_free_keeps_well_formed(blocks, size, released);
        let moved = if held < idx {
            held
        } else {
            held - (blocks.len() - after.len())
        };
        assert(after[moved] == blocks[held]);
        lemma_index_of_is(after, handle, moved);
    }
}

/// No overlap between allocations: every allocation lies within the buffer,
/// and two allocations with different handles share no byte.
pub proof fn lemma_allocations_apart(blocks: Seq<MemoryBlock>, size: int, first: int, second: int)
    requires
        tiles(blocks, size),
        is_allocated(blocks, first),
        is_allocated(blocks, second),
        first != second,
    ensures
        0 <= block_of(blocks, first).start <= block_of(blocks, first).end < size,
        block_of(blocks, first).start == first,
        block_of(blocks, first).end < block_of(blocks, second).start || block_of(
            blocks,
            second,
        ).end < block_of(blocks, first).start,
{
    let i = index_of(blocks, first);
    let j = index_of(blocks, second);
    lemma_block_within(blocks, size, i);
    if i < j {
        lemma_chained_ordered(blocks, i, j);
    } else if j < i {
        lemma_chained_ordered(blocks, j, i);
    }
}

/// Exhaustion: on a new allocator of capacity `size`, a request for all
/// `size` bytes is served; a request for one more byte is then refused with
/// `OutOfMemory`; and once the first allocation has been released, a request
/// for one byte is served again.
pub proof fn lemma_exhaustion(size: int)
    requires
        1 <= size <= usize::MAX,
    ensures
        ({
            let full = after_allocate(fresh(size), size);
            &&& allocate_outcome(fresh(size), size) == Ok::<usize, AllocError>(0)
            &&& allocate_outcome(full, 1) == Err::<usize, AllocError>(AllocError::OutOfMemory)
            &&& after_allocate(full, 1) == full
            &&& free_outcome(full, 0) == Ok::<(), AllocError>(())
            &&& after_free(full, 0) == fresh(size)
            &&& allocate_outcome(after_free(full, 0), 1) == Ok::<usize, AllocError>(0)
        }),
{
    let whole = MemoryBlock { start: 0, end: (size - 1) as usize, free: true };
    assert(fresh(size)[0] == whole);
    assert(is_last_fit(fresh(size), size, 0));
    lemma_last_fit_is(fresh(size), size, 0);
    assert(is_last_fit(fresh(size), 1, 0));
    lemma_last_fit_is(fresh(size), 1, 0);
    lemma_fresh(size);
    lemma_allocate_then_free(fresh(size), size, size);
    let full = after_allocate(fresh(size), size);
    assert(full =~= seq![MemoryBlock { start: 0, end: (size - 1) as usize, free: false }]);
    assert(forall|i: int| 0 <= i < full.len() ==> !fits(#[trigger] full[i], 1));
}

} // verus!
