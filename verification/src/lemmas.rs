//! Lemmas about the model that the proofs of the allocator and of its laws
//! rest on.

use vstd::prelude::*;
use crate::block::MemoryBlock;
use crate::model::{
    abuts, both_free, carve, chained, coalesced, coalesced_apart_from, fits, free_bytes, has_fit,
    held_at, index_of, is_allocated, is_last_fit, last_fit, merge_around, merge_high, merge_low,
    merge_run, released, remainder, taken, tiles, used_bytes,
};

verus! {

/// Free and used totals of a concatenation are the sums of the parts' totals.
pub proof fn lemma_bytes_concat(a: Seq<MemoryBlock>, b: Seq<MemoryBlock>)
    ensures
        free_bytes(a + b) == free_bytes(a) + free_bytes(b),
        used_bytes(a + b) == used_bytes(a) + used_bytes(b),
    decreases b.len(),
{
    if b.len() == 0 {
        assert(a + b =~= a);
    } else {
        assert((a + b).drop_last() =~= a + b.drop_last());
        lemma_bytes_concat(a, b.drop_last());
    }
}

/// Free and used totals of a list of one block.
pub proof fn lemma_bytes_single(block: MemoryBlock)
    ensures
        free_bytes(seq![block]) == if block.free {
            block.len()
        } else {
            0
        },
        used_bytes(seq![block]) == if block.free {
            0
        } else {
            block.len()
        },
{
    let none = Seq::<MemoryBlock>::empty();
    assert(seq![block].drop_last() =~= none);
    assert(free_bytes(none) == 0 && used_bytes(none) == 0);
}

/// A run of neighbours within a chained list is chained.
pub proof fn lemma_chained_subrange(blocks: Seq<MemoryBlock>, from: int, to: int)
    requires
        chained(blocks),
        0 <= from <= to <= blocks.len(),
    ensures
        chained(blocks.subrange(from, to)),
{
    let run = blocks.subrange(from, to);
    assert forall|i: int| 0 <= i < run.len() implies (#[trigger] run[i]).start <= run[i].end by {
        assert(run[i] == blocks[i + from]);
    }
    assert forall|i: int| 0 <= i < run.len() - 1 implies #[trigger] abuts(run, i) by {
        assert(abuts(blocks, i + from));
    }
}

/// In a chained list the free and used totals add up to the extent covered.
pub proof fn lemma_bytes_extent(blocks: Seq<MemoryBlock>)
    requires
        chained(blocks),
        blocks.len() >= 1,
    ensures
        free_bytes(blocks) >= 0,
        used_bytes(blocks) >= 0,
        free_bytes(blocks) + used_bytes(blocks) == blocks.last().end + 1 - blocks.first().start,
    decreases blocks.len(),
{
    let init = blocks.drop_last();
    if init.len() == 0 {
        assert(free_bytes(init) == 0 && used_bytes(init) == 0);
    } else {
        lemma_chained_subrange(blocks, 0, blocks.len() - 1);
        lemma_bytes_extent(init);
        assert(abuts(blocks, blocks.len() - 2));
    }
}

/// In a chained list a later block lies wholly after an earlier one.
pub proof fn lemma_chained_ordered(blocks: Seq<MemoryBlock>, i: int, j: int)
    requires
        chained(blocks),
        0 <= i < j < blocks.len(),
    ensures
        blocks[i].end < blocks[j].start,
    decreases j - i,
{
    assert(abuts(blocks, j - 1));
    if j > i + 1 {
        lemma_chained_ordered(blocks, i, j - 1);
    }
}

/// Every block of a tiling lies within the buffer.
pub proof fn lemma_block_within(blocks: Seq<MemoryBlock>, size: int, i: int)
    requires
        tiles(blocks, size),
        0 <= i < blocks.len(),
    ensures
        0 <= blocks[i].start <= blocks[i].end < size,
        1 <= blocks[i].len() <= size,
{
    if i < blocks.len() - 1 {
        lemma_chained_ordered(blocks, i, blocks.len() - 1);
    }
}

/// A position known to be the last fit is the one `last_fit` names.
pub proof fn lemma_last_fit_is(blocks: Seq<MemoryBlock>, requested: int, idx: int)
    requires
        is_last_fit(blocks, requested, idx),
    ensures
        has_fit(blocks, requested),
        last_fit(blocks, requested) == idx,
{
    let chosen = last_fit(blocks, requested);
    assert(is_last_fit(blocks, requested, chosen));
    if chosen < idx {
        assert(!fits(blocks[idx], requested));
    } else if idx < chosen {
        assert(!fits(blocks[chosen], requested));
    }
}

/// Where some block fits, there is a last one that does.
pub proof fn lemma_has_fit_has_last(blocks: Seq<MemoryBlock>, requested: int)
    requires
        has_fit(blocks, requested),
    ensures
        is_last_fit(blocks, requested, last_fit(blocks, requested)),
{
    let witness = choose|i: int| 0 <= i < blocks.len() && fits(#[trigger] blocks[i], requested);
    lemma_last_fit_from(blocks, requested, witness, blocks.len() as int);
}

/// Scanning down from `bound`, with nothing fitting at or above it, reaches
/// the last fit, given that the block at `witness` below `bound` fits.
proof fn lemma_last_fit_from(blocks: Seq<MemoryBlock>, requested: int, witness: int, bound: int)
    requires
        0 <= witness < bound <= blocks.len(),
        fits(blocks[witness], requested),
        forall|j: int| bound <= j < blocks.len() ==> !fits(#[trigger] blocks[j], requested),
    ensures
        is_last_fit(blocks, requested, last_fit(blocks, requested)),
    decreases bound,
{
    if fits(blocks[bound - 1], requested) {
        assert(is_last_fit(blocks, requested, bound - 1));
    } else {
        lemma_last_fit_from(blocks, requested, witness, bound - 1);
    }
}

/// In a chained list at most one block starts at a given offset, so a
/// position known to hold the used block for `handle` is the one `index_of`
/// names.
pub proof fn lemma_index_of_is(blocks: Seq<MemoryBlock>, handle: int, idx: int)
    requires
        chained(blocks),
        held_at(blocks, handle, idx),
    ensures
        is_allocated(blocks, handle),
        index_of(blocks, handle) == idx,
{
    let chosen = index_of(blocks, handle);
    assert(held_at(blocks, handle, chosen));
    if chosen < idx {
        lemma_chained_ordered(blocks, chosen, idx);
    } else if idx < chosen {
        lemma_chained_ordered(blocks, idx, chosen);
    }
}

/// Carving a request out of a fitting block keeps the tiling and the
/// coalescing, moves exactly `requested` bytes from free to used, and leaves
/// at `idx` a used block with the start of the block that was carved.
pub proof fn lemma_carve(blocks: Seq<MemoryBlock>, size: int, idx: int, requested: int)
    requires
        tiles(blocks, size),
        coalesced(blocks),
        0 <= idx < blocks.len(),
        fits(blocks[idx], requested),
        requested >= 1,
    ensures
        tiles(carve(blocks, idx, requested), size),
        coalesced(carve(blocks, idx, requested)),
        free_bytes(carve(blocks, idx, requested)) == free_bytes(blocks) - requested,
        used_bytes(carve(blocks, idx, requested)) == used_bytes(blocks) + requested,
        held_at(carve(blocks, idx, requested), blocks[idx].start as int, idx),
{
    let after = carve(blocks, idx, requested);
    let used = taken(blocks[idx], requested);
    let rest = remainder(blocks[idx], requested);
    let grown: int = if blocks[idx].len() == requested {
        0
    } else {
        1
    };
    assert(after.len() == blocks.len() + grown);
    assert(forall|k: int| 0 <= k < idx ==> after[k] == blocks[k]);
    assert(after[idx] == used);
    assert(grown == 1 ==> after[idx + 1] == rest);
    assert(forall|k: int| idx + grown < k < after.len() ==> after[k] == blocks[k - grown]);
    assert forall|i: int| 0 <= i < after.len()
        implies (#[trigger] after[i]).start <= after[i].end by {
        if i < idx {
            assert(after[i] == blocks[i]);
        } else if i > idx + grown {
            assert(after[i] == blocks[i - grown]);
        }
    }
    assert forall|i: int| 0 <= i < after.len() - 1 implies #[trigger] abuts(after, i) by {
        if i < idx {
            assert(abuts(blocks, i));
        } else if i >= idx + grown {
            assert(abuts(blocks, i - grown));
        }
    }
    assert forall|i: int| 0 <= i < after.len() - 1 implies !#[trigger] both_free(after, i) by {
        if i + 1 < idx {
            assert(!both_free(blocks, i));
        } else if i > idx + grown {
            assert(!both_free(blocks, i - grown));
        } else if i == idx + grown {
            assert(!both_free(blocks, idx));
        }
    }
    let head = blocks.subrange(0, idx);
    let tail = blocks.subrange(idx + 1, blocks.len() as int);
    let middle = if grown == 0 {
        seq![used]
    } else {
        seq![used] + seq![rest]
    };
    assert(blocks =~= head + seq![blocks[idx]] + tail);
    assert(after =~= head + middle + tail);
    lemma_bytes_concat(head, seq![blocks[idx]]);
    lemma_bytes_concat(head + seq![blocks[idx]], tail);
    lemma_bytes_concat(head, middle);
    lemma_bytes_concat(head + middle, tail);
    lemma_bytes_concat(seq![used], seq![rest]);
    lemma_bytes_single(blocks[idx]);
    lemma_bytes_single(used);
    lemma_bytes_single(rest);
}

/// Where each block of a merged run comes from.
pub proof fn lemma_merge_run_index(blocks: Seq<MemoryBlock>, lo: int, hi: int)
    requires
        0 <= lo <= hi < blocks.len(),
    ensures
        merge_run(blocks, lo, hi).len() == blocks.len() - (hi - lo),
        forall|k: int| 0 <= k < lo ==> (#[trigger] merge_run(blocks, lo, hi)[k]) == blocks[k],
        merge_run(blocks, lo, hi)[lo] == (MemoryBlock {
            start: blocks[lo].start,
            end: blocks[hi].end,
            free: true,
        }),
        forall|k: int|
            lo < k < blocks.len() - (hi - lo) ==> (#[trigger] merge_run(blocks, lo, hi)[k])
                == blocks[k + (hi - lo)],
{
}

/// Merging a run of neighbours into one block keeps the tiling.
pub proof fn lemma_merge_run_tiles(blocks: Seq<MemoryBlock>, size: int, lo: int, hi: int)
    requires
        tiles(blocks, size),
        0 <= lo <= hi < blocks.len(),
    ensures
        tiles(merge_run(blocks, lo, hi), size),
{
    let after = merge_run(blocks, lo, hi);
    lemma_merge_run_index(blocks, lo, hi);
    if lo < hi {
        lemma_chained_ordered(blocks, lo, hi);
    }
    assert forall|i: int| 0 <= i < after.len() - 1 implies #[trigger] abuts(after, i) by {
        if i < lo {
            assert(abuts(blocks, i));
        } else {
            assert(abuts(blocks, i + (hi - lo)));
        }
    }
}

/// Merging a run of neighbours into one free block moves the used bytes of
/// the run to free and changes no other total.
pub proof fn lemma_merge_run_bytes(blocks: Seq<MemoryBlock>, lo: int, hi: int)
    requires
        chained(blocks),
        0 <= lo <= hi < blocks.len(),
    ensures
        free_bytes(merge_run(blocks, lo, hi)) == free_bytes(blocks) + used_bytes(
            blocks.subrange(lo, hi + 1),
        ),
        used_bytes(merge_run(blocks, lo, hi)) == used_bytes(blocks) - used_bytes(
            blocks.subrange(lo, hi + 1),
        ),
{
    let merged = MemoryBlock { start: blocks[lo].start, end: blocks[hi].end, free: true };
    let head = blocks.subrange(0, lo);
    let run = blocks.subrange(lo, hi + 1);
    let tail = blocks.subrange(hi + 1, blocks.len() as int);
    assert(blocks =~= head + run + tail);
    assert(merge_run(blocks, lo, hi) =~= head + seq![merged] + tail);
    lemma_bytes_concat(head, run);
    lemma_bytes_concat(head + run, tail);
    lemma_bytes_concat(head, seq![merged]);
    lemma_bytes_concat(head + seq![merged], tail);
    lemma_bytes_single(merged);
    lemma_chained_subrange(blocks, lo, hi + 1);
    lemma_bytes_extent(run);
}

/// Merging around a block restores the coalescing where only that block
/// could break it.
pub proof fn lemma_merge_around_coalesced(blocks: Seq<MemoryBlock>, idx: int)
    requires
        coalesced_apart_from(blocks, idx),
        0 <= idx < blocks.len(),
    ensures
        coalesced(merge_around(blocks, idx)),
{
    let after = merge_around(blocks, idx);
    let lo = merge_low(blocks, idx);
    let hi = merge_high(blocks, idx);
    lemma_merge_run_index(blocks, lo, hi);
    assert forall|i: int| 0 <= i < after.len() - 1 implies !#[trigger] both_free(after, i) by {
        if i + 1 < lo {
            assert(!both_free(blocks, i));
        } else if i + 1 == lo {
            if lo < idx {
                assert(!both_free(blocks, i));
            }
        } else if i == lo {
            if hi > idx {
                assert(!both_free(blocks, hi));
            }
        } else {
            assert(!both_free(blocks, i + (hi - lo)));
        }
    }
}

/// Merging around a block keeps the tiling, restores the coalescing where
/// only that block could break it, and moves the block's bytes to free if it
/// was not free already.
pub proof fn lemma_merge_around(blocks: Seq<MemoryBlock>, size: int, idx: int)
    requires
        tiles(blocks, size),
        coalesced_apart_from(blocks, idx),
        0 <= idx < blocks.len(),
    ensures
        tiles(merge_around(blocks, idx), size),
        coalesced(merge_around(blocks, idx)),
        free_bytes(merge_around(blocks, idx)) == free_bytes(blocks) + if blocks[idx].free {
            0
        } else {
            blocks[idx].len()
        },
        used_bytes(merge_around(blocks, idx)) == used_bytes(blocks) - if blocks[idx].free {
            0
        } else {
            blocks[idx].len()
        },
{
    let lo = merge_low(blocks, idx);
    let hi = merge_high(blocks, idx);
    lemma_merge_run_tiles(blocks, size, lo, hi);
    lemma_merge_around_coalesced(blocks, idx);
    lemma_merge_run_bytes(blocks, lo, hi);
    lemma_run_used(blocks, lo, hi, idx);
}

/// Merging a block into the free block before it, by stretching that one and
/// dropping the block, merges the run of the two.
pub proof fn lemma_merge_into_previous(blocks: Seq<MemoryBlock>, idx: int)
    requires
        0 < idx < blocks.len(),
        blocks[idx - 1].free,
    ensures
        blocks.update(
            idx - 1,
            MemoryBlock { start: blocks[idx - 1].start, end: blocks[idx].end, free: true },
        ).remove(idx) == merge_run(blocks, idx - 1, idx),
{
    assert(blocks.update(
        idx - 1,
        MemoryBlock { start: blocks[idx - 1].start, end: blocks[idx].end, free: true },
    ).remove(idx) =~= merge_run(blocks, idx - 1, idx));
}

/// Merging a block into the free block after it, by stretching that one and
/// dropping the block, merges the run of the two.
pub proof fn lemma_merge_into_next(blocks: Seq<MemoryBlock>, idx: int)
    requires
        0 <= idx < blocks.len() - 1,
        blocks[idx + 1].free,
    ensures
        blocks.update(
            idx + 1,
            MemoryBlock { start: blocks[idx].start, end: blocks[idx + 1].end, free: true },
        ).remove(idx) == merge_run(blocks, idx, idx + 1),
{
    assert(blocks.update(
        idx + 1,
        MemoryBlock { start: blocks[idx].start, end: blocks[idx + 1].end, free: true },
    ).remove(idx) =~= merge_run(blocks, idx, idx + 1));
}

/// Merging a block with the one before it and the result with the one after
/// it merges the run of the three.
pub proof fn lemma_merge_twice(blocks: Seq<MemoryBlock>, idx: int)
    requires
        0 < idx < blocks.len() - 1,
    ensures
        merge_run(merge_run(blocks, idx - 1, idx), idx - 1, idx) == merge_run(
            blocks,
            idx - 1,
            idx + 1,
        ),
{
    assert(merge_run(merge_run(blocks, idx - 1, idx), idx - 1, idx) =~= merge_run(
        blocks,
        idx - 1,
        idx + 1,
    ));
}

/// A coalesced list is coalesced apart from any of its blocks.
pub proof fn lemma_coalesced_apart(blocks: Seq<MemoryBlock>, idx: int)
    requires
        coalesced(blocks),
    ensures
        coalesced_apart_from(blocks, idx),
{
    assert forall|i: int| 0 <= i < blocks.len() - 1 && i != idx && i + 1 != idx
        implies !#[trigger] both_free(blocks, i) by {
        assert(!both_free(blocks, i));
    }
}

/// Marking a block free keeps the tiling, can break the coalescing only
/// around that block, and does not change what merging around it gives.
pub proof fn lemma_mark_free(blocks: Seq<MemoryBlock>, size: int, idx: int)
    requires
        tiles(blocks, size),
        coalesced(blocks),
        0 <= idx < blocks.len(),
    ensures
        tiles(blocks.update(idx, released(blocks[idx])), size),
        coalesced_apart_from(blocks.update(idx, released(blocks[idx])), idx),
        merge_around(blocks.update(idx, released(blocks[idx])), idx) == merge_around(blocks, idx),
{
    let marked = blocks.update(idx, released(blocks[idx]));
    assert forall|i: int| 0 <= i < marked.len() - 1 implies #[trigger] abuts(marked, i) by {
        assert(abuts(blocks, i));
    }
    assert forall|i: int| 0 <= i < marked.len() - 1 && i != idx && i + 1 != idx
        implies !#[trigger] both_free(marked, i) by {
        assert(!both_free(blocks, i));
    }
    assert(merge_around(marked, idx) =~= merge_around(blocks, idx));
}

/// Of a run of blocks in which every block but the one at `idx` is free, the
/// used bytes are those of the block at `idx`, if it is used.
proof fn lemma_run_used(blocks: Seq<MemoryBlock>, lo: int, hi: int, idx: int)
    requires
        0 <= lo <= idx <= hi < blocks.len(),
        forall|k: int| lo <= k <= hi && k != idx ==> (#[trigger] blocks[k]).free,
    ensures
        used_bytes(blocks.subrange(lo, hi + 1)) == if blocks[idx].free {
            0
        } else {
            blocks[idx].len()
        },
    decreases hi - lo,
{
    let run = blocks.subrange(lo, hi + 1);
    if lo == hi {
        assert(run =~= seq![blocks[idx]]);
        lemma_bytes_single(blocks[idx]);
    } else if hi > idx {
        assert(run =~= blocks.subrange(lo, hi) + seq![blocks[hi]]);
        lemma_bytes_concat(blocks.subrange(lo, hi), seq![blocks[hi]]);
        lemma_bytes_single(blocks[hi]);
        lemma_run_used(blocks, lo, hi - 1, idx);
    } else {
        assert(run =~= seq![blocks[lo]] + blocks.subrange(lo + 1, hi + 1));
        lemma_bytes_concat(seq![blocks[lo]], blocks.subrange(lo + 1, hi + 1));
        lemma_bytes_single(blocks[lo]);
        lemma_run_used(blocks, lo + 1, hi, idx);
    }
}

} // verus!
