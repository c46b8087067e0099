//! The allocator: a fixed buffer and the list of blocks that tile it.

use vstd::prelude::*;
use crate::block::MemoryBlock;
use crate::error::AllocError;
use crate::lemmas::{
    lemma_block_within, lemma_bytes_extent, lemma_carve, lemma_chained_subrange, lemma_index_of_is,
    lemma_last_fit_is, lemma_mark_free, lemma_merge_around, lemma_merge_into_next,
    lemma_merge_into_previous, lemma_merge_twice,
};
use crate::model::{
    after_allocate, after_free, allocate_outcome, carve, coalesced, coalesced_apart_from, fits,
    free_bytes, free_outcome, fresh, held_at, is_last_fit, merge_around, merge_run, tiles,
    used_bytes,
};

verus! {

/// Hands out and takes back byte ranges of one buffer of `SIZE` bytes.
///
/// An allocation is named by its handle, the offset of its first byte. The
/// view of an allocator is its list of blocks, in order of their offsets.
#[derive(Debug)]
pub struct FixedBufferAllocator<const SIZE: usize> {
    buffer: [u8; SIZE],
    /// The blocks, free and used, in order of their offsets.
    blocks: Vec<MemoryBlock>,
}

impl<const SIZE: usize> View for FixedBufferAllocator<SIZE> {
    type V = Seq<MemoryBlock>;

    closed spec fn view(&self) -> Seq<MemoryBlock> {
        self.blocks@
    }
}

impl<const SIZE: usize> FixedBufferAllocator<SIZE> {
    /// The bytes of the buffer, by offset.
    pub closed spec fn contents(&self) -> Seq<u8> {
        self.buffer@
    }

    /// The blocks tile the whole buffer and no two neighbours are both free.
    pub open spec fn well_formed(&self) -> bool {
        &&& tiles(self@, SIZE as int)
        &&& coalesced(self@)
        &&& self.contents().len() == SIZE
    }

    /// A new allocator: the buffer is zeroed and one free block spans it.
    pub fn init() -> (allocator: Self)
        requires
            SIZE >= 1,
        ensures
            allocator.well_formed(),
            allocator@ == fresh(SIZE as int),
            allocator.contents() == Seq::new(SIZE as nat, |i: int| 0u8),
    {
        let allocator = Self {
            buffer: [0u8; SIZE],
            blocks: vec![MemoryBlock::new(0, SIZE - 1, true)],
        };
        assert(allocator.blocks@ =~= fresh(SIZE as int));
        assert(allocator.contents() =~= Seq::new(SIZE as nat, |i: int| 0u8));
        allocator
    }

    /// The capacity of the buffer.
    pub fn size(&self) -> (n: usize)
        ensures
            n == SIZE,
    {
        self.buffer.len()
    }

    /// The number of bytes that are not handed out: the total length of the
    /// free blocks. Together with the bytes of the used blocks they make up
    /// the capacity.
    pub fn bytes_free(&self) -> (n: usize)
        requires
            self.well_formed(),
        ensures
            n == free_bytes(self@),
            n + used_bytes(self@) == SIZE,
    {
        let mut bytes_free: usize = 0;
        let mut i: usize = 0;
        while i < self.blocks.len()
            invariant
                i <= self.blocks.len(),
                tiles(self.blocks@, SIZE as int),
                bytes_free == free_bytes(self.blocks@.take(i as int)),
            decreases self.blocks.len() - i,
        {
            let block = &self.blocks[i];
            proof {
                let upto = self.blocks@.take(i + 1);
                assert(upto.drop_last() =~= self.blocks@.take(i as int));
                lemma_chained_subrange(self.blocks@, 0, i + 1);
                lemma_bytes_extent(upto);
                lemma_block_within(self.blocks@, SIZE as int, i as int);
            }
            if block.free {
                bytes_free += block.size();
            }
            i += 1;
        }
        proof {
            assert(self.blocks@.take(i as int) =~= self.blocks@);
            lemma_bytes_extent(self.blocks@);
        }
        bytes_free
    }

    /// The blocks, free and used, in order of their offsets.
    pub fn blocks(&self) -> (blocks: &[MemoryBlock])
        ensures
            blocks@ == self@,
    {
        self.blocks.as_slice()
    }

    /// The byte at `offset`, or `None` where `offset` is past the buffer.
    pub fn read(&self, offset: usize) -> (byte: Option<u8>)
        ensures
            byte == if offset < SIZE {
                Some(self.contents()[offset as int])
            } else {
                None
            },
    {
        if offset < SIZE {
            Some(self.buffer[offset])
        } else {
            None
        }
    }

    /// Stores `value` at `offset` and returns the byte that was there, or
    /// stores nothing and returns `None` where `offset` is past the buffer.
    /// The blocks are never touched.
    pub fn write(&mut self, offset: usize, value: u8) -> (previous: Option<u8>)
        ensures
            final(self)@ == old(self)@,
            old(self).well_formed() ==> final(self).well_formed(),
            offset < SIZE ==> previous == Some(old(self).contents()[offset as int])
                && final(self).contents() == old(self).contents().update(offset as int, value),
            offset >= SIZE ==> previous.is_none() && final(self).contents() == old(
                self,
            ).contents(),
    {
        if offset < SIZE {
            let previous = self.buffer[offset];
            self.buffer[offset] = value;
            Some(previous)
        } else {
            None
        }
    }

    /// Hands out `size` bytes from the last free block, in list order, that
    /// is large enough, and returns the offset of the first of them.
    ///
    /// A block that is larger than the request is split: its first `size`
    /// bytes become the used block and the remainder stays free. A request
    /// for zero bytes is refused with `InvalidRequest`; a request that no
    /// free block can hold is refused with `OutOfMemory`. The buffer's bytes
    /// are never touched.
    pub fn allocate(&mut self, size: usize) -> (result: Result<usize, AllocError>)
        requires
            old(self).well_formed(),
        ensures
            final(self).well_formed(),
            final(self).contents() == old(self).contents(),
            result == allocate_outcome(old(self)@, size as int),
            final(self)@ == after_allocate(old(self)@, size as int),
    {
        if size == 0 {
            return Err(AllocError::InvalidRequest);
        }
        // scan the whole list, so that the last block that fits is the one kept
        let mut memory_block: Option<usize> = None;
        let mut i: usize = 0;
        while i < self.blocks.len()
            invariant
                i <= self.blocks.len(),
                self.blocks@ == old(self).blocks@,
                self.buffer == old(self).buffer,
                tiles(self.blocks@, SIZE as int),
                match memory_block {
                    Some(found) => is_last_fit(
                        self.blocks@.take(i as int),
                        size as int,
                        found as int,
                    ),
                    None => forall|j: int|
                        0 <= j < i ==> !fits(#[trigger] self.blocks@[j], size as int),
                },
            decreases self.blocks.len() - i,
        {
            let candidate = &self.blocks[i];
            proof {
                lemma_block_within(self.blocks@, SIZE as int, i as int);
            }
            if candidate.free && candidate.size() >= size {
                memory_block = Some(i);
            }
            i += 1;
        }
        let idx = match memory_block {
            Some(idx) => idx,
            None => {
                return Err(AllocError::OutOfMemory);
            },
        };
        proof {
            assert(self.blocks@.take(i as int) =~= self.blocks@);
            lemma_last_fit_is(self.blocks@, size as int, idx as int);
            lemma_block_within(self.blocks@, SIZE as int, idx as int);
        }
        let memory_block = self.blocks[idx];

        self.blocks.remove(idx);

        // the first `size` bytes become the used block
        let allocated_memory_block = MemoryBlock::new(
            memory_block.start,
            memory_block.start + (size - 1),
            false,
        );
        let allocated_memory = allocated_memory_block.start;

        self.blocks.insert(idx, allocated_memory_block);

        if memory_block.size() != size {
            self.blocks.insert(
                idx + 1,
                MemoryBlock::new(memory_block.start + size, memory_block.end, true),
            );
        }
        proof {
            vstd::seq_lib::lemma_update_is_remove_insert(
                old(self).blocks@,
                idx as int,
                allocated_memory_block,
            );
            assert(self.blocks@ == carve(old(self).blocks@, idx as int, size as int));
            lemma_carve(old(self).blocks@, SIZE as int, idx as int, size as int);
        }
        Ok(allocated_memory)
    }

    /// Takes back the allocation that `handle` names.
    ///
    /// The block becomes free and is merged with each direct neighbour that
    /// is free, so that afterwards no two neighbouring blocks are both free.
    /// A handle that names no block in use, because it was never handed out
    /// or was released already, is refused with `InvalidHandle`. The buffer's
    /// bytes are never touched.
    pub fn free(&mut self, handle: usize) -> (result: Result<(), AllocError>)
        requires
            old(self).well_formed(),
        ensures
            final(self).well_formed(),
            final(self).contents() == old(self).contents(),
            result == free_outcome(old(self)@, handle as int),
            final(self)@ == after_free(old(self)@, handle as int),
    {
        let mut idx: usize = 0;
        while idx < self.blocks.len() && (self.blocks[idx].free || self.blocks[idx].start != handle)
            invariant
                idx <= self.blocks.len(),
                self.blocks@ == old(self).blocks@,
                self.buffer == old(self).buffer,
                forall|j: int| 0 <= j < idx ==> !held_at(self.blocks@, handle as int, j),
            decreases self.blocks.len() - idx,
        {
            idx += 1;
        }
        if idx == self.blocks.len() {
            return Err(AllocError::InvalidHandle);
        }
        proof {
            lemma_index_of_is(self.blocks@, handle as int, idx as int);
            lemma_mark_free(self.blocks@, SIZE as int, idx as int);
        }
        self.blocks[idx].free = true;

        self.merge_blocks(idx);
        Ok(())
    }

    /// Merges the free block at `block_idx` with each direct neighbour that
    /// is free.
    fn merge_blocks(&mut self, block_idx: usize)
        requires
            tiles(old(self)@, SIZE as int),
            coalesced_apart_from(old(self)@, block_idx as int),
            block_idx < old(self)@.len(),
            old(self)@[block_idx as int].free,
        ensures
            tiles(final(self)@, SIZE as int),
            coalesced(final(self)@),
            final(self)@ == merge_around(old(self)@, block_idx as int),
            final(self).contents() == old(self).contents(),
    {
        let mut idx = block_idx;
        if idx != 0 && self.blocks[idx - 1].free {
            proof {
                lemma_merge_into_previous(self.blocks@, idx as int);
            }
            self.blocks[idx - 1].end = self.blocks[idx].end;
            self.blocks.remove(idx);

            idx -= 1;
        }
        assert(self.blocks@ == merge_run(old(self).blocks@, idx as int, block_idx as int));
        assert(idx < self.blocks.len());
        if idx + 1 < self.blocks.len() && self.blocks[idx + 1].free {
            proof {
                lemma_merge_into_next(self.blocks@, idx as int);
                if idx < block_idx {
                    lemma_merge_twice(old(self).blocks@, block_idx as int);
                }
            }
            self.blocks[idx + 1].start = self.blocks[idx].start;
            self.blocks.remove(idx);
        }
        proof {
            lemma_merge_around(old(self).blocks@, SIZE as int, block_idx as int);
        }
    }
}

} // verus!
