use fixed_buffer_allocator::{AllocError, FixedBufferAllocator, MemoryBlock};

#[test]
fn allocation_and_deallocation() {
    let mut allocator = FixedBufferAllocator::<64>::init();

    assert_eq!(allocator.size(), 64);

    let ptr = allocator.allocate(8).expect("Failed to allocate memory");

    assert_eq!(allocator.bytes_free(), 56);

    for (i, byte) in 5u64.to_ne_bytes().into_iter().enumerate() {
        allocator.write(ptr + i, byte);
    }

    let mut stored = [0u8; 8];
    for (i, byte) in stored.iter_mut().enumerate() {
        *byte = allocator.read(ptr + i).unwrap();
    }
    assert_eq!(u64::from_ne_bytes(stored), 5);

    allocator.free(ptr).expect("Invalid pointer");

    assert_eq!(allocator.bytes_free(), allocator.size());
}

#[test]
fn new_allocator_is_one_free_block() {
    let allocator = FixedBufferAllocator::<64>::init();
    assert_eq!(allocator.blocks(), &[MemoryBlock::new(0, 63, true)]);
    assert_eq!(allocator.bytes_free(), 64);
    assert_eq!(allocator.size(), 64);
}

#[test]
fn capacity_of_one_byte() {
    let mut allocator = FixedBufferAllocator::<1>::init();
    assert_eq!(allocator.blocks(), &[MemoryBlock::new(0, 0, true)]);
    assert_eq!(allocator.allocate(1), Ok(0));
    assert_eq!(allocator.blocks(), &[MemoryBlock::new(0, 0, false)]);
    assert_eq!(allocator.bytes_free(), 0);
    assert_eq!(allocator.free(0), Ok(()));
    assert_eq!(allocator.blocks(), &[MemoryBlock::new(0, 0, true)]);
}

#[test]
fn larger_block_is_split() {
    let mut allocator = FixedBufferAllocator::<64>::init();
    assert_eq!(allocator.allocate(8), Ok(0));
    assert_eq!(
        allocator.blocks(),
        &[MemoryBlock::new(0, 7, false), MemoryBlock::new(8, 63, true)]
    );
    assert_eq!(allocator.bytes_free(), 56);
}

#[test]
fn exact_fit_is_marked_in_place() {
    let mut allocator = FixedBufferAllocator::<16>::init();
    assert_eq!(allocator.allocate(16), Ok(0));
    assert_eq!(allocator.blocks(), &[MemoryBlock::new(0, 15, false)]);
    assert_eq!(allocator.bytes_free(), 0);
}

#[test]
fn coalescing_of_three_blocks() {
    let mut allocator = FixedBufferAllocator::<12>::init();
    let a = allocator.allocate(4).unwrap();
    let b = allocator.allocate(4).unwrap();
    let c = allocator.allocate(4).unwrap();
    assert_eq!((a, b, c), (0, 4, 8));
    assert_eq!(
        allocator.blocks(),
        &[
            MemoryBlock::new(0, 3, false),
            MemoryBlock::new(4, 7, false),
            MemoryBlock::new(8, 11, false),
        ]
    );
    assert_eq!(allocator.bytes_free(), 0);

    // the neighbours of the middle block are in use: nothing merges
    assert_eq!(allocator.free(b), Ok(()));
    assert_eq!(
        allocator.blocks(),
        &[
            MemoryBlock::new(0, 3, false),
            MemoryBlock::new(4, 7, true),
            MemoryBlock::new(8, 11, false),
        ]
    );
    assert_eq!(allocator.bytes_free(), 4);

    // the first block merges with the free block after it
    assert_eq!(allocator.free(a), Ok(()));
    assert_eq!(
        allocator.blocks(),
        &[MemoryBlock::new(0, 7, true), MemoryBlock::new(8, 11, false)]
    );
    assert_eq!(allocator.bytes_free(), 8);

    // the last block merges with the free block before it
    assert_eq!(allocator.free(c), Ok(()));
    assert_eq!(allocator.blocks(), &[MemoryBlock::new(0, 11, true)]);
    assert_eq!(allocator.bytes_free(), 12);
}

#[test]
fn release_merges_both_neighbours() {
    let mut allocator = FixedBufferAllocator::<12>::init();
    let a = allocator.allocate(4).unwrap();
    let b = allocator.allocate(4).unwrap();
    let c = allocator.allocate(4).unwrap();
    assert_eq!(allocator.free(a), Ok(()));
    assert_eq!(allocator.free(c), Ok(()));
    assert_eq!(
        allocator.blocks(),
        &[
            MemoryBlock::new(0, 3, true),
            MemoryBlock::new(4, 7, false),
            MemoryBlock::new(8, 11, true),
        ]
    );
    assert_eq!(allocator.free(b), Ok(()));
    assert_eq!(allocator.blocks(), &[MemoryBlock::new(0, 11, true)]);
}

#[test]
fn last_fitting_block_is_chosen() {
    let mut allocator = FixedBufferAllocator::<16>::init();
    assert_eq!(allocator.allocate(4), Ok(0));
    assert_eq!(allocator.allocate(4), Ok(4));
    assert_eq!(allocator.allocate(4), Ok(8));
    assert_eq!(allocator.free(4), Ok(()));
    // free blocks: 4..=7 and 12..=15; both can hold two bytes
    assert_eq!(allocator.allocate(2), Ok(12));
    assert_eq!(
        allocator.blocks(),
        &[
            MemoryBlock::new(0, 3, false),
            MemoryBlock::new(4, 7, true),
            MemoryBlock::new(8, 11, false),
            MemoryBlock::new(12, 13, false),
            MemoryBlock::new(14, 15, true),
        ]
    );
    // only 4..=7 can hold four bytes now
    assert_eq!(allocator.allocate(4), Ok(4));
    assert_eq!(allocator.bytes_free(), 2);
}

#[test]
fn fragmented_space_cannot_serve_a_large_request() {
    let mut allocator = FixedBufferAllocator::<12>::init();
    let a = allocator.allocate(4).unwrap();
    let _b = allocator.allocate(4).unwrap();
    let c = allocator.allocate(4).unwrap();
    allocator.free(a).unwrap();
    allocator.free(c).unwrap();
    assert_eq!(allocator.bytes_free(), 8);
    let before = allocator.blocks().to_vec();
    assert_eq!(allocator.allocate(8), Err(AllocError::OutOfMemory));
    assert_eq!(allocator.blocks(), &before[..]);
    assert_eq!(allocator.allocate(4), Ok(8));
}

#[test]
fn exhaustion_and_recovery() {
    let mut allocator = FixedBufferAllocator::<32>::init();
    let all = allocator.allocate(32);
    assert_eq!(all, Ok(0));
    assert_eq!(allocator.bytes_free(), 0);
    assert_eq!(allocator.allocate(1), Err(AllocError::OutOfMemory));
    assert_eq!(allocator.blocks(), &[MemoryBlock::new(0, 31, false)]);
    assert_eq!(allocator.free(0), Ok(()));
    assert_eq!(allocator.allocate(1), Ok(0));
    assert_eq!(allocator.bytes_free(), 31);
}

#[test]
fn request_larger_than_the_buffer_is_out_of_memory() {
    let mut allocator = FixedBufferAllocator::<8>::init();
    assert_eq!(allocator.allocate(9), Err(AllocError::OutOfMemory));
    assert_eq!(allocator.allocate(usize::MAX), Err(AllocError::OutOfMemory));
    assert_eq!(allocator.blocks(), &[MemoryBlock::new(0, 7, true)]);
}

#[test]
fn zero_size_request_is_invalid() {
    let mut allocator = FixedBufferAllocator::<8>::init();
    assert_eq!(allocator.allocate(0), Err(AllocError::InvalidRequest));
    assert_eq!(allocator.blocks(), &[MemoryBlock::new(0, 7, true)]);
    assert_eq!(allocator.allocate(8), Ok(0));
    assert_eq!(allocator.allocate(0), Err(AllocError::InvalidRequest));
    assert_eq!(allocator.blocks(), &[MemoryBlock::new(0, 7, false)]);
}

#[test]
fn double_free_is_rejected() {
    let mut allocator = FixedBufferAllocator::<64>::init();
    let handle = allocator.allocate(8).unwrap();
    assert_eq!(allocator.free(handle), Ok(()));
    let before = allocator.blocks().to_vec();
    assert_eq!(allocator.free(handle), Err(AllocError::InvalidHandle));
    assert_eq!(allocator.blocks(), &before[..]);
    assert_eq!(allocator.bytes_free(), 64);
}

#[test]
fn unknown_handle_is_rejected() {
    let mut allocator = FixedBufferAllocator::<64>::init();
    // nothing is allocated yet
    assert_eq!(allocator.free(0), Err(AllocError::InvalidHandle));
    let handle = allocator.allocate(8).unwrap();
    assert_eq!(handle, 0);
    // inside the used block, but not its start
    assert_eq!(allocator.free(3), Err(AllocError::InvalidHandle));
    // the start of a free block
    assert_eq!(allocator.free(8), Err(AllocError::InvalidHandle));
    // past the buffer
    assert_eq!(allocator.free(64), Err(AllocError::InvalidHandle));
    assert_eq!(allocator.free(usize::MAX), Err(AllocError::InvalidHandle));
    assert_eq!(
        allocator.blocks(),
        &[MemoryBlock::new(0, 7, false), MemoryBlock::new(8, 63, true)]
    );
    assert_eq!(allocator.free(handle), Ok(()));
}

#[test]
fn round_trip_restores_the_blocks() {
    let mut allocator = FixedBufferAllocator::<32>::init();
    let a = allocator.allocate(5).unwrap();
    let _b = allocator.allocate(7).unwrap();
    allocator.free(a).unwrap();
    let before = allocator.blocks().to_vec();
    let free_before = allocator.bytes_free();
    for k in 1..=20 {
        let handle = allocator.allocate(k).unwrap();
        assert_eq!(allocator.bytes_free(), free_before - k);
        assert_eq!(allocator.free(handle), Ok(()));
        assert_eq!(allocator.blocks(), &before[..]);
        assert_eq!(allocator.bytes_free(), free_before);
    }
}

#[test]
fn buffer_starts_zeroed() {
    let allocator = FixedBufferAllocator::<16>::init();
    for offset in 0..16 {
        assert_eq!(allocator.read(offset), Some(0));
    }
}

#[test]
fn write_returns_the_previous_byte() {
    let mut allocator = FixedBufferAllocator::<16>::init();
    assert_eq!(allocator.write(3, 7), Some(0));
    assert_eq!(allocator.write(3, 9), Some(7));
    assert_eq!(allocator.read(3), Some(9));
    assert_eq!(allocator.read(2), Some(0));
    assert_eq!(allocator.read(4), Some(0));
    assert_eq!(allocator.blocks(), &[MemoryBlock::new(0, 15, true)]);
}

#[test]
fn access_past_the_buffer_is_refused() {
    let mut allocator = FixedBufferAllocator::<16>::init();
    assert_eq!(allocator.read(16), None);
    assert_eq!(allocator.read(usize::MAX), None);
    assert_eq!(allocator.write(16, 1), None);
    assert_eq!(allocator.write(usize::MAX, 1), None);
    assert_eq!(allocator.read(15), Some(0));
    assert_eq!(allocator.write(15, 1), Some(0));
    assert_eq!(allocator.read(15), Some(1));
}

#[test]
fn contents_survive_allocate_and_free() {
    let mut allocator = FixedBufferAllocator::<16>::init();
    let handle = allocator.allocate(4).unwrap();
    for i in 0..4 {
        allocator.write(handle + i, 0xA0 + i as u8);
    }
    let other = allocator.allocate(4).unwrap();
    allocator.free(handle).unwrap();
    allocator.free(other).unwrap();
    // released bytes keep what was written to them
    for i in 0..4 {
        assert_eq!(allocator.read(handle + i), Some(0xA0 + i as u8));
    }
    for offset in 4..16 {
        assert_eq!(allocator.read(offset), Some(0));
    }
}

#[test]
fn memory_block_new_keeps_its_arguments() {
    let block = MemoryBlock::new(3, 9, true);
    assert_eq!(block.start, 3);
    assert_eq!(block.end, 9);
    assert!(block.free);
    let used = MemoryBlock::new(0, 0, false);
    assert_eq!((used.start, used.end, used.free), (0, 0, false));
}

#[test]
fn memory_block_size_counts_both_ends() {
    assert_eq!(MemoryBlock::new(3, 9, true).size(), 7);
    assert_eq!(MemoryBlock::new(5, 5, false).size(), 1);
    assert_eq!(MemoryBlock::new(0, 63, true).size(), 64);
    assert_eq!(MemoryBlock::new(1, usize::MAX, true).size(), usize::MAX);
}
