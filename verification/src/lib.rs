//! A fixed-capacity block allocator.
//!
//! [`FixedBufferAllocator`] owns one buffer of `SIZE` bytes and a list of
//! blocks that tile it from offset `0` to offset `SIZE - 1`. `allocate`
//! carves a used block out of the last free block that is large enough and
//! returns its offset as the handle; `free` takes the block back and merges
//! it with its free neighbours. The allocator never asks the system for
//! memory, promises no alignment, and is not safe to share between threads
//! without a lock around it.
//!
//! - [`block`]: a block, one range of the buffer;
//! - [`error`]: why a call can be refused;
//! - [`model`]: the list of blocks as a sequence, and what each call makes
//!   of it;
//! - [`allocator`]: the allocator, each operation with its contract over the
//!   model;
//! - [`laws`]: what holds of every allocator, proved over the model;
//! - [`lemmas`]: the facts about the model that those proofs rest on.

pub mod allocator;
pub mod block;
pub mod error;
pub mod laws;
pub mod lemmas;
pub mod model;

pub use allocator::FixedBufferAllocator;
pub use block::MemoryBlock;
pub use error::AllocError;
