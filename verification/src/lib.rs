//! A first-fit, coalescing free-list allocator over one fixed arena of bytes.
//!
//! The allocator keeps its bookkeeping inside the arena itself: every free
//! block starts with an eight-byte header that holds the offset of the next
//! free block and the block's own size. All of it is verified.

pub mod memory;
pub mod model;
pub mod laws;
pub mod chain;
pub mod handle;
pub mod node;
pub mod freelist;
