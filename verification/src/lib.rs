//! A first-fit heap allocator over one owned, growing byte region.
//!
//! Every block of the region is a fixed-size header followed by its payload.
//! The headers form a singly linked list in address order that starts at the
//! heap origin. Allocation walks that list, merging adjacent free blocks on
//! the way, and either reuses the first free block that is large enough or
//! grows the region behind the last block.
//!
//! The heap is a value, [`SmallocAllocator`], that every call takes: there is
//! one mutator at a time by construction. Addresses are offsets into the
//! heap's region, and the null address is never a payload address.
//!
//! - [`header`]: the block header, the layout constants, the rounding rule.
//! - [`model`]: the heap as contracts see it, and what each operation makes of
//!   it.
//! - [`heap`]: the heap itself, with region growth, the linking of the block
//!   that the region grew by, the scan for a free block, the splitting of a
//!   block and the recovery of a header from a payload address.
//! - [`c_api`]: allocate, release, resize and zero-allocate.
//! - [`laws`]: what holds of every heap, proved over the model.

pub mod c_api;
pub mod header;
pub mod heap;
pub mod laws;
pub mod model;

pub use c_api::{calloc, free, malloc, realloc};
pub use header::{align_up, AllocError, Allocation, FreeResult, MAGIC, METADATA_SIZE, NULL};
pub use heap::{
    find_free, get_metadata_from_alloc_ptr, request_space, split_block, SmallocAllocator,
};
