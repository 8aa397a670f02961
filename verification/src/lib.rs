//! A fixed-arena free-list memory allocator.
//!
//! One arena of `ARENA_SIZE` bytes is carved into allocations by a
//! first-fit free list with block splitting and address-ordered
//! coalescing.  Free-block descriptors come from a small bootstrap bump
//! allocator whose slots are never reclaimed.  The allocator core
//! validates alignment, initializes the free list lazily on first use,
//! and reports every failure as an explicit error value.
//!
//! The core owns the arena bytes and addresses them by offset in
//! `[0, ARENA_SIZE)`; a successful allocation hands out an offset and
//! with it exclusive ownership of its bytes until the matching
//! release.  A host that installs the core process-wide keeps the one
//! instance behind its own lock, so that each call runs as one
//! critical section; the core itself is a plain sequential state
//! machine and performs no I/O and no blocking.

pub mod arena;
pub mod bootstrap;
pub mod free_list;
pub mod alloc_core;
pub mod laws;

pub use arena::{align_up, ARENA_SIZE, MAX_SUPPORTED_ALIGN, MIN_BLOCK_SIZE, SENTINEL_BYTE};
pub use free_list::{FreeBlock, FreeMemList};
pub use alloc_core::{AllocError, ReallyCoolAllocator};
