//! A lock-free-style, crash-recoverable superblock allocator core.
//!
//! The heap is a fixed region: a header (with the persistent root table),
//! followed by a table of 64 KiB superblocks. Each superblock is paired 1:1
//! with a descriptor that records, in a single packed anchor word, the head of
//! its free-block stack, the number of free blocks, and its lifecycle state
//! (`Empty`, `Partial`, `Full`). Empty superblocks sit on a global free list;
//! partially used ones sit on a per-size-class partial list; full ones are
//! referenced only by the allocations they hold. A dirty flag persisted with
//! the region drives recovery: a region that was not closed cleanly must be
//! reconciled from its anchors before allocation resumes.

use vstd::prelude::*;

pub mod anchor;
pub mod block;
pub mod heap;
pub mod layout;
pub mod ptr;
pub mod stack;

verus! {

/// Failures reported by the allocator operations.
#[derive(Clone, Copy, PartialEq, Eq, Structural, Debug)]
pub enum AllocError {
    /// No superblock can satisfy the allocation request.
    OutOfMemory,
    /// A root-table index is out of bounds or was never set.
    InvalidRoot,
    /// A reopened region's metadata is structurally unusable.
    CorruptHeap,
    /// The backing region cannot be adopted at the requested size.
    IoError,
}

} // verus!
