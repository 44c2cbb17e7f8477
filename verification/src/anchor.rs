//! The packed anchor word.
//!
//! A superblock's free-block head index, free-block count, and lifecycle
//! state are packed into one 64-bit word so that the three fields are always
//! read and written together, as a single atomic unit. Splitting them into
//! separate fields would reintroduce lost-update races between concurrent
//! allocate/deallocate transitions.
//!
//! Layout: bits 0..16 hold the head index, bits 16..32 hold the free count,
//! bits 32..34 hold the state (0 = `Empty`, 1 = `Partial`, 2 = `Full`).

use vstd::prelude::*;

verus! {

/// The lifecycle state of a superblock, as recorded in its anchor.
#[derive(Clone, Copy, PartialEq, Eq, Structural, Debug)]
pub enum BlockState {
    /// Every block is free; the superblock sits on the global free list.
    Empty,
    /// Some blocks are allocated; the superblock is on a partial list or is
    /// a size class's active superblock.
    Partial,
    /// No block is free; the superblock is referenced only by the
    /// allocations it holds (and possibly as an active superblock).
    Full,
}

/// The head-index field of an anchor word.
pub open spec fn spec_head(a: u64) -> u64 {
    a & 0xffff
}

/// The free-count field of an anchor word.
pub open spec fn spec_count(a: u64) -> u64 {
    (a >> 16) & 0xffff
}

/// The state field of an anchor word.
pub open spec fn spec_state_bits(a: u64) -> u64 {
    (a >> 32) & 0x3
}

/// The bit encoding of a lifecycle state.
pub open spec fn state_bits(s: BlockState) -> u64 {
    match s {
        BlockState::Empty => 0,
        BlockState::Partial => 1,
        BlockState::Full => 2,
    }
}

/// The state a superblock with `count` free blocks out of `cap` must be in.
pub open spec fn state_for(count: int, cap: int) -> BlockState {
    if count == cap {
        BlockState::Empty
    } else if count == 0 {
        BlockState::Full
    } else {
        BlockState::Partial
    }
}

/// Pack a head index, a free count, and a state into one anchor word.
pub fn pack(head: usize, count: usize, state: BlockState) -> (a: u64)
    requires
        head < 0x10000,
        count < 0x10000,
    ensures
        spec_head(a) == head,
        spec_count(a) == count,
        spec_state_bits(a) == state_bits(state),
{
    let h = head as u64;
    let c = count as u64;
    let s: u64 = match state {
        BlockState::Empty => 0,
        BlockState::Partial => 1,
        BlockState::Full => 2,
    };
    let a = h | (c << 16u64) | (s << 32u64);
    proof {
        assert(h < 0x10000 && c < 0x10000 && s < 4 ==> (h | (c << 16u64) | (s << 32u64))
            & 0xffff == h) by (bit_vector);
        assert(h < 0x10000 && c < 0x10000 && s < 4 ==> ((h | (c << 16u64) | (s << 32u64))
            >> 16) & 0xffff == c) by (bit_vector);
        assert(h < 0x10000 && c < 0x10000 && s < 4 ==> ((h | (c << 16u64) | (s << 32u64))
            >> 32) & 0x3 == s) by (bit_vector);
    }
    a
}

/// Read the head-index field.
pub fn head_of(a: u64) -> (r: usize)
    ensures
        r == spec_head(a),
        r < 0x10000,
{
    proof {
        assert(a & 0xffff < 0x10000) by (bit_vector);
    }
    (a & 0xffff) as usize
}

/// Read the free-count field.
pub fn count_of(a: u64) -> (r: usize)
    ensures
        r == spec_count(a),
        r < 0x10000,
{
    proof {
        assert((a >> 16) & 0xffff < 0x10000) by (bit_vector);
    }
    ((a >> 16) & 0xffff) as usize
}

/// Read the state field; `None` when the two state bits hold no valid state.
pub fn state_of(a: u64) -> (r: Option<BlockState>)
    ensures
        r matches Some(s) ==> state_bits(s) == spec_state_bits(a),
        r is None <==> spec_state_bits(a) == 3,
{
    proof {
        assert((a >> 32) & 0x3 < 4) by (bit_vector);
    }
    let bits = (a >> 32) & 0x3;
    if bits == 0 {
        Some(BlockState::Empty)
    } else if bits == 1 {
        Some(BlockState::Partial)
    } else if bits == 2 {
        Some(BlockState::Full)
    } else {
        None
    }
}

/// Compute the state that a free count of `count` out of `cap` dictates.
pub fn state_for_count(count: usize, cap: usize) -> (r: BlockState)
    ensures
        r == state_for(count as int, cap as int),
{
    if count == cap {
        BlockState::Empty
    } else if count == 0 {
        BlockState::Full
    } else {
        BlockState::Partial
    }
}

} // verus!
