//! Fixed heap geometry.
//!
//! The region is a header (holding the root table) followed by a contiguous
//! table of 64 KiB superblocks. The i-th descriptor corresponds to the i-th
//! superblock, so either can be found from the other by plain arithmetic, and
//! a payload address is mapped back to its superblock by subtraction and
//! division — no scanning. These strides are a compatibility contract: a
//! region written with them can only be reopened with the same values.

use vstd::arithmetic::div_mod::lemma_fundamental_div_mod_converse;
use vstd::arithmetic::mul::lemma_mul_inequality;
use vstd::prelude::*;

verus! {

/// Size of one superblock in bytes.
pub const SUPERBLOCK_SIZE: usize = 65536;

/// Size of the region header (metadata and root table) in bytes.
pub const HEADER_SIZE: usize = 65536;

/// Number of persistent root slots in the region header.
pub const ROOT_COUNT: usize = 64;

/// Number of standard size classes; class `0` is reserved for oversized
/// allocations that take a whole superblock.
pub const NUM_CLASSES: usize = 10;

/// Block size, in bytes, of a size class. Class `0` dedicates the whole
/// superblock to a single block.
pub open spec fn class_size(sc: int) -> int {
    if sc == 1 {
        64
    } else if sc == 2 {
        128
    } else if sc == 3 {
        256
    } else if sc == 4 {
        512
    } else if sc == 5 {
        1024
    } else if sc == 6 {
        2048
    } else if sc == 7 {
        4096
    } else if sc == 8 {
        8192
    } else if sc == 9 {
        16384
    } else if sc == 10 {
        32768
    } else {
        65536
    }
}

/// Number of blocks a superblock carved for a size class holds.
pub open spec fn class_blocks(sc: int) -> int {
    SUPERBLOCK_SIZE as int / class_size(sc)
}

/// Every size class carves a superblock exactly: block size times block
/// count is the superblock size, and both lie in fixed ranges.
pub proof fn lemma_class_geometry(sc: int)
    ensures
        class_size(sc) * class_blocks(sc) == SUPERBLOCK_SIZE,
        64 <= class_size(sc) <= SUPERBLOCK_SIZE,
        1 <= class_blocks(sc) <= 1024,
        1 <= sc <= 10 ==> 2 <= class_blocks(sc),
{
    if sc == 1 {
        assert(class_blocks(1) == 1024);
    } else if sc == 2 {
        assert(class_blocks(2) == 512);
    } else if sc == 3 {
        assert(class_blocks(3) == 256);
    } else if sc == 4 {
        assert(class_blocks(4) == 128);
    } else if sc == 5 {
        assert(class_blocks(5) == 64);
    } else if sc == 6 {
        assert(class_blocks(6) == 32);
    } else if sc == 7 {
        assert(class_blocks(7) == 16);
    } else if sc == 8 {
        assert(class_blocks(8) == 8);
    } else if sc == 9 {
        assert(class_blocks(9) == 4);
    } else if sc == 10 {
        assert(class_blocks(10) == 2);
    } else {
        assert(class_blocks(sc) == 1);
    }
}

/// The standard size class serving a request of `size` bytes, or `0` when
/// the request is larger than the largest standard class.
pub open spec fn spec_size_class(size: int) -> int {
    if size <= 64 {
        1
    } else if size <= 128 {
        2
    } else if size <= 256 {
        3
    } else if size <= 512 {
        4
    } else if size <= 1024 {
        5
    } else if size <= 2048 {
        6
    } else if size <= 4096 {
        7
    } else if size <= 8192 {
        8
    } else if size <= 16384 {
        9
    } else if size <= 32768 {
        10
    } else {
        0
    }
}

/// Map a requested byte count to its size class.
pub fn size_class(size: usize) -> (sc: usize)
    ensures
        sc == spec_size_class(size as int),
        sc <= NUM_CLASSES,
{
    if size <= 64 {
        1
    } else if size <= 128 {
        2
    } else if size <= 256 {
        3
    } else if size <= 512 {
        4
    } else if size <= 1024 {
        5
    } else if size <= 2048 {
        6
    } else if size <= 4096 {
        7
    } else if size <= 8192 {
        8
    } else if size <= 16384 {
        9
    } else if size <= 32768 {
        10
    } else {
        0
    }
}

/// The block size of a size class, as a run-time value.
pub fn class_block_size(sc: usize) -> (r: usize)
    requires
        sc <= NUM_CLASSES,
    ensures
        r == class_size(sc as int),
{
    if sc == 1 {
        64
    } else if sc == 2 {
        128
    } else if sc == 3 {
        256
    } else if sc == 4 {
        512
    } else if sc == 5 {
        1024
    } else if sc == 6 {
        2048
    } else if sc == 7 {
        4096
    } else if sc == 8 {
        8192
    } else if sc == 9 {
        16384
    } else if sc == 10 {
        32768
    } else {
        65536
    }
}

/// The block count of a size class, as a run-time value.
pub fn class_block_count(sc: usize) -> (r: usize)
    requires
        sc <= NUM_CLASSES,
    ensures
        r == class_blocks(sc as int),
{
    if sc == 1 {
        1024
    } else if sc == 2 {
        512
    } else if sc == 3 {
        256
    } else if sc == 4 {
        128
    } else if sc == 5 {
        64
    } else if sc == 6 {
        32
    } else if sc == 7 {
        16
    } else if sc == 8 {
        8
    } else if sc == 9 {
        4
    } else if sc == 10 {
        2
    } else {
        1
    }
}

/// Start address of superblock `i`.
pub open spec fn sb_base(i: int) -> int {
    HEADER_SIZE + i * SUPERBLOCK_SIZE
}

/// Start address of block `b` (of `bs` bytes each) in superblock `i`.
pub open spec fn block_addr(i: int, b: int, bs: int) -> int {
    sb_base(i) + b * bs
}

/// The superblock index a payload address falls in.
pub open spec fn spec_sb_index(addr: int) -> int {
    (addr - HEADER_SIZE) / (SUPERBLOCK_SIZE as int)
}

/// The byte offset of a payload address within its superblock.
pub open spec fn spec_sb_offset(addr: int) -> int {
    (addr - HEADER_SIZE) % (SUPERBLOCK_SIZE as int)
}

/// A block lies inside its superblock: its byte range fits in the
/// superblock's span.
pub proof fn lemma_block_in_sb(b: int, bs: int, bps: int)
    requires
        0 <= b < bps,
        bs >= 1,
        bs * bps == SUPERBLOCK_SIZE,
    ensures
        0 <= b * bs,
        b * bs + bs <= SUPERBLOCK_SIZE,
{
    assert(0 <= b * bs) by (nonlinear_arith)
        requires
            0 <= b,
            bs >= 1,
    ;
    lemma_mul_inequality(b + 1, bps, bs);
    assert((b + 1) * bs == b * bs + bs) by (nonlinear_arith);
    assert(bps * bs == bs * bps) by (nonlinear_arith);
}

/// Distinct blocks of one carved superblock occupy disjoint byte ranges.
pub proof fn lemma_blocks_disjoint(b: int, c: int, bs: int)
    requires
        0 <= b < c,
        bs >= 1,
    ensures
        b * bs + bs <= c * bs,
{
    lemma_mul_inequality(b + 1, c, bs);
    assert((b + 1) * bs == b * bs + bs) by (nonlinear_arith);
}

/// The locating arithmetic inverts the block-address arithmetic: from the
/// address of block `b` in superblock `i`, subtraction and division recover
/// `i`, and the in-superblock offset is exactly `b * bs`.
pub proof fn lemma_locate_block(i: int, b: int, bs: int, bps: int)
    requires
        0 <= i,
        0 <= b < bps,
        bs >= 1,
        bs * bps == SUPERBLOCK_SIZE,
    ensures
        spec_sb_index(block_addr(i, b, bs)) == i,
        spec_sb_offset(block_addr(i, b, bs)) == b * bs,
        (b * bs) / bs == b,
        (b * bs) % bs == 0,
{
    lemma_block_in_sb(b, bs, bps);
    lemma_fundamental_div_mod_converse(
        block_addr(i, b, bs) - HEADER_SIZE,
        SUPERBLOCK_SIZE as int,
        i,
        b * bs,
    );
    lemma_fundamental_div_mod_converse(b * bs, bs, b, 0);
}

} // verus!
