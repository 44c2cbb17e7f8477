use ralloc::anchor;
use ralloc::anchor::BlockState;
use ralloc::block::validate_pair;
use ralloc::block::Descriptor;
use ralloc::block::SuperBlock;
use ralloc::heap::Heap;
use ralloc::heap::SuperBlockRegion;
use ralloc::layout;
use ralloc::ptr::Pointer;
use ralloc::AllocError;

const MIB: usize = 1048576;
const SBS: usize = 65536;
const HEADER: usize = 65536;

fn ptr_of(a: usize) -> Pointer<u8> {
    Pointer::from_addr(a).unwrap()
}

#[test]
fn anchor_pack_round_trips() {
    let a = anchor::pack(5, 7, BlockState::Partial);
    assert_eq!(anchor::head_of(a), 5);
    assert_eq!(anchor::count_of(a), 7);
    assert_eq!(anchor::state_of(a), Some(BlockState::Partial));
    let b = anchor::pack(0, 0, BlockState::Full);
    assert_eq!(anchor::head_of(b), 0);
    assert_eq!(anchor::count_of(b), 0);
    assert_eq!(anchor::state_of(b), Some(BlockState::Full));
    let c = anchor::pack(1023, 1024, BlockState::Empty);
    assert_eq!(anchor::head_of(c), 1023);
    assert_eq!(anchor::count_of(c), 1024);
    assert_eq!(anchor::state_of(c), Some(BlockState::Empty));
}

#[test]
fn size_classes_ladder() {
    assert_eq!(layout::size_class(0), 1);
    assert_eq!(layout::size_class(1), 1);
    assert_eq!(layout::size_class(64), 1);
    assert_eq!(layout::size_class(65), 2);
    assert_eq!(layout::size_class(128), 2);
    assert_eq!(layout::size_class(4096), 7);
    assert_eq!(layout::size_class(32768), 10);
    assert_eq!(layout::size_class(32769), 0);
    assert_eq!(layout::class_block_size(1), 64);
    assert_eq!(layout::class_block_size(10), 32768);
    assert_eq!(layout::class_block_size(0), 65536);
    assert_eq!(layout::class_block_count(1), 1024);
    assert_eq!(layout::class_block_count(10), 2);
    assert_eq!(layout::class_block_count(0), 1);
}

#[test]
fn state_for_count_matches_lifecycle() {
    assert_eq!(anchor::state_for_count(0, 8), BlockState::Full);
    assert_eq!(anchor::state_for_count(8, 8), BlockState::Empty);
    assert_eq!(anchor::state_for_count(3, 8), BlockState::Partial);
    assert_eq!(anchor::state_for_count(0, 1), BlockState::Full);
    assert_eq!(anchor::state_for_count(1, 1), BlockState::Empty);
}

#[test]
fn two_small_allocations_are_distinct_and_in_range() {
    let (mut h, existed) = Heap::init(None, MIB).unwrap();
    assert!(!existed);
    let a1 = h.malloc(64).unwrap();
    let a2 = h.malloc(64).unwrap();
    assert_ne!(a1, a2);
    assert!(a1 >= HEADER && a1 + 64 <= MIB);
    assert!(a2 >= HEADER && a2 + 64 <= MIB);
    h.free(ptr_of(a1));
    let a3 = h.malloc(64).unwrap();
    assert_eq!(a3, a1);
}

#[test]
fn freed_block_is_recycled_immediately() {
    let (mut h, _) = Heap::init(None, MIB).unwrap();
    let a = h.malloc(64).unwrap();
    h.free(ptr_of(a));
    let b = h.malloc(64).unwrap();
    assert_eq!(b, a);
}

#[test]
fn used_counter_tracks_live_bytes() {
    let (mut h, _) = Heap::init(None, MIB).unwrap();
    assert_eq!(h.used(), 0);
    let a1 = h.malloc(64).unwrap();
    assert_eq!(h.used(), 64);
    let a2 = h.malloc(100).unwrap();
    assert_eq!(h.used(), 64 + 128);
    h.free(ptr_of(a1));
    assert_eq!(h.used(), 128);
    h.free(ptr_of(a2));
    assert_eq!(h.used(), 0);
}

#[test]
fn oversized_allocation_takes_a_whole_superblock() {
    let (mut h, _) = Heap::init(None, MIB).unwrap();
    let a = h.malloc(40000).unwrap();
    assert!(a >= HEADER);
    assert_eq!((a - HEADER) % SBS, 0);
    assert_eq!(h.used(), SBS);
    h.free(ptr_of(a));
    assert_eq!(h.used(), 0);
}

#[test]
fn request_beyond_superblock_is_out_of_memory() {
    let (mut h, _) = Heap::init(None, MIB).unwrap();
    assert_eq!(h.malloc(70000), Err(AllocError::OutOfMemory));
}

#[test]
fn exhausting_the_region_reports_out_of_memory() {
    // One superblock only; an oversized allocation consumes it whole.
    let (mut h, _) = Heap::init(None, HEADER + SBS).unwrap();
    let a = h.malloc(40000).unwrap();
    assert_eq!(h.malloc(64), Err(AllocError::OutOfMemory));
    h.free(ptr_of(a));
    assert!(h.malloc(64).is_ok());
}

#[test]
fn many_allocations_do_not_overlap() {
    let (mut h, _) = Heap::init(None, MIB).unwrap();
    let mut got: Vec<(usize, usize)> = Vec::new();
    for k in 0..100 {
        let size = 64 + (k % 4) * 300;
        let a = h.malloc(size).unwrap();
        got.push((a, layout::class_block_size(layout::size_class(size))));
    }
    for x in 0..got.len() {
        for y in 0..got.len() {
            if x != y {
                let (ax, sx) = got[x];
                let (ay, sy) = got[y];
                assert!(ax + sx <= ay || ay + sy <= ax);
            }
        }
    }
}

#[test]
fn root_round_trip() {
    let (mut h, _) = Heap::init(None, MIB).unwrap();
    let a = h.malloc(64).unwrap();
    h.set_root(ptr_of(a), 3);
    assert_eq!(h.get_root(3), Ok(a));
}

#[test]
fn unset_root_is_invalid() {
    let (h, _) = Heap::init(None, MIB).unwrap();
    assert_eq!(h.get_root(5), Err(AllocError::InvalidRoot));
}

#[test]
fn out_of_bounds_root_is_invalid() {
    let (h, _) = Heap::init(None, MIB).unwrap();
    assert_eq!(h.get_root(64), Err(AllocError::InvalidRoot));
    assert_eq!(h.get_root(10000), Err(AllocError::InvalidRoot));
}

#[test]
fn crash_and_recover_keeps_roots() {
    let (mut h, _) = Heap::init(None, MIB).unwrap();
    let a = h.malloc(64).unwrap();
    h.set_root(ptr_of(a), 3);
    // Simulated crash: surrender the region without closing it.
    let region = h.into_region();
    assert!(region.dirty());
    let (mut h2, existed) = Heap::init(Some(region), MIB).unwrap();
    assert!(existed);
    assert_eq!(h2.recover(), Ok(true));
    assert_eq!(h2.get_root(3), Ok(a));
    // The heap serves allocations again after reconciliation.
    assert!(h2.malloc(64).is_ok());
}

#[test]
fn clean_close_and_reopen_needs_no_repair() {
    let (mut h, _) = Heap::init(None, MIB).unwrap();
    let a = h.malloc(200).unwrap();
    h.set_root(ptr_of(a), 0);
    h.close();
    let region = h.into_region();
    assert!(!region.dirty());
    let used = region.used();
    let (mut h2, existed) = Heap::init(Some(region), MIB).unwrap();
    assert!(existed);
    assert_eq!(h2.recover(), Ok(false));
    assert_eq!(h2.used(), used);
    assert_eq!(h2.get_root(0), Ok(a));
    let b = h2.malloc(200).unwrap();
    assert_ne!(a, b);
}

#[test]
fn recovery_preserves_live_blocks_across_crash() {
    let (mut h, _) = Heap::init(None, MIB).unwrap();
    let a1 = h.malloc(64).unwrap();
    let _a2 = h.malloc(64).unwrap();
    h.free(ptr_of(a1));
    let used = h.used();
    let region = h.into_region();
    let (mut h2, _) = Heap::init(Some(region), MIB).unwrap();
    assert_eq!(h2.recover(), Ok(true));
    assert_eq!(h2.used(), used);
    // The freed block is still free: a fresh allocation may take it.
    let a3 = h2.malloc(64).unwrap();
    assert!(a3 >= HEADER && a3 + 64 <= MIB);
}

fn one_superblock_region(desc: Descriptor, free_blocks: Vec<usize>, dirty: bool) -> SuperBlockRegion {
    let sb = SuperBlock::new(SBS, Pointer::from_addr(HEADER).unwrap(), free_blocks);
    SuperBlockRegion::from_parts(HEADER + SBS, 0, dirty, vec![0; 64], vec![sb], vec![desc])
}

#[test]
fn recovery_leaks_an_inconsistent_superblock() {
    // The anchor claims five free blocks; the stack holds one. The
    // reconciliation must retire the superblock as full rather than reuse it.
    let d = Descriptor::new(anchor::pack(0, 5, BlockState::Empty), 0, SBS);
    let region = one_superblock_region(d, vec![0], true);
    let (mut h, existed) = Heap::init(Some(region), HEADER + SBS).unwrap();
    assert!(existed);
    assert_eq!(h.recover(), Ok(true));
    assert_eq!(h.malloc(64), Err(AllocError::OutOfMemory));
    assert_eq!(h.used(), SBS);
}

#[test]
fn recovery_accepts_a_consistent_superblock() {
    let d = Descriptor::new(anchor::pack(0, 1, BlockState::Empty), 0, SBS);
    let region = one_superblock_region(d, vec![0], true);
    let (mut h, _) = Heap::init(Some(region), HEADER + SBS).unwrap();
    assert_eq!(h.recover(), Ok(true));
    assert!(h.malloc(64).is_ok());
}

#[test]
fn recovery_rejects_a_broken_carving() {
    // A block size that does not belong to the declared size class is not
    // repairable metadata: the whole heap is refused.
    let d = Descriptor::new(anchor::pack(0, 1, BlockState::Empty), 1, 100);
    let region = one_superblock_region(d, vec![0], true);
    let (mut h, _) = Heap::init(Some(region), HEADER + SBS).unwrap();
    assert_eq!(h.recover(), Err(AllocError::CorruptHeap));
}

#[test]
fn recovery_rejects_mismatched_tables() {
    let sb = SuperBlock::new(SBS, Pointer::from_addr(HEADER).unwrap(), vec![0]);
    let region = SuperBlockRegion::from_parts(HEADER + SBS, 0, true, vec![0; 64], vec![sb], vec![]);
    let (mut h, _) = Heap::init(Some(region), HEADER + SBS).unwrap();
    assert_eq!(h.recover(), Err(AllocError::CorruptHeap));
}

#[test]
fn init_rejects_undersized_or_mismatched_regions() {
    assert_eq!(Heap::init(None, 1000).err(), Some(AllocError::IoError));
    assert_eq!(Heap::init(None, HEADER).err(), Some(AllocError::IoError));
    let (h, _) = Heap::init(None, MIB).unwrap();
    let region = h.into_region();
    assert_eq!(
        Heap::init(Some(region), 2 * MIB).err(),
        Some(AllocError::IoError)
    );
}

#[test]
fn region_size_is_rounded_to_whole_superblocks() {
    let (h, _) = Heap::init(None, MIB + 1000).unwrap();
    assert_eq!(h.size(), MIB);
}

#[test]
fn validate_pair_checks_the_anchor_against_the_stack() {
    let good = Descriptor::new(anchor::pack(0, 1, BlockState::Empty), 0, SBS);
    let sb = SuperBlock::new(SBS, Pointer::from_addr(HEADER).unwrap(), vec![0]);
    assert!(validate_pair(&good, &sb));
    // Count disagrees with the stack depth.
    let bad_count = Descriptor::new(anchor::pack(0, 2, BlockState::Empty), 0, SBS);
    assert!(!validate_pair(&bad_count, &sb));
    // Head disagrees with the stack top.
    let bad_head = Descriptor::new(anchor::pack(7, 1, BlockState::Empty), 0, SBS);
    assert!(!validate_pair(&bad_head, &sb));
    // State disagrees with the count.
    let bad_state = Descriptor::new(anchor::pack(0, 1, BlockState::Full), 0, SBS);
    assert!(!validate_pair(&bad_state, &sb));
    // A duplicated block index on the stack.
    let sb_dup = SuperBlock::new(SBS, Pointer::from_addr(HEADER).unwrap(), vec![3, 3]);
    let d_dup = Descriptor::new(anchor::pack(3, 2, BlockState::Partial), 1, 64);
    assert!(!validate_pair(&d_dup, &sb_dup));
}

#[test]
fn pointer_handles_are_non_null() {
    assert!(Pointer::<u8>::from_addr(0).is_none());
    let p = Pointer::<u8>::from_addr(77).unwrap();
    assert_eq!(p.addr(), 77);
}

#[test]
fn superblock_converts_to_its_start_pointer() {
    let sb = SuperBlock::new(SBS, Pointer::from_addr(HEADER).unwrap(), vec![0]);
    let p: Pointer<u8> = Pointer::from(sb);
    assert_eq!(p.addr(), HEADER);
}

#[test]
fn blocks_of_different_classes_do_not_collide() {
    let (mut h, _) = Heap::init(None, MIB).unwrap();
    let a = h.malloc(64).unwrap();
    let b = h.malloc(5000).unwrap();
    let c = h.malloc(64).unwrap();
    assert!(a + 64 <= b || b + 8192 <= a);
    assert!(c + 64 <= b || b + 8192 <= c);
    assert_ne!(a, c);
}

#[test]
fn drained_superblock_returns_through_partial_and_free_lists() {
    let (mut h, _) = Heap::init(None, MIB).unwrap();
    // Fill one superblock completely: 1024 blocks of 64 bytes.
    let mut first: Vec<usize> = Vec::new();
    for _ in 0..1024 {
        first.push(h.malloc(64).unwrap());
    }
    assert_eq!(h.used(), 1024 * 64);
    // The next allocation must come from a different superblock.
    let spill = h.malloc(64).unwrap();
    assert!(first.iter().all(|&a| a != spill));
    // Give one block of the full superblock back: it becomes findable again.
    let back = first.pop().unwrap();
    h.free(ptr_of(back));
    // Give the rest back too: the superblock empties and leaves its class,
    // so an oversized request can take it whole.
    for a in first {
        h.free(ptr_of(a));
    }
    assert_eq!(h.used(), 64);
    let big = h.malloc(50000).unwrap();
    assert!(big >= HEADER && big + 65536 <= MIB);
    assert_eq!(h.used(), 64 + 65536);
}

#[test]
fn failed_allocation_leaves_the_heap_untouched() {
    let (mut h, _) = Heap::init(None, HEADER + SBS).unwrap();
    let a = h.malloc(32768).unwrap();
    let b = h.malloc(32768).unwrap();
    assert_ne!(a, b);
    let used = h.used();
    assert_eq!(h.malloc(64), Err(AllocError::OutOfMemory));
    assert_eq!(h.used(), used);
    h.free(ptr_of(a));
    // The freed block serves its own size class again; smaller classes still
    // find no empty superblock to carve.
    assert_eq!(h.malloc(64), Err(AllocError::OutOfMemory));
    assert_eq!(h.malloc(32768), Ok(a));
}
