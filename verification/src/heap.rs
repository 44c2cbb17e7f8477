//! The allocator: region, heap state, and the allocation protocol.
//!
//! A `SuperBlockRegion` is the persisted heap image: the fixed header fields
//! (size, used bytes, dirty flag), the root table, the superblock table, and
//! the descriptor table. A `Heap` owns one region together with the
//! transient search structures — the global free list, the per-size-class
//! partial lists, and the per-size-class active superblock — which are
//! reconstructed from the persisted anchors whenever a region is reopened.
//!
//! The ownership discipline: at any observable instant a descriptor is
//! reachable from at most one of the global free list, its class's partial
//! list, and its class's active slot; `Empty` descriptors sit on the free
//! list, `Partial` ones on their partial list or in the active slot, and
//! `Full` ones only in the active slot, if anywhere.

use crate::anchor;
use crate::anchor::BlockState;
use crate::block;
use crate::block::Descriptor;
use crate::block::SuperBlock;
use crate::layout;
use crate::layout::HEADER_SIZE;
use crate::layout::NUM_CLASSES;
use crate::layout::ROOT_COUNT;
use crate::layout::SUPERBLOCK_SIZE;
use crate::ptr::Pointer;
use crate::stack::PartialList;
use crate::stack::SuperBlockFreeList;
use crate::AllocError;
use vstd::arithmetic::div_mod::lemma_fundamental_div_mod;
use vstd::prelude::*;

verus! {

/// The persisted heap image: header, root table, superblock table, and
/// descriptor table. The descriptor and superblock strides, the root-table
/// size, and the superblock size are fixed for a region's whole life;
/// reopening trusts this exact layout.
pub struct SuperBlockRegion {
    size: usize,
    used: usize,
    dirty: bool,
    roots: Vec<usize>,
    superblocks: Vec<SuperBlock>,
    descriptors: Vec<Descriptor>,
}

impl SuperBlockRegion {
    /// Total bytes the region spans, header included.
    pub closed spec fn size_spec(&self) -> usize {
        self.size
    }

    /// Bytes currently allocated out of the region.
    pub closed spec fn used_spec(&self) -> usize {
        self.used
    }

    /// The persisted dirty flag: set while a session is open, cleared by a
    /// clean close.
    pub closed spec fn dirty_spec(&self) -> bool {
        self.dirty
    }

    /// The persistent root table.
    pub closed spec fn roots_spec(&self) -> Seq<usize> {
        self.roots@
    }

    /// The superblock table.
    pub closed spec fn sbs_spec(&self) -> Seq<SuperBlock> {
        self.superblocks@
    }

    /// The descriptor table.
    pub closed spec fn descs_spec(&self) -> Seq<Descriptor> {
        self.descriptors@
    }

    /// Assemble a region image from plain parts, as read back from storage.
    /// No consistency is checked here; adoption and recovery do that.
    pub fn from_parts(
        size: usize,
        used: usize,
        dirty: bool,
        roots: Vec<usize>,
        superblocks: Vec<SuperBlock>,
        descriptors: Vec<Descriptor>,
    ) -> (r: SuperBlockRegion)
        ensures
            r.size_spec() == size,
            r.used_spec() == used,
            r.dirty_spec() == dirty,
            r.roots_spec() == roots@,
            r.sbs_spec() == superblocks@,
            r.descs_spec() == descriptors@,
    {
        SuperBlockRegion { size, used, dirty, roots, superblocks, descriptors }
    }

    /// Total bytes the region spans.
    pub fn size(&self) -> (r: usize)
        ensures
            r == self.size_spec(),
    {
        self.size
    }

    /// Bytes currently allocated.
    pub fn used(&self) -> (r: usize)
        ensures
            r == self.used_spec(),
    {
        self.used
    }

    /// Whether the region was left dirty.
    pub fn dirty(&self) -> (r: bool)
        ensures
            r == self.dirty_spec(),
    {
        self.dirty
    }

    /// The root table.
    pub fn roots(&self) -> (r: &Vec<usize>)
        ensures
            r@ == self.roots_spec(),
    {
        &self.roots
    }

    /// Number of superblocks in the region.
    pub fn superblock_count(&self) -> (r: usize)
        ensures
            r == self.sbs_spec().len(),
    {
        self.superblocks.len()
    }

    /// The superblock at a table position.
    pub fn superblock_at(&self, i: usize) -> (r: &SuperBlock)
        requires
            i < self.sbs_spec().len(),
        ensures
            r == self.sbs_spec()[i as int],
    {
        &self.superblocks[i]
    }

    /// The descriptor at a table position.
    pub fn descriptor_at(&self, i: usize) -> (r: &Descriptor)
        requires
            i < self.descs_spec().len(),
        ensures
            r == self.descs_spec()[i as int],
    {
        &self.descriptors[i]
    }
}

/// Bytes live (allocated) in the superblock a descriptor describes.
pub open spec fn live_bytes(d: Descriptor) -> int {
    (layout::class_blocks(d.size_class_spec() as int) - d.count()) * layout::class_size(
        d.size_class_spec() as int,
    )
}

/// Bytes free in the superblock a descriptor describes.
pub open spec fn free_bytes(d: Descriptor) -> int {
    d.count() * layout::class_size(d.size_class_spec() as int)
}

/// Total live bytes over a descriptor table.
pub open spec fn total_live(descs: Seq<Descriptor>) -> int
    decreases descs.len(),
{
    if descs.len() == 0 {
        0
    } else {
        total_live(descs.drop_last()) + live_bytes(descs.last())
    }
}

/// Total free bytes over a descriptor table.
pub open spec fn total_free(descs: Seq<Descriptor>) -> int
    decreases descs.len(),
{
    if descs.len() == 0 {
        0
    } else {
        total_free(descs.drop_last()) + free_bytes(descs.last())
    }
}

/// Updating one descriptor moves the live-byte total by that descriptor's
/// own change.
pub proof fn lemma_total_live_update(descs: Seq<Descriptor>, i: int, d: Descriptor)
    requires
        0 <= i < descs.len(),
    ensures
        total_live(descs.update(i, d)) == total_live(descs) - live_bytes(descs[i]) + live_bytes(d),
    decreases descs.len(),
{
    let upd = descs.update(i, d);
    if i == descs.len() - 1 {
        assert(upd.drop_last() =~= descs.drop_last());
    } else {
        assert(upd.drop_last() =~= descs.drop_last().update(i, d));
        assert(upd.last() == descs.last());
        lemma_total_live_update(descs.drop_last(), i, d);
    }
}

/// Live plus free bytes of every well-carved descriptor is one superblock.
pub proof fn lemma_live_free_one(d: Descriptor)
    requires
        0 <= d.count() <= layout::class_blocks(d.size_class_spec() as int),
        d.block_size_spec() == layout::class_size(d.size_class_spec() as int),
    ensures
        live_bytes(d) + free_bytes(d) == SUPERBLOCK_SIZE,
        0 <= live_bytes(d),
        0 <= free_bytes(d),
{
    let sc = d.size_class_spec() as int;
    let bs = layout::class_size(sc);
    let bps = layout::class_blocks(sc);
    let c = d.count();
    layout::lemma_class_geometry(sc);
    assert((bps - c) * bs + c * bs == bps * bs) by (nonlinear_arith);
    assert(bps * bs == bs * bps) by (nonlinear_arith);
    assert(0 <= (bps - c) * bs) by (nonlinear_arith)
        requires
            0 <= bps - c && 0 <= bs,
    ;
    assert(0 <= c * bs) by (nonlinear_arith)
        requires
            0 <= c && 0 <= bs,
    ;
}

/// Conservation over a whole well-formed descriptor table: live bytes plus
/// free capacity is exactly the superblock payload area — the region's
/// capacity minus its fixed metadata overhead.
pub proof fn lemma_conservation(descs: Seq<Descriptor>)
    requires
        forall|i: int|
            0 <= i < descs.len() ==> 0 <= (#[trigger] descs[i]).count() <= layout::class_blocks(
                descs[i].size_class_spec() as int,
            ),
        forall|i: int|
            0 <= i < descs.len() ==> (#[trigger] descs[i]).block_size_spec()
                == layout::class_size(descs[i].size_class_spec() as int),
    ensures
        total_live(descs) + total_free(descs) == descs.len() * SUPERBLOCK_SIZE,
        0 <= total_live(descs),
        0 <= total_free(descs),
    decreases descs.len(),
{
    if descs.len() == 0 {
    } else {
        lemma_conservation(descs.drop_last());
        lemma_live_free_one(descs.last());
        assert(descs.len() * (SUPERBLOCK_SIZE as int) == (descs.len() - 1) * (
        SUPERBLOCK_SIZE as int) + SUPERBLOCK_SIZE) by (nonlinear_arith);
    }
}

/// The allocator: the persisted region plus the transient search state.
pub struct Heap {
    region: SuperBlockRegion,
    free_list: SuperBlockFreeList,
    partial_lists: Vec<PartialList>,
    active: Vec<usize>,
    ready: bool,
    pending_recovery: bool,
    opened_dirty: bool,
}

impl Heap {
    /// Number of superblocks (and descriptors).
    pub closed spec fn n(&self) -> int {
        self.region.superblocks@.len() as int
    }

    /// The descriptor table.
    pub closed spec fn descs(&self) -> Seq<Descriptor> {
        self.region.descriptors@
    }

    /// The superblock table.
    pub closed spec fn sbs(&self) -> Seq<SuperBlock> {
        self.region.superblocks@
    }

    /// Total bytes the region spans.
    pub closed spec fn size_spec(&self) -> usize {
        self.region.size
    }

    /// Bytes currently allocated.
    pub closed spec fn used_spec(&self) -> usize {
        self.region.used
    }

    /// The persisted dirty flag.
    pub closed spec fn dirty_spec(&self) -> bool {
        self.region.dirty
    }

    /// The root table.
    pub closed spec fn roots_view(&self) -> Seq<usize> {
        self.region.roots@
    }

    /// The global free list's contents.
    pub closed spec fn free_entries(&self) -> Seq<usize> {
        self.free_list.entries()
    }

    /// A size class's partial list's contents.
    pub closed spec fn partial_entries(&self, sc: int) -> Seq<usize> {
        self.partial_lists@[sc].entries()
    }

    /// A size class's active slot: descriptor index plus one, `0` for none.
    pub closed spec fn active_of(&self, sc: int) -> int {
        self.active@[sc] as int
    }

    /// Whether the heap may serve allocation traffic: a freshly created or
    /// cleanly reopened heap is ready at once; a heap reopened from an
    /// unclean shutdown is ready only after `recover`.
    pub closed spec fn is_ready(&self) -> bool {
        self.ready
    }

    /// Whether a reopened region still awaits reconciliation.
    pub closed spec fn needs_recovery(&self) -> bool {
        self.pending_recovery
    }

    /// Whether the region carried a set dirty flag when it was adopted: the
    /// mark of a session that ended without a clean close.
    pub closed spec fn opened_dirty_spec(&self) -> bool {
        self.opened_dirty
    }

    /// Table geometry: the tables exist, agree in length, and the region
    /// spans exactly the header plus the superblock table.
    pub open spec fn geometry_wf(&self) -> bool {
        &&& 1 <= self.n() <= 0xffff_ffff
        &&& self.sbs().len() == self.n()
        &&& self.descs().len() == self.n()
        &&& self.size_spec() == HEADER_SIZE + self.n() * SUPERBLOCK_SIZE
        &&& self.roots_view().len() == ROOT_COUNT
        &&& self.partial_lists_len() == NUM_CLASSES + 1
        &&& self.active_len() == NUM_CLASSES + 1
    }

    /// Length of the partial-list table.
    pub closed spec fn partial_lists_len(&self) -> int {
        self.partial_lists@.len() as int
    }

    /// Length of the active-slot table.
    pub closed spec fn active_len(&self) -> int {
        self.active@.len() as int
    }

    /// Every descriptor/superblock pair is well formed and the used counter
    /// equals the live-byte total.
    pub open spec fn pairs_wf(&self) -> bool {
        &&& forall|i: int|
            0 <= i < self.n() ==> block::pair_wf(#[trigger] self.descs()[i], self.sbs()[i], i)
        &&& self.used_spec() == total_live(self.descs())
    }

    /// The free list holds valid, `Empty` descriptors, each at most once.
    pub open spec fn free_list_wf(&self) -> bool {
        &&& self.free_entries().no_duplicates()
        &&& forall|k: int|
            0 <= k < self.free_entries().len() ==> (#[trigger] self.free_entries()[k]) < self.n()
                && self.descs()[self.free_entries()[k] as int].has_state(BlockState::Empty)
    }

    /// Each partial list holds valid, `Partial` descriptors of its own size
    /// class, each at most once; the class-0 list stays empty.
    pub open spec fn partial_lists_wf(&self) -> bool {
        &&& self.partial_entries(0).len() == 0
        &&& forall|sc: int| 0 <= sc <= NUM_CLASSES ==> (#[trigger] self.partial_entries(
            sc,
        )).no_duplicates()
        &&& forall|sc: int, k: int|
            1 <= sc <= NUM_CLASSES && 0 <= k < self.partial_entries(sc).len() ==> (
            #[trigger] self.partial_entries(sc)[k]) < self.n() && self.descs()[self.partial_entries(
                sc,
            )[k] as int].has_state(BlockState::Partial) && self.descs()[self.partial_entries(
                sc,
            )[k] as int].size_class_spec() == sc
    }

    /// Each active slot, when set, names a valid descriptor of its own size
    /// class that is `Partial` or `Full` and is not also on the partial
    /// list; class 0 has no active slot.
    pub open spec fn active_wf(&self) -> bool {
        &&& self.active_of(0) == 0
        &&& forall|sc: int|
            0 <= sc <= NUM_CLASSES && #[trigger] self.active_of(sc) != 0 ==> {
                let d = self.active_of(sc) - 1;
                &&& d < self.n()
                &&& self.descs()[d].size_class_spec() == sc
                &&& (self.descs()[d].has_state(BlockState::Partial) || self.descs()[d].has_state(
                    BlockState::Full,
                ))
                &&& !self.partial_entries(sc).contains((d) as usize)
            }
    }

    /// On a ready heap the lists are complete: every `Empty` descriptor is
    /// findable on the free list and every `Partial` one through its class's
    /// partial list or active slot. This is what makes an out-of-memory
    /// verdict honest.
    pub open spec fn lists_complete(&self) -> bool {
        &&& forall|i: int|
            0 <= i < self.n() && (#[trigger] self.descs()[i]).has_state(BlockState::Empty)
                ==> self.free_entries().contains(i as usize)
        &&& forall|i: int|
            0 <= i < self.n() && (#[trigger] self.descs()[i]).has_state(BlockState::Partial) ==> {
                let sc = self.descs()[i].size_class_spec() as int;
                self.partial_entries(sc).contains(i as usize) || self.active_of(sc) == i + 1
            }
    }

    /// The heap invariant.
    pub open spec fn wf(&self) -> bool {
        &&& self.geometry_wf()
        &&& self.pairs_wf()
        &&& self.free_list_wf()
        &&& self.partial_lists_wf()
        &&& self.active_wf()
        &&& (self.is_ready() ==> self.lists_complete())
        &&& (self.is_ready() ==> !self.needs_recovery())
    }

    /// Block `b` of superblock `i` is live: allocated and not yet freed.
    pub open spec fn live_at(&self, i: int, b: int) -> bool {
        &&& 0 <= i < self.n()
        &&& block::is_live(self.descs()[i], self.sbs()[i], b)
    }

    /// Whether an allocation of `size` bytes can currently be served: some
    /// superblock of the right class has a free block, or an empty
    /// superblock can be carved.
    pub open spec fn can_alloc(&self, size: usize) -> bool {
        let sc = layout::spec_size_class(size as int);
        if sc == 0 {
            size <= SUPERBLOCK_SIZE && self.free_entries().len() > 0
        } else {
            ||| (self.active_of(sc) != 0 && self.descs()[self.active_of(sc) - 1].count() > 0)
            ||| self.partial_entries(sc).len() > 0
            ||| self.free_entries().len() > 0
        }
    }

    /// What a successful allocation of class `sc` at address `a` did to the
    /// heap: the address names a block of that class, the block went from
    /// free to live, no other block's liveness moved, and the used counter
    /// grew by exactly one block.
    pub open spec fn alloc_post(pre: &Heap, post: &Heap, sc: int, a: usize) -> bool {
        let i = layout::spec_sb_index(a as int);
        let bs = layout::class_size(sc);
        let b = layout::spec_sb_offset(a as int) / bs;
        &&& post.wf()
        &&& post.is_ready()
        &&& post.roots_view() == pre.roots_view()
        &&& post.size_spec() == pre.size_spec()
        &&& post.dirty_spec() == pre.dirty_spec()
        &&& post.n() == pre.n()
        &&& 0 <= i < post.n()
        &&& post.descs()[i].size_class_spec() == sc
        &&& post.descs()[i].block_size_spec() == bs
        &&& 0 <= b < layout::class_blocks(sc)
        &&& a == layout::block_addr(i, b, bs)
        &&& HEADER_SIZE <= a
        &&& a + bs <= post.size_spec()
        &&& !pre.live_at(i, b)
        &&& post.live_at(i, b)
        &&& post.owns_live_block(a)
        &&& forall|j: int, c: int|
            !(j == i && c == b) ==> #[trigger] post.live_at(j, c) == pre.live_at(j, c)
        &&& forall|j: int|
            0 <= j < post.n() && j != i ==> #[trigger] post.descs()[j] == pre.descs()[j]
                && post.sbs()[j] == pre.sbs()[j]
        &&& (sc != 0 ==> post.active_of(sc) == i + 1)
        &&& post.used_spec() == pre.used_spec() + bs
    }

    /// Composition of an allocation's effect across a preparatory step that
    /// moved only descriptors between lists: what `alloc_post` says against
    /// the intermediate state it also says against the state before it.
    proof fn lemma_alloc_post_compose(pre: &Heap, mid: &Heap, post: &Heap, sc: int, a: usize)
        requires
            Heap::alloc_post(mid, post, sc, a),
            mid.descs() == pre.descs(),
            mid.sbs() == pre.sbs(),
            mid.n() == pre.n(),
            mid.used_spec() == pre.used_spec(),
            mid.size_spec() == pre.size_spec(),
            mid.dirty_spec() == pre.dirty_spec(),
            mid.roots_view() == pre.roots_view(),
        ensures
            Heap::alloc_post(pre, post, sc, a),
    {
        assert forall|j: int, c: int| #[trigger] mid.live_at(j, c) == pre.live_at(j, c) by {}
    }

    /// Pop one block from the active superblock of size class `sc`: read
    /// the anchor's head, take that block, and move head and count together
    /// in one packed-anchor update.
    fn take_block(&mut self, i: usize, sc: usize) -> (a: usize)
        requires
            old(self).wf(),
            old(self).is_ready(),
            1 <= sc <= NUM_CLASSES,
            old(self).active_of(sc as int) == i + 1,
            i < old(self).n(),
            old(self).descs()[i as int].count() > 0,
        ensures
            Heap::alloc_post(old(self), final(self), sc as int, a),
            final(self).same_lists(old(self)),
            a == layout::block_addr(
                i as int,
                old(self).descs()[i as int].head(),
                layout::class_size(sc as int),
            ),
            final(self).descs()[i as int].count() == old(self).descs()[i as int].count() - 1,
    {
        let ghost pre = *self;
        let ghost ii = i as int;
        proof {
            assert(block::pair_wf(pre.descs()[ii], pre.sbs()[ii], ii));
            block::lemma_count_within_capacity(pre.descs()[ii], pre.sbs()[ii]);
            layout::lemma_class_geometry(sc as int);
        }
        let ghost fb = pre.sbs()[ii].free_blocks();
        let bs = self.region.descriptors[i].block_size();
        let c0 = anchor::count_of(self.region.descriptors[i].anchor());
        let bps = layout::class_block_count(sc);
        let b = match self.region.superblocks[i].pop_free() {
            Some(bb) => bb,
            None => {
                proof {
                    assert(false);
                }
                0
            },
        };
        let new_c = c0 - 1;
        let new_head = if new_c == 0 {
            0
        } else {
            match self.region.superblocks[i].top_free() {
                Some(h) => h,
                None => {
                    proof {
                        assert(false);
                    }
                    0
                },
            }
        };
        let st = anchor::state_for_count(new_c, bps);
        let d2 = Descriptor::new(anchor::pack(new_head, new_c, st), sc, bs);
        self.region.descriptors[i] = d2;
        proof {
            let post_fb = self.sbs()[ii].free_blocks();
            assert(post_fb =~= fb.drop_last());
            assert(block::chain_wf(d2, self.sbs()[ii]));
            assert(block::pair_wf(d2, self.sbs()[ii], ii));
            // The block leaves the free stack for good: it was only at the top.
            assert(!post_fb.contains(b)) by {
                if post_fb.contains(b) {
                    let k = choose|k: int| 0 <= k < post_fb.len() && post_fb[k] == b;
                    assert(fb[k] == fb[fb.len() - 1]);
                }
            }
            // Accounting.
            let bsi = bs as int;
            assert(live_bytes(d2) == live_bytes(pre.descs()[ii]) + bsi) by {
                assert((bps - new_c) * bsi == (bps - c0) * bsi + bsi) by (nonlinear_arith)
                    requires
                        new_c == c0 - 1,
                ;
            }
            lemma_total_live_update(pre.descs(), ii, d2);
            assert forall|j: int| 0 <= j < self.n() implies block::pair_wf(
                #[trigger] self.descs()[j],
                self.sbs()[j],
                j,
            ) by {
                if j != ii {
                    assert(block::pair_wf(pre.descs()[j], pre.sbs()[j], j));
                }
            }
            assert forall|j: int|
                0 <= j < self.n() implies 0 <= (#[trigger] self.descs()[j]).count()
                <= layout::class_blocks(self.descs()[j].size_class_spec() as int) by {
                block::lemma_count_within_capacity(self.descs()[j], self.sbs()[j]);
            }
            lemma_conservation(self.descs());
            assert(total_live(self.descs()) == pre.used_spec() + bsi);
            assert(total_live(self.descs()) + HEADER_SIZE <= self.size_spec()) by {
                vstd::arithmetic::mul::lemma_mul_inequality(
                    self.n(),
                    self.n(),
                    SUPERBLOCK_SIZE as int,
                );
            }
        }
        self.region.used = self.region.used + bs;
        let start = self.region.superblocks[i].start_addr();
        proof {
            layout::lemma_block_in_sb(b as int, bs as int, bps as int);
            vstd::arithmetic::mul::lemma_mul_inequality(ii + 1, self.n(), SUPERBLOCK_SIZE as int);
            assert((ii + 1) * SUPERBLOCK_SIZE == ii * SUPERBLOCK_SIZE + SUPERBLOCK_SIZE)
                by (nonlinear_arith);
        }
        let a = start + b * bs;
        proof {
            layout::lemma_locate_block(ii, b as int, bs as int, bps as int);
            let post = self;
            // Liveness frame within superblock i.
            assert forall|c: int|
                c != b ==> #[trigger] post.live_at(ii, c) == pre.live_at(ii, c) by {
                if c != b && 0 <= c < bps {
                    let post_fb = post.sbs()[ii].free_blocks();
                    if fb.contains(c as usize) {
                        let k = choose|k: int| 0 <= k < fb.len() && fb[k] == c as usize;
                        assert(k != fb.len() - 1);
                        assert(post_fb[k] == c as usize);
                    }
                    if post_fb.contains(c as usize) {
                        let k = choose|k: int| 0 <= k < post_fb.len() && post_fb[k] == c as usize;
                        assert(fb[k] == c as usize);
                    }
                }
            }
            // The lists still hold what they held, and every member's state
            // is untouched: the replaced descriptor was the active one.
            assert(pre.descs()[ii].has_state(BlockState::Partial));
            assert forall|k: int|
                0 <= k < post.free_entries().len() implies (#[trigger] post.free_entries()[k])
                < post.n() && post.descs()[post.free_entries()[k] as int].has_state(
                BlockState::Empty,
            ) by {
                assert(post.free_entries()[k] != i);
            }
            assert forall|sc2: int, k: int|
                1 <= sc2 <= NUM_CLASSES && 0 <= k < post.partial_entries(sc2).len() implies (
            #[trigger] post.partial_entries(sc2)[k]) < post.n() && post.descs()[post.partial_entries(
                sc2,
            )[k] as int].has_state(BlockState::Partial) && post.descs()[post.partial_entries(
                sc2,
            )[k] as int].size_class_spec() == sc2 by {
                assert(pre.partial_entries(sc2) == post.partial_entries(sc2));
                if post.partial_entries(sc2)[k] == i {
                    assert(pre.descs()[ii].size_class_spec() == sc2);
                    assert(!pre.partial_entries(sc as int).contains(i));
                }
            }
            assert(post.active_wf()) by {
                assert forall|sc2: int|
                    0 <= sc2 <= NUM_CLASSES && #[trigger] post.active_of(sc2) != 0 implies {
                    let d = post.active_of(sc2) - 1;
                    &&& d < post.n()
                    &&& post.descs()[d].size_class_spec() == sc2
                    &&& (post.descs()[d].has_state(BlockState::Partial)
                        || post.descs()[d].has_state(BlockState::Full))
                    &&& !post.partial_entries(sc2).contains((d) as usize)
                } by {
                    assert(post.active_of(sc2) == pre.active_of(sc2));
                    assert(post.partial_entries(sc2) == pre.partial_entries(sc2));
                }
            }
            assert(post.lists_complete()) by {
                assert forall|j: int|
                    0 <= j < post.n() && (#[trigger] post.descs()[j]).has_state(
                        BlockState::Empty,
                    ) implies post.free_entries().contains(j as usize) by {
                    assert(j != ii);
                }
                assert forall|j: int|
                    0 <= j < post.n() && (#[trigger] post.descs()[j]).has_state(
                        BlockState::Partial,
                    ) implies {
                    let sc2 = post.descs()[j].size_class_spec() as int;
                    post.partial_entries(sc2).contains(j as usize) || post.active_of(sc2) == j + 1
                } by {
                    if j != ii {
                        assert(pre.descs()[j].has_state(BlockState::Partial));
                        assert(pre.partial_entries(pre.descs()[j].size_class_spec() as int)
                            == post.partial_entries(post.descs()[j].size_class_spec() as int));
                    }
                }
            }
            assert(post.wf());
            assert forall|sc2: int| 0 <= sc2 <= NUM_CLASSES implies #[trigger] post.partial_entries(
                sc2,
            ) == pre.partial_entries(sc2) by {}
            assert forall|sc2: int| 0 <= sc2 <= NUM_CLASSES implies #[trigger] post.active_of(sc2)
                == pre.active_of(sc2) by {}
        }
        a
    }

    /// Adopt the top of size class `sc`'s partial list as the class's
    /// active superblock.
    fn adopt_partial(&mut self, sc: usize)
        requires
            old(self).wf(),
            old(self).is_ready(),
            1 <= sc <= NUM_CLASSES,
            old(self).active_of(sc as int) == 0,
            old(self).partial_entries(sc as int).len() > 0,
        ensures
            final(self).wf(),
            final(self).is_ready(),
            final(self).same_storage(old(self)),
            final(self).roots_view() == old(self).roots_view(),
            final(self).descs() == old(self).descs(),
            final(self).sbs() == old(self).sbs(),
            final(self).n() == old(self).n(),
            final(self).active_of(sc as int) != 0,
            final(self).active_of(sc as int) - 1 < final(self).n(),
            final(self).active_of(sc as int) == old(self).partial_entries(sc as int).last() + 1,
            final(self).partial_entries(sc as int) == old(self).partial_entries(
                sc as int,
            ).drop_last(),
            final(self).descs()[final(self).active_of(sc as int) - 1].count() > 0,
    {
        let ghost pre = *self;
        let d = match self.partial_lists[sc].pop() {
            Some(dd) => dd,
            None => {
                proof {
                    assert(false);
                }
                0
            },
        };
        let ghost ii = d as int;
        proof {
            let ent = pre.partial_entries(sc as int);
            assert(ent[ent.len() - 1] == d);
            assert(d < pre.n() && pre.descs()[ii].has_state(BlockState::Partial) && pre.descs()[
                ii
            ].size_class_spec() == sc);
            assert(block::pair_wf(pre.descs()[ii], pre.sbs()[ii], ii));
        }
        self.active[sc] = d + 1;
        proof {
            let post = self;
            let ent = pre.partial_entries(sc as int);
            assert(post.partial_entries(sc as int) =~= ent.drop_last());
            assert(pre.descs()[ii].count() > 0);
            assert forall|sc2: int|
                0 <= sc2 <= NUM_CLASSES && sc2 != sc ==> #[trigger] post.partial_entries(sc2)
                    == pre.partial_entries(sc2) by {}
            assert forall|sc2: int|
                0 <= sc2 <= NUM_CLASSES && sc2 != sc ==> #[trigger] post.active_of(sc2)
                    == pre.active_of(sc2) by {}
            assert(!post.partial_entries(sc as int).contains(d)) by {
                if post.partial_entries(sc as int).contains(d) {
                    let k = choose|k: int| 0 <= k < ent.len() - 1 && ent.drop_last()[k] == d;
                    assert(ent[k] == ent[ent.len() - 1]);
                }
            }
            assert(post.lists_complete()) by {
                assert forall|j: int|
                    0 <= j < post.n() && (#[trigger] post.descs()[j]).has_state(
                        BlockState::Partial,
                    ) implies {
                    let sc2 = post.descs()[j].size_class_spec() as int;
                    post.partial_entries(sc2).contains(j as usize) || post.active_of(sc2) == j + 1
                } by {
                    let sc2 = post.descs()[j].size_class_spec() as int;
                    if sc2 == sc {
                        if j != ii {
                            assert(ent.contains(j as usize));
                            let k = choose|k: int| 0 <= k < ent.len() && ent[k] == j as usize;
                            assert(k != ent.len() - 1);
                            assert(ent.drop_last()[k] == j as usize);
                        }
                    }
                }
            }
            assert(post.wf());
        }
    }

    /// Pull an empty superblock off the global free list and carve it for
    /// size class `sc`: dedicate every block to that class, hand out block
    /// `0`, and leave the rest on the free-block stack with the superblock
    /// adopted as the class's active superblock.
    fn carve_from_free(&mut self, sc: usize) -> (a: usize)
        requires
            old(self).wf(),
            old(self).is_ready(),
            1 <= sc <= NUM_CLASSES,
            old(self).active_of(sc as int) == 0,
            old(self).free_entries().len() > 0,
        ensures
            Heap::alloc_post(old(self), final(self), sc as int, a),
            a == layout::block_addr(
                old(self).free_entries().last() as int,
                0,
                layout::class_size(sc as int),
            ),
            final(self).free_entries() == old(self).free_entries().drop_last(),
            final(self).descs()[layout::spec_sb_index(a as int)].count() == layout::class_blocks(
                sc as int,
            ) - 1,
    {
        let ghost pre = *self;
        let d = match self.free_list.pop() {
            Some(dd) => dd,
            None => {
                proof {
                    assert(false);
                }
                0
            },
        };
        let ghost ii = d as int;
        proof {
            let ent = pre.free_entries();
            assert(ent[ent.len() - 1] == d);
            assert(d < pre.n() && pre.descs()[ii].has_state(BlockState::Empty));
            assert(block::pair_wf(pre.descs()[ii], pre.sbs()[ii], ii));
            block::lemma_count_within_capacity(pre.descs()[ii], pre.sbs()[ii]);
            let old_sc = pre.descs()[ii].size_class_spec() as int;
            layout::lemma_class_geometry(old_sc);
            layout::lemma_class_geometry(sc as int);
            assert(pre.descs()[ii].count() == layout::class_blocks(old_sc));
            block::lemma_distinct_below_full(
                pre.sbs()[ii].free_blocks(),
                layout::class_blocks(old_sc),
            );
            assert(live_bytes(pre.descs()[ii]) == 0) by {
                assert((layout::class_blocks(old_sc) - layout::class_blocks(old_sc))
                    * layout::class_size(old_sc) == 0) by (nonlinear_arith);
            }
        }
        let bs = layout::class_block_size(sc);
        let bps = layout::class_block_count(sc);
        let mut v: Vec<usize> = Vec::new();
        let mut b = bps;
        while b > 1
            invariant
                1 <= b <= bps,
                bps == layout::class_blocks(sc as int),
                bps <= 1024,
                v@.len() == bps - b,
                forall|k: int| 0 <= k < v@.len() ==> #[trigger] v@[k] == (bps - 1 - k) as usize,
            decreases b,
        {
            b = b - 1;
            v.push(b);
        }
        proof {
            assert(v@.no_duplicates()) by {
                assert forall|x: int, y: int| 0 <= x < y < v@.len() implies v@[x] != v@[y] by {
                    assert(v@[x] == (bps - 1 - x) as usize);
                    assert(v@[y] == (bps - 1 - y) as usize);
                }
            }
        }
        self.region.superblocks[d].set_free_blocks(v);
        let d2 = Descriptor::new(anchor::pack(1, bps - 1, BlockState::Partial), sc, bs);
        self.region.descriptors[d] = d2;
        self.active[sc] = d + 1;
        proof {
            let post_fb = self.sbs()[ii].free_blocks();
            assert(post_fb.last() == 1usize);
            assert(block::chain_wf(d2, self.sbs()[ii]));
            assert(block::pair_wf(d2, self.sbs()[ii], ii));
            assert(live_bytes(d2) == bs) by {
                assert((layout::class_blocks(sc as int) - (layout::class_blocks(sc as int) - 1))
                    * layout::class_size(sc as int) == layout::class_size(sc as int))
                    by (nonlinear_arith);
            }
            lemma_total_live_update(pre.descs(), ii, d2);
            assert forall|j: int| 0 <= j < self.n() implies block::pair_wf(
                #[trigger] self.descs()[j],
                self.sbs()[j],
                j,
            ) by {
                if j != ii {
                    assert(block::pair_wf(pre.descs()[j], pre.sbs()[j], j));
                }
            }
            assert forall|j: int|
                0 <= j < self.n() implies 0 <= (#[trigger] self.descs()[j]).count()
                <= layout::class_blocks(self.descs()[j].size_class_spec() as int) by {
                block::lemma_count_within_capacity(self.descs()[j], self.sbs()[j]);
            }
            lemma_conservation(self.descs());
            assert(total_live(self.descs()) + HEADER_SIZE <= self.size_spec()) by {
                vstd::arithmetic::mul::lemma_mul_inequality(
                    self.n(),
                    self.n(),
                    SUPERBLOCK_SIZE as int,
                );
            }
        }
        self.region.used = self.region.used + bs;
        let a = self.region.superblocks[d].start_addr();
        proof {
            let post = self;
            let bsi = bs as int;
            let bpsi = bps as int;
            assert(0 * bsi == 0);
            assert(a == layout::block_addr(ii, 0, bsi));
            layout::lemma_locate_block(ii, 0, bsi, bpsi);
            layout::lemma_block_in_sb(0, bsi, bpsi);
            vstd::arithmetic::mul::lemma_mul_inequality(ii + 1, post.n(), SUPERBLOCK_SIZE as int);
            assert((ii + 1) * SUPERBLOCK_SIZE == ii * SUPERBLOCK_SIZE + SUPERBLOCK_SIZE)
                by (nonlinear_arith);
            let old_bps = layout::class_blocks(pre.descs()[ii].size_class_spec() as int);
            assert forall|c: int| !pre.live_at(ii, c) by {
                if 0 <= c < old_bps {
                    assert(pre.sbs()[ii].free_blocks().contains(c as usize));
                }
            }
            assert(post.live_at(ii, 0)) by {
                assert(!post.sbs()[ii].free_blocks().contains(0usize)) by {
                    if post.sbs()[ii].free_blocks().contains(0usize) {
                        let k = choose|k: int|
                            0 <= k < post.sbs()[ii].free_blocks().len() && post.sbs()[
                                ii
                            ].free_blocks()[k] == 0usize;
                        assert(post.sbs()[ii].free_blocks()[k] == (bpsi - 1 - k) as usize);
                    }
                }
            }
            assert forall|j: int, c: int|
                !(j == ii && c == 0) ==> #[trigger] post.live_at(j, c) == pre.live_at(j, c) by {
                if j == ii && c != 0 {
                    if 0 <= c < bpsi {
                        assert(post.sbs()[ii].free_blocks()[bpsi - 1 - c] == c as usize);
                        assert(post.sbs()[ii].free_blocks().contains(c as usize));
                    }
                }
            }
            assert forall|sc2: int|
                0 <= sc2 <= NUM_CLASSES implies #[trigger] post.partial_entries(sc2)
                == pre.partial_entries(sc2) by {}
            let ent = pre.free_entries();
            assert forall|k: int|
                0 <= k < post.free_entries().len() implies (#[trigger] post.free_entries()[k])
                < post.n() && post.descs()[post.free_entries()[k] as int].has_state(
                BlockState::Empty,
            ) by {
                assert(post.free_entries()[k] == ent[k]);
                if ent[k] == d {
                    assert(ent[k] == ent[ent.len() - 1]);
                }
            }
            assert forall|sc2: int, k: int|
                1 <= sc2 <= NUM_CLASSES && 0 <= k < post.partial_entries(sc2).len() implies (
            #[trigger] post.partial_entries(sc2)[k]) < post.n()
                && post.descs()[post.partial_entries(sc2)[k] as int].has_state(BlockState::Partial)
                && post.descs()[post.partial_entries(sc2)[k] as int].size_class_spec() == sc2 by {
                assert(post.partial_entries(sc2) == pre.partial_entries(sc2));
                if post.partial_entries(sc2)[k] == d {
                    assert(pre.descs()[ii].has_state(BlockState::Partial));
                }
            }
            assert(post.active_wf()) by {
                assert forall|sc2: int|
                    0 <= sc2 <= NUM_CLASSES && #[trigger] post.active_of(sc2) != 0 implies {
                    let dd = post.active_of(sc2) - 1;
                    &&& dd < post.n()
                    &&& post.descs()[dd].size_class_spec() == sc2
                    &&& (post.descs()[dd].has_state(BlockState::Partial)
                        || post.descs()[dd].has_state(BlockState::Full))
                    &&& !post.partial_entries(sc2).contains((dd) as usize)
                } by {
                    assert(post.partial_entries(sc2) == pre.partial_entries(sc2));
                    if sc2 != sc {
                        assert(post.active_of(sc2) == pre.active_of(sc2));
                        if pre.active_of(sc2) != 0 && pre.active_of(sc2) - 1 == ii {
                            assert(pre.descs()[ii].has_state(BlockState::Empty));
                        }
                    } else {
                        assert(!pre.partial_entries(sc2).contains(d));
                    }
                }
            }
            assert(post.lists_complete()) by {
                assert forall|j: int|
                    0 <= j < post.n() && (#[trigger] post.descs()[j]).has_state(
                        BlockState::Empty,
                    ) implies post.free_entries().contains(j as usize) by {
                    assert(j != ii);
                    assert(ent.contains(j as usize));
                    let k = choose|k: int| 0 <= k < ent.len() && ent[k] == j as usize;
                    assert(k != ent.len() - 1);
                    assert(post.free_entries()[k] == j as usize);
                }
                assert forall|j: int|
                    0 <= j < post.n() && (#[trigger] post.descs()[j]).has_state(
                        BlockState::Partial,
                    ) implies {
                    let sc2 = post.descs()[j].size_class_spec() as int;
                    post.partial_entries(sc2).contains(j as usize) || post.active_of(sc2) == j + 1
                } by {
                    if j != ii {
                        assert(pre.descs()[j].has_state(BlockState::Partial));
                        let sc2 = post.descs()[j].size_class_spec() as int;
                        assert(post.partial_entries(sc2) == pre.partial_entries(sc2));
                        if sc2 == sc && pre.active_of(sc2) == j + 1 {
                            assert(false);
                        }
                    }
                }
            }
            assert(post.wf());
        }
        a
    }

    /// Serve an oversized request: dedicate one whole empty superblock to a
    /// single block and mark it `Full` at once.
    fn carve_oversized(&mut self) -> (a: usize)
        requires
            old(self).wf(),
            old(self).is_ready(),
            old(self).free_entries().len() > 0,
        ensures
            Heap::alloc_post(old(self), final(self), 0, a),
            a == layout::block_addr(old(self).free_entries().last() as int, 0, 65536),
            final(self).free_entries() == old(self).free_entries().drop_last(),
    {
        let ghost pre = *self;
        let d = match self.free_list.pop() {
            Some(dd) => dd,
            None => {
                proof {
                    assert(false);
                }
                0
            },
        };
        let ghost ii = d as int;
        proof {
            let ent = pre.free_entries();
            assert(ent[ent.len() - 1] == d);
            assert(d < pre.n() && pre.descs()[ii].has_state(BlockState::Empty));
            assert(block::pair_wf(pre.descs()[ii], pre.sbs()[ii], ii));
            block::lemma_count_within_capacity(pre.descs()[ii], pre.sbs()[ii]);
            let old_sc = pre.descs()[ii].size_class_spec() as int;
            layout::lemma_class_geometry(old_sc);
            layout::lemma_class_geometry(0);
            assert(pre.descs()[ii].count() == layout::class_blocks(old_sc));
            block::lemma_distinct_below_full(
                pre.sbs()[ii].free_blocks(),
                layout::class_blocks(old_sc),
            );
            assert(live_bytes(pre.descs()[ii]) == 0) by {
                assert((layout::class_blocks(old_sc) - layout::class_blocks(old_sc))
                    * layout::class_size(old_sc) == 0) by (nonlinear_arith);
            }
        }
        let v: Vec<usize> = Vec::new();
        self.region.superblocks[d].set_free_blocks(v);
        let d2 = Descriptor::new(anchor::pack(0, 0, BlockState::Full), 0, SUPERBLOCK_SIZE);
        self.region.descriptors[d] = d2;
        proof {
            assert(block::chain_wf(d2, self.sbs()[ii]));
            assert(block::pair_wf(d2, self.sbs()[ii], ii));
            assert(live_bytes(d2) == SUPERBLOCK_SIZE) by {
                assert((1int - 0int) * 65536int == 65536int) by (nonlinear_arith);
            }
            lemma_total_live_update(pre.descs(), ii, d2);
            assert forall|j: int| 0 <= j < self.n() implies block::pair_wf(
                #[trigger] self.descs()[j],
                self.sbs()[j],
                j,
            ) by {
                if j != ii {
                    assert(block::pair_wf(pre.descs()[j], pre.sbs()[j], j));
                }
            }
            assert forall|j: int|
                0 <= j < self.n() implies 0 <= (#[trigger] self.descs()[j]).count()
                <= layout::class_blocks(self.descs()[j].size_class_spec() as int) by {
                block::lemma_count_within_capacity(self.descs()[j], self.sbs()[j]);
            }
            lemma_conservation(self.descs());
            assert(total_live(self.descs()) + HEADER_SIZE <= self.size_spec()) by {
                vstd::arithmetic::mul::lemma_mul_inequality(
                    self.n(),
                    self.n(),
                    SUPERBLOCK_SIZE as int,
                );
            }
        }
        self.region.used = self.region.used + SUPERBLOCK_SIZE;
        let a = self.region.superblocks[d].start_addr();
        proof {
            let post = self;
            assert(0 * 65536int == 0);
            assert(a == layout::block_addr(ii, 0, 65536));
            layout::lemma_locate_block(ii, 0, 65536, 1);
            layout::lemma_block_in_sb(0, 65536, 1);
            vstd::arithmetic::mul::lemma_mul_inequality(ii + 1, post.n(), SUPERBLOCK_SIZE as int);
            assert((ii + 1) * SUPERBLOCK_SIZE == ii * SUPERBLOCK_SIZE + SUPERBLOCK_SIZE)
                by (nonlinear_arith);
            let old_bps = layout::class_blocks(pre.descs()[ii].size_class_spec() as int);
            assert forall|c: int| !pre.live_at(ii, c) by {
                if 0 <= c < old_bps {
                    assert(pre.sbs()[ii].free_blocks().contains(c as usize));
                }
            }
            assert(post.live_at(ii, 0));
            assert forall|j: int, c: int|
                !(j == ii && c == 0) ==> #[trigger] post.live_at(j, c) == pre.live_at(j, c) by {}
            assert forall|sc2: int|
                0 <= sc2 <= NUM_CLASSES implies #[trigger] post.partial_entries(sc2)
                == pre.partial_entries(sc2) by {}
            let ent = pre.free_entries();
            assert forall|k: int|
                0 <= k < post.free_entries().len() implies (#[trigger] post.free_entries()[k])
                < post.n() && post.descs()[post.free_entries()[k] as int].has_state(
                BlockState::Empty,
            ) by {
                assert(post.free_entries()[k] == ent[k]);
                if ent[k] == d {
                    assert(ent[k] == ent[ent.len() - 1]);
                }
            }
            assert forall|sc2: int, k: int|
                1 <= sc2 <= NUM_CLASSES && 0 <= k < post.partial_entries(sc2).len() implies (
            #[trigger] post.partial_entries(sc2)[k]) < post.n()
                && post.descs()[post.partial_entries(sc2)[k] as int].has_state(BlockState::Partial)
                && post.descs()[post.partial_entries(sc2)[k] as int].size_class_spec() == sc2 by {
                assert(post.partial_entries(sc2) == pre.partial_entries(sc2));
                if post.partial_entries(sc2)[k] == d {
                    assert(pre.descs()[ii].has_state(BlockState::Partial));
                }
            }
            assert(post.active_wf()) by {
                assert forall|sc2: int|
                    0 <= sc2 <= NUM_CLASSES && #[trigger] post.active_of(sc2) != 0 implies {
                    let dd = post.active_of(sc2) - 1;
                    &&& dd < post.n()
                    &&& post.descs()[dd].size_class_spec() == sc2
                    &&& (post.descs()[dd].has_state(BlockState::Partial)
                        || post.descs()[dd].has_state(BlockState::Full))
                    &&& !post.partial_entries(sc2).contains((dd) as usize)
                } by {
                    assert(post.active_of(sc2) == pre.active_of(sc2));
                    assert(post.partial_entries(sc2) == pre.partial_entries(sc2));
                    if pre.active_of(sc2) != 0 && pre.active_of(sc2) - 1 == ii {
                        assert(pre.descs()[ii].has_state(BlockState::Empty));
                    }
                }
            }
            assert(post.lists_complete()) by {
                assert forall|j: int|
                    0 <= j < post.n() && (#[trigger] post.descs()[j]).has_state(
                        BlockState::Empty,
                    ) implies post.free_entries().contains(j as usize) by {
                    assert(j != ii);
                    assert(ent.contains(j as usize));
                    let k = choose|k: int| 0 <= k < ent.len() && ent[k] == j as usize;
                    assert(k != ent.len() - 1);
                    assert(post.free_entries()[k] == j as usize);
                }
                assert forall|j: int|
                    0 <= j < post.n() && (#[trigger] post.descs()[j]).has_state(
                        BlockState::Partial,
                    ) implies {
                    let sc2 = post.descs()[j].size_class_spec() as int;
                    post.partial_entries(sc2).contains(j as usize) || post.active_of(sc2) == j + 1
                } by {
                    if j != ii {
                        assert(pre.descs()[j].has_state(BlockState::Partial));
                        assert(post.partial_entries(post.descs()[j].size_class_spec() as int)
                            == pre.partial_entries(pre.descs()[j].size_class_spec() as int));
                    }
                }
            }
            assert(post.wf());
        }
        a
    }

    /// Drop a drained (`Full`) active superblock from a class's active slot.
    fn drop_active(&mut self, sc: usize)
        requires
            old(self).wf(),
            old(self).is_ready(),
            1 <= sc <= NUM_CLASSES,
            old(self).active_of(sc as int) != 0,
            old(self).descs()[old(self).active_of(sc as int) - 1].count() == 0,
        ensures
            final(self).wf(),
            final(self).is_ready(),
            final(self).same_storage(old(self)),
            final(self).roots_view() == old(self).roots_view(),
            final(self).descs() == old(self).descs(),
            final(self).sbs() == old(self).sbs(),
            final(self).n() == old(self).n(),
            final(self).active_of(sc as int) == 0,
            final(self).free_entries() == old(self).free_entries(),
            forall|sc2: int|
                0 <= sc2 <= NUM_CLASSES ==> #[trigger] final(self).partial_entries(sc2) == old(
                    self,
                ).partial_entries(sc2),
    {
        let ghost pre = *self;
        let ghost ii = pre.active_of(sc as int) - 1;
        proof {
            assert(block::pair_wf(pre.descs()[ii], pre.sbs()[ii], ii));
        }
        self.active[sc] = 0;
        proof {
            let post = self;
            assert(pre.descs()[ii].has_state(BlockState::Full));
            assert forall|sc2: int|
                0 <= sc2 <= NUM_CLASSES && sc2 != sc ==> #[trigger] post.active_of(sc2)
                    == pre.active_of(sc2) by {}
            assert forall|sc2: int|
                0 <= sc2 <= NUM_CLASSES ==> #[trigger] post.partial_entries(sc2)
                    == pre.partial_entries(sc2) by {}
            assert(post.lists_complete()) by {
                assert forall|j: int|
                    0 <= j < post.n() && (#[trigger] post.descs()[j]).has_state(
                        BlockState::Partial,
                    ) implies {
                    let sc2 = post.descs()[j].size_class_spec() as int;
                    post.partial_entries(sc2).contains(j as usize) || post.active_of(sc2) == j + 1
                } by {
                    let sc2 = post.descs()[j].size_class_spec() as int;
                    if sc2 == sc && pre.active_of(sc2) == j + 1 {
                        assert(j == ii);
                    }
                }
            }
            assert(post.wf());
        }
    }

    /// Allocate `size` bytes: find or carve a superblock of the right size
    /// class and pop one block from it. Returns the block's address, or
    /// `OutOfMemory` exactly when no superblock anywhere can serve the
    /// class. A failed call leaves the heap untouched.
    #[verifier::rlimit(100)]
    pub fn malloc(&mut self, size: usize) -> (r: Result<usize, AllocError>)
        requires
            old(self).wf(),
            old(self).is_ready(),
        ensures
            final(self).wf(),
            final(self).is_ready(),
            r is Ok <==> old(self).can_alloc(size),
            r is Err ==> *final(self) == *old(self) && r == Err::<usize, AllocError>(
                AllocError::OutOfMemory,
            ),
            r matches Ok(a) ==> Heap::alloc_post(
                old(self),
                final(self),
                layout::spec_size_class(size as int),
                a,
            ),
            r is Ok ==> size <= layout::class_size(layout::spec_size_class(size as int)),
            ({
                let sc = layout::spec_size_class(size as int);
                let act = old(self).active_of(sc) - 1;
                r matches Ok(a) ==> sc != 0 && old(self).active_of(sc) != 0 && old(
                    self,
                ).descs()[act].count() > 0 ==> a == layout::block_addr(
                    act,
                    old(self).descs()[act].head(),
                    layout::class_size(sc),
                ) && final(self).descs()[act].count() == old(self).descs()[act].count() - 1
            }),
            ({
                let sc = layout::spec_size_class(size as int);
                let act = old(self).active_of(sc);
                let drained = (act == 0 || old(self).descs()[act - 1].count() == 0);
                r matches Ok(a) ==> sc != 0 && drained && old(self).partial_entries(sc).len() > 0
                    ==> layout::spec_sb_index(a as int) == old(self).partial_entries(sc).last()
            }),
            ({
                let sc = layout::spec_size_class(size as int);
                let act = old(self).active_of(sc);
                let drained = (act == 0 || old(self).descs()[act - 1].count() == 0);
                r matches Ok(a) ==> sc != 0 && drained && old(self).partial_entries(sc).len() == 0
                    && old(self).free_entries().len() > 0 ==> a == layout::block_addr(
                    old(self).free_entries().last() as int,
                    0,
                    layout::class_size(sc),
                ) && final(self).descs()[layout::spec_sb_index(a as int)].count()
                    == layout::class_blocks(sc) - 1
            }),
            ({
                let sc = layout::spec_size_class(size as int);
                r matches Ok(a) ==> sc == 0 ==> a == layout::block_addr(
                    old(self).free_entries().last() as int,
                    0,
                    65536,
                )
            }),
    {
        let sc = layout::size_class(size);
        if sc == 0 {
            if size > SUPERBLOCK_SIZE {
                return Err(AllocError::OutOfMemory);
            }
            if self.free_list.len() == 0 {
                return Err(AllocError::OutOfMemory);
            }
            let a = self.carve_oversized();
            Ok(a)
        } else {
            let act = self.active[sc];
            if act != 0 {
                proof {
                    assert(self.active_of(sc as int) == act);
                    assert(self.active_of(sc as int) - 1 < self.n());
                }
                let i = act - 1;
                let c = anchor::count_of(self.region.descriptors[i].anchor());
                if c > 0 {
                    let a = self.take_block(i, sc);
                    return Ok(a);
                }
            }
            let ghost pre = *self;
            if self.partial_lists[sc].len() > 0 {
                if act != 0 {
                    self.drop_active(sc);
                }
                let ghost mid1 = *self;
                self.adopt_partial(sc);
                let ghost mid2 = *self;
                let i = self.active[sc] - 1;
                let a = self.take_block(i, sc);
                proof {
                    assert(mid1.partial_entries(sc as int) == pre.partial_entries(sc as int));
                    assert(Heap::alloc_post(&mid2, self, sc as int, a));
                    Heap::lemma_alloc_post_compose(&pre, &mid2, self, sc as int, a);
                    assert(layout::spec_sb_index(a as int) == pre.partial_entries(
                        sc as int,
                    ).last());
                }
                Ok(a)
            } else if self.free_list.len() > 0 {
                if act != 0 {
                    self.drop_active(sc);
                }
                let ghost mid1 = *self;
                let a = self.carve_from_free(sc);
                proof {
                    assert(mid1.free_entries() == pre.free_entries());
                    assert(Heap::alloc_post(&mid1, self, sc as int, a));
                    Heap::lemma_alloc_post_compose(&pre, &mid1, self, sc as int, a);
                }
                Ok(a)
            } else {
                Err(AllocError::OutOfMemory)
            }
        }
    }

    /// Give one class's cached active superblock back to the shared lists.
    fn flush_active(&mut self, sc: usize)
        requires
            old(self).wf(),
            old(self).is_ready(),
            1 <= sc <= NUM_CLASSES,
        ensures
            final(self).wf(),
            final(self).is_ready(),
            final(self).same_storage(old(self)),
            final(self).roots_view() == old(self).roots_view(),
            final(self).descs() == old(self).descs(),
            final(self).sbs() == old(self).sbs(),
            final(self).n() == old(self).n(),
            final(self).active_of(sc as int) == 0,
            forall|sc2: int|
                0 <= sc2 <= NUM_CLASSES && sc2 != sc ==> #[trigger] final(self).active_of(sc2)
                    == old(self).active_of(sc2),
    {
        let ghost pre = *self;
        let act = self.active[sc];
        if act == 0 {
            return ;
        }
        let ghost ii = act - 1 as int;
        proof {
            assert(pre.active_of(sc as int) == act);
            assert(block::pair_wf(pre.descs()[ii], pre.sbs()[ii], ii));
        }
        let i = act - 1;
        let c = anchor::count_of(self.region.descriptors[i].anchor());
        if c > 0 {
            proof {
                assert(pre.descs()[ii].has_state(BlockState::Partial));
                assert(!pre.partial_entries(sc as int).contains(i));
            }
            self.partial_lists[sc].push(i);
        }
        self.active[sc] = 0;
        proof {
            let post = self;
            if c > 0 {
                assert(post.partial_entries(sc as int) == pre.partial_entries(sc as int).push(i));
            }
            assert forall|sc2: int|
                0 <= sc2 <= NUM_CLASSES && sc2 != sc implies #[trigger] post.partial_entries(sc2)
                == pre.partial_entries(sc2) by {}
            assert(post.partial_lists_wf()) by {
                assert forall|sc2: int, k: int|
                    1 <= sc2 <= NUM_CLASSES && 0 <= k < post.partial_entries(sc2).len() implies (
                #[trigger] post.partial_entries(sc2)[k]) < post.n()
                    && post.descs()[post.partial_entries(sc2)[k] as int].has_state(
                    BlockState::Partial,
                ) && post.descs()[post.partial_entries(sc2)[k] as int].size_class_spec()
                    == sc2 by {
                    if sc2 == sc && c > 0 && k == post.partial_entries(sc2).len() - 1 {
                        assert(post.partial_entries(sc2)[k] == i);
                    } else {
                        assert(post.partial_entries(sc2)[k] == pre.partial_entries(sc2)[k]);
                    }
                }
                assert forall|sc2: int|
                    0 <= sc2 <= NUM_CLASSES implies (#[trigger] post.partial_entries(
                    sc2,
                )).no_duplicates() by {
                    if sc2 == sc && c > 0 {
                        let ent = post.partial_entries(sc2);
                        assert forall|x: int, y: int|
                            0 <= x < y < ent.len() implies ent[x] != ent[y] by {
                            if y == ent.len() - 1 {
                                assert(ent[x] == pre.partial_entries(sc2)[x]);
                                if ent[x] == i {
                                    assert(pre.partial_entries(sc2).contains(i));
                                }
                            }
                        }
                    }
                }
            }
            assert(post.active_wf()) by {
                assert forall|sc2: int|
                    0 <= sc2 <= NUM_CLASSES && #[trigger] post.active_of(sc2) != 0 implies {
                    let dd = post.active_of(sc2) - 1;
                    &&& dd < post.n()
                    &&& post.descs()[dd].size_class_spec() == sc2
                    &&& (post.descs()[dd].has_state(BlockState::Partial)
                        || post.descs()[dd].has_state(BlockState::Full))
                    &&& !post.partial_entries(sc2).contains((dd) as usize)
                } by {
                    assert(sc2 != sc);
                    assert(post.active_of(sc2) == pre.active_of(sc2));
                    assert(post.partial_entries(sc2) == pre.partial_entries(sc2));
                }
            }
            assert(post.lists_complete()) by {
                assert forall|j: int|
                    0 <= j < post.n() && (#[trigger] post.descs()[j]).has_state(
                        BlockState::Partial,
                    ) implies {
                    let sc2 = post.descs()[j].size_class_spec() as int;
                    post.partial_entries(sc2).contains(j as usize) || post.active_of(sc2) == j + 1
                } by {
                    let sc2 = post.descs()[j].size_class_spec() as int;
                    if sc2 == sc {
                        if pre.active_of(sc2) == j + 1 {
                            assert(j == ii);
                            assert(c > 0) by {
                                if c == 0 {
                                    assert(pre.descs()[ii].has_state(BlockState::Full));
                                }
                            }
                            assert(post.partial_entries(sc as int).last() == i);
                        } else {
                            assert(pre.partial_entries(sc2).contains(j as usize));
                            let k = choose|k: int|
                                0 <= k < pre.partial_entries(sc2).len() && pre.partial_entries(
                                    sc2,
                                )[k] == j as usize;
                            assert(post.partial_entries(sc2)[k] == j as usize);
                        }
                    }
                }
            }
            assert(post.wf());
        }
    }

    /// Close the heap cleanly: give every cached active superblock back to
    /// the shared lists, then clear the dirty flag as the last write, so a
    /// subsequent reopening needs no reconciliation. The caller must have
    /// quiesced all other users first, and must persist the region after.
    pub fn close(&mut self)
        requires
            old(self).wf(),
            old(self).is_ready(),
        ensures
            final(self).wf(),
            final(self).is_ready(),
            !final(self).dirty_spec(),
            final(self).roots_view() == old(self).roots_view(),
            final(self).descs() == old(self).descs(),
            final(self).sbs() == old(self).sbs(),
            final(self).used_spec() == old(self).used_spec(),
            final(self).size_spec() == old(self).size_spec(),
            final(self).n() == old(self).n(),
            forall|j: int, c: int| #[trigger] final(self).live_at(j, c) == old(self).live_at(j, c),
            forall|sc: int| 1 <= sc <= NUM_CLASSES ==> #[trigger] final(self).active_of(sc) == 0,
    {
        let ghost pre = *self;
        let mut sc: usize = 1;
        while sc <= NUM_CLASSES
            invariant
                1 <= sc <= NUM_CLASSES + 1,
                self.wf(),
                self.is_ready(),
                self.same_storage(&pre),
                self.roots_view() == pre.roots_view(),
                self.descs() == pre.descs(),
                self.sbs() == pre.sbs(),
                self.n() == pre.n(),
                forall|sc2: int| 1 <= sc2 < sc ==> #[trigger] self.active_of(sc2) == 0,
            decreases NUM_CLASSES + 1 - sc,
        {
            self.flush_active(sc);
            sc = sc + 1;
        }
        let ghost fin = *self;
        self.region.dirty = false;
        proof {
            assert forall|sc2: int| 0 <= sc2 <= NUM_CLASSES implies #[trigger] self.partial_entries(
                sc2,
            ) == fin.partial_entries(sc2) by {}
            assert forall|sc2: int| 0 <= sc2 <= NUM_CLASSES implies #[trigger] self.active_of(sc2)
                == fin.active_of(sc2) by {}
            assert forall|j: int, c: int| #[trigger] self.live_at(j, c) == pre.live_at(j, c) by {}
            assert(self.wf());
        }
    }

    /// What recovery demands of a reopened region's shape: the tables exist
    /// and agree, the region spans exactly the header plus the superblock
    /// table, and every pair's carving is sound. Anchor or free-stack damage
    /// is *not* part of this: that is repairable, by conservative leaking.
    pub open spec fn region_recoverable(&self) -> bool {
        &&& 1 <= self.n() <= 0xffff_ffff
        &&& self.descs().len() == self.n()
        &&& self.roots_view().len() == ROOT_COUNT
        &&& self.size_spec() == HEADER_SIZE + self.n() * SUPERBLOCK_SIZE
        &&& forall|i: int|
            0 <= i < self.n() ==> block::carve_ok(#[trigger] self.descs()[i], self.sbs()[i], i)
    }

    /// Reconcile a reopened region from its persisted anchors, offline and
    /// single-threaded. Every descriptor whose anchor and free-block stack
    /// validate is reclassified onto the right list purely from its anchor;
    /// one whose metadata is internally inconsistent is conservatively
    /// treated as `Full` and left off every list — a leak, never a reuse of
    /// possibly live data. A region whose carving itself is unusable is
    /// rejected whole with `CorruptHeap`. Returns whether an unclean
    /// shutdown was reconciled; on a heap with no recovery pending this is a
    /// no-op.
    #[verifier::rlimit(100)]
    pub fn recover(&mut self) -> (r: Result<bool, AllocError>)
        ensures
            !old(self).needs_recovery() ==> r == Ok::<bool, AllocError>(false) && *final(self)
                == *old(self),
            r matches Ok(b) ==> b == (old(self).needs_recovery()
                && old(self).opened_dirty_spec()),
            old(self).needs_recovery() ==> (r is Ok ==> {
                &&& final(self).wf()
                &&& final(self).is_ready()
                &&& final(self).roots_view() == old(self).roots_view()
                &&& final(self).size_spec() == old(self).size_spec()
                &&& final(self).dirty_spec() == old(self).dirty_spec()
                &&& final(self).descs().len() == old(self).descs().len()
                &&& forall|j: int|
                    0 <= j < old(self).descs().len() && block::pair_wf(
                        #[trigger] old(self).descs()[j],
                        old(self).sbs()[j],
                        j,
                    ) ==> final(self).descs()[j] == old(self).descs()[j] && final(self).sbs()[j]
                        == old(self).sbs()[j]
            }),
            old(self).needs_recovery() ==> (r is Err ==> {
                &&& r == Err::<bool, AllocError>(AllocError::CorruptHeap)
                &&& !final(self).is_ready()
                &&& final(self).roots_view() == old(self).roots_view()
                &&& final(self).size_spec() == old(self).size_spec()
                &&& final(self).descs() == old(self).descs()
                &&& final(self).sbs() == old(self).sbs()
            }),
            old(self).needs_recovery() ==> ((r is Err) <==> !old(self).region_recoverable()),
            old(self).needs_recovery() ==> (r is Ok ==> forall|j: int|
                0 <= j < old(self).descs().len() && block::carve_ok(
                    #[trigger] old(self).descs()[j],
                    old(self).sbs()[j],
                    j,
                ) && !block::chain_wf(old(self).descs()[j], old(self).sbs()[j])
                    ==> final(self).descs()[j].count() == 0
                    && final(self).descs()[j].has_state(BlockState::Full)
                    && final(self).sbs()[j].free_blocks().len() == 0),
    {
        if !self.pending_recovery {
            return Ok(false);
        }
        // Rebuild the transient search state from nothing.
        self.ready = false;
        self.free_list = SuperBlockFreeList::new();
        let mut partial_lists: Vec<PartialList> = Vec::new();
        let mut active: Vec<usize> = Vec::new();
        let mut sc: usize = 0;
        while sc < NUM_CLASSES + 1
            invariant
                partial_lists@.len() == sc,
                active@.len() == sc,
                sc <= NUM_CLASSES + 1,
                forall|j: int| 0 <= j < sc ==> (#[trigger] partial_lists@[j]).entries().len() == 0,
                forall|j: int| 0 <= j < sc ==> active@[j] == 0usize,
            decreases NUM_CLASSES + 1 - sc,
        {
            partial_lists.push(PartialList::new());
            active.push(0);
            sc = sc + 1;
        }
        self.partial_lists = partial_lists;
        self.active = active;
        // The region's shape must be exactly what the fixed strides say.
        let n = self.region.superblocks.len();
        if n == 0 || n > 0xffff_ffff || self.region.descriptors.len() != n {
            return Err(AllocError::CorruptHeap);
        }
        if self.region.roots.len() != ROOT_COUNT {
            return Err(AllocError::CorruptHeap);
        }
        if self.region.size < HEADER_SIZE {
            proof {
                if old(self).region_recoverable() {
                    vstd::arithmetic::mul::lemma_mul_inequality(
                        1,
                        n as int,
                        SUPERBLOCK_SIZE as int,
                    );
                }
            }
            return Err(AllocError::CorruptHeap);
        }
        let m = self.region.size - HEADER_SIZE;
        if m / SUPERBLOCK_SIZE != n || m % SUPERBLOCK_SIZE != 0 {
            proof {
                if old(self).region_recoverable() {
                    vstd::arithmetic::div_mod::lemma_fundamental_div_mod_converse(
                        m as int,
                        SUPERBLOCK_SIZE as int,
                        n as int,
                        0,
                    );
                }
            }
            return Err(AllocError::CorruptHeap);
        }
        proof {
            lemma_fundamental_div_mod(m as int, SUPERBLOCK_SIZE as int);
            assert(self.size_spec() == HEADER_SIZE + self.n() * SUPERBLOCK_SIZE);
        }
        // Pass one: the carving of every pair must be sound.
        let ghost base = *self;
        let mut i: usize = 0;
        let mut addr: usize = HEADER_SIZE;
        while i < n
            invariant
                i <= n,
                n == self.n(),
                n <= 0xffff_ffff,
                self.descs().len() == n,
                self.size_spec() == HEADER_SIZE + n * SUPERBLOCK_SIZE,
                addr == HEADER_SIZE + i * SUPERBLOCK_SIZE,
                forall|j: int|
                    0 <= j < i ==> block::carve_ok(#[trigger] self.descs()[j], self.sbs()[j], j),
                *self == base,
                old(self).needs_recovery(),
                self.descs() == old(self).descs(),
                self.sbs() == old(self).sbs(),
                self.roots_view() == old(self).roots_view(),
                self.size_spec() == old(self).size_spec(),
                !self.is_ready(),
            decreases n - i,
        {
            proof {
                vstd::arithmetic::mul::lemma_mul_inequality(
                    i + 1,
                    n as int,
                    SUPERBLOCK_SIZE as int,
                );
                assert((i + 1) * SUPERBLOCK_SIZE == i * SUPERBLOCK_SIZE + SUPERBLOCK_SIZE)
                    by (nonlinear_arith);
            }
            let sc_d = self.region.descriptors[i].size_class();
            if sc_d > NUM_CLASSES {
                proof {
                    assert(!block::carve_ok(old(self).descs()[i as int], old(self).sbs()[i as int], i as int));
                }
                return Err(AllocError::CorruptHeap);
            }
            if self.region.descriptors[i].block_size() != layout::class_block_size(sc_d) {
                proof {
                    assert(!block::carve_ok(old(self).descs()[i as int], old(self).sbs()[i as int], i as int));
                }
                return Err(AllocError::CorruptHeap);
            }
            if self.region.superblocks[i].size() != SUPERBLOCK_SIZE {
                proof {
                    assert(!block::carve_ok(old(self).descs()[i as int], old(self).sbs()[i as int], i as int));
                }
                return Err(AllocError::CorruptHeap);
            }
            if self.region.superblocks[i].start_addr() != addr {
                proof {
                    assert(!block::carve_ok(old(self).descs()[i as int], old(self).sbs()[i as int], i as int));
                }
                return Err(AllocError::CorruptHeap);
            }
            i = i + 1;
            addr = addr + SUPERBLOCK_SIZE;
        }
        proof {
            assert(old(self).region_recoverable());
            assert forall|j: int| 0 <= j < n implies block::carve_ok(
                #[trigger] base.descs()[j],
                base.sbs()[j],
                j,
            ) by {}
        }
        // Pass two: validate each anchor against its free-block stack,
        // reclassify the sound ones, and retire the rest as `Full`.
        let mut used_acc: usize = 0;
        let mut i2: usize = 0;
        while i2 < n
            invariant
                i2 <= n,
                n == self.n(),
                n <= 0xffff_ffff,
                1 <= n,
                self.descs().len() == n,
                base.descs().len() == n,
                base.sbs().len() == n,
                self.size_spec() == HEADER_SIZE + n * SUPERBLOCK_SIZE,
                self.partial_lists_len() == NUM_CLASSES + 1,
                self.active_len() == NUM_CLASSES + 1,
                self.roots_view().len() == ROOT_COUNT,
                self.roots_view() == base.roots_view(),
                self.dirty_spec() == base.dirty_spec(),
                self.size_spec() == base.size_spec(),
                !self.is_ready(),
                self.needs_recovery() == base.needs_recovery(),
                self.opened_dirty_spec() == base.opened_dirty_spec(),
                forall|j: int|
                    0 <= j < n ==> block::carve_ok(#[trigger] self.descs()[j], self.sbs()[j], j),
                forall|j: int|
                    i2 <= j < n ==> #[trigger] self.descs()[j] == base.descs()[j] && self.sbs()[j]
                        == base.sbs()[j],
                forall|j: int|
                    0 <= j < i2 ==> block::chain_wf(#[trigger] self.descs()[j], self.sbs()[j]),
                forall|j: int|
                    0 <= j < i2 && block::chain_wf(#[trigger] base.descs()[j], base.sbs()[j])
                        ==> self.descs()[j] == base.descs()[j] && self.sbs()[j] == base.sbs()[j],
                forall|j: int|
                    0 <= j < i2 && !block::chain_wf(#[trigger] base.descs()[j], base.sbs()[j])
                        ==> self.descs()[j].count() == 0 && self.descs()[j].has_state(
                        BlockState::Full,
                    ) && self.sbs()[j].free_blocks().len() == 0,
                self.free_entries().no_duplicates(),
                forall|k: int|
                    0 <= k < self.free_entries().len() ==> (#[trigger] self.free_entries()[k])
                        < i2 && self.descs()[self.free_entries()[k] as int].has_state(
                        BlockState::Empty,
                    ),
                self.partial_entries(0).len() == 0,
                forall|sc2: int| 0 <= sc2 <= NUM_CLASSES ==> (#[trigger] self.partial_entries(
                    sc2,
                )).no_duplicates(),
                forall|sc2: int, k: int|
                    1 <= sc2 <= NUM_CLASSES && 0 <= k < self.partial_entries(sc2).len() ==> (
                    #[trigger] self.partial_entries(sc2)[k]) < i2 && self.descs()[self.partial_entries(
                        sc2,
                    )[k] as int].has_state(BlockState::Partial) && self.descs()[self.partial_entries(
                        sc2,
                    )[k] as int].size_class_spec() == sc2,
                forall|sc2: int| 0 <= sc2 <= NUM_CLASSES ==> #[trigger] self.active_of(sc2) == 0,
                forall|j: int|
                    0 <= j < i2 && (#[trigger] self.descs()[j]).has_state(BlockState::Empty)
                        ==> self.free_entries().contains(j as usize),
                forall|j: int|
                    0 <= j < i2 && (#[trigger] self.descs()[j]).has_state(BlockState::Partial)
                        ==> self.partial_entries(
                        self.descs()[j].size_class_spec() as int,
                    ).contains(j as usize),
                used_acc == total_live(self.descs().take(i2 as int)),
                used_acc <= i2 * SUPERBLOCK_SIZE,
            decreases n - i2,
        {
            let ghost snap = *self;
            let sc_d = self.region.descriptors[i2].size_class();
            let bs = self.region.descriptors[i2].block_size();
            let bps = layout::class_block_count(sc_d);
            proof {
                assert(block::carve_ok(snap.descs()[i2 as int], snap.sbs()[i2 as int], i2 as int));
                layout::lemma_class_geometry(sc_d as int);
            }
            let valid = block::validate_pair(
                &self.region.descriptors[i2],
                &self.region.superblocks[i2],
            );
            if valid {
                let cnt = anchor::count_of(self.region.descriptors[i2].anchor());
                proof {
                    block::lemma_count_within_capacity(
                        snap.descs()[i2 as int],
                        snap.sbs()[i2 as int],
                    );
                }
                if cnt == bps {
                    self.free_list.push(i2);
                } else if cnt > 0 {
                    proof {
                        if sc_d == 0 {
                            assert(bps == 1);
                            assert(false);
                        }
                    }
                    self.partial_lists[sc_d].push(i2);
                }
            } else {
                let d2 = Descriptor::new(anchor::pack(0, 0, BlockState::Full), sc_d, bs);
                self.region.descriptors[i2] = d2;
                let v: Vec<usize> = Vec::new();
                self.region.superblocks[i2].set_free_blocks(v);
                proof {
                    assert(block::chain_wf(self.descs()[i2 as int], self.sbs()[i2 as int]));
                }
            }
            let cnt2 = anchor::count_of(self.region.descriptors[i2].anchor());
            proof {
                block::lemma_count_within_capacity(self.descs()[i2 as int], self.sbs()[i2 as int]);
            }
            proof {
                let bpsi = bps as int;
                let bsi = bs as int;
                let ci = cnt2 as int;
                assert(0 <= (bpsi - ci) * bsi && (bpsi - ci) * bsi <= bpsi * bsi)
                    by (nonlinear_arith)
                    requires
                        0 <= ci <= bpsi,
                        0 <= bsi,
                ;
                assert(bpsi * bsi == bsi * bpsi) by (nonlinear_arith);
            }
            let live_i = (bps - cnt2) * bs;
            proof {
                assert(live_i == live_bytes(self.descs()[i2 as int]));
                assert((i2 + 1) * SUPERBLOCK_SIZE == i2 * SUPERBLOCK_SIZE + SUPERBLOCK_SIZE)
                    by (nonlinear_arith);
                vstd::arithmetic::mul::lemma_mul_inequality(
                    i2 + 1,
                    n as int,
                    SUPERBLOCK_SIZE as int,
                );
                let taken = self.descs().take(i2 as int + 1);
                assert(taken.drop_last() =~= self.descs().take(i2 as int));
                assert(self.descs().take(i2 as int) =~= snap.descs().take(i2 as int));
                assert(taken.last() == self.descs()[i2 as int]);
                assert(total_live(taken) == total_live(self.descs().take(i2 as int)) + live_bytes(
                    self.descs()[i2 as int],
                ));
            }
            used_acc = used_acc + live_i;
            proof {
                let stepped = self;
                assert forall|sc2: int|
                    0 <= sc2 <= NUM_CLASSES implies (#[trigger] stepped.partial_entries(sc2)
                    == snap.partial_entries(sc2) || stepped.partial_entries(sc2)
                    == snap.partial_entries(sc2).push(i2)) by {}
                assert(stepped.free_entries() == snap.free_entries() || stepped.free_entries()
                    == snap.free_entries().push(i2));
                assert forall|sc2: int|
                    0 <= sc2 <= NUM_CLASSES implies #[trigger] stepped.active_of(sc2)
                    == snap.active_of(sc2) by {}
                assert forall|j: int|
                    i2 + 1 <= j < n implies #[trigger] stepped.descs()[j] == base.descs()[j]
                    && stepped.sbs()[j] == base.sbs()[j] by {
                    assert(snap.descs()[j] == base.descs()[j]);
                    assert(snap.sbs()[j] == base.sbs()[j]);
                }
                assert forall|j: int|
                    0 <= j < i2 + 1 && (#[trigger] stepped.descs()[j]).has_state(
                        BlockState::Empty,
                    ) implies stepped.free_entries().contains(j as usize) by {
                    if j == i2 as int {
                        assert(stepped.free_entries().last() == i2);
                    } else {
                        assert(snap.descs()[j] == stepped.descs()[j]);
                        assert(snap.free_entries().contains(j as usize));
                        let k = choose|k: int|
                            0 <= k < snap.free_entries().len() && snap.free_entries()[k]
                                == j as usize;
                        assert(stepped.free_entries()[k] == j as usize);
                    }
                }
                assert forall|j: int|
                    0 <= j < i2 + 1 && (#[trigger] stepped.descs()[j]).has_state(
                        BlockState::Partial,
                    ) implies stepped.partial_entries(
                    stepped.descs()[j].size_class_spec() as int,
                ).contains(j as usize) by {
                    let sc2 = stepped.descs()[j].size_class_spec() as int;
                    if j == i2 as int {
                        assert(stepped.partial_entries(sc2).last() == i2);
                    } else {
                        assert(snap.descs()[j] == stepped.descs()[j]);
                        assert(snap.partial_entries(sc2).contains(j as usize));
                        let k = choose|k: int|
                            0 <= k < snap.partial_entries(sc2).len() && snap.partial_entries(
                                sc2,
                            )[k] == j as usize;
                        assert(stepped.partial_entries(sc2)[k] == j as usize);
                    }
                }
            }
            i2 = i2 + 1;
            proof {
                assert forall|j: int|
                    i2 <= j < n implies #[trigger] self.descs()[j] == base.descs()[j]
                    && self.sbs()[j] == base.sbs()[j] by {
                    assert(snap.descs()[j] == base.descs()[j]);
                    assert(snap.sbs()[j] == base.sbs()[j]);
                }
            }
        }
        let ghost fin = *self;
        self.region.used = used_acc;
        self.ready = true;
        self.pending_recovery = false;
        let r = self.opened_dirty;
        proof {
            let post = self;
            assert(post.descs().take(n as int) =~= post.descs());
            assert forall|sc2: int|
                0 <= sc2 <= NUM_CLASSES implies #[trigger] post.partial_entries(sc2)
                == fin.partial_entries(sc2) by {}
            assert forall|sc2: int|
                0 <= sc2 <= NUM_CLASSES implies #[trigger] post.active_of(sc2) == fin.active_of(
                sc2,
            ) by {}
            assert(post.free_entries() == fin.free_entries());
            assert(post.wf()) by {
                assert forall|j: int| 0 <= j < post.n() implies block::pair_wf(
                    #[trigger] post.descs()[j],
                    post.sbs()[j],
                    j,
                ) by {}
                assert forall|j: int|
                    0 <= j < post.n() && (#[trigger] post.descs()[j]).has_state(
                        BlockState::Partial,
                    ) implies {
                    let sc2 = post.descs()[j].size_class_spec() as int;
                    post.partial_entries(sc2).contains(j as usize) || post.active_of(sc2) == j + 1
                } by {}
            }
            assert(base.descs() == old(self).descs());
            assert(base.sbs() == old(self).sbs());
        }
        Ok(r)
    }

    /// The descriptor-table index owning an address, by the fixed stride
    /// arithmetic.
    pub open spec fn addr_desc(&self, a: usize) -> int {
        layout::spec_sb_index(a as int)
    }

    /// The block index an address names within its superblock.
    pub open spec fn addr_block(&self, a: usize) -> int {
        layout::spec_sb_offset(a as int) / (
        self.descs()[self.addr_desc(a)].block_size_spec() as int)
    }

    /// The address is the start of a currently live block: exactly what a
    /// prior `malloc` returned and no `free` has taken back. Passing any
    /// other address to `free` is caller misuse and is excluded by contract,
    /// as conventional allocators do.
    pub open spec fn owns_live_block(&self, a: usize) -> bool {
        let i = self.addr_desc(a);
        &&& HEADER_SIZE <= a
        &&& 0 <= i < self.n()
        &&& layout::spec_sb_offset(a as int) % (self.descs()[i].block_size_spec() as int) == 0
        &&& self.live_at(i, self.addr_block(a))
    }

    /// Give a block back: locate its superblock and descriptor by stride
    /// arithmetic, push it on the free-block stack, and move head, count,
    /// and state together in one packed-anchor update. A superblock that
    /// turns `Partial` becomes findable on its class's partial list; one
    /// that turns `Empty` leaves its class entirely for the global free
    /// list, available to any class.
    #[verifier::rlimit(100)]
    pub fn free(&mut self, ptr: Pointer<u8>)
        requires
            old(self).wf(),
            old(self).is_ready(),
            old(self).owns_live_block(ptr.addr_spec()),
        ensures
            final(self).wf(),
            final(self).is_ready(),
            final(self).roots_view() == old(self).roots_view(),
            final(self).size_spec() == old(self).size_spec(),
            final(self).dirty_spec() == old(self).dirty_spec(),
            final(self).n() == old(self).n(),
            ({
                let a = ptr.addr_spec();
                let i = old(self).addr_desc(a);
                let b = old(self).addr_block(a);
                let bs = old(self).descs()[i].block_size_spec() as int;
                &&& !final(self).live_at(i, b)
                &&& forall|j: int, c: int|
                    !(j == i && c == b) ==> #[trigger] final(self).live_at(j, c) == old(
                        self,
                    ).live_at(j, c)
                &&& final(self).used_spec() == old(self).used_spec() - bs
                &&& final(self).descs()[i].head() == b
                &&& final(self).descs()[i].count() == old(self).descs()[i].count() + 1
                &&& final(self).descs()[i].size_class_spec() == old(
                    self,
                ).descs()[i].size_class_spec()
                &&& final(self).descs()[i].block_size_spec() == old(
                    self,
                ).descs()[i].block_size_spec()
                &&& forall|j: int|
                    0 <= j < final(self).n() && j != i
                        ==> #[trigger] final(self).descs()[j] == old(self).descs()[j]
                        && final(self).sbs()[j] == old(self).sbs()[j]
            }),
            ({
                let a = ptr.addr_spec();
                let i = old(self).addr_desc(a);
                let sc = old(self).descs()[i].size_class_spec() as int;
                let emptied = old(self).descs()[i].count() + 1 == layout::class_blocks(sc);
                &&& forall|sc2: int|
                    0 <= sc2 <= NUM_CLASSES && sc2 != sc
                        ==> #[trigger] final(self).partial_entries(sc2)
                        == old(self).partial_entries(sc2)
                &&& forall|sc2: int|
                    0 <= sc2 <= NUM_CLASSES && sc2 != sc ==> #[trigger] final(self).active_of(sc2)
                        == old(self).active_of(sc2)
                &&& (!emptied ==> final(self).free_entries() == old(self).free_entries()
                    && final(self).active_of(sc) == old(self).active_of(sc))
                &&& (emptied ==> final(self).free_entries() == old(self).free_entries().push(
                    i as usize,
                ) && final(self).active_of(sc) == (if old(self).active_of(sc) == i + 1 {
                    0int
                } else {
                    old(self).active_of(sc)
                }))
            }),
    {
        let ghost pre = *self;
        let a = ptr.addr();
        proof {
            lemma_fundamental_div_mod((a - HEADER_SIZE) as int, SUPERBLOCK_SIZE as int);
        }
        let i = (a - HEADER_SIZE) / SUPERBLOCK_SIZE;
        let ghost ii = i as int;
        proof {
            assert(ii == pre.addr_desc(a));
            assert(block::pair_wf(pre.descs()[ii], pre.sbs()[ii], ii));
            block::lemma_count_within_capacity(pre.descs()[ii], pre.sbs()[ii]);
            layout::lemma_class_geometry(pre.descs()[ii].size_class_spec() as int);
            vstd::arithmetic::mul::lemma_mul_inequality(ii, pre.n(), SUPERBLOCK_SIZE as int);
        }
        let off = a - HEADER_SIZE - i * SUPERBLOCK_SIZE;
        let bs = self.region.descriptors[i].block_size();
        let sc = self.region.descriptors[i].size_class();
        let c0 = anchor::count_of(self.region.descriptors[i].anchor());
        let bps = layout::class_block_count(sc);
        proof {
            lemma_fundamental_div_mod(off as int, bs as int);
        }
        let b = off / bs;
        let ghost bb = b as int;
        let ghost fb = pre.sbs()[ii].free_blocks();
        proof {
            assert(off == layout::spec_sb_offset(a as int));
            assert(bb == pre.addr_block(a));
            assert(off == bs * bb);
            assert(pre.live_at(ii, bb));
            assert(bb < bps && !fb.contains(b));
            // A superblock with a live block is not entirely free.
            if c0 == bps {
                block::lemma_distinct_below_full(fb, bps as int);
                assert(fb.contains(b));
            }
            assert(c0 < bps);
            assert(b < 0x10000);
        }
        self.region.superblocks[i].push_free(b);
        let st = anchor::state_for_count(c0 + 1, bps);
        let d2 = Descriptor::new(anchor::pack(b, c0 + 1, st), sc, bs);
        self.region.descriptors[i] = d2;
        proof {
            let fb2 = self.sbs()[ii].free_blocks();
            assert(fb2 == fb.push(b));
            assert(fb2.no_duplicates()) by {
                assert forall|x: int, y: int| 0 <= x < y < fb2.len() implies fb2[x] != fb2[y] by {
                    if y == fb2.len() - 1 {
                        assert(fb2[x] == fb[x]);
                        if fb2[x] == b {
                            assert(fb[x] == b);
                        }
                    }
                }
            }
            assert(fb2.last() == b);
            assert(block::chain_wf(d2, self.sbs()[ii]));
            assert(block::pair_wf(d2, self.sbs()[ii], ii));
            assert(live_bytes(d2) == live_bytes(pre.descs()[ii]) - bs) by {
                assert((bps - (c0 + 1)) * (bs as int) == (bps - c0) * (bs as int) - bs)
                    by (nonlinear_arith);
            }
            lemma_total_live_update(pre.descs(), ii, d2);
            assert forall|j: int| 0 <= j < self.n() implies block::pair_wf(
                #[trigger] self.descs()[j],
                self.sbs()[j],
                j,
            ) by {
                if j != ii {
                    assert(block::pair_wf(pre.descs()[j], pre.sbs()[j], j));
                }
            }
            assert forall|j: int|
                0 <= j < self.n() implies 0 <= (#[trigger] self.descs()[j]).count()
                <= layout::class_blocks(self.descs()[j].size_class_spec() as int) by {
                block::lemma_count_within_capacity(self.descs()[j], self.sbs()[j]);
            }
            lemma_conservation(self.descs());
            assert(pre.used_spec() >= bs);
        }
        self.region.used = self.region.used - bs;
        let ghost mid = *self;
        proof {
            // Liveness: the freed block is no longer live; nothing else moved.
            assert(!mid.live_at(ii, bb));
            assert forall|j: int, c: int|
                !(j == ii && c == bb) ==> #[trigger] mid.live_at(j, c) == pre.live_at(j, c) by {
                if j == ii && c != bb && 0 <= c < bps {
                    let fb2 = mid.sbs()[ii].free_blocks();
                    if fb.contains(c as usize) {
                        let k = choose|k: int| 0 <= k < fb.len() && fb[k] == c as usize;
                        assert(fb2[k] == c as usize);
                    }
                    if fb2.contains(c as usize) {
                        let k = choose|k: int| 0 <= k < fb2.len() && fb2[k] == c as usize;
                        assert(k != fb2.len() - 1);
                        assert(fb[k] == c as usize);
                    }
                }
            }
        }        // The superblock's new state decides where it is findable.
        self.reclassify(i, sc, c0, bps, Ghost(pre));
        proof {
            // Liveness and counters are untouched by the list moves.
            assert(self.descs() == mid.descs());
            assert(self.sbs() == mid.sbs());
            assert forall|j: int, c: int| #[trigger] self.live_at(j, c) == mid.live_at(j, c) by {}
            // The anchor update itself moved nothing between the lists.
            assert forall|sc2: int|
                0 <= sc2 <= NUM_CLASSES implies #[trigger] mid.partial_entries(sc2)
                == pre.partial_entries(sc2) by {}
            assert forall|sc2: int|
                0 <= sc2 <= NUM_CLASSES implies #[trigger] mid.active_of(sc2) == pre.active_of(
                sc2,
            ) by {}
            assert(mid.free_entries() == pre.free_entries());
            assert forall|j: int|
                0 <= j < self.n() && j != ii implies #[trigger] self.descs()[j] == pre.descs()[j]
                && self.sbs()[j] == pre.sbs()[j] by {}
        }
    }

    /// Re-home a superblock after one block was given back: a superblock
    /// that became empty leaves its class for the global free list; one that
    /// was full becomes findable again on its class's partial list. The
    /// ghost argument is the heap as it stood before the anchor update.
    #[verifier::rlimit(100)]
    fn reclassify(&mut self, i: usize, sc: usize, c0: usize, bps: usize, Ghost(pre): Ghost<Heap>)
        requires
            pre.wf(),
            pre.is_ready(),
            old(self).is_ready(),
            !old(self).needs_recovery(),
            old(self).geometry_wf(),
            old(self).pairs_wf(),
            0 <= i < pre.n(),
            old(self).n() == pre.n(),
            sc == pre.descs()[i as int].size_class_spec(),
            bps == layout::class_blocks(sc as int),
            c0 == pre.descs()[i as int].count(),
            c0 < bps,
            old(self).descs() == pre.descs().update(i as int, old(self).descs()[i as int]),
            old(self).sbs() == pre.sbs().update(i as int, old(self).sbs()[i as int]),
            old(self).descs()[i as int].count() == c0 + 1,
            old(self).descs()[i as int].size_class_spec() == sc,
            old(self).free_entries() == pre.free_entries(),
            forall|sc2: int|
                0 <= sc2 <= NUM_CLASSES ==> #[trigger] old(self).partial_entries(sc2)
                    == pre.partial_entries(sc2),
            forall|sc2: int|
                0 <= sc2 <= NUM_CLASSES ==> #[trigger] old(self).active_of(sc2) == pre.active_of(
                    sc2,
                ),
            old(self).roots_view() == pre.roots_view(),
            old(self).size_spec() == pre.size_spec(),
            old(self).dirty_spec() == pre.dirty_spec(),
        ensures
            final(self).wf(),
            final(self).is_ready(),
            final(self).descs() == old(self).descs(),
            final(self).sbs() == old(self).sbs(),
            final(self).used_spec() == old(self).used_spec(),
            final(self).size_spec() == old(self).size_spec(),
            final(self).dirty_spec() == old(self).dirty_spec(),
            final(self).roots_view() == old(self).roots_view(),
            final(self).n() == old(self).n(),
            forall|sc2: int|
                0 <= sc2 <= NUM_CLASSES && sc2 != sc ==> #[trigger] final(self).partial_entries(
                    sc2,
                ) == old(self).partial_entries(sc2),
            forall|sc2: int|
                0 <= sc2 <= NUM_CLASSES && sc2 != sc ==> #[trigger] final(self).active_of(sc2)
                    == old(self).active_of(sc2),
            c0 + 1 != bps ==> final(self).free_entries() == old(self).free_entries()
                && final(self).active_of(sc as int) == old(self).active_of(sc as int),
            c0 + 1 == bps ==> final(self).free_entries() == old(self).free_entries().push(i)
                && final(self).active_of(sc as int) == (if old(self).active_of(sc as int) == i + 1 {
                0int
            } else {
                old(self).active_of(sc as int)
            }),
    {
        let ghost ii = i as int;
        let ghost d2 = old(self).descs()[i as int];
        proof {
            assert(block::pair_wf(pre.descs()[ii], pre.sbs()[ii], ii));
            assert(block::pair_wf(d2, self.sbs()[ii], ii));
            layout::lemma_class_geometry(sc as int);
        }
        if c0 + 1 == bps {
            // The superblock became entirely empty: leave its class.
            if sc >= 1 && self.active[sc] == i + 1 {
                self.active[sc] = 0;
            } else if c0 > 0 {
                proof {
                    assert(pre.descs()[ii].has_state(BlockState::Partial));
                    assert(bps >= 2);
                    if sc == 0 {
                        layout::lemma_class_geometry(0);
                        assert(false);
                    }
                    assert(self.active_of(sc as int) != ii + 1);
                    assert(pre.partial_entries(sc as int).contains(i));
                    crate::stack::lemma_remove_value_props(pre.partial_entries(sc as int), i);
                }
                self.partial_lists[sc].remove(i);
            }
            self.free_list.push(i);
            proof {
                let post = self;
                assert(d2.has_state(BlockState::Empty));
                crate::stack::lemma_remove_value_props(pre.partial_entries(sc as int), i);
                assert forall|sc2: int|
                    0 <= sc2 <= NUM_CLASSES && sc2 != sc implies #[trigger] post.partial_entries(
                    sc2,
                ) == pre.partial_entries(sc2) by {
                    assert(old(self).partial_entries(sc2) == pre.partial_entries(sc2));
                }
                assert(old(self).partial_entries(sc as int) == pre.partial_entries(sc as int));
                assert(post.partial_entries(sc as int) == pre.partial_entries(sc as int)
                    || post.partial_entries(sc as int) == pre.partial_entries(
                    sc as int,
                ).remove_value(i));
                assert(!pre.free_entries().contains(i)) by {
                    if pre.free_entries().contains(i) {
                        let k = choose|k: int|
                            0 <= k < pre.free_entries().len() && pre.free_entries()[k] == i;
                        assert(pre.descs()[ii].has_state(BlockState::Empty));
                        assert(c0 == bps);
                    }
                }
                assert(!pre.partial_entries(sc as int).contains(i) || post.partial_entries(
                    sc as int,
                ) == pre.partial_entries(sc as int).remove_value(i) || pre.active_of(sc as int)
                    == ii + 1) by {
                    assert(old(self).active_of(sc as int) == pre.active_of(sc as int));
                    if pre.partial_entries(sc as int).contains(i) {
                        assert(pre.descs()[ii].has_state(BlockState::Partial)) by {
                            let k = choose|k: int|
                                0 <= k < pre.partial_entries(sc as int).len()
                                    && pre.partial_entries(sc as int)[k] == i;
                            assert(1 <= sc <= NUM_CLASSES);
                        }
                        assert(c0 > 0 && c0 < bps);
                    }
                }
                assert(!post.partial_entries(sc as int).contains(i)) by {
                    if post.partial_entries(sc as int).contains(i) {
                        if pre.active_of(sc as int) == ii + 1 {
                            assert(post.partial_entries(sc as int) == pre.partial_entries(
                                sc as int,
                            ));
                            assert(!pre.partial_entries(sc as int).contains(i));
                        }
                    }
                }
                assert forall|k: int|
                    0 <= k < post.free_entries().len() implies (#[trigger] post.free_entries()[k])
                    < post.n() && post.descs()[post.free_entries()[k] as int].has_state(
                    BlockState::Empty,
                ) by {
                    if k < post.free_entries().len() - 1 {
                        assert(post.free_entries()[k] == pre.free_entries()[k]);
                        assert(pre.free_entries()[k] != i);
                    } else {
                        assert(post.free_entries()[k] == i);
                    }
                }
                assert(post.free_entries().no_duplicates()) by {
                    let fe = post.free_entries();
                    assert forall|x: int, y: int| 0 <= x < y < fe.len() implies fe[x] != fe[y] by {
                        if y == fe.len() - 1 {
                            assert(fe[x] == pre.free_entries()[x]);
                            assert(pre.free_entries()[x] != i);
                        }
                    }
                }
                assert(post.partial_lists_wf()) by {
                    assert forall|sc2: int, k: int|
                        1 <= sc2 <= NUM_CLASSES && 0 <= k < post.partial_entries(sc2).len()
                            implies (#[trigger] post.partial_entries(sc2)[k]) < post.n()
                        && post.descs()[post.partial_entries(sc2)[k] as int].has_state(
                        BlockState::Partial,
                    ) && post.descs()[post.partial_entries(sc2)[k] as int].size_class_spec()
                        == sc2 by {
                        let m = post.partial_entries(sc2)[k];
                        assert(post.partial_entries(sc2).contains(m));
                        assert(m != i);
                        assert(pre.partial_entries(sc2).contains(m));
                        let k2 = choose|k2: int|
                            0 <= k2 < pre.partial_entries(sc2).len() && pre.partial_entries(
                                sc2,
                            )[k2] == m;
                        assert(pre.descs()[m as int].has_state(BlockState::Partial));
                    }
                    assert forall|sc2: int|
                        0 <= sc2 <= NUM_CLASSES implies (#[trigger] post.partial_entries(
                        sc2,
                    )).no_duplicates() by {}
                }
                assert(post.active_wf()) by {
                    assert(old(self).active_of(0) == pre.active_of(0));
                    assert(post.active_of(0) == 0);
                    assert forall|sc2: int|
                        0 <= sc2 <= NUM_CLASSES && #[trigger] post.active_of(sc2) != 0 implies {
                        let dd = post.active_of(sc2) - 1;
                        &&& dd < post.n()
                        &&& post.descs()[dd].size_class_spec() == sc2
                        &&& (post.descs()[dd].has_state(BlockState::Partial)
                            || post.descs()[dd].has_state(BlockState::Full))
                        &&& !post.partial_entries(sc2).contains((dd) as usize)
                    } by {
                        assert(old(self).active_of(sc2) == pre.active_of(sc2));
                        assert(post.active_of(sc2) == pre.active_of(sc2) || (sc2 == sc
                            && post.active_of(sc2) == 0));
                        let dd = post.active_of(sc2) - 1;
                        assert(dd != ii) by {
                            if dd == ii {
                                assert(pre.active_of(sc2) == ii + 1);
                                assert(pre.descs()[ii].size_class_spec() == sc2);
                                assert(sc2 == sc);
                                assert(post.active_of(sc as int) != ii + 1);
                            }
                        }
                        if post.partial_entries(sc2).contains(dd as usize) {
                            assert(pre.partial_entries(sc2).contains(dd as usize));
                        }
                    }
                }
                assert(post.lists_complete()) by {
                    assert forall|j: int|
                        0 <= j < post.n() && (#[trigger] post.descs()[j]).has_state(
                            BlockState::Empty,
                        ) implies post.free_entries().contains(j as usize) by {
                        if j == ii {
                            assert(post.free_entries().last() == i);
                        } else {
                            assert(pre.descs()[j].has_state(BlockState::Empty));
                            assert(pre.free_entries().contains(j as usize));
                            let k = choose|k: int|
                                0 <= k < pre.free_entries().len() && pre.free_entries()[k]
                                    == j as usize;
                            assert(post.free_entries()[k] == j as usize);
                        }
                    }
                    assert forall|j: int|
                        0 <= j < post.n() && (#[trigger] post.descs()[j]).has_state(
                            BlockState::Partial,
                        ) implies {
                        let sc2 = post.descs()[j].size_class_spec() as int;
                        post.partial_entries(sc2).contains(j as usize) || post.active_of(sc2) == j
                            + 1
                    } by {
                        assert(j != ii);
                        assert(pre.descs()[j].has_state(BlockState::Partial));
                        let sc2 = post.descs()[j].size_class_spec() as int;
                        if pre.partial_entries(sc2).contains(j as usize) {
                            assert(post.partial_entries(sc2).contains(j as usize));
                        } else {
                            assert(pre.active_of(sc2) == j + 1);
                            assert(old(self).active_of(sc2) == pre.active_of(sc2));
                            assert(post.active_of(sc2) == j + 1) by {
                                if sc2 == sc && pre.active_of(sc as int) == ii + 1 {
                                    assert(j == ii);
                                }
                            }
                        }
                    }
                }
                assert(post.wf());
            }
        } else if c0 == 0 {
            // Full becomes Partial: make it findable again.
            proof {
                assert(pre.descs()[ii].has_state(BlockState::Full));
                assert(d2.has_state(BlockState::Partial));
                assert(1 <= sc <= NUM_CLASSES) by {
                    if sc == 0 {
                        assert(bps == 1);
                    }
                }
            }
            if self.active[sc] != i + 1 {
                proof {
                    assert(!pre.partial_entries(sc as int).contains(i)) by {
                        if pre.partial_entries(sc as int).contains(i) {
                            assert(pre.descs()[ii].has_state(BlockState::Partial));
                        }
                    }
                }
                self.partial_lists[sc].push(i);
                proof {
                    let post = self;
                    assert(old(self).partial_entries(sc as int) == pre.partial_entries(sc as int));
                    assert(post.partial_entries(sc as int) == pre.partial_entries(
                        sc as int,
                    ).push(i));
                    assert forall|sc2: int|
                        0 <= sc2 <= NUM_CLASSES && sc2 != sc implies #[trigger] post.partial_entries(
                            sc2,
                        ) == pre.partial_entries(sc2) by {
                        assert(old(self).partial_entries(sc2) == pre.partial_entries(sc2));
                    }
                    assert(post.partial_lists_wf()) by {
                        let ent = post.partial_entries(sc as int);
                        assert forall|k: int| 0 <= k < ent.len() implies (#[trigger] ent[k])
                            < post.n() && post.descs()[ent[k] as int].has_state(
                            BlockState::Partial,
                        ) && post.descs()[ent[k] as int].size_class_spec() == sc as int by {
                            if k < ent.len() - 1 {
                                assert(ent[k] == pre.partial_entries(sc as int)[k]);
                                assert(ent[k] != i);
                            } else {
                                assert(ent[k] == i);
                            }
                        }
                        assert(ent.no_duplicates()) by {
                            assert forall|x: int, y: int|
                                0 <= x < y < ent.len() implies ent[x] != ent[y] by {
                                if y == ent.len() - 1 {
                                    assert(ent[x] == pre.partial_entries(sc as int)[x]);
                                    if ent[x] == i {
                                        assert(pre.partial_entries(sc as int).contains(i));
                                    }
                                }
                            }
                        }
                    }
                    assert(post.active_wf()) by {
                        assert(old(self).active_of(0) == pre.active_of(0));
                        assert(post.active_of(0) == old(self).active_of(0));
                        assert forall|sc2: int|
                            0 <= sc2 <= NUM_CLASSES && #[trigger] post.active_of(sc2)
                                != 0 implies {
                            let dd = post.active_of(sc2) - 1;
                            &&& dd < post.n()
                            &&& post.descs()[dd].size_class_spec() == sc2
                            &&& (post.descs()[dd].has_state(BlockState::Partial)
                                || post.descs()[dd].has_state(BlockState::Full))
                            &&& !post.partial_entries(sc2).contains((dd) as usize)
                        } by {
                            assert(old(self).active_of(sc2) == pre.active_of(sc2));
                            assert(post.active_of(sc2) == old(self).active_of(sc2));
                            let dd = post.active_of(sc2) - 1;
                            if sc2 == sc {
                                assert(pre.active_of(sc2) != ii + 1);
                                assert(dd != ii);
                                assert(!pre.partial_entries(sc2).contains(dd as usize));
                                let ent = post.partial_entries(sc as int);
                                if ent.contains(dd as usize) {
                                    let k = choose|k: int|
                                        0 <= k < ent.len() && ent[k] == dd as usize;
                                    assert(k == ent.len() - 1);
                                    assert(dd == ii);
                                }
                            } else {
                                if dd == ii {
                                    assert(pre.descs()[ii].size_class_spec() == sc2);
                                }
                            }
                        }
                    }
                    assert(post.lists_complete()) by {
                        assert forall|j: int|
                            0 <= j < post.n() && (#[trigger] post.descs()[j]).has_state(
                                BlockState::Partial,
                            ) implies {
                            let sc2 = post.descs()[j].size_class_spec() as int;
                            post.partial_entries(sc2).contains(j as usize) || post.active_of(sc2)
                                == j + 1
                        } by {
                            let sc2 = post.descs()[j].size_class_spec() as int;
                            if j == ii {
                                assert(post.partial_entries(sc as int).last() == i);
                            } else {
                                assert(pre.descs()[j].has_state(BlockState::Partial));
                                assert(old(self).active_of(sc2) == pre.active_of(sc2));
                                assert(post.active_of(sc2) == old(self).active_of(sc2));
                                if pre.partial_entries(sc2).contains(j as usize) {
                                    if sc2 == sc {
                                        let k = choose|k: int|
                                            0 <= k < pre.partial_entries(sc2).len()
                                                && pre.partial_entries(sc2)[k] == j as usize;
                                        assert(post.partial_entries(sc2)[k] == j as usize);
                                    }
                                }
                            }
                        }
                    }
                    assert(post.wf());
                }
            } else {
                proof {
                    assert(self.wf()) by {
                        let post = self;
                        assert forall|sc2: int|
                            0 <= sc2 <= NUM_CLASSES ==> #[trigger] post.partial_entries(sc2)
                                == pre.partial_entries(sc2) by {}
                        assert(post.lists_complete()) by {
                            assert forall|j: int|
                                0 <= j < post.n() && (#[trigger] post.descs()[j]).has_state(
                                    BlockState::Partial,
                                ) implies {
                                let sc2 = post.descs()[j].size_class_spec() as int;
                                post.partial_entries(sc2).contains(j as usize) || post.active_of(
                                    sc2,
                                ) == j + 1
                            } by {
                                if j != ii {
                                    assert(pre.descs()[j].has_state(BlockState::Partial));
                                }
                            }
                        }
                    }
                }
            }
        } else {
            // Partial stays Partial: it keeps its place on its partial list
            // or in the active slot.
            proof {
                assert(pre.descs()[ii].has_state(BlockState::Partial));
                assert(d2.has_state(BlockState::Partial));
                let post = self;
                assert forall|sc2: int|
                    0 <= sc2 <= NUM_CLASSES ==> #[trigger] post.partial_entries(sc2)
                        == pre.partial_entries(sc2) by {}
                assert(post.lists_complete()) by {
                    assert forall|j: int|
                        0 <= j < post.n() && (#[trigger] post.descs()[j]).has_state(
                            BlockState::Partial,
                        ) implies {
                        let sc2 = post.descs()[j].size_class_spec() as int;
                        post.partial_entries(sc2).contains(j as usize) || post.active_of(sc2) == j
                            + 1
                    } by {
                        if j != ii {
                            assert(pre.descs()[j].has_state(BlockState::Partial));
                        }
                    }
                }
                assert(post.wf());
            }
        }
    }


    /// The two heaps hold the same tables and counters.
    pub open spec fn same_storage(&self, other: &Heap) -> bool {
        &&& self.descs() == other.descs()
        &&& self.sbs() == other.sbs()
        &&& self.size_spec() == other.size_spec()
        &&& self.used_spec() == other.used_spec()
        &&& self.dirty_spec() == other.dirty_spec()
    }

    /// The two heaps hold the same search state.
    pub open spec fn same_lists(&self, other: &Heap) -> bool {
        &&& self.free_entries() == other.free_entries()
        &&& forall|sc: int|
            0 <= sc <= NUM_CLASSES ==> #[trigger] self.partial_entries(sc) == other.partial_entries(
                sc,
            )
        &&& forall|sc: int| 0 <= sc <= NUM_CLASSES ==> #[trigger] self.active_of(sc)
            == other.active_of(sc)
        &&& self.partial_lists_len() == other.partial_lists_len()
        &&& self.active_len() == other.active_len()
    }

    /// Create a fresh heap spanning `size` bytes, or adopt a previously
    /// persisted region image. The second component reports whether a heap
    /// already existed. A fresh or cleanly closed heap is ready at once; an
    /// adopted image is not ready until `recover` has reconciled it — and a
    /// cleanly closed image still needs that pass to rebuild the transient
    /// lists, so adoption always leaves recovery pending. The dirty flag is
    /// raised here, before any allocation activity of the new session.
    pub fn init(region: Option<SuperBlockRegion>, size: usize) -> (r: Result<
        (Heap, bool),
        AllocError,
    >)
        ensures
            r matches Ok(hb) ==> !hb.1 ==> {
                &&& hb.0.wf()
                &&& hb.0.is_ready()
                &&& hb.0.used_spec() == 0
                &&& hb.0.dirty_spec()
                &&& hb.0.n() == (size - HEADER_SIZE) / (SUPERBLOCK_SIZE as int)
                &&& hb.0.size_spec() == HEADER_SIZE + hb.0.n() * SUPERBLOCK_SIZE
                &&& hb.0.size_spec() <= size
                &&& hb.0.roots_view() =~= Seq::new(ROOT_COUNT as nat, |k: int| 0usize)
                &&& hb.0.free_entries().len() == hb.0.n()
                &&& forall|sc: int|
                    0 <= sc <= NUM_CLASSES ==> #[trigger] hb.0.partial_entries(sc).len() == 0
                &&& forall|sc: int| 0 <= sc <= NUM_CLASSES ==> #[trigger] hb.0.active_of(sc) == 0
                &&& forall|i: int, b: int| !hb.0.live_at(i, b)
            },
            r matches Ok(hb) ==> (hb.1 <==> region is Some),
            region is None ==> ((r is Err) <==> (size < HEADER_SIZE + SUPERBLOCK_SIZE || (size
                - HEADER_SIZE) / (SUPERBLOCK_SIZE as int) > 0xffff_ffff)),
            r is Err ==> r == Err::<(Heap, bool), AllocError>(AllocError::IoError),
            r matches Ok(hb) ==> hb.1 ==> {
                let reg = region.unwrap();
                &&& !hb.0.is_ready()
                &&& hb.0.needs_recovery()
                &&& hb.0.roots_view() == reg.roots_spec()
                &&& hb.0.descs() == reg.descs_spec()
                &&& hb.0.sbs() == reg.sbs_spec()
                &&& hb.0.size_spec() == reg.size_spec()
                &&& hb.0.dirty_spec()
                &&& hb.0.opened_dirty_spec() == reg.dirty_spec()
            },
            region matches Some(reg) ==> ((r is Err) <==> reg.size_spec() != size),
    {
        match region {
            Some(mut reg) => {
                if reg.size != size {
                    return Err(AllocError::IoError);
                }
                let was_dirty = reg.dirty;
                reg.dirty = true;
                let mut partial_lists: Vec<PartialList> = Vec::new();
                let mut active: Vec<usize> = Vec::new();
                let mut sc: usize = 0;
                while sc < NUM_CLASSES + 1
                    invariant
                        partial_lists@.len() == sc,
                        active@.len() == sc,
                        sc <= NUM_CLASSES + 1,
                    decreases NUM_CLASSES + 1 - sc,
                {
                    partial_lists.push(PartialList::new());
                    active.push(0);
                    sc = sc + 1;
                }
                let heap = Heap {
                    region: reg,
                    free_list: SuperBlockFreeList::new(),
                    partial_lists,
                    active,
                    ready: false,
                    pending_recovery: true,
                    opened_dirty: was_dirty,
                };
                Ok((heap, true))
            },
            None => {
                if size < HEADER_SIZE + SUPERBLOCK_SIZE {
                    return Err(AllocError::IoError);
                }
                let n = (size - HEADER_SIZE) / SUPERBLOCK_SIZE;
                if n > 0xffff_ffff {
                    return Err(AllocError::IoError);
                }
                proof {
                    lemma_fundamental_div_mod((size - HEADER_SIZE) as int, SUPERBLOCK_SIZE as int);
                }
                let mut roots: Vec<usize> = Vec::new();
                let mut k: usize = 0;
                while k < ROOT_COUNT
                    invariant
                        roots@.len() == k,
                        k <= ROOT_COUNT,
                        forall|j: int| 0 <= j < k ==> roots@[j] == 0usize,
                    decreases ROOT_COUNT - k,
                {
                    roots.push(0);
                    k = k + 1;
                }
                let mut partial_lists: Vec<PartialList> = Vec::new();
                let mut active: Vec<usize> = Vec::new();
                let mut sc: usize = 0;
                while sc < NUM_CLASSES + 1
                    invariant
                        partial_lists@.len() == sc,
                        active@.len() == sc,
                        sc <= NUM_CLASSES + 1,
                        forall|j: int|
                            0 <= j < sc ==> (#[trigger] partial_lists@[j]).entries().len() == 0,
                        forall|j: int| 0 <= j < sc ==> active@[j] == 0usize,
                    decreases NUM_CLASSES + 1 - sc,
                {
                    partial_lists.push(PartialList::new());
                    active.push(0);
                    sc = sc + 1;
                }
                let mut superblocks: Vec<SuperBlock> = Vec::new();
                let mut descriptors: Vec<Descriptor> = Vec::new();
                let mut free_list = SuperBlockFreeList::new();
                let mut i: usize = 0;
                let mut addr: usize = HEADER_SIZE;
                while i < n
                    invariant
                        i <= n,
                        n <= 0xffff_ffff,
                        HEADER_SIZE + n * SUPERBLOCK_SIZE <= size,
                        addr == HEADER_SIZE + i * SUPERBLOCK_SIZE,
                        superblocks@.len() == i,
                        descriptors@.len() == i,
                        free_list.entries().len() == i,
                        forall|j: int|
                            0 <= j < i ==> block::pair_wf(
                                #[trigger] descriptors@[j],
                                superblocks@[j],
                                j,
                            ),
                        forall|j: int|
                            0 <= j < i ==> (#[trigger] descriptors@[j]).has_state(
                                BlockState::Empty,
                            ),
                        forall|j: int| 0 <= j < i ==> #[trigger] free_list.entries()[j] == j,
                        total_live(descriptors@) == 0,
                        forall|j: int, b: int|
                            0 <= j < i ==> !#[trigger] block::is_live(
                                descriptors@[j],
                                superblocks@[j],
                                b,
                            ),
                    decreases n - i,
                {
                    proof {
                        vstd::arithmetic::mul::lemma_mul_inequality(
                            i + 1,
                            n as int,
                            SUPERBLOCK_SIZE as int,
                        );
                        assert((i + 1) * SUPERBLOCK_SIZE == i * SUPERBLOCK_SIZE + SUPERBLOCK_SIZE)
                            by (nonlinear_arith);
                    }
                    let ptr = match Pointer::<u8>::from_addr(addr) {
                        Some(p) => p,
                        None => {
                            return Err(AllocError::IoError);
                        },
                    };
                    let mut fb: Vec<usize> = Vec::new();
                    fb.push(0);
                    let sb = SuperBlock::new(SUPERBLOCK_SIZE, ptr, fb);
                    let d = Descriptor::new(
                        anchor::pack(0, 1, BlockState::Empty),
                        0,
                        SUPERBLOCK_SIZE,
                    );
                    proof {
                        let ds = descriptors@;
                        assert(ds.push(d).drop_last() =~= ds);
                        assert(block::chain_wf(d, sb));
                        assert(live_bytes(d) == 0) by {
                            assert((1int - 1int) * 65536int == 0) by (nonlinear_arith);
                        }
                        assert(forall|b: int| !block::is_live(d, sb, b)) by {
                            assert(sb.free_blocks()[0] == 0usize);
                            assert(sb.free_blocks().contains(0usize));
                        }
                    }
                    superblocks.push(sb);
                    descriptors.push(d);
                    free_list.push(i);
                    i = i + 1;
                    addr = addr + SUPERBLOCK_SIZE;
                }
                let heap = Heap {
                    region: SuperBlockRegion {
                        size: HEADER_SIZE + n * SUPERBLOCK_SIZE,
                        used: 0,
                        dirty: true,
                        roots,
                        superblocks,
                        descriptors,
                    },
                    free_list,
                    partial_lists,
                    active,
                    ready: true,
                    pending_recovery: false,
                    opened_dirty: false,
                };
                proof {
                    assert(heap.free_list_wf());
                    assert forall|i2: int|
                        0 <= i2 < heap.n() && heap.descs()[i2].has_state(
                            BlockState::Empty,
                        ) implies heap.free_entries().contains(i2 as usize) by {
                        assert(heap.free_entries()[i2] == i2 as usize);
                    }
                    assert(heap.lists_complete());
                    assert forall|i2: int, b: int| !heap.live_at(i2, b) by {
                        if 0 <= i2 < heap.n() {
                            assert(!block::is_live(heap.descs()[i2], heap.sbs()[i2], b));
                        }
                    }
                }
                Ok((heap, false))
            },
        }
    }

    /// Whether the heap is ready to serve allocation traffic.
    pub fn ready(&self) -> (r: bool)
        ensures
            r == self.is_ready(),
    {
        self.ready
    }

    /// Store an address in root slot `i`. Roots are the persistent entry
    /// points into heap-resident data; they survive restarts and recovery.
    /// The slot index must be within the fixed root table.
    pub fn set_root(&mut self, ptr: Pointer<u8>, i: usize)
        requires
            old(self).wf(),
            old(self).is_ready(),
            i < ROOT_COUNT,
        ensures
            final(self).wf(),
            final(self).is_ready(),
            final(self).roots_view() == old(self).roots_view().update(i as int, ptr.addr_spec()),
            final(self).same_storage(old(self)),
            final(self).same_lists(old(self)),
            forall|j: int, b: int| final(self).live_at(j, b) == old(self).live_at(j, b),
    {
        self.region.roots[i] = ptr.addr();
        proof {
            assert forall|sc: int| 0 <= sc <= NUM_CLASSES implies #[trigger] self.partial_entries(
                sc,
            ) == old(self).partial_entries(sc) by {}
            assert forall|sc: int| 0 <= sc <= NUM_CLASSES implies #[trigger] self.active_of(sc)
                == old(self).active_of(sc) by {}
        }
    }

    /// Read root slot `i`: the stored address, `InvalidRoot` when the index
    /// is out of bounds or the slot was never set.
    pub fn get_root(&self, i: usize) -> (r: Result<usize, AllocError>)
        requires
            self.wf(),
            self.is_ready(),
        ensures
            i < ROOT_COUNT && self.roots_view()[i as int] != 0 ==> r == Ok::<usize, AllocError>(
                self.roots_view()[i as int],
            ),
            !(i < ROOT_COUNT && self.roots_view()[i as int] != 0) ==> r == Err::<
                usize,
                AllocError,
            >(AllocError::InvalidRoot),
    {
        if i < ROOT_COUNT {
            let a = self.region.roots[i];
            if a != 0 {
                Ok(a)
            } else {
                Err(AllocError::InvalidRoot)
            }
        } else {
            Err(AllocError::InvalidRoot)
        }
    }

    /// Total bytes the region spans.
    pub fn size(&self) -> (r: usize)
        ensures
            r == self.size_spec(),
    {
        self.region.size
    }

    /// Bytes currently allocated.
    pub fn used(&self) -> (r: usize)
        ensures
            r == self.used_spec(),
    {
        self.region.used
    }

    /// Whether the underlying region is marked dirty.
    pub fn dirty(&self) -> (r: bool)
        ensures
            r == self.dirty_spec(),
    {
        self.region.dirty
    }

    /// Read access to the underlying region image.
    pub fn region(&self) -> (r: &SuperBlockRegion)
        ensures
            r.size_spec() == self.size_spec(),
            r.used_spec() == self.used_spec(),
            r.dirty_spec() == self.dirty_spec(),
            r.roots_spec() == self.roots_view(),
            r.sbs_spec() == self.sbs(),
            r.descs_spec() == self.descs(),
    {
        &self.region
    }

    /// Surrender the region image, e.g. to persist it. Surrendering without
    /// a prior `close` leaves the dirty flag set, so reopening the image
    /// will demand recovery.
    pub fn into_region(self) -> (r: SuperBlockRegion)
        ensures
            r.size_spec() == self.size_spec(),
            r.used_spec() == self.used_spec(),
            r.dirty_spec() == self.dirty_spec(),
            r.roots_spec() == self.roots_view(),
            r.sbs_spec() == self.sbs(),
            r.descs_spec() == self.descs(),
    {
        self.region
    }
}

/// Live allocations never overlap: any two distinct live blocks of a
/// well-formed heap occupy disjoint byte ranges.
pub proof fn lemma_live_blocks_disjoint(h: &Heap, i: int, b: int, j: int, c: int)
    requires
        h.wf(),
        h.live_at(i, b),
        h.live_at(j, c),
        !(i == j && b == c),
    ensures
        ({
            let bs_i = h.descs()[i].block_size_spec() as int;
            let bs_j = h.descs()[j].block_size_spec() as int;
            layout::block_addr(i, b, bs_i) + bs_i <= layout::block_addr(j, c, bs_j)
                || layout::block_addr(j, c, bs_j) + bs_j <= layout::block_addr(i, b, bs_i)
        }),
{
    assert(block::pair_wf(h.descs()[i], h.sbs()[i], i));
    assert(block::pair_wf(h.descs()[j], h.sbs()[j], j));
    let sc_i = h.descs()[i].size_class_spec() as int;
    let sc_j = h.descs()[j].size_class_spec() as int;
    let bs_i = h.descs()[i].block_size_spec() as int;
    let bs_j = h.descs()[j].block_size_spec() as int;
    layout::lemma_class_geometry(sc_i);
    layout::lemma_class_geometry(sc_j);
    layout::lemma_block_in_sb(b, bs_i, layout::class_blocks(sc_i));
    layout::lemma_block_in_sb(c, bs_j, layout::class_blocks(sc_j));
    if i == j {
        if b < c {
            layout::lemma_blocks_disjoint(b, c, bs_i);
        } else {
            layout::lemma_blocks_disjoint(c, b, bs_i);
        }
    } else if i < j {
        vstd::arithmetic::mul::lemma_mul_inequality(i + 1, j, SUPERBLOCK_SIZE as int);
        assert((i + 1) * SUPERBLOCK_SIZE == i * SUPERBLOCK_SIZE + SUPERBLOCK_SIZE)
            by (nonlinear_arith);
    } else {
        vstd::arithmetic::mul::lemma_mul_inequality(j + 1, i, SUPERBLOCK_SIZE as int);
        assert((j + 1) * SUPERBLOCK_SIZE == j * SUPERBLOCK_SIZE + SUPERBLOCK_SIZE)
            by (nonlinear_arith);
    }
}

/// Conservation: the bytes reachable through live allocations plus the free
/// capacity on the superblocks' stacks is exactly the region's capacity
/// minus the fixed metadata overhead — at every observable instant.
pub proof fn lemma_conservation_of_bytes(h: &Heap)
    requires
        h.wf(),
    ensures
        h.used_spec() + total_free(h.descs()) == h.size_spec() - HEADER_SIZE,
        0 <= total_free(h.descs()),
        h.used_spec() <= h.size_spec() - HEADER_SIZE,
{
    assert forall|k: int|
        0 <= k < h.descs().len() implies 0 <= (#[trigger] h.descs()[k]).count()
        <= layout::class_blocks(h.descs()[k].size_class_spec() as int) by {
        assert(block::pair_wf(h.descs()[k], h.sbs()[k], k));
        block::lemma_count_within_capacity(h.descs()[k], h.sbs()[k]);
    }
    assert forall|k: int|
        0 <= k < h.descs().len() implies (#[trigger] h.descs()[k]).block_size_spec()
        == layout::class_size(h.descs()[k].size_class_spec() as int) by {
        assert(block::pair_wf(h.descs()[k], h.sbs()[k], k));
    }
    lemma_conservation(h.descs());
}

/// Every descriptor's anchor is internally consistent at every observable
/// instant: the free count lies between zero and the superblock's capacity,
/// the state is `Empty` exactly when every block is free, and `Full`
/// exactly when none is.
pub proof fn lemma_descriptor_state_consistent(h: &Heap, i: int)
    requires
        h.wf(),
        0 <= i < h.n(),
    ensures
        0 <= h.descs()[i].count() <= layout::class_blocks(h.descs()[i].size_class_spec() as int),
        h.descs()[i].has_state(BlockState::Empty) <==> h.descs()[i].count()
            == layout::class_blocks(h.descs()[i].size_class_spec() as int),
        h.descs()[i].has_state(BlockState::Full) <==> h.descs()[i].count() == 0,
{
    assert(block::pair_wf(h.descs()[i], h.sbs()[i], i));
    block::lemma_count_within_capacity(h.descs()[i], h.sbs()[i]);
    layout::lemma_class_geometry(h.descs()[i].size_class_spec() as int);
}

/// Storing a root and reading the same slot back round-trips: after a store
/// of a non-null address to a valid slot, the slot holds exactly that
/// address, which is what `get_root` then returns.
pub proof fn lemma_root_round_trip(h1: &Heap, h2: &Heap, a: usize, i: usize)
    requires
        h1.wf(),
        i < ROOT_COUNT,
        a != 0,
        h2.roots_view() == h1.roots_view().update(i as int, a),
    ensures
        h2.roots_view()[i as int] == a,
        h2.roots_view()[i as int] != 0,
{
}

/// The allocator's operation set: one concrete heap type implements it, and
/// its contracts tie every operation to the implementor's invariant and
/// persistent root table.
pub trait Ralloc: Sized {
    /// The implementor's invariant.
    spec fn inv(&self) -> bool;

    /// Whether the implementor may serve allocation traffic (a reopened
    /// region must be reconciled first).
    spec fn serviceable(&self) -> bool;

    /// The persistent root table.
    spec fn root_table(&self) -> Seq<usize>;

    /// Whether an address may be handed to `free`: it names a live block.
    spec fn can_free(&self, a: usize) -> bool;

    /// Create a heap of `size` bytes or adopt an existing region image; the
    /// second component reports whether a heap already existed.
    fn init(region: Option<SuperBlockRegion>, size: usize) -> (r: Result<(Self, bool), AllocError>)
        ensures
            r matches Ok(hb) ==> (hb.1 <==> region is Some),
            r matches Ok(hb) ==> (!hb.1 ==> hb.0.inv() && hb.0.serviceable()),
    ;

    /// Reconcile a reopened region; returns whether an unclean shutdown was
    /// repaired.
    fn recover(&mut self) -> (r: Result<bool, AllocError>)
        ensures
            r is Ok ==> final(self).root_table() == old(self).root_table(),
    ;

    /// Flush cached state and mark the heap cleanly closed.
    fn close(&mut self)
        requires
            old(self).inv(),
            old(self).serviceable(),
        ensures
            final(self).inv(),
            final(self).serviceable(),
            final(self).root_table() == old(self).root_table(),
    ;

    /// Allocate `size` bytes.
    fn malloc(&mut self, size: usize) -> (r: Result<usize, AllocError>)
        requires
            old(self).inv(),
            old(self).serviceable(),
        ensures
            final(self).inv(),
            final(self).serviceable(),
            final(self).root_table() == old(self).root_table(),
            r matches Ok(a) ==> a != 0,
    ;

    /// Give a block back; the address must come from `malloc` and not have
    /// been freed since.
    fn free(&mut self, ptr: Pointer<u8>)
        requires
            old(self).inv(),
            old(self).serviceable(),
            old(self).can_free(ptr.addr_spec()),
        ensures
            final(self).inv(),
            final(self).serviceable(),
            final(self).root_table() == old(self).root_table(),
    ;

    /// Store an address in root slot `i`.
    fn set_root(&mut self, ptr: Pointer<u8>, i: usize)
        requires
            old(self).inv(),
            old(self).serviceable(),
            i < ROOT_COUNT,
        ensures
            final(self).inv(),
            final(self).serviceable(),
            final(self).root_table() == old(self).root_table().update(
                i as int,
                ptr.addr_spec(),
            ),
    ;

    /// Read root slot `i`.
    fn get_root(&self, i: usize) -> (r: Result<usize, AllocError>)
        requires
            self.inv(),
            self.serviceable(),
        ensures
            i < ROOT_COUNT && self.root_table()[i as int] != 0 ==> r == Ok::<usize, AllocError>(
                self.root_table()[i as int],
            ),
            !(i < ROOT_COUNT && self.root_table()[i as int] != 0) ==> r == Err::<
                usize,
                AllocError,
            >(AllocError::InvalidRoot),
    ;
}

impl Ralloc for Heap {
    open spec fn inv(&self) -> bool {
        self.wf()
    }

    open spec fn serviceable(&self) -> bool {
        self.is_ready()
    }

    open spec fn root_table(&self) -> Seq<usize> {
        self.roots_view()
    }

    open spec fn can_free(&self, a: usize) -> bool {
        self.owns_live_block(a)
    }

    fn init(region: Option<SuperBlockRegion>, size: usize) -> (r: Result<
        (Heap, bool),
        AllocError,
    >) {
        Heap::init(region, size)
    }

    fn recover(&mut self) -> (r: Result<bool, AllocError>) {
        Heap::recover(self)
    }

    fn close(&mut self) {
        Heap::close(self)
    }

    fn malloc(&mut self, size: usize) -> (r: Result<usize, AllocError>) {
        let r = Heap::malloc(self, size);
        proof {
            if r is Ok {
                assert(r->Ok_0 >= HEADER_SIZE);
            }
        }
        r
    }

    fn free(&mut self, ptr: Pointer<u8>) {
        Heap::free(self, ptr)
    }

    fn set_root(&mut self, ptr: Pointer<u8>, i: usize) {
        Heap::set_root(self, ptr, i)
    }

    fn get_root(&self, i: usize) -> (r: Result<usize, AllocError>) {
        Heap::get_root(self, i)
    }
}

} // verus!
