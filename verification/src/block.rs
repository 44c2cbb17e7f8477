//! Descriptors, superblocks, and their shared invariant.
//!
//! Each superblock is a fixed 64 KiB arena carved into equal-sized blocks of
//! one size class (or into a single oversized block, class `0`). Its
//! descriptor is pure metadata — the anchor word plus the carving — and is
//! the synchronization point for every operation on the superblock. The i-th
//! descriptor always describes the i-th superblock.
//!
//! Free blocks are tracked as a stack of block indices; the anchor's head
//! field always names the top of that stack, and its count field the stack's
//! depth. In the mapped file the stack is the intrusive chain threaded
//! through the free blocks' first words; here every link is an index into
//! the fixed arena, so ownership questions are index membership questions.

use crate::anchor;
use crate::anchor::BlockState;
use crate::layout;
use crate::ptr::Pointer;
use vstd::prelude::*;
use vstd::set_lib::lemma_len_subset;

verus! {

/// Metadata for one superblock: the packed anchor plus the carving.
pub struct Descriptor {
    /// Packed word: free-block head index, free count, lifecycle state.
    /// The three fields travel together; updating them separately would
    /// lose concurrent transitions.
    anchor: u64,
    /// The size class this superblock is carved for; `0` means a single
    /// oversized block.
    size_class: usize,
    /// Bytes per block, as fixed by the size class.
    block_size: usize,
}

/// A fixed 64 KiB arena of equal-sized blocks.
pub struct SuperBlock {
    /// Bytes this superblock spans.
    size: usize,
    /// Start address of the superblock's payload within the region.
    ptr: Pointer<u8>,
    /// Indices of the free blocks; the last element is the stack top and is
    /// mirrored by the anchor's head field.
    free_blocks: Vec<usize>,
}

impl Descriptor {
    /// The packed anchor word.
    pub closed spec fn anchor_spec(&self) -> u64 {
        self.anchor
    }

    /// The size class this superblock is carved for.
    pub closed spec fn size_class_spec(&self) -> usize {
        self.size_class
    }

    /// Bytes per block.
    pub closed spec fn block_size_spec(&self) -> usize {
        self.block_size
    }

    /// The anchor's head field: index of the first free block.
    pub open spec fn head(&self) -> int {
        anchor::spec_head(self.anchor_spec()) as int
    }

    /// The anchor's count field: number of free blocks.
    pub open spec fn count(&self) -> int {
        anchor::spec_count(self.anchor_spec()) as int
    }

    /// Whether the anchor's state field holds exactly `s`.
    pub open spec fn has_state(&self, s: BlockState) -> bool {
        anchor::spec_state_bits(self.anchor_spec()) == anchor::state_bits(s)
    }

    /// Assemble a descriptor from plain field values.
    pub fn new(anchor: u64, size_class: usize, block_size: usize) -> (r: Descriptor)
        ensures
            r.anchor_spec() == anchor,
            r.size_class_spec() == size_class,
            r.block_size_spec() == block_size,
    {
        Descriptor { anchor, size_class, block_size }
    }

    /// The packed anchor word.
    pub fn anchor(&self) -> (r: u64)
        ensures
            r == self.anchor_spec(),
    {
        self.anchor
    }

    /// The size class.
    pub fn size_class(&self) -> (r: usize)
        ensures
            r == self.size_class_spec(),
    {
        self.size_class
    }

    /// Bytes per block.
    pub fn block_size(&self) -> (r: usize)
        ensures
            r == self.block_size_spec(),
    {
        self.block_size
    }

    /// The lifecycle state recorded in the anchor; `None` when the state
    /// bits hold no valid state.
    pub fn state(&self) -> (r: Option<BlockState>)
        ensures
            r matches Some(s) ==> self.has_state(s),
            r is None <==> anchor::spec_state_bits(self.anchor_spec()) == 3,
    {
        anchor::state_of(self.anchor)
    }
}

impl SuperBlock {
    /// Bytes this superblock spans.
    pub closed spec fn size_spec(&self) -> usize {
        self.size
    }

    /// Start address of the superblock within the region.
    pub closed spec fn start(&self) -> usize {
        self.ptr.addr_spec()
    }

    /// The free-block stack, bottom first; the last element is the top.
    pub closed spec fn free_blocks(&self) -> Seq<usize> {
        self.free_blocks@
    }

    /// The start-address handle itself.
    pub closed spec fn ptr_spec(&self) -> Pointer<u8> {
        self.ptr
    }

    /// Assemble a superblock from plain field values.
    pub fn new(size: usize, ptr: Pointer<u8>, free_blocks: Vec<usize>) -> (r: SuperBlock)
        ensures
            r.size_spec() == size,
            r.ptr_spec() == ptr,
            r.start() == ptr.addr_spec(),
            r.free_blocks() == free_blocks@,
    {
        SuperBlock { size, ptr, free_blocks }
    }

    /// Bytes this superblock spans.
    pub fn size(&self) -> (r: usize)
        ensures
            r == self.size_spec(),
    {
        self.size
    }

    /// Start address of the superblock within the region.
    pub fn start_addr(&self) -> (r: usize)
        ensures
            r == self.start(),
    {
        self.ptr.addr()
    }

    /// The free-block stack as a slice of block indices.
    pub fn free_blocks_ref(&self) -> (r: &Vec<usize>)
        ensures
            r@ == self.free_blocks(),
    {
        &self.free_blocks
    }

    /// Pop the top free block; `None` exactly when no block is free.
    pub fn pop_free(&mut self) -> (r: Option<usize>)
        ensures
            final(self).size_spec() == old(self).size_spec(),
            final(self).start() == old(self).start(),
            old(self).free_blocks().len() == 0 ==> r is None && final(self).free_blocks() == old(
                self,
            ).free_blocks(),
            old(self).free_blocks().len() > 0 ==> r == Some(old(self).free_blocks().last())
                && final(self).free_blocks() == old(self).free_blocks().drop_last(),
    {
        self.free_blocks.pop()
    }

    /// The top free block without popping it.
    pub fn top_free(&self) -> (r: Option<usize>)
        ensures
            self.free_blocks().len() == 0 ==> r is None,
            self.free_blocks().len() > 0 ==> r == Some(self.free_blocks().last()),
    {
        if self.free_blocks.len() == 0 {
            None
        } else {
            Some(self.free_blocks[self.free_blocks.len() - 1])
        }
    }

    /// Push a freed block on top of the free-block stack.
    pub fn push_free(&mut self, b: usize)
        ensures
            final(self).size_spec() == old(self).size_spec(),
            final(self).start() == old(self).start(),
            final(self).free_blocks() == old(self).free_blocks().push(b),
    {
        self.free_blocks.push(b);
    }

    /// Replace the free-block stack wholesale, as carving a superblock for a
    /// new size class does.
    pub fn set_free_blocks(&mut self, v: Vec<usize>)
        ensures
            final(self).size_spec() == old(self).size_spec(),
            final(self).start() == old(self).start(),
            final(self).free_blocks() == v@,
    {
        self.free_blocks = v;
    }
}

/// A superblock converts into the non-null handle for its start address,
/// dropping the metadata: the borrowed view of the arena as raw payload.
impl core::convert::From<SuperBlock> for Pointer<u8> {
    fn from(from: SuperBlock) -> (r: Pointer<u8>) {
        from.ptr
    }
}

impl vstd::std_specs::convert::FromSpecImpl<SuperBlock> for Pointer<u8> {
    open spec fn obeys_from_spec() -> bool {
        true
    }

    open spec fn from_spec(v: SuperBlock) -> Pointer<u8> {
        v.ptr_spec()
    }
}

/// The free-block stack agrees with the anchor: the stack's depth is the
/// anchor's count, its top is the anchor's head, every entry names a valid
/// block exactly once, and the anchor's state is the one its count dictates.
pub open spec fn chain_wf(d: Descriptor, sb: SuperBlock) -> bool {
    let fb = sb.free_blocks();
    let bps = layout::class_blocks(d.size_class_spec() as int);
    &&& fb.len() == d.count()
    &&& forall|k: int| 0 <= k < fb.len() ==> (#[trigger] fb[k]) < bps
    &&& fb.no_duplicates()
    &&& (d.count() > 0 ==> d.head() == fb.last())
    &&& (d.count() == 0 ==> d.head() == 0)
    &&& d.has_state(anchor::state_for(d.count(), bps))
}

/// The carving of a descriptor/superblock pair in position `i` is sound:
/// the block size matches the size class and the superblock spans exactly
/// its computed slot of the region. Recovery refuses a region where this
/// fails; it is the part of a pair that no anchor repair can restore.
pub open spec fn carve_ok(d: Descriptor, sb: SuperBlock, i: int) -> bool {
    &&& d.size_class_spec() <= layout::NUM_CLASSES
    &&& d.block_size_spec() == layout::class_size(d.size_class_spec() as int)
    &&& sb.size_spec() == layout::SUPERBLOCK_SIZE
    &&& sb.start() == layout::sb_base(i)
}

/// A descriptor/superblock pair in position `i` of the tables is well
/// formed: the carving matches the size class, the superblock sits at its
/// computed base address, and the free-block stack agrees with the anchor.
pub open spec fn pair_wf(d: Descriptor, sb: SuperBlock, i: int) -> bool {
    &&& carve_ok(d, sb, i)
    &&& chain_wf(d, sb)
}

/// Block `b` of this superblock is live: it is a valid block index and it
/// is not on the free-block stack.
pub open spec fn is_live(d: Descriptor, sb: SuperBlock, b: int) -> bool {
    &&& 0 <= b < layout::class_blocks(d.size_class_spec() as int)
    &&& !sb.free_blocks().contains(b as usize)
}

/// Check a persisted descriptor/superblock pair for internal consistency:
/// the free-block stack must be a duplicate-free run of valid block indices
/// whose depth, top, and implied lifecycle state agree with the anchor.
/// Recovery trusts a pair again exactly when this holds.
pub fn validate_pair(d: &Descriptor, sb: &SuperBlock) -> (r: bool)
    requires
        d.size_class_spec() <= layout::NUM_CLASSES,
    ensures
        r == chain_wf(*d, *sb),
{
    let bps = layout::class_block_count(d.size_class());
    let cnt = anchor::count_of(d.anchor());
    let head = anchor::head_of(d.anchor());
    let fb = sb.free_blocks_ref();
    let len = fb.len();
    if len != cnt {
        return false;
    }
    let expected = anchor::state_for_count(cnt, bps);
    let st_ok = match anchor::state_of(d.anchor()) {
        Some(s) => s == expected,
        None => false,
    };
    if !st_ok {
        return false;
    }
    if cnt > 0 {
        if head != fb[cnt - 1] {
            return false;
        }
    } else {
        if head != 0 {
            return false;
        }
    }
    let mut visited: Vec<bool> = Vec::new();
    let mut x: usize = 0;
    while x < bps
        invariant
            visited@.len() == x,
            x <= bps,
            forall|y: int| 0 <= y < x ==> !visited@[y],
        decreases bps - x,
    {
        visited.push(false);
        x = x + 1;
    }
    let mut k: usize = 0;
    while k < len
        invariant
            k <= len,
            len == fb@.len(),
            fb@ == sb.free_blocks(),
            visited@.len() == bps,
            bps == layout::class_blocks(d.size_class_spec() as int),
            forall|j: int| 0 <= j < k ==> (#[trigger] fb@[j]) < bps,
            forall|y: int|
                0 <= y < bps ==> ((#[trigger] visited@[y]) <==> fb@.subrange(0, k as int).contains(
                    y as usize,
                )),
            fb@.subrange(0, k as int).no_duplicates(),
        decreases len - k,
    {
        let b = fb[k];
        let ghost prefix = fb@.subrange(0, k as int);
        if b >= bps {
            return false;
        }
        if visited[b] {
            proof {
                let j = choose|j: int| 0 <= j < prefix.len() && prefix[j] == b;
                assert(fb@[j] == fb@[k as int]);
            }
            return false;
        }
        visited[b] = true;
        proof {
            let next = fb@.subrange(0, k + 1int);
            assert(next.drop_last() =~= prefix);
            assert forall|y: int|
                0 <= y < bps implies ((#[trigger] visited@[y]) <==> next.contains(y as usize)) by {
                if visited@[y] {
                    if y == b {
                        assert(next[k as int] == b);
                    } else {
                        let j = choose|j: int| 0 <= j < prefix.len() && prefix[j] == y as usize;
                        assert(next[j] == y as usize);
                    }
                }
                if next.contains(y as usize) {
                    let j = choose|j: int| 0 <= j < next.len() && next[j] == y as usize;
                    if j < k {
                        assert(prefix[j] == y as usize);
                    }
                }
            }
            assert(next.no_duplicates()) by {
                assert forall|p: int, q: int| 0 <= p < q < next.len() implies next[p] != next[q] by {
                    if q == k {
                        assert(next[p] == prefix[p]);
                        if next[p] == b {
                            assert(prefix.contains(b));
                        }
                    }
                }
            }
        }
        k = k + 1;
    }
    proof {
        assert(fb@.subrange(0, len as int) =~= fb@);
    }
    true
}

/// The set of block indices below `n`.
pub open spec fn blocks_below(n: int) -> Set<usize> {
    Set::new(|x: usize| (x as int) < n)
}

/// `blocks_below(n)` is a finite set of exactly `n` indices.
pub proof fn lemma_blocks_below_len(n: int)
    requires
        0 <= n <= 0x10000,
    ensures
        blocks_below(n).finite(),
        blocks_below(n).len() == n,
    decreases n,
{
    if n == 0 {
        assert(blocks_below(0) =~= Set::<usize>::empty());
    } else {
        lemma_blocks_below_len(n - 1);
        assert(blocks_below(n) =~= blocks_below(n - 1).insert((n - 1) as usize));
    }
}

/// A duplicate-free sequence of block indices below `n` has at most `n`
/// entries. This is what keeps a free count within a superblock's capacity.
pub proof fn lemma_distinct_below_len(s: Seq<usize>, n: int)
    requires
        s.no_duplicates(),
        forall|k: int| 0 <= k < s.len() ==> (#[trigger] s[k]) < n,
        0 <= n <= 0x10000,
    ensures
        s.len() <= n,
{
    s.unique_seq_to_set();
    lemma_blocks_below_len(n);
    assert(s.to_set().subset_of(blocks_below(n)));
    lemma_len_subset(s.to_set(), blocks_below(n));
}

/// A duplicate-free sequence of `n` block indices below `n` contains every
/// index below `n`: an `Empty` superblock's free stack accounts for every
/// one of its blocks.
pub proof fn lemma_distinct_below_full(s: Seq<usize>, n: int)
    requires
        s.no_duplicates(),
        forall|k: int| 0 <= k < s.len() ==> (#[trigger] s[k]) < n,
        s.len() == n,
        0 <= n <= 0x10000,
    ensures
        forall|x: usize| (x as int) < n ==> s.contains(x),
{
    assert forall|x: usize| (x as int) < n implies s.contains(x) by {
        if !s.contains(x) {
            s.unique_seq_to_set();
            lemma_blocks_below_len(n);
            let shrunk = blocks_below(n).remove(x);
            assert(blocks_below(n).contains(x));
            assert(shrunk.len() == n - 1);
            assert(s.to_set().subset_of(shrunk));
            lemma_len_subset(s.to_set(), shrunk);
        }
    }
}

/// A well-formed pair's free count never exceeds the superblock's capacity.
pub proof fn lemma_count_within_capacity(d: Descriptor, sb: SuperBlock)
    requires
        chain_wf(d, sb),
    ensures
        0 <= d.count() <= layout::class_blocks(d.size_class_spec() as int),
{
    let bps = layout::class_blocks(d.size_class_spec() as int);
    layout::lemma_class_geometry(d.size_class_spec() as int);
    lemma_distinct_below_len(sb.free_blocks(), bps);
}

} // verus!
