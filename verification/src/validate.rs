//! Metadata invariant checks.
//!
//! The allocator keeps no per-block or per-bag headers, so the checks are
//! derived purely from address arithmetic:
//!
//! * every free block lies inside the region of the node whose stack (or
//!   thread cache) holds it, below that region's bump offset;
//! * every free block is aligned to its size class;
//! * a block appears at most once across all node stacks and the calling
//!   thread's caches, and blocks of different classes never overlap;
//! * every 32 KiB bag granule is claimed by at most one size class;
//! * free-list counts, tails and chain terminators agree;
//! * the large-object cache's slot and byte accounting is exact and its
//!   entries are disjoint, page aligned and outside the region.
use crate::allocator::{NumaAlloc, ThreadHeapSlot};
use crate::freelist::{self, FreeBlock};
use crate::heap::GlobalHeap;
use crate::heap_view::{self, HeapView};
use crate::large_cache::{self, LargeCache, LargeCacheEntry};
use crate::memory::Memory;
use crate::size_class::{self, BAG_SIZE, NUM_SIZE_CLASSES};
use crate::thread_heap::{self, PerThreadHeap};
use vstd::arithmetic::power2::pow2;
use vstd::prelude::*;

verus! {

/// Smallest block granule tracked by the occupancy bitmap.
pub const GRANULE: usize = 8;

/// Marker for a bag granule not yet claimed by any size class.
pub const UNCLAIMED: u8 = 255;

/// Where a free block was found.
#[derive(Clone, Copy, PartialEq, Eq, Structural, Debug)]
pub enum Origin {
    /// On a node's stack.
    NodeStack,
    /// On a thread's list.
    ThreadCache,
    /// On a thread's spare chain.
    ThreadSpare,
}

/// A violated invariant.
#[derive(Clone, Copy, PartialEq, Eq, Structural, Debug)]
pub enum Violation {
    /// The heap's total size is not that of its regions.
    TotalSize,
    /// The heap base is not bag aligned.
    BaseUnaligned,
    /// The heap base lies outside its mapping.
    BaseOutsideMapping,
    /// More was carved from a node's region than it holds.
    BumpOverflow { node: usize },
    /// A node's region is not where it belongs.
    RegionBase { node: usize },
    /// An unused node has a region.
    UnusedRegion { node: usize },
    /// A node's stack does not end.
    StackCycle { node: usize, class: usize },
    /// A block is not inside its node's region.
    OutsideRegion { origin: Origin, node: usize, class: usize, addr: usize },
    /// A block lies beyond its node's bump offset.
    BeyondBump { origin: Origin, node: usize, class: usize, addr: usize },
    /// A block is not aligned to its class size.
    Misaligned { origin: Origin, node: usize, class: usize, addr: usize },
    /// A bag granule of a node is used by two classes.
    BagConflict { origin: Origin, node: usize, class: usize, other: usize, granule: usize },
    /// A block overlaps another free block (duplicate or double free).
    Overlap { origin: Origin, node: usize, class: usize, addr: usize },
    /// A thread is bound to an unknown node.
    UnknownNode,
    /// A thread's list is longer than its count.
    ListTooLong { class: usize },
    /// A thread's list is not as long as its count.
    CountMismatch { class: usize },
    /// A thread's list does not end at its tail.
    TailMismatch { class: usize },
    /// A thread's spare chain does not end.
    SpareCycle { class: usize },
    /// The large cache holds more entries than it has slots.
    LargeCount,
    /// The large cache holds more bytes than it may.
    LargeBytes,
    /// A cached mapping is not page aligned.
    LargeUnaligned { entry: usize },
    /// The size of a cached mapping is not a page multiple.
    LargeSize { entry: usize },
    /// A cached mapping has zero size.
    LargeZero { entry: usize },
    /// A cached mapping points into the region.
    LargeOwned { entry: usize },
    /// Two cached mappings overlap.
    LargeOverlap { entry: usize, other: usize },
    /// The byte accounting of the large cache drifted.
    LargeAccounting,
}

// ---------------------------------------------------------------------------
// Marks
// ---------------------------------------------------------------------------
/// A free block found at a node.
pub struct Mark {
    pub node: int,
    pub class: int,
    pub addr: int,
}

impl Mark {
    /// First address after the block.
    pub open spec fn end(self) -> int {
        self.addr + size_class::class_size(self.class)
    }

    /// First granule of the block's bag, counted from the heap's base.
    pub open spec fn bag_from(self, h: HeapView) -> int {
        (self.addr - self.addr % size_class::class_bag(self.class) - h.base) / BAG_SIZE as int
    }

    /// First granule after the block's bag.
    pub open spec fn bag_to(self, h: HeapView) -> int {
        self.bag_from(h) + size_class::class_bag(self.class) / BAG_SIZE as int
    }

    /// The block lies in its node's region below the bump offset, aligned to
    /// its class.
    pub open spec fn fits(self, h: HeapView) -> bool {
        &&& 0 <= self.node < h.nodes
        &&& 0 <= self.class < NUM_SIZE_CLASSES
        &&& h.owns(self.addr)
        &&& h.node_of(self.addr) == self.node
        &&& self.end() <= h.lo(self.node) + h.used[self.node]
        &&& self.addr % size_class::class_size(self.class) == 0
    }

    /// The blocks do not overlap, and neither do their bags unless they are of
    /// the same class.
    pub open spec fn agrees(self, other: Mark, h: HeapView) -> bool {
        &&& self.end() <= other.addr || other.end() <= self.addr
        &&& self.class == other.class || self.bag_to(h) <= other.bag_from(h) || other.bag_to(h)
            <= self.bag_from(h)
    }
}

/// The block `k` agrees with every block of `log`.
pub open spec fn agrees_with_all(h: HeapView, log: Seq<Mark>, k: Mark) -> bool {
    forall|i: int| 0 <= i < log.len() ==> (#[trigger] log[i]).agrees(k, h)
}

/// Granule `g` of the block's bag, counted from the heap's base, is claimed for
/// another class, `other`.
pub open spec fn conflict_at(h: HeapView, log: Seq<Mark>, k: Mark, g: int, other: int) -> bool {
    &&& k.bag_from(h) <= g < k.bag_to(h)
    &&& other != k.class
    &&& exists|i: int| #[trigger] claims(h, log, i, g) && log[i].class == other
}

/// What is wrong with recording the block after those of `log` is `e`: the
/// block is outside its node's region; or not carved; or misaligned; or a
/// granule of its bag, the first such one, belongs to another class; or it
/// overlaps another block.
pub open spec fn block_fails(
    h: HeapView,
    log: Seq<Mark>,
    origin: Origin,
    node: usize,
    class: usize,
    addr: usize,
    e: Violation,
) -> bool {
    let k = Mark { node: node as int, class: class as int, addr: addr as int };
    if !(h.owns(k.addr) && h.node_of(k.addr) == k.node) {
        e == Violation::OutsideRegion { origin, node, class, addr }
    } else if k.end() > h.lo(k.node) + h.used[k.node] {
        e == Violation::BeyondBump { origin, node, class, addr }
    } else if k.addr % size_class::class_size(k.class) != 0 {
        e == Violation::Misaligned { origin, node, class, addr }
    } else if exists|g: int, other: int| conflict_at(h, log, k, g, other) {
        exists|g: int, other: usize|
            {
                &&& #[trigger] conflict_at(h, log, k, g, other as int)
                &&& forall|f: int, o: int| f < g ==> !#[trigger] conflict_at(h, log, k, f, o)
                &&& e == Violation::BagConflict {
                    origin,
                    node,
                    class,
                    other,
                    granule: (g - k.node * h.region / BAG_SIZE as int) as usize,
                }
            }
    } else {
        &&& !agrees_with_all(h, log, k)
        &&& e == Violation::Overlap { origin, node, class, addr }
    }
}

/// Bit `k` of a byte.
pub open spec fn bit(b: u8, k: int) -> bool {
    b & (1u8 << (k as u8)) != 0
}

/// Block `i` of `log` covers the 8-byte granule `g`, counted from the heap's
/// base.
pub open spec fn covers(h: HeapView, log: Seq<Mark>, i: int, g: int) -> bool {
    &&& 0 <= i < log.len()
    &&& log[i].addr - h.base <= 8 * g < log[i].end() - h.base
}

/// The bag of block `i` of `log` covers the 32 KiB granule `k`, counted from
/// the heap's base.
pub open spec fn claims(h: HeapView, log: Seq<Mark>, i: int, k: int) -> bool {
    &&& 0 <= i < log.len()
    &&& log[i].bag_from(h) <= k < log[i].bag_to(h)
}

/// The bitmap shows which granules the blocks of `log` cover.
pub open spec fn bitmap_shows(h: HeapView, log: Seq<Mark>, bitmap: Seq<u8>) -> bool {
    &&& forall|i: int, g: int| #[trigger] covers(h, log, i, g) ==> bit(bitmap[g / 8], g % 8)
    &&& forall|g: int|
        0 <= g < 8 * bitmap.len() && #[trigger] bit(bitmap[g / 8], g % 8) ==> exists|i: int|
            covers(h, log, i, g)
}

/// The class map shows which class each granule is claimed for.
pub open spec fn bag_map_shows(h: HeapView, log: Seq<Mark>, bag_map: Seq<u8>) -> bool {
    &&& forall|i: int, k: int| #[trigger]
        claims(h, log, i, k) ==> bag_map[k] == log[i].class
    &&& forall|k: int|
        0 <= k < bag_map.len() && #[trigger] bag_map[k] != UNCLAIMED ==> exists|i: int|
            claims(h, log, i, k)
}

/// Occupancy bitmap plus per-bag class map for one heap.
pub struct Marks {
    bitmap: Vec<u8>,
    bag_map: Vec<u8>,
    log: Ghost<Seq<Mark>>,
}

impl Marks {
    /// The blocks recorded so far.
    pub closed spec fn log(&self) -> Seq<Mark> {
        self.log@
    }

    /// Bitmap and class map show the recorded blocks.
    pub closed spec fn wf(&self, h: HeapView) -> bool {
        &&& self.bitmap@.len() * 64 == h.nodes * h.region
        &&& self.bag_map@.len() * 32768 == h.nodes * h.region
        &&& forall|i: int| 0 <= i < self.log@.len() ==> (#[trigger] self.log@[i]).fits(h)
        &&& bitmap_shows(h, self.log@, self.bitmap@)
        &&& bag_map_shows(h, self.log@, self.bag_map@)
    }

    /// Nothing recorded yet.
    pub fn new(heap: &GlobalHeap) -> (marks: Self)
        requires
            heap.sized(),
        ensures
            marks.log() == Seq::<Mark>::empty(),
            marks.wf(heap@),
    {
        let ghost h = heap@;
        let region: usize = heap.region_size();
        let nodes: usize = heap.num_nodes();
        proof {
            heap.lemma_layout();
            lemma_total(h);
        }
        let total: usize = nodes * region;
        let mut bitmap: Vec<u8> = Vec::new();
        bitmap.resize(total / 64, 0u8);
        let mut bag_map: Vec<u8> = Vec::new();
        bag_map.resize(total / BAG_SIZE, UNCLAIMED);
        proof {
            lemma_nothing_shown(h, bitmap@, bag_map@);
        }
        Marks { bitmap, bag_map, log: Ghost(Seq::empty()) }
    }
}

/// The regions together are a multiple of the largest bag.
proof fn lemma_total(h: HeapView)
    requires
        h.region % 262144 == 0,
    ensures
        (h.nodes * h.region) % 262144 == 0,
        (h.nodes * h.region) / 64 * 64 == h.nodes * h.region,
        (h.nodes * h.region) / 32768 * 32768 == h.nodes * h.region,
{
    let total = h.nodes * h.region;
    vstd::arithmetic::div_mod::lemma_fundamental_div_mod(h.region, 262144);
    let q = h.region / 262144;
    assert(total == 262144 * (h.nodes * q)) by (nonlinear_arith)
        requires
            total == h.nodes * h.region,
            h.region == 262144 * q,
    ;
    lemma_whole_bags(total, h.nodes * q);
}

/// A multiple of the largest bag divides into granules of every size.
proof fn lemma_whole_bags(total: int, p: int)
    requires
        total == 262144 * p,
    ensures
        total % 262144 == 0,
        total / 64 * 64 == total,
        total / 32768 * 32768 == total,
{
    heap_view::lemma_quotient(total, 262144, p);
    heap_view::lemma_quotient(total, 64, 4096 * p);
    heap_view::lemma_quotient(total, 32768, 8 * p);
}

/// Empty maps show that nothing was recorded.
proof fn lemma_nothing_shown(h: HeapView, bitmap: Seq<u8>, bag_map: Seq<u8>)
    requires
        forall|i: int| 0 <= i < bitmap.len() ==> #[trigger] bitmap[i] == 0,
        forall|i: int| 0 <= i < bag_map.len() ==> #[trigger] bag_map[i] == UNCLAIMED,
    ensures
        bitmap_shows(h, Seq::empty(), bitmap),
        bag_map_shows(h, Seq::empty(), bag_map),
{
    assert forall|g: int| 0 <= g < 8 * bitmap.len() implies !#[trigger] bit(
        bitmap[g / 8],
        g % 8,
    ) by {
        assert(0 <= g / 8 < bitmap.len());
        lemma_zero_bit(g % 8);
    }
}

/// No bit of zero is set.
proof fn lemma_zero_bit(k: int)
    requires
        0 <= k < 8,
    ensures
        !bit(0u8, k),
{
    let j = k as u8;
    assert(0u8 & (1u8 << j) == 0) by (bit_vector);
}

/// Setting a bit sets that bit and no other.
proof fn lemma_set_bit(b: u8, k: int)
    requires
        0 <= k < 8,
    ensures
        forall|i: int|
            0 <= i < 8 ==> (#[trigger] bit(b | (1u8 << (k as u8)), i) <==> i == k || bit(b, i)),
{
    let j = k as u8;
    assert forall|i: int| 0 <= i < 8 implies (#[trigger] bit(b | (1u8 << j), i) <==> i == k
        || bit(b, i)) by {
        let n = i as u8;
        assert((b | (1u8 << j)) & (1u8 << n) != 0 <==> n == j || b & (1u8 << n) != 0)
            by (bit_vector)
            requires
                j < 8,
                n < 8,
        ;
    }
}

/// The bag of a block lies inside the heap.
proof fn lemma_mark_bag(h: HeapView, k: Mark)
    requires
        h.shape_ok(),
        0 <= k.class < NUM_SIZE_CLASSES,
        h.owns(k.addr),
    ensures
        0 <= k.bag_from(h) < k.bag_to(h),
        k.bag_to(h) * 32768 <= h.nodes * h.region,
        k.addr - k.addr % size_class::class_bag(k.class) >= h.base,
        size_class::class_bag(k.class) > 0,
        size_class::class_bag(k.class) / 32768 >= 1,
{
    let bag = size_class::class_bag(k.class);
    let total = h.nodes * h.region;
    heap_view::lemma_bags(k.class);
    heap_view::lemma_region_aligned(h, h.nodes);
    heap_view::lemma_bag_divides(k.class);
    heap_view::lemma_divides(h.base, 262144, bag);
    heap_view::lemma_divides(h.base + total, 262144, bag);
    lemma_round_down(h.base, k.addr, h.base + total, bag);
    let from = k.addr - k.addr % bag - h.base;
    heap_view::lemma_divides(h.base, bag, 32768);
    heap_view::lemma_divides(k.addr - k.addr % bag, bag, 32768);
    heap_view::lemma_multiples(k.addr - k.addr % bag, h.base, 32768);
    vstd::arithmetic::div_mod::lemma_fundamental_div_mod(from, 32768);
}

/// The bag of a block begins in the region of the block's node.
proof fn lemma_bag_in_region(h: HeapView, k: Mark)
    requires
        h.shape_ok(),
        k.fits(h),
    ensures
        h.base <= h.lo(k.node),
        0 <= k.node * h.region / BAG_SIZE as int <= k.bag_from(h),
{
    let bag = size_class::class_bag(k.class);
    let lo = h.lo(k.node);
    let hi = h.lo(k.node + 1);
    heap_view::lemma_bags(k.class);
    heap_view::lemma_region_end(h, k.node);
    heap_view::lemma_node_of(h, k.node, k.addr);
    heap_view::lemma_regions(h, k.node, k.node + 1);
    heap_view::lemma_region_aligned(h, k.node);
    heap_view::lemma_region_aligned(h, k.node + 1);
    heap_view::lemma_bag_divides(k.class);
    heap_view::lemma_divides(lo, 262144, bag);
    heap_view::lemma_divides(hi, 262144, bag);
    lemma_round_down(lo, k.addr, hi, bag);
    vstd::arithmetic::div_mod::lemma_div_is_ordered(
        lo - h.base,
        k.addr - k.addr % bag - h.base,
        32768,
    );
    vstd::arithmetic::div_mod::lemma_div_pos_is_pos(lo - h.base, 32768);
}

/// Rounding an address down to a multiple of `unit` stays between bounds that
/// are multiples.
proof fn lemma_round_down(lo: int, x: int, hi: int, unit: int)
    requires
        unit > 0,
        lo % unit == 0,
        hi % unit == 0,
        lo <= x < hi,
    ensures
        lo <= x - x % unit,
        x - x % unit + unit <= hi,
        (x - x % unit) % unit == 0,
{
    vstd::arithmetic::div_mod::lemma_fundamental_div_mod(lo, unit);
    vstd::arithmetic::div_mod::lemma_fundamental_div_mod(hi, unit);
    vstd::arithmetic::div_mod::lemma_fundamental_div_mod(x, unit);
    vstd::arithmetic::div_mod::lemma_mod_bound(x, unit);
    let p = lo / unit;
    let q = x / unit;
    let r = hi / unit;
    assert(p <= q < r) by (nonlinear_arith)
        requires
            unit > 0,
            unit * p <= unit * q + x % unit,
            unit * q + x % unit < unit * r,
            0 <= x % unit < unit,
    ;
    assert(unit * p <= unit * q && unit * q + unit <= unit * r && unit * q == q * unit)
        by (nonlinear_arith)
        requires
            unit > 0,
            p <= q < r,
    ;
    heap_view::lemma_quotient(x - x % unit, unit, q);
}

/// Recording a block claims its bag.
proof fn lemma_bag_map_push(
    h: HeapView,
    log: Seq<Mark>,
    k: Mark,
    before: Seq<u8>,
    after: Seq<u8>,
)
    requires
        bag_map_shows(h, log, before),
        after.len() == before.len(),
        0 <= k.class < NUM_SIZE_CLASSES,
        0 <= k.bag_from(h) < k.bag_to(h) <= before.len(),
        forall|g: int|
            0 <= g < after.len() ==> #[trigger] after[g] == (if k.bag_from(h) <= g < k.bag_to(h) {
                k.class as u8
            } else {
                before[g]
            }),
        forall|i: int| 0 <= i < log.len() ==> 0 <= (#[trigger] log[i]).bag_from(h) && log[
            i
        ].bag_to(h) <= before.len() && log[i].class < NUM_SIZE_CLASSES,
        forall|g: int|
            k.bag_from(h) <= g < k.bag_to(h) ==> #[trigger] before[g] == UNCLAIMED || before[g]
                == k.class,
    ensures
        bag_map_shows(h, log.push(k), after),
        forall|i: int|
            0 <= i < log.len() ==> (#[trigger] log[i]).class == k.class || log[i].bag_to(h)
                <= k.bag_from(h) || k.bag_to(h) <= log[i].bag_from(h),
{
    let log2 = log.push(k);
    assert forall|i: int, g: int| #[trigger] claims(h, log2, i, g) implies after[g]
        == log2[i].class by {
        if i < log.len() {
            assert(claims(h, log, i, g));
        }
    }
    assert forall|g: int| 0 <= g < after.len() && #[trigger] after[g] != UNCLAIMED implies exists|
        i: int,
    |
        claims(h, log2, i, g) by {
        if k.bag_from(h) <= g < k.bag_to(h) {
            assert(claims(h, log2, log.len() as int, g));
        } else {
            let i = choose|i: int| claims(h, log, i, g);
            assert(claims(h, log2, i, g));
        }
    }
    assert forall|i: int| 0 <= i < log.len() implies (#[trigger] log[i]).class == k.class || log[
        i
    ].bag_to(h) <= k.bag_from(h) || k.bag_to(h) <= log[i].bag_from(h) by {
        if !(log[i].bag_to(h) <= k.bag_from(h) || k.bag_to(h) <= log[i].bag_from(h)) {
            let g = if log[i].bag_from(h) < k.bag_from(h) {
                k.bag_from(h)
            } else {
                log[i].bag_from(h)
            };
            heap_view::lemma_bags(k.class);
            assert(log[i].bag_from(h) <= g < log[i].bag_to(h) || log[i].bag_to(h) <= log[
                i
            ].bag_from(h));
            if log[i].bag_from(h) < log[i].bag_to(h) {
                assert(claims(h, log, i, g));
                assert(before[g] == UNCLAIMED || before[g] == k.class);
            }
        }
    }
}

/// Recording a block covers its granules.
proof fn lemma_bitmap_push(
    h: HeapView,
    log: Seq<Mark>,
    k: Mark,
    before: Seq<u8>,
    after: Seq<u8>,
)
    requires
        bitmap_shows(h, log, before),
        after.len() == before.len(),
        h.base <= k.addr < k.end(),
        (k.addr - h.base) % 8 == 0,
        (k.end() - h.base) % 8 == 0,
        (k.end() - h.base) / 8 <= 8 * before.len(),
        forall|i: int|
            0 <= i < log.len() ==> h.base <= (#[trigger] log[i]).addr < log[i].end() && (log[i].addr
                - h.base) % 8 == 0 && (log[i].end() - h.base) % 8 == 0 && (log[i].end() - h.base)
                / 8 <= 8 * before.len(),
        forall|g: int|
            0 <= g < 8 * after.len() ==> (#[trigger] bit(after[g / 8], g % 8) <==> bit(
                before[g / 8],
                g % 8,
            ) || (k.addr - h.base) / 8 <= g < (k.end() - h.base) / 8),
        forall|g: int|
            (k.addr - h.base) / 8 <= g < (k.end() - h.base) / 8 ==> !#[trigger] bit(
                before[g / 8],
                g % 8,
            ),
    ensures
        bitmap_shows(h, log.push(k), after),
        forall|i: int|
            0 <= i < log.len() ==> (#[trigger] log[i]).end() <= k.addr || k.end() <= log[i].addr,
{
    let log2 = log.push(k);
    assert forall|i: int, g: int| #[trigger] covers(h, log2, i, g) implies bit(
        after[g / 8],
        g % 8,
    ) by {
        if i < log.len() {
            assert(covers(h, log, i, g));
            assert(log[i].end() >= log[i].addr);
            assert(bit(before[g / 8], g % 8));
        }
        assert(0 <= g < 8 * after.len());
    }
    assert forall|g: int|
        0 <= g < 8 * after.len() && #[trigger] bit(after[g / 8], g % 8) implies exists|i: int|
        covers(h, log2, i, g) by {
        if (k.addr - h.base) / 8 <= g < (k.end() - h.base) / 8 {
            assert(covers(h, log2, log.len() as int, g));
        } else {
            assert(bit(before[g / 8], g % 8));
            let i = choose|i: int| covers(h, log, i, g);
            assert(covers(h, log2, i, g));
        }
    }
    assert forall|i: int| 0 <= i < log.len() implies (#[trigger] log[i]).end() <= k.addr || k.end()
        <= log[i].addr by {
        if !(log[i].end() <= k.addr || k.end() <= log[i].addr) {
            let x = if log[i].addr < k.addr {
                k.addr
            } else {
                log[i].addr
            };
            let g = (x - h.base) / 8;
            assert(covers(h, log, i, g));
            assert(bit(before[g / 8], g % 8));
        }
    }
}

/// Bounds of a block that fits.
#[verifier::spinoff_prover]
proof fn lemma_fits(h: HeapView, k: Mark)
    requires
        h.shape_ok(),
        k.fits(h),
    ensures
        h.base <= k.addr < k.end() <= h.base + h.nodes * h.region,
        (k.addr - h.base) % 8 == 0,
        (k.end() - h.base) % 8 == 0,
{
    let size = size_class::class_size(k.class);
    let total = h.nodes * h.region;
    assert(h.base <= k.addr);
    assert(k.addr < k.end() && k.end() - k.addr == size && size % 8 == 0) by {
        heap_view::lemma_bags(k.class);
    }
    assert(k.end() <= h.base + total) by {
        heap_view::lemma_bags(k.class);
        heap_view::lemma_region_aligned(h, h.nodes);
        heap_view::lemma_bag_divides(k.class);
        heap_view::lemma_divides(h.base, 262144, size_class::class_bag(k.class));
        heap_view::lemma_divides(h.base + total, 262144, size_class::class_bag(k.class));
        heap_view::lemma_divides(h.base, size_class::class_bag(k.class), size);
        heap_view::lemma_divides(h.base + total, size_class::class_bag(k.class), size);
        lemma_round_down(h.base, k.addr, h.base + total, size);
    }
    assert(k.end() <= h.base + h.nodes * h.region);
    heap_view::lemma_multiple_of_class(k.addr, k.class);
    heap_view::lemma_divides(h.base, 262144, 8);
    heap_view::lemma_multiples(k.addr, h.base, 8);
    heap_view::lemma_multiples(k.addr - h.base, size_class::class_size(k.class), 8);
}

impl Marks {
    /// Claim the bag of a block for its class.
    fn claim_bag(
        &mut self,
        heap: &GlobalHeap,
        origin: Origin,
        node: usize,
        class: usize,
        block: usize,
    ) -> (r: Result<(), Violation>)
        requires
            heap.based(),
            heap.region_ok(node as int),
            old(self).wf(heap@),
            (Mark { node: node as int, class: class as int, addr: block as int }).fits(heap@),
        ensures
            ({
                let k = Mark { node: node as int, class: class as int, addr: block as int };
                let conflict = exists|i: int|
                    0 <= i < old(self).log().len() && (#[trigger] old(self).log()[i]).class
                        != k.class && old(self).log()[i].bag_to(heap@) > k.bag_from(heap@)
                        && k.bag_to(heap@) > old(self).log()[i].bag_from(heap@);
                &&& r is Err <==> conflict
                &&& r is Err <==> exists|g: int, other: int|
                    conflict_at(heap@, old(self).log(), k, g, other)
                &&& r matches Err(e) ==> block_fails(
                    heap@,
                    old(self).log(),
                    origin,
                    node,
                    class,
                    block,
                    e,
                )
                &&& r is Ok ==> bag_map_shows(
                    heap@,
                    old(self).log().push(k),
                    final(self).bag_map@,
                )
            }),
            final(self).bitmap@ == old(self).bitmap@,
            final(self).bag_map@.len() == old(self).bag_map@.len(),
            final(self).log() == old(self).log(),
    {
        let ghost h = heap@;
        let ghost k = Mark { node: node as int, class: class as int, addr: block as int };
        let ghost log = self.log();
        let ghost before = self.bag_map@;
        let bag: usize = size_class::bag_size_for_class(class);
        let base: usize = heap.base();
        proof {
            heap.lemma_layout();
            heap.lemma_view();
            heap_view::lemma_bags(k.class);
            lemma_mark_bag(h, k);
            lemma_bag_in_region(h, k);
            assert forall|i: int| 0 <= i < log.len() implies 0 <= (#[trigger] log[i]).bag_from(h)
                && log[i].bag_from(h) < log[i].bag_to(h) && log[i].bag_to(h) <= before.len()
                && log[i].class < NUM_SIZE_CLASSES by {
                assert(log[i].fits(h));
                lemma_mark_bag(h, log[i]);
            }
        }
        let first: usize = (block - block % bag - base) / BAG_SIZE;
        let skipped: usize = (heap.node_region(node).base() - base) / BAG_SIZE;
        let granules: usize = bag / BAG_SIZE;
        let mut i: usize = 0;
        while i < granules
            invariant
                i <= granules,
                class < NUM_SIZE_CLASSES,
                h == heap@,
                k == (Mark { node: node as int, class: class as int, addr: block as int }),
                before == old(self).bag_map@,
                first == k.bag_from(h),
                skipped == k.node * h.region / BAG_SIZE as int,
                skipped <= first,
                k.fits(h),
                granules == k.bag_to(h) - k.bag_from(h),
                first + granules <= before.len(),
                before.len() <= usize::MAX,
                self.bag_map@.len() == before.len(),
                self.bitmap@ == old(self).bitmap@,
                self.log() == old(self).log(),
                log == old(self).log(),
                bag_map_shows(h, log, before),
                forall|j: int|
                    0 <= j < log.len() ==> 0 <= (#[trigger] log[j]).bag_from(h) && log[j].bag_from(
                        h,
                    ) < log[j].bag_to(h) && log[j].bag_to(h) <= before.len() && log[j].class
                        < NUM_SIZE_CLASSES,
                forall|g: int|
                    0 <= g < before.len() ==> #[trigger] self.bag_map@[g] == (if first <= g < first
                        + i {
                        class as u8
                    } else {
                        before[g]
                    }),
                forall|g: int|
                    first <= g < first + i ==> #[trigger] before[g] == UNCLAIMED || before[g]
                        == class,
            decreases granules - i,
        {
            let entry: u8 = self.bag_map[first + i];
            if entry != UNCLAIMED && entry as usize != class {
                proof {
                    let g = first + i;
                    assert(before[g] != UNCLAIMED);
                    let j = choose|j: int| claims(h, log, j, g);
                    assert(claims(h, log, j, g));
                    assert(log[j].class != k.class);
                    assert(conflict_at(h, log, k, g, entry as int));
                    assert forall|f: int, o: int| f < g implies !#[trigger] conflict_at(
                        h,
                        log,
                        k,
                        f,
                        o,
                    ) by {
                        if conflict_at(h, log, k, f, o) {
                            let l = choose|l: int| #[trigger] claims(h, log, l, f) && log[l].class
                                == o;
                            assert(before[f] == log[l].class);
                        }
                    }
                }
                return Err(
                    Violation::BagConflict {
                        origin,
                        node,
                        class,
                        other: entry as usize,
                        granule: first + i - skipped,
                    },
                );
            }
            self.bag_map[first + i] = class as u8;
            i += 1;
        }
        proof {
            assert forall|f: int, o: int| !#[trigger] conflict_at(h, log, k, f, o) by {
                if conflict_at(h, log, k, f, o) {
                    let l = choose|l: int| #[trigger] claims(h, log, l, f) && log[l].class == o;
                    assert(before[f] == log[l].class);
                }
            }
            lemma_bag_map_push(h, log, k, before, self.bag_map@);
        }
        Ok(())
    }
}

impl Marks {
    /// Mark the granules of a block as occupied.
    fn occupy(
        &mut self,
        heap: &GlobalHeap,
        origin: Origin,
        node: usize,
        class: usize,
        block: usize,
    ) -> (r: Result<(), Violation>)
        requires
            heap.based(),
                        (Mark { node: node as int, class: class as int, addr: block as int }).fits(heap@),
            old(self).bitmap@.len() * 64 == heap@.nodes * heap@.region,
            bitmap_shows(heap@, old(self).log(), old(self).bitmap@),
            forall|i: int|
                0 <= i < old(self).log().len() ==> (#[trigger] old(self).log()[i]).fits(heap@),
        ensures
            ({
                let k = Mark { node: node as int, class: class as int, addr: block as int };
                let overlap = exists|i: int|
                    0 <= i < old(self).log().len() && (#[trigger] old(self).log()[i]).end()
                        > k.addr && k.end() > old(self).log()[i].addr;
                &&& r is Err <==> overlap
                &&& r matches Err(e) ==> e == (Violation::Overlap {
                    origin,
                    node,
                    class,
                    addr: block,
                })
                &&& r is Ok ==> bitmap_shows(heap@, old(self).log().push(k), final(self).bitmap@)
            }),
            final(self).bitmap@.len() == old(self).bitmap@.len(),
            final(self).bag_map@ == old(self).bag_map@,
            final(self).log() == old(self).log(),
    {
        let ghost h = heap@;
        let ghost k = Mark { node: node as int, class: class as int, addr: block as int };
        let ghost log = self.log();
        let ghost before = self.bitmap@;
        let obj: usize = size_class::size_for_class(class);
        let base: usize = heap.base();
        proof {
            heap.lemma_layout();
            heap.lemma_view();
            heap_view::lemma_bags(k.class);
            lemma_total(h);
            lemma_fits(h, k);
            assert forall|i: int| 0 <= i < log.len() implies h.base <= (#[trigger] log[i]).addr
                < log[i].end() && (log[i].addr - h.base) % 8 == 0 && (log[i].end() - h.base) % 8
                == 0 && (log[i].end() - h.base) / 8 <= 8 * before.len() by {
                assert(log[i].fits(h));
                lemma_fits(h, log[i]);
            }
        }
        let off: usize = block - base;
        let from: usize = off / GRANULE;
        let to: usize = (off + obj) / GRANULE;
        let mut g: usize = from;
        while g < to
            invariant
                from <= g <= to,
                h == heap@,
                k == (Mark { node: node as int, class: class as int, addr: block as int }),
                log == old(self).log(),
                before == old(self).bitmap@,
                from == (k.addr - h.base) / 8,
                to == (k.end() - h.base) / 8,
                (k.addr - h.base) % 8 == 0,
                (k.end() - h.base) % 8 == 0,
                to <= 8 * before.len(),
                bitmap_shows(h, log, before),
                self.bitmap@.len() == before.len(),
                self.bag_map@ == old(self).bag_map@,
                self.log() == old(self).log(),
                forall|x: int|
                    0 <= x < 8 * before.len() ==> (#[trigger] bit(self.bitmap@[x / 8], x % 8)
                        <==> bit(before[x / 8], x % 8) || from <= x < g),
                forall|x: int| from <= x < g ==> !#[trigger] bit(before[x / 8], x % 8),
            decreases to - g,
        {
            let byte: u8 = self.bitmap[g / 8];
            let shift: u8 = (g % 8) as u8;
            let mask: u8 = 1u8 << shift;
            assert(bit(self.bitmap@[g as int / 8], g as int % 8) == (byte & mask != 0));
            if byte & mask != 0 {
                proof {
                    assert(bit(before[g as int / 8], g as int % 8));
                    let i = choose|i: int| covers(h, log, i, g as int);
                    assert(covers(h, log, i, g as int));
                    assert(log[i].end() > k.addr && k.end() > log[i].addr);
                }
                return Err(Violation::Overlap { origin, node, class, addr: block });
            }
            let ghost bits = self.bitmap@;
            self.bitmap[g / 8] = byte | mask;
            proof {
                lemma_set_bit(byte, g as int % 8);
                assert forall|x: int| 0 <= x < 8 * before.len() implies (#[trigger] bit(
                    self.bitmap@[x / 8],
                    x % 8,
                ) <==> bit(before[x / 8], x % 8) || from <= x < g + 1) by {
                    assert(bit(bits[x / 8], x % 8) <==> bit(before[x / 8], x % 8) || from <= x < g);
                    if x / 8 == g as int / 8 {
                        assert(x % 8 == g as int % 8 <==> x == g);
                    }
                }
            }
            g += 1;
        }
        proof {
            lemma_bitmap_push(h, log, k, before, self.bitmap@);
        }
        Ok(())
    }

    /// Record a free block of `class` found in `node`'s structures, checking
    /// ownership, alignment, uniqueness and bag consistency.
    pub fn mark_block(
        &mut self,
        heap: &GlobalHeap,
        node: usize,
        class: usize,
        block: usize,
        origin: Origin,
    ) -> (r: Result<(), Violation>)
        requires
            heap.based(),
            heap.region_ok(node as int),
            old(self).wf(heap@),
            node < heap@.nodes,
            class < NUM_SIZE_CLASSES,
        ensures
            ({
                let h = heap@;
                let log = old(self).log();
                let k = Mark { node: node as int, class: class as int, addr: block as int };
                &&& r is Ok <==> k.fits(h) && agrees_with_all(h, log, k)
                &&& r is Ok ==> final(self).log() == log.push(k) && final(self).wf(h)
                &&& r matches Err(e) ==> block_fails(h, log, origin, node, class, block, e)
            }),
    {
        let ghost h = heap@;
        let ghost log = self.log();
        let ghost k = Mark { node: node as int, class: class as int, addr: block as int };
        let obj: usize = size_class::size_for_class(class);
        proof {
            heap.lemma_layout();
            heap.lemma_view();
            heap_view::lemma_bags(k.class);
            heap_view::lemma_region_end(h, k.node);
            heap_view::lemma_node_of(h, k.node, k.addr);
        }
        match heap.node_for_ptr(block) {
            None => {
                return Err(Violation::OutsideRegion { origin, node, class, addr: block });
            },
            Some(n) => {
                if n != node {
                    return Err(Violation::OutsideRegion { origin, node, class, addr: block });
                }
            },
        }
        let region = heap.node_region(node);
        let off: usize = block - region.base();
        if obj > region.bump() || off > region.bump() - obj {
            return Err(Violation::BeyondBump { origin, node, class, addr: block });
        }
        if block % obj != 0 {
            return Err(Violation::Misaligned { origin, node, class, addr: block });
        }
        assert(k.fits(h));
        // Bag granule ownership: every 32 KiB granule covered by this block's
        // bag must be unclaimed or already claimed by the same class.
        if let Err(e) = self.claim_bag(heap, origin, node, class, block) {
            return Err(e);
        }
        // Occupancy: no granule of this block may already be marked.
        if let Err(e) = self.occupy(heap, origin, node, class, block) {
            proof {
                let i = choose|i: int|
                    0 <= i < log.len() && (#[trigger] log[i]).end() > k.addr && k.end()
                        > log[i].addr;
                assert(!log[i].agrees(k, h));
            }
            return Err(e);
        }
        self.log = Ghost(log.push(k));
        Ok(())
    }
}

// ---------------------------------------------------------------------------
// Walking a list
// ---------------------------------------------------------------------------
/// The block `a` of class `c` at node `n`.
pub open spec fn mark_at(n: int, c: int, a: usize) -> Mark {
    Mark { node: n, class: c, addr: a as int }
}

/// The blocks `s` of class `c` at node `n`.
pub open spec fn marks_of(n: int, c: int, s: Seq<usize>) -> Seq<Mark> {
    Seq::new(s.len(), |i: int| mark_at(n, c, s[i]))
}

/// Following links from `first` visits exactly the blocks `s`, all of which
/// fit, and ends.
pub open spec fn walk(
    h: HeapView,
    m: Map<int, u8>,
    n: int,
    c: int,
    first: Option<usize>,
    s: Seq<usize>,
) -> bool {
    &&& first == freelist::head_of(s)
    &&& forall|i: int| 0 <= i < s.len() ==> mark_at(n, c, #[trigger] s[i]).fits(h)
    &&& forall|i: int|
        0 <= i < s.len() ==> #[trigger] freelist::link(m, s[i]) == freelist::succ(s, i)
}

/// Each of `ks` agrees with those before it and with all of `log`.
pub open spec fn extends(h: HeapView, log: Seq<Mark>, ks: Seq<Mark>) -> bool {
    forall|j: int|
        0 <= j < ks.len() ==> agrees_with_all(h, log + ks.take(j), #[trigger] ks[j])
}

/// The list that starts at `first` consists of the blocks `s`, at most one
/// more than `limit`, and passes all checks.
pub open spec fn good_list(
    h: HeapView,
    m: Map<int, u8>,
    log: Seq<Mark>,
    n: int,
    c: int,
    first: Option<usize>,
    limit: int,
    s: Seq<usize>,
) -> bool {
    &&& walk(h, m, n, c, first, s)
    &&& s.len() <= limit + 1
    &&& extends(h, log, marks_of(n, c, s))
}

/// What is wrong with a list.
#[derive(Clone, Copy, PartialEq, Eq, Structural, Debug)]
pub enum ListFault {
    /// It is longer than it may be.
    TooLong,
    /// It holds a block that should not be there.
    Block(Violation),
}

/// Following links from `first` visits the blocks `s` to begin with, all of
/// which pass all checks.
pub open spec fn visits(
    h: HeapView,
    m: Map<int, u8>,
    log: Seq<Mark>,
    n: int,
    c: int,
    first: Option<usize>,
    s: Seq<usize>,
) -> bool {
    &&& s.len() > 0 ==> first == Some(s[0])
    &&& forall|i: int| 0 <= i < s.len() ==> mark_at(n, c, #[trigger] s[i]).fits(h)
    &&& forall|i: int|
        0 <= i < s.len() - 1 ==> #[trigger] freelist::link(m, s[i]) == freelist::succ(s, i)
    &&& extends(h, log, marks_of(n, c, s))
}

/// The block that comes after `s` on the list that starts at `first`.
pub open spec fn next_after(
    m: Map<int, u8>,
    first: Option<usize>,
    s: Seq<usize>,
) -> Option<usize> {
    if s.len() == 0 {
        first
    } else {
        freelist::link(m, s[s.len() - 1])
    }
}

/// The list that starts at `first` fails with `f`, and no sooner than after the
/// blocks `s`: there is a block too many, or the next one is not as it should
/// be.
pub open spec fn list_fails(
    h: HeapView,
    m: Map<int, u8>,
    log: Seq<Mark>,
    origin: Origin,
    node: usize,
    class: usize,
    first: Option<usize>,
    limit: int,
    s: Seq<usize>,
    f: ListFault,
) -> bool {
    &&& visits(h, m, log, node as int, class as int, first, s)
    &&& next_after(m, first, s) matches Some(addr) && match f {
        ListFault::TooLong => s.len() == limit + 1,
        ListFault::Block(e) => s.len() <= limit && block_fails(
            h,
            log + marks_of(node as int, class as int, s),
            origin,
            node,
            class,
            addr,
            e,
        ),
    }
}

/// A block that fits can be read.
proof fn lemma_fits_block(h: HeapView, m: Map<int, u8>, n: int, c: int, a: usize)
    requires
        h.shape_ok(),
        h.mapped(m),
        mark_at(n, c, a).fits(h),
    ensures
        freelist::block_ok(m, a),
{
    let k = mark_at(n, c, a);
    lemma_fits(h, k);
    heap_view::lemma_bags(c);
    heap_view::lemma_multiple_of_class(k.addr, c);
    heap_view::lemma_region_end(h, n);
    assert forall|i: int| a <= i < a + 8 implies #[trigger] m.dom().contains(i) by {
        assert(h.base <= i < h.base + h.nodes * h.region);
    }
}

/// Walk the list that starts at `first` and record its blocks.  Returns its
/// length and its last block.
fn walk_list<M: Memory>(
    marks: &mut Marks,
    heap: &GlobalHeap,
    mem: &M,
    origin: Origin,
    node: usize,
    class: usize,
    first: Option<usize>,
    limit: usize,
) -> (r: Result<(usize, Option<usize>), ListFault>)
    requires
        heap.based(),
        heap.region_ok(node as int),
        heap@.mapped(mem@),
        old(marks).wf(heap@),
        node < heap@.nodes,
        class < NUM_SIZE_CLASSES,
        limit < usize::MAX,
    ensures
        r is Ok <==> exists|s: Seq<usize>| #[trigger]
            good_list(
                heap@,
                mem@,
                old(marks).log(),
                node as int,
                class as int,
                first,
                limit as int,
                s,
            ),
        r matches Ok((len, last)) ==> {
            &&& final(marks).wf(heap@)
            &&& forall|s: Seq<usize>| #[trigger]
                good_list(
                    heap@,
                    mem@,
                    old(marks).log(),
                    node as int,
                    class as int,
                    first,
                    limit as int,
                    s,
                ) ==> {
                    &&& len == s.len()
                    &&& last == freelist::last_of(s)
                    &&& final(marks).log() == old(marks).log() + marks_of(
                        node as int,
                        class as int,
                        s,
                    )
                }
        },
        r matches Err(f) ==> exists|s: Seq<usize>| #[trigger]
            list_fails(
                heap@,
                mem@,
                old(marks).log(),
                origin,
                node,
                class,
                first,
                limit as int,
                s,
                f,
            ),
{
    let ghost h = heap@;
    let ghost m = mem@;
    let ghost log = marks.log();
    let ghost n = node as int;
    let ghost c = class as int;
    let ghost mut done: Seq<usize> = Seq::empty();
    let mut cursor: Option<usize> = first;
    let mut len: usize = 0;
    let mut last: Option<usize> = None;
    proof {
        assert(log + marks_of(n, c, done) =~= log);
        heap.lemma_layout();
    }
    loop
        invariant_except_break
            len <= limit + 1,
        invariant
            heap.based(),
            heap.region_ok(n),
            h == heap@,
            m == mem@,
            n == node,
            c == class,
            log == old(marks).log(),
            h.shape_ok(),
            h.mapped(m),
            node < h.nodes,
            class < NUM_SIZE_CLASSES,
            limit < usize::MAX,
            marks.wf(h),
            marks.log() == log + marks_of(n, c, done),
            len == done.len(),
            last == freelist::last_of(done),
            done.len() > 0 ==> Some(done[0]) == first && cursor == freelist::link(
                m,
                done[done.len() - 1],
            ),
            done.len() == 0 ==> cursor == first,
            forall|i: int| 0 <= i < done.len() ==> mark_at(n, c, #[trigger] done[i]).fits(h),
            forall|i: int|
                0 <= i < done.len() - 1 ==> #[trigger] freelist::link(m, done[i])
                    == freelist::succ(done, i),
            extends(h, log, marks_of(n, c, done)),
            forall|s: Seq<usize>| #[trigger]
                good_list(h, m, log, n, c, first, limit as int, s) ==> done.len() <= s.len()
                    && s.take(done.len() as int) =~= done && cursor == (if done.len() < s.len() {
                    Some(s[done.len() as int])
                } else {
                    None
                }),
        ensures
            cursor is None,
            len <= limit + 1,
        decreases limit + 1 - len,
    {
        match cursor {
            None => {
                break;
            },
            Some(block) => {
                if len > limit {
                    proof {
                        assert forall|s: Seq<usize>| !#[trigger] good_list(
                            h,
                            m,
                            log,
                            n,
                            c,
                            first,
                            limit as int,
                            s,
                        ) by {}
                        assert(list_fails(
                            h,
                            m,
                            log,
                            origin,
                            node,
                            class,
                            first,
                            limit as int,
                            done,
                            ListFault::TooLong,
                        ));
                    }
                    return Err(ListFault::TooLong);
                }
                let ghost before = marks.log();
                if let Err(e) = marks.mark_block(heap, node, class, block, origin) {
                    proof {
                        assert forall|s: Seq<usize>| !#[trigger] good_list(
                            h,
                            m,
                            log,
                            n,
                            c,
                            first,
                            limit as int,
                            s,
                        ) by {
                            if good_list(h, m, log, n, c, first, limit as int, s) {
                                let j = done.len() as int;
                                let ks = marks_of(n, c, s);
                                assert(s[j] == block);
                                assert(mark_at(n, c, s[j]).fits(h));
                                assert(ks.take(j) =~= marks_of(n, c, done)) by {
                                    assert forall|i: int| 0 <= i < j implies ks[i] == mark_at(
                                        n,
                                        c,
                                        done[i],
                                    ) by {
                                        assert(s.take(j)[i] == done[i]);
                                    }
                                }
                                assert(agrees_with_all(h, log + ks.take(j), ks[j]));
                            }
                        }
                        assert(list_fails(
                            h,
                            m,
                            log,
                            origin,
                            node,
                            class,
                            first,
                            limit as int,
                            done,
                            ListFault::Block(e),
                        ));
                    }
                    return Err(ListFault::Block(e));
                }
                proof {
                    lemma_fits_block(h, m, n, c, block);
                }
                last = Some(block);
                cursor = FreeBlock { addr: block }.read_next(mem);
                let ghost old_done = done;
                proof {
                    done = done.push(block);
                    let ks = marks_of(n, c, done);
                    let ko = marks_of(n, c, old_done);
                    assert(ks =~= ko.push(mark_at(n, c, block)));
                    assert(log + ks =~= (log + ko).push(mark_at(n, c, block)));
                    assert(extends(h, log, ks)) by {
                        assert forall|j: int| 0 <= j < ks.len() implies agrees_with_all(
                            h,
                            log + ks.take(j),
                            #[trigger] ks[j],
                        ) by {
                            assert(ks.take(j) =~= ko.take(j));
                            if j < ko.len() {
                                assert(ks[j] == ko[j]);
                                assert(agrees_with_all(h, log + ko.take(j), ko[j]));
                            } else {
                                assert(ko.take(j) =~= ko);
                            }
                        }
                    }
                    assert forall|i: int| 0 <= i < done.len() - 1 implies #[trigger] freelist::link(
                        m,
                        done[i],
                    ) == freelist::succ(done, i) by {
                        if i < old_done.len() - 1 {
                            assert(done[i] == old_done[i]);
                            assert(freelist::link(m, old_done[i]) == freelist::succ(old_done, i));
                        }
                    }
                    assert forall|s: Seq<usize>| #[trigger]
                        good_list(h, m, log, n, c, first, limit as int, s) implies done.len()
                        <= s.len() && s.take(done.len() as int) =~= done && cursor == (
                    if done.len() < s.len() {
                        Some(s[done.len() as int])
                    } else {
                        None
                    }) by {
                        let j = old_done.len() as int;
                        assert(s.take(j) =~= old_done);
                        assert(s[j] == block);
                        assert(freelist::link(m, s[j]) == freelist::succ(s, j));
                        assert(s.take(j + 1) =~= s.take(j).push(s[j]));
                    }
                }
                len += 1;
            },
        }
    }
    proof {
        assert(walk(h, m, n, c, first, done)) by {
            assert forall|i: int| 0 <= i < done.len() implies #[trigger] freelist::link(m, done[i])
                == freelist::succ(done, i) by {
                if i < done.len() - 1 {
                    assert(freelist::link(m, done[i]) == freelist::succ(done, i));
                }
            }
        }
        assert(good_list(h, m, log, n, c, first, limit as int, done));
        assert forall|s: Seq<usize>| #[trigger]
            good_list(h, m, log, n, c, first, limit as int, s) implies s == done by {
            assert(s.take(done.len() as int) =~= done);
            assert(s =~= done);
        }
    }
    Ok((len, last))
}

// ---------------------------------------------------------------------------
// The heap
// ---------------------------------------------------------------------------
/// The blocks recorded after the first `q` stacks, counted class by class and
/// node by node, were found to hold `lists`.
pub open spec fn heap_log(log: Seq<Mark>, lists: Seq<Seq<usize>>, q: int) -> Seq<Mark>
    decreases q,
{
    if q <= 0 {
        log
    } else {
        heap_log(log, lists, q - 1) + marks_of((q - 1) / 16, (q - 1) % 16, lists[q - 1])
    }
}

/// The first `q` stacks hold `lists` and pass all checks.
pub open spec fn stacks_good(
    heap: &GlobalHeap,
    m: Map<int, u8>,
    log: Seq<Mark>,
    lists: Seq<Seq<usize>>,
    q: int,
) -> bool {
    forall|p: int|
        0 <= p < q ==> good_list(
            heap@,
            m,
            heap_log(log, lists, p),
            p / 16,
            p % 16,
            freelist::word_ptr(heap.stack(p / 16, p % 16).word()),
            heap@.region / size_class::class_size(p % 16),
            #[trigger] lists[p],
        )
}

/// The heap passes all checks, and its stacks hold `lists`.
pub open spec fn heap_valid(
    heap: &GlobalHeap,
    m: Map<int, u8>,
    log: Seq<Mark>,
    lists: Seq<Seq<usize>>,
) -> bool {
    &&& heap.layout_ok()
    &&& lists.len() == 16 * heap@.nodes
    &&& stacks_good(heap, m, log, lists, 16 * heap@.nodes)
}

/// The first stack that fails, in the order in which they are walked, is number
/// `q`, and its violation is `e`; the stacks before it hold `lists`.
pub open spec fn stack_fails(
    heap: &GlobalHeap,
    m: Map<int, u8>,
    log: Seq<Mark>,
    lists: Seq<Seq<usize>>,
    q: int,
    s: Seq<usize>,
    e: Violation,
) -> bool {
    let node = (q / 16) as usize;
    let class = (q % 16) as usize;
    let first = freelist::word_ptr(heap.stack(q / 16, q % 16).word());
    let limit = heap@.region / size_class::class_size(q % 16);
    let before = heap_log(log, lists, q);
    &&& 0 <= q < 16 * heap@.nodes
    &&& heap.nodes_ok(q / 16 + 1)
    &&& lists.len() == q
    &&& stacks_good(heap, m, log, lists, q)
    &&& exists|f: ListFault|
        {
            &&& #[trigger] list_fails(
                heap@,
                m,
                before,
                Origin::NodeStack,
                node,
                class,
                first,
                limit,
                s,
                f,
            )
            &&& e == match f {
                ListFault::TooLong => Violation::StackCycle { node, class },
                ListFault::Block(v) => v,
            }
        }
}

/// The first node whose region is not as it should be is `node`, and its
/// violation is `e`; the stacks of the nodes before it hold `lists`.
pub open spec fn node_fails(
    heap: &GlobalHeap,
    m: Map<int, u8>,
    log: Seq<Mark>,
    lists: Seq<Seq<usize>>,
    node: usize,
    e: Violation,
) -> bool {
    &&& node < heap@.nodes
    &&& heap.nodes_ok(node as int)
    &&& lists.len() == 16 * node
    &&& stacks_good(heap, m, log, lists, 16 * node)
    &&& heap.region_fails(node, e)
}

/// All nodes and their stacks, which hold `lists`, are as they should be, but an
/// unused node slot has a region, and its violation is `e`.
pub open spec fn slots_fail(
    heap: &GlobalHeap,
    m: Map<int, u8>,
    log: Seq<Mark>,
    lists: Seq<Seq<usize>>,
    e: Violation,
) -> bool {
    &&& heap.nodes_ok(heap@.nodes)
    &&& lists.len() == 16 * heap@.nodes
    &&& stacks_good(heap, m, log, lists, 16 * heap@.nodes)
    &&& heap.unused_fails(e)
}

/// The heap fails with `e`: its base is wrong; or else, node by node, the first
/// thing that is wrong is a region or a stack; or else an unused node slot has a
/// region.
pub open spec fn heap_fails(
    heap: &GlobalHeap,
    m: Map<int, u8>,
    log: Seq<Mark>,
    e: Violation,
) -> bool {
    if !heap.base_ok() {
        heap.base_fails(e)
    } else {
        ||| exists|lists: Seq<Seq<usize>>, node: usize| #[trigger]
            node_fails(heap, m, log, lists, node, e)
        ||| exists|lists: Seq<Seq<usize>>, q: int, s: Seq<usize>| #[trigger]
            stack_fails(heap, m, log, lists, q, s, e)
        ||| exists|lists: Seq<Seq<usize>>| #[trigger] slots_fail(heap, m, log, lists, e)
    }
}

/// What is recorded depends on the lists that were walked.
proof fn lemma_heap_log(log: Seq<Mark>, a: Seq<Seq<usize>>, b: Seq<Seq<usize>>, q: int)
    requires
        0 <= q <= a.len(),
        q <= b.len(),
        a.take(q) == b.take(q),
    ensures
        heap_log(log, a, q) == heap_log(log, b, q),
    decreases q,
{
    if q > 0 {
        assert(a.take(q - 1) =~= a.take(q).take(q - 1));
        assert(b.take(q - 1) =~= b.take(q).take(q - 1));
        lemma_heap_log(log, a, b, q - 1);
        assert(a[q - 1] == a.take(q)[q - 1]);
        assert(b[q - 1] == b.take(q)[q - 1]);
    }
}

impl GlobalHeap {
    /// Walk every per-node stack and check the metadata invariants.
    pub fn validate<M: Memory>(&self, mem: &M, marks: &mut Marks) -> (r: Result<(), Violation>)
        requires
            self.sized(),
            self@.mapped(mem@),
            old(marks).wf(self@),
        ensures
            r is Ok <==> exists|lists: Seq<Seq<usize>>| #[trigger]
                heap_valid(self, mem@, old(marks).log(), lists),
            r is Ok ==> final(marks).wf(self@) && forall|lists: Seq<Seq<usize>>| #[trigger]
                heap_valid(self, mem@, old(marks).log(), lists) ==> final(marks).log() == heap_log(
                    old(marks).log(),
                    lists,
                    16 * self@.nodes,
                ),
            r matches Err(e) ==> heap_fails(self, mem@, old(marks).log(), e),
    {
        if let Err(e) = self.check_base() {
            return Err(e);
        }
        let ghost h = self@;
        let ghost m = mem@;
        let ghost log = marks.log();
        let ghost mut lists: Seq<Seq<usize>> = Seq::empty();
        proof {
            self.lemma_layout();
            self.lemma_view();
        }
        let total: usize = self.num_nodes() * NUM_SIZE_CLASSES;
        let mut q: usize = 0;
        while q < total
            invariant
                q <= total,
                total == 16 * h.nodes,
                self.based(),
                self.nodes_ok((q + 15) / 16),
                h == self@,
                m == mem@,
                log == old(marks).log(),
                h.shape_ok(),
                h.mapped(m),
                marks.wf(h),
                lists.len() == q,
                marks.log() == heap_log(log, lists, q as int),
                stacks_good(self, m, log, lists, q as int),
                forall|ls: Seq<Seq<usize>>| #[trigger]
                    heap_valid(self, m, log, ls) ==> ls.take(q as int) =~= lists,
            decreases total - q,
        {
            let node: usize = q / NUM_SIZE_CLASSES;
            let class: usize = q % NUM_SIZE_CLASSES;
            if class == 0 {
                if let Err(e) = self.check_region(node) {
                    proof {
                        assert(node_fails(self, m, log, lists, node, e));
                        assert forall|ls: Seq<Seq<usize>>| !#[trigger] heap_valid(
                            self,
                            m,
                            log,
                            ls,
                        ) by {
                            if heap_valid(self, m, log, ls) {
                                assert(self.region_ok(node as int));
                            }
                        }
                    }
                    return Err(e);
                }
                assert(self.nodes_ok(node + 1));
            }
            proof {
                self.lemma_view();
                size_class::lemma_class_sizes();
                assert(self.region_ok(node as int));
            }
            let obj: usize = size_class::size_for_class(class);
            let region = self.node_region(node);
            let limit: usize = region.size() / obj;
            proof {
                assert(limit < usize::MAX) by (nonlinear_arith)
                    requires
                        limit == region.extent() / (obj as int),
                        0 <= region.extent() <= usize::MAX,
                        obj >= 8,
                ;
            }
            let first = region.freelist(class).peek_head();
            let ghost before = marks.log();
            match walk_list(marks, self, mem, Origin::NodeStack, node, class, first, limit) {
                Err(fault) => {
                    proof {
                        assert forall|ls: Seq<Seq<usize>>| !#[trigger] heap_valid(
                            self,
                            m,
                            log,
                            ls,
                        ) by {
                            if heap_valid(self, m, log, ls) {
                                assert(ls.take(q as int) =~= lists);
                                assert(lists.take(q as int) =~= lists);
                                lemma_heap_log(log, ls, lists, q as int);
                                let s = ls[q as int];
                                assert(good_list(
                                    h,
                                    m,
                                    before,
                                    node as int,
                                    class as int,
                                    first,
                                    limit as int,
                                    s,
                                ));
                            }
                        }
                    }
                    let e = match fault {
                        ListFault::TooLong => Violation::StackCycle { node, class },
                        ListFault::Block(e) => e,
                    };
                    proof {
                        let s = choose|s: Seq<usize>| #[trigger]
                            list_fails(
                                h,
                                m,
                                before,
                                Origin::NodeStack,
                                node,
                                class,
                                first,
                                limit as int,
                                s,
                                fault,
                            );
                        assert(stack_fails(self, m, log, lists, q as int, s, e));
                    }
                    return Err(e);
                },
                Ok(_) => {
                    proof {
                        let s = choose|s: Seq<usize>| #[trigger]
                            good_list(
                                h,
                                m,
                                before,
                                node as int,
                                class as int,
                                first,
                                limit as int,
                                s,
                            );
                        let old_lists = lists;
                        lists = lists.push(s);
                        assert(old_lists.take(q as int) =~= lists.take(q as int));
                        lemma_heap_log(log, old_lists, lists, q as int);
                        assert forall|p: int| 0 <= p < q + 1 implies good_list(
                            h,
                            m,
                            heap_log(log, lists, p),
                            p / 16,
                            p % 16,
                            freelist::word_ptr(self.stack(p / 16, p % 16).word()),
                            h.region / size_class::class_size(p % 16),
                            #[trigger] lists[p],
                        ) by {
                            if p < q {
                                assert(old_lists[p] == lists[p]);
                                assert(old_lists.take(p) =~= lists.take(p));
                                lemma_heap_log(log, old_lists, lists, p);
                            }
                        }
                        assert forall|ls: Seq<Seq<usize>>| #[trigger]
                            heap_valid(self, m, log, ls) implies ls.take(q + 1) =~= lists by {
                            assert(ls.take(q as int) =~= old_lists);
                            assert(old_lists.take(q as int) =~= old_lists);
                            lemma_heap_log(log, ls, old_lists, q as int);
                            let t = ls[q as int];
                            assert(good_list(
                                h,
                                m,
                                before,
                                node as int,
                                class as int,
                                first,
                                limit as int,
                                t,
                            ));
                            lemma_walk_unique(h, m, node as int, class as int, first, s, t);
                            assert(ls.take(q + 1) =~= ls.take(q as int).push(t));
                        }
                    }
                    q += 1;
                },
            }
        }
        if let Err(e) = self.check_unused() {
            assert(slots_fail(self, m, log, lists, e));
            return Err(e);
        }
        proof {
            assert(heap_valid(self, m, log, lists));
            assert forall|ls: Seq<Seq<usize>>| #[trigger]
                heap_valid(self, m, log, ls) implies ls == lists by {
                assert(ls.take(16 * h.nodes) =~= ls);
            }
        }
        Ok(())
    }
}

/// Links determine what a walk visits.
proof fn lemma_walk_unique(
    h: HeapView,
    m: Map<int, u8>,
    n: int,
    c: int,
    first: Option<usize>,
    s: Seq<usize>,
    t: Seq<usize>,
)
    requires
        walk(h, m, n, c, first, s),
        walk(h, m, n, c, first, t),
    ensures
        s == t,
{
    assert forall|i: int| 0 <= i < s.len() && i < t.len() implies s[i] == t[i] by {
        lemma_walk_prefix(h, m, n, c, first, s, t, i as nat);
    }
    if s.len() > 0 {
        let a = s.len() - 1;
        let b = t.len() - 1;
        assert(freelist::link(m, s[a]) == freelist::succ(s, a));
        assert(freelist::link(m, t[b]) == freelist::succ(t, b));
        if s.len() < t.len() {
            assert(freelist::link(m, t[a]) == freelist::succ(t, a));
        }
        if t.len() < s.len() {
            assert(freelist::link(m, s[b]) == freelist::succ(s, b));
        }
    }
    assert(s =~= t);
}

proof fn lemma_walk_prefix(
    h: HeapView,
    m: Map<int, u8>,
    n: int,
    c: int,
    first: Option<usize>,
    s: Seq<usize>,
    t: Seq<usize>,
    i: nat,
)
    requires
        walk(h, m, n, c, first, s),
        walk(h, m, n, c, first, t),
        i < s.len(),
        i < t.len(),
    ensures
        s[i as int] == t[i as int],
    decreases i,
{
    if i > 0 {
        lemma_walk_prefix(h, m, n, c, first, s, t, (i - 1) as nat);
        assert(freelist::link(m, s[i - 1]) == freelist::succ(s, i - 1));
        assert(freelist::link(m, t[i - 1]) == freelist::succ(t, i - 1));
    }
}

// ---------------------------------------------------------------------------
// The large cache
// ---------------------------------------------------------------------------
/// A cached mapping is page aligned, not empty, and outside the region.
pub open spec fn entry_valid(h: HeapView, page_size: int, e: LargeCacheEntry) -> bool {
    &&& e.original_ptr as int % page_size == 0
    &&& e.alloc_size as int % page_size == 0
    &&& e.alloc_size > 0
    &&& !h.owns(e.original_ptr as int)
}

/// The cache keeps to its limits, its entries are valid and disjoint, and its
/// byte accounting is exact.
pub open spec fn cache_valid(h: HeapView, page_size: int, cache: LargeCache) -> bool {
    &&& cache.slots() <= large_cache::LARGE_CACHE_SLOTS
    &&& cache.accounted() <= large_cache::MAX_LARGE_CACHE_BYTES
    &&& forall|i: int|
        0 <= i < cache@.len() ==> entry_valid(h, page_size, #[trigger] cache@[i])
    &&& forall|i: int, j: int|
        0 <= j < i < cache@.len() ==> thread_heap::mappings_apart(
            #[trigger] cache@[i],
            #[trigger] cache@[j],
        )
    &&& large_cache::total_bytes(cache@) == cache.accounted()
}

/// The first `n` entries are valid and disjoint.
pub open spec fn entries_good(
    h: HeapView,
    page_size: int,
    s: Seq<LargeCacheEntry>,
    n: int,
) -> bool {
    &&& forall|i: int| 0 <= i < n ==> entry_valid(h, page_size, #[trigger] s[i])
    &&& forall|i: int, j: int|
        0 <= j < i < n ==> thread_heap::mappings_apart(#[trigger] s[i], #[trigger] s[j])
}

/// The first entry that fails is number `i`, with the violation `e`: it is not
/// page aligned; or its size is no page multiple; or zero; or it points into the
/// region; or it overlaps an earlier entry, the first such one.
pub open spec fn entry_fails(
    h: HeapView,
    page_size: int,
    s: Seq<LargeCacheEntry>,
    i: int,
    e: Violation,
) -> bool {
    let entry = i as usize;
    &&& 0 <= i < s.len()
    &&& entries_good(h, page_size, s, i)
    &&& if s[i].original_ptr as int % page_size != 0 {
        e == Violation::LargeUnaligned { entry }
    } else if s[i].alloc_size as int % page_size != 0 {
        e == Violation::LargeSize { entry }
    } else if s[i].alloc_size == 0 {
        e == Violation::LargeZero { entry }
    } else if h.owns(s[i].original_ptr as int) {
        e == Violation::LargeOwned { entry }
    } else {
        &&& e matches Violation::LargeOverlap { entry: k, other }
        &&& k == i
        &&& other < i
        &&& !thread_heap::mappings_apart(s[i], s[other as int])
        &&& forall|j: int| 0 <= j < other ==> thread_heap::mappings_apart(s[i], #[trigger] s[j])
    }
}

/// The cache fails with `e`: it holds too many entries; or too many bytes; or
/// an entry fails; or its byte accounting is not exact.
pub open spec fn cache_fails(
    h: HeapView,
    page_size: int,
    cache: LargeCache,
    e: Violation,
) -> bool {
    if cache.slots() > large_cache::LARGE_CACHE_SLOTS {
        e == Violation::LargeCount
    } else if cache.accounted() > large_cache::MAX_LARGE_CACHE_BYTES {
        e == Violation::LargeBytes
    } else if !entries_good(h, page_size, cache@, cache@.len() as int) {
        exists|i: int| entry_fails(h, page_size, cache@, i, e)
    } else {
        &&& large_cache::total_bytes(cache@) != cache.accounted()
        &&& e == Violation::LargeAccounting
    }
}

/// Entries before a bad one can all be good only if not all are.
proof fn lemma_entry_fails(h: HeapView, page_size: int, s: Seq<LargeCacheEntry>, i: int)
    requires
        0 <= i < s.len(),
    ensures
        !entry_valid(h, page_size, s[i]) ==> !entries_good(h, page_size, s, s.len() as int),
        forall|j: int|
            0 <= j < i && !thread_heap::mappings_apart(s[i], #[trigger] s[j]) ==> !entries_good(
                h,
                page_size,
                s,
                s.len() as int,
            ),
{
}

impl LargeCache {
    /// Check slot and byte accounting and entry sanity.
    pub fn validate(&self, heap: &GlobalHeap, page_size: usize) -> (r: Result<(), Violation>)
        requires
            heap.coherent(),
            heap@.shape_ok(),
            page_size > 0,
        ensures
            r is Ok <==> cache_valid(heap@, page_size as int, *self),
            r matches Err(e) ==> cache_fails(heap@, page_size as int, *self, e),
    {
        let ghost h = heap@;
        let ghost s = self@;
        proof {
            self.lemma_view();
        }
        let count: usize = self.count();
        if count > large_cache::LARGE_CACHE_SLOTS {
            return Err(Violation::LargeCount);
        }
        if self.bytes() > large_cache::MAX_LARGE_CACHE_BYTES {
            return Err(Violation::LargeBytes);
        }
        let mut total: u128 = 0;
        let mut i: usize = 0;
        assert(s.take(0) =~= Seq::empty());
        while i < count
            invariant
                i <= count <= large_cache::LARGE_CACHE_SLOTS,
                count == self.slots(),
                count == s.len(),
                s == self@,
                h == heap@,
                heap.coherent(),
                h.shape_ok(),
                page_size > 0,
                self.accounted() <= large_cache::MAX_LARGE_CACHE_BYTES,
                total == large_cache::total_bytes(s.take(i as int)),
                total <= i * 0x1_0000_0000_0000_0000,
                forall|k: int|
                    0 <= k < i ==> entry_valid(h, page_size as int, #[trigger] s[k]),
                forall|k: int, j: int|
                    0 <= j < k < i ==> thread_heap::mappings_apart(#[trigger] s[k], #[trigger] s[j]),
            decreases count - i,
        {
            let e = self.entry(i);
            if e.original_ptr % page_size != 0 {
                proof {
                    lemma_entry_fails(h, page_size as int, s, i as int);
                    assert(entry_fails(
                        h,
                        page_size as int,
                        s,
                        i as int,
                        Violation::LargeUnaligned { entry: i },
                    ));
                }
                return Err(Violation::LargeUnaligned { entry: i });
            }
            if e.alloc_size % page_size != 0 {
                proof {
                    lemma_entry_fails(h, page_size as int, s, i as int);
                    assert(entry_fails(
                        h,
                        page_size as int,
                        s,
                        i as int,
                        Violation::LargeSize { entry: i },
                    ));
                }
                return Err(Violation::LargeSize { entry: i });
            }
            if e.alloc_size == 0 {
                proof {
                    lemma_entry_fails(h, page_size as int, s, i as int);
                    assert(entry_fails(
                        h,
                        page_size as int,
                        s,
                        i as int,
                        Violation::LargeZero { entry: i },
                    ));
                }
                return Err(Violation::LargeZero { entry: i });
            }
            proof {
                heap.lemma_layout();
            }
            if heap.is_owned(e.original_ptr) {
                proof {
                    lemma_entry_fails(h, page_size as int, s, i as int);
                    assert(entry_fails(
                        h,
                        page_size as int,
                        s,
                        i as int,
                        Violation::LargeOwned { entry: i },
                    ));
                }
                return Err(Violation::LargeOwned { entry: i });
            }
            let end: u128 = e.original_ptr as u128 + e.alloc_size as u128;
            let mut j: usize = 0;
            while j < i
                invariant
                    j <= i < count <= large_cache::LARGE_CACHE_SLOTS,
                    count == self.slots(),
                    count == s.len(),
                    s == self@,
                    h == heap@,
                    e == s[i as int],
                    end == e.original_ptr + e.alloc_size,
                    self.accounted() <= large_cache::MAX_LARGE_CACHE_BYTES,
                    entries_good(h, page_size as int, s, i as int),
                    entry_valid(h, page_size as int, e),
                    page_size > 0,
                    forall|k: int|
                        0 <= k < j ==> thread_heap::mappings_apart(e, #[trigger] s[k]),
                decreases i - j,
            {
                let other = self.entry(j);
                let other_end: u128 = other.original_ptr as u128 + other.alloc_size as u128;
                if !(end <= other.original_ptr as u128 || other_end <= e.original_ptr as u128) {
                    proof {
                        lemma_entry_fails(h, page_size as int, s, i as int);
                        assert(!thread_heap::mappings_apart(s[i as int], s[j as int]));
                        assert(entry_fails(
                            h,
                            page_size as int,
                            s,
                            i as int,
                            Violation::LargeOverlap { entry: i, other: j },
                        ));
                    }
                    return Err(Violation::LargeOverlap { entry: i, other: j });
                }
                j += 1;
            }
            assert(s.take(i + 1).drop_last() =~= s.take(i as int));
            total += e.alloc_size as u128;
            i += 1;
        }
        assert(s.take(count as int) =~= s);
        if total != self.bytes() as u128 {
            return Err(Violation::LargeAccounting);
        }
        Ok(())
    }
}

// ---------------------------------------------------------------------------
// A thread's heap
// ---------------------------------------------------------------------------
/// The list of class `c` holds `list` and its spare chain `parked`; both pass
/// all checks, and count and tail agree.
pub open spec fn class_good(
    th: &PerThreadHeap,
    h: HeapView,
    m: Map<int, u8>,
    log: Seq<Mark>,
    c: int,
    list: Seq<usize>,
    parked: Seq<usize>,
) -> bool {
    let n = th@.node;
    let fl = th.list(c);
    &&& good_list(h, m, log, n, c, fl.first(), fl.counted() as int, list)
    &&& list.len() == fl.counted()
    &&& freelist::last_of(list) == fl.last()
    &&& good_list(
        h,
        m,
        log + marks_of(n, c, list),
        n,
        c,
        fl.first_parked(),
        h.region / size_class::class_size(c),
        parked,
    )
}

/// The list of class `c` fails with `e`, after the blocks `s` of the list or,
/// where that holds `list` and passes all checks, of the spare chain.
pub open spec fn class_fails(
    th: &PerThreadHeap,
    h: HeapView,
    m: Map<int, u8>,
    log: Seq<Mark>,
    class: usize,
    list: Seq<usize>,
    s: Seq<usize>,
    e: Violation,
) -> bool {
    let n = th@.node;
    let c = class as int;
    let fl = th.list(c);
    let spare_limit = h.region / size_class::class_size(c);
    let passes = good_list(h, m, log, n, c, fl.first(), fl.counted() as int, list);
    ||| exists|f: ListFault|
        {
            &&& #[trigger] list_fails(
                h,
                m,
                log,
                Origin::ThreadCache,
                n as usize,
                class,
                fl.first(),
                fl.counted() as int,
                s,
                f,
            )
            &&& e == match f {
                ListFault::TooLong => Violation::ListTooLong { class },
                ListFault::Block(v) => v,
            }
        }
    ||| passes && list.len() != fl.counted() && e == Violation::CountMismatch { class }
    ||| passes && list.len() == fl.counted() && freelist::last_of(list) != fl.last() && e
        == Violation::TailMismatch { class }
    ||| passes && list.len() == fl.counted() && freelist::last_of(list) == fl.last() && exists|
        f: ListFault,
    |
        {
            &&& #[trigger] list_fails(
                h,
                m,
                log + marks_of(n, c, list),
                Origin::ThreadSpare,
                n as usize,
                class,
                fl.first_parked(),
                spare_limit,
                s,
                f,
            )
            &&& e == match f {
                ListFault::TooLong => Violation::SpareCycle { class },
                ListFault::Block(v) => v,
            }
        }
}

/// The blocks recorded after the first `c` classes of a thread at node `n`
/// were found to hold `lists` and `parked`.
pub open spec fn thread_log(
    log: Seq<Mark>,
    n: int,
    lists: Seq<Seq<usize>>,
    parked: Seq<Seq<usize>>,
    c: int,
) -> Seq<Mark>
    decreases c,
{
    if c <= 0 {
        log
    } else {
        thread_log(log, n, lists, parked, c - 1) + marks_of(n, c - 1, lists[c - 1]) + marks_of(
            n,
            c - 1,
            parked[c - 1],
        )
    }
}

/// The first `q` classes hold `lists` and `parked` and pass all checks.
pub open spec fn classes_good(
    th: &PerThreadHeap,
    h: HeapView,
    m: Map<int, u8>,
    log: Seq<Mark>,
    lists: Seq<Seq<usize>>,
    parked: Seq<Seq<usize>>,
    q: int,
) -> bool {
    forall|c: int|
        0 <= c < q ==> class_good(
            th,
            h,
            m,
            thread_log(log, th@.node, lists, parked, c),
            c,
            #[trigger] lists[c],
            parked[c],
        )
}

/// The thread's heap passes all checks, and its lists hold `lists` and
/// `parked`.
pub open spec fn thread_valid(
    th: &PerThreadHeap,
    h: HeapView,
    m: Map<int, u8>,
    log: Seq<Mark>,
    page_size: int,
    lists: Seq<Seq<usize>>,
    parked: Seq<Seq<usize>>,
) -> bool {
    &&& th@.node < h.nodes
    &&& lists.len() == NUM_SIZE_CLASSES
    &&& parked.len() == NUM_SIZE_CLASSES
    &&& classes_good(th, h, m, log, lists, parked, NUM_SIZE_CLASSES as int)
    &&& cache_valid(h, page_size, th.cache())
}

/// The first class of a thread that fails is number `c`, with the violation
/// `e`; the classes before it hold `lists` and `parked`.
pub open spec fn first_class_fails(
    th: &PerThreadHeap,
    h: HeapView,
    m: Map<int, u8>,
    log: Seq<Mark>,
    lists: Seq<Seq<usize>>,
    parked: Seq<Seq<usize>>,
    c: int,
    e: Violation,
) -> bool {
    &&& 0 <= c < NUM_SIZE_CLASSES
    &&& lists.len() == c
    &&& parked.len() == c
    &&& classes_good(th, h, m, log, lists, parked, c)
    &&& exists|list: Seq<usize>, s: Seq<usize>| #[trigger]
        class_fails(
            th,
            h,
            m,
            thread_log(log, th@.node, lists, parked, c),
            c as usize,
            list,
            s,
            e,
        )
}

/// All classes of a thread hold `lists` and `parked` and pass all checks.
pub open spec fn all_classes_good(
    th: &PerThreadHeap,
    h: HeapView,
    m: Map<int, u8>,
    log: Seq<Mark>,
    lists: Seq<Seq<usize>>,
    parked: Seq<Seq<usize>>,
) -> bool {
    &&& lists.len() == NUM_SIZE_CLASSES
    &&& parked.len() == NUM_SIZE_CLASSES
    &&& classes_good(th, h, m, log, lists, parked, NUM_SIZE_CLASSES as int)
}

/// The thread's heap fails with `e`: its node is unknown; or a class fails; or
/// its large cache does.
pub open spec fn thread_fails(
    th: &PerThreadHeap,
    h: HeapView,
    m: Map<int, u8>,
    log: Seq<Mark>,
    page_size: int,
    e: Violation,
) -> bool {
    if th@.node >= h.nodes {
        e == Violation::UnknownNode
    } else {
        ||| exists|lists: Seq<Seq<usize>>, parked: Seq<Seq<usize>>, c: int| #[trigger]
            first_class_fails(th, h, m, log, lists, parked, c, e)
        ||| cache_fails(h, page_size, th.cache(), e) && exists|
            lists: Seq<Seq<usize>>,
            parked: Seq<Seq<usize>>,
        | #[trigger]
            all_classes_good(th, h, m, log, lists, parked)
    }
}

/// What is recorded depends on the lists that were walked.
proof fn lemma_thread_log(
    log: Seq<Mark>,
    n: int,
    a: Seq<Seq<usize>>,
    ap: Seq<Seq<usize>>,
    b: Seq<Seq<usize>>,
    bp: Seq<Seq<usize>>,
    q: int,
)
    requires
        0 <= q <= a.len(),
        q <= b.len(),
        q <= ap.len(),
        q <= bp.len(),
        a.take(q) == b.take(q),
        ap.take(q) == bp.take(q),
    ensures
        thread_log(log, n, a, ap, q) == thread_log(log, n, b, bp, q),
    decreases q,
{
    if q > 0 {
        assert(a.take(q - 1) =~= a.take(q).take(q - 1));
        assert(b.take(q - 1) =~= b.take(q).take(q - 1));
        assert(ap.take(q - 1) =~= ap.take(q).take(q - 1));
        assert(bp.take(q - 1) =~= bp.take(q).take(q - 1));
        lemma_thread_log(log, n, a, ap, b, bp, q - 1);
        assert(a[q - 1] == a.take(q)[q - 1]);
        assert(b[q - 1] == b.take(q)[q - 1]);
        assert(ap[q - 1] == ap.take(q)[q - 1]);
        assert(bp[q - 1] == bp.take(q)[q - 1]);
    }
}

impl PerThreadHeap {
    /// Walk the list and the spare chain of one class.
    fn validate_class<M: Memory>(
        &self,
        heap: &GlobalHeap,
        mem: &M,
        marks: &mut Marks,
        class: usize,
    ) -> (r: Result<(), Violation>)
        requires
            heap.coherent(),
            heap@.shape_ok(),
            heap@.mapped(mem@),
            old(marks).wf(heap@),
            class < NUM_SIZE_CLASSES,
            0 <= self@.node < heap@.nodes,
            self.list(class as int).counted() < usize::MAX,
        ensures
            r is Ok <==> exists|list: Seq<usize>, parked: Seq<usize>| #[trigger]
                class_good(
                    self,
                    heap@,
                    mem@,
                    old(marks).log(),
                    class as int,
                    list,
                    parked,
                ),
            r is Ok ==> final(marks).wf(heap@) && forall|list: Seq<usize>, parked: Seq<usize>|
                #[trigger]
                class_good(
                    self,
                    heap@,
                    mem@,
                    old(marks).log(),
                    class as int,
                    list,
                    parked,
                ) ==> final(marks).log() == old(marks).log() + marks_of(
                    self@.node,
                    class as int,
                    list,
                ) + marks_of(self@.node, class as int, parked),
            r matches Err(e) ==> exists|list: Seq<usize>, s: Seq<usize>| #[trigger]
                class_fails(self, heap@, mem@, old(marks).log(), class, list, s, e),
    {
        let ghost h = heap@;
        let ghost m = mem@;
        let ghost log = marks.log();
        let ghost n = self@.node;
        let ghost c = class as int;
        let node: usize = self.node_id();
        let fl = self.freelist(class);
        let count: usize = fl.count();
        let first = fl.head();
        proof {
            heap.lemma_layout();
            assert(heap.region_ok(n));
        }
        let walked = walk_list(marks, heap, mem, Origin::ThreadCache, node, class, first, count);
        let (len, last) = match walked {
            Ok(v) => v,
            Err(fault) => {
                let e = match fault {
                    ListFault::TooLong => Violation::ListTooLong { class },
                    ListFault::Block(e) => e,
                };
                proof {
                    let s = choose|s: Seq<usize>| #[trigger]
                        list_fails(
                            h,
                            m,
                            log,
                            Origin::ThreadCache,
                            node,
                            class,
                            first,
                            count as int,
                            s,
                            fault,
                        );
                    assert(n as usize == node);
                    assert(list_fails(
                        h,
                        m,
                        log,
                        Origin::ThreadCache,
                        n as usize,
                        class,
                        self.list(c).first(),
                        self.list(c).counted() as int,
                        s,
                        fault,
                    ));
                    assert(class_fails(self, h, m, log, class, Seq::empty(), s, e));
                }
                return Err(e);
            },
        };
        let ghost list = choose|s: Seq<usize>| #[trigger]
            good_list(h, m, log, n, c, first, count as int, s);
        proof {
            assert forall|s: Seq<usize>| #[trigger]
                good_list(h, m, log, n, c, first, count as int, s) implies s == list by {
                lemma_walk_unique(h, m, n, c, first, s, list);
            }
        }
        if len != count {
            assert(class_fails(
                self,
                h,
                m,
                log,
                class,
                list,
                Seq::empty(),
                Violation::CountMismatch { class },
            ));
            return Err(Violation::CountMismatch { class });
        }
        let tail = fl.tail();
        let same_tail: bool = match (last, tail) {
            (Some(a), Some(b)) => a == b,
            (None, None) => true,
            _ => false,
        };
        if !same_tail {
            assert(class_fails(
                self,
                h,
                m,
                log,
                class,
                list,
                Seq::empty(),
                Violation::TailMismatch { class },
            ));
            return Err(Violation::TailMismatch { class });
        }
        let ghost mid = marks.log();
        let obj: usize = size_class::size_for_class(class);
        proof {
            size_class::lemma_class_sizes();
        }
        let region: usize = heap.region_size();
        let limit: usize = region / obj;
        proof {
            assert(limit < usize::MAX) by (nonlinear_arith)
                requires
                    limit == region as int / (obj as int),
                    0 <= region <= usize::MAX,
                    obj >= 8,
            ;
        }
        let spare = fl.spare();
        match walk_list(marks, heap, mem, Origin::ThreadSpare, node, class, spare, limit) {
            Ok(_) => {
                proof {
                    let parked = choose|s: Seq<usize>| #[trigger]
                        good_list(h, m, mid, n, c, spare, limit as int, s);
                    assert(class_good(self, h, m, log, c, list, parked));
                }
                Ok(())
            },
            Err(fault) => {
                let e = match fault {
                    ListFault::TooLong => Violation::SpareCycle { class },
                    ListFault::Block(e) => e,
                };
                proof {
                    let s = choose|s: Seq<usize>| #[trigger]
                        list_fails(
                            h,
                            m,
                            mid,
                            Origin::ThreadSpare,
                            node,
                            class,
                            spare,
                            limit as int,
                            s,
                            fault,
                        );
                    assert(mid == log + marks_of(n, c, list));
                    assert(n as usize == node);
                    assert(list_fails(
                        h,
                        m,
                        log + marks_of(n, c, list),
                        Origin::ThreadSpare,
                        n as usize,
                        class,
                        self.list(c).first_parked(),
                        h.region / size_class::class_size(c),
                        s,
                        fault,
                    ));
                    assert(class_fails(self, h, m, log, class, list, s, e));
                }
                Err(e)
            },
        }
    }

    /// Walk this thread's free lists and large cache, checking the metadata
    /// invariants.
    pub fn validate<M: Memory>(
        &self,
        heap: &GlobalHeap,
        mem: &M,
        marks: &mut Marks,
        page_size: usize,
    ) -> (r: Result<(), Violation>)
        requires
            heap.coherent(),
            heap@.shape_ok(),
            heap@.mapped(mem@),
            old(marks).wf(heap@),
            0 <= self@.node,
            forall|c: int|
                0 <= c < NUM_SIZE_CLASSES ==> (#[trigger] self.list(c)).counted() < usize::MAX,
            page_size > 0,
        ensures
            r is Ok <==> exists|lists: Seq<Seq<usize>>, parked: Seq<Seq<usize>>| #[trigger]
                thread_valid(
                    self,
                    heap@,
                    mem@,
                    old(marks).log(),
                    page_size as int,
                    lists,
                    parked,
                ),
            r is Ok ==> final(marks).wf(heap@) && forall|
                lists: Seq<Seq<usize>>,
                parked: Seq<Seq<usize>>,
            | #[trigger]
                thread_valid(
                    self,
                    heap@,
                    mem@,
                    old(marks).log(),
                    page_size as int,
                    lists,
                    parked,
                ) ==> final(marks).log() == thread_log(
                    old(marks).log(),
                    self@.node,
                    lists,
                    parked,
                    NUM_SIZE_CLASSES as int,
                ),
            r matches Err(e) ==> thread_fails(
                self,
                heap@,
                mem@,
                old(marks).log(),
                page_size as int,
                e,
            ),
    {
        let ghost h = heap@;
        let ghost m = mem@;
        let ghost log = marks.log();
        let ghost n = self@.node;
        if self.node_id() >= heap.num_nodes() {
            return Err(Violation::UnknownNode);
        }
        let ghost mut lists: Seq<Seq<usize>> = Seq::empty();
        let ghost mut parked: Seq<Seq<usize>> = Seq::empty();
        let mut class: usize = 0;
        while class < NUM_SIZE_CLASSES
            invariant
                class <= NUM_SIZE_CLASSES,
                heap.coherent(),
                h == heap@,
                m == mem@,
                log == old(marks).log(),
                n == self@.node,
                0 <= n < h.nodes,
                h.shape_ok(),
                h.mapped(m),
                marks.wf(h),
                forall|c: int|
                    0 <= c < NUM_SIZE_CLASSES ==> (#[trigger] self.list(c)).counted()
                        < usize::MAX,
                lists.len() == class,
                parked.len() == class,
                marks.log() == thread_log(log, n, lists, parked, class as int),
                classes_good(self, h, m, log, lists, parked, class as int),
                forall|ls: Seq<Seq<usize>>, ps: Seq<Seq<usize>>| #[trigger]
                    thread_valid(self, h, m, log, page_size as int, ls, ps) ==> ls.take(
                        class as int,
                    ) =~= lists && ps.take(class as int) =~= parked,
            decreases NUM_SIZE_CLASSES - class,
        {
            let ghost before = marks.log();
            let ghost q = class as int;
            let checked = self.validate_class(heap, mem, marks, class);
            if let Err(e) = checked {
                proof {
                    assert forall|ls: Seq<Seq<usize>>, ps: Seq<Seq<usize>>| !#[trigger]
                        thread_valid(self, h, m, log, page_size as int, ls, ps) by {
                        if thread_valid(self, h, m, log, page_size as int, ls, ps) {
                            assert(ls.take(q) =~= lists);
                            assert(ps.take(q) =~= parked);
                            assert(lists.take(q) =~= lists);
                            assert(parked.take(q) =~= parked);
                            lemma_thread_log(log, n, ls, ps, lists, parked, q);
                            let s = ls[q];
                            assert(class_good(self, h, m, before, q, s, ps[q]));
                        }
                    }
                    let (list, s) = choose|list: Seq<usize>, s: Seq<usize>| #[trigger]
                        class_fails(self, h, m, before, class, list, s, e);
                    assert(class_fails(self, h, m, before, q as usize, list, s, e));
                    assert(first_class_fails(self, h, m, log, lists, parked, q, e));
                }
                return Err(e);
            }
            proof {
                let (s, p) = choose|s: Seq<usize>, p: Seq<usize>| #[trigger]
                    class_good(self, h, m, before, q, s, p);
                let old_lists = lists;
                let old_parked = parked;
                lists = lists.push(s);
                parked = parked.push(p);
                assert(old_lists.take(q) =~= lists.take(q));
                assert(old_parked.take(q) =~= parked.take(q));
                lemma_thread_log(log, n, old_lists, old_parked, lists, parked, q);
                assert forall|c: int| 0 <= c < q + 1 implies class_good(
                    self,
                    h,
                    m,
                    thread_log(log, n, lists, parked, c),
                    c,
                    #[trigger] lists[c],
                    parked[c],
                ) by {
                    if c < q {
                        assert(old_lists[c] == lists[c]);
                        assert(old_parked[c] == parked[c]);
                        assert(old_lists.take(c) =~= lists.take(c));
                        assert(old_parked.take(c) =~= parked.take(c));
                        lemma_thread_log(log, n, old_lists, old_parked, lists, parked, c);
                    }
                }
                assert forall|ls: Seq<Seq<usize>>, ps: Seq<Seq<usize>>| #[trigger]
                    thread_valid(self, h, m, log, page_size as int, ls, ps) implies ls.take(q + 1)
                    =~= lists && ps.take(q + 1) =~= parked by {
                    assert(ls.take(q) =~= old_lists);
                    assert(ps.take(q) =~= old_parked);
                    assert(old_lists.take(q) =~= old_lists);
                    assert(old_parked.take(q) =~= old_parked);
                    lemma_thread_log(log, n, ls, ps, old_lists, old_parked, q);
                    let t = ls[q];
                    let u = ps[q];
                    assert(class_good(self, h, m, before, q, t, u));
                    lemma_walk_unique(h, m, n, q, self.list(q).first(), s, t);
                    lemma_walk_unique(h, m, n, q, self.list(q).first_parked(), p, u);
                    assert(ls.take(q + 1) =~= ls.take(q).push(t));
                    assert(ps.take(q + 1) =~= ps.take(q).push(u));
                }
            }
            class += 1;
        }
        if let Err(e) = self.large_cache().validate(heap, page_size) {
            assert(all_classes_good(self, h, m, log, lists, parked));
            return Err(e);
        }
        proof {
            assert(thread_valid(self, h, m, log, page_size as int, lists, parked));
            assert forall|ls: Seq<Seq<usize>>, ps: Seq<Seq<usize>>| #[trigger]
                thread_valid(self, h, m, log, page_size as int, ls, ps) implies ls == lists && ps
                == parked by {
                assert(ls.take(16) =~= ls);
                assert(ps.take(16) =~= ps);
            }
        }
        Ok(())
    }
}

// ---------------------------------------------------------------------------
// The allocator
// ---------------------------------------------------------------------------
/// The heap passes all checks, and so does the thread's heap after it.
pub open spec fn state_valid(
    numa: &NumaAlloc,
    slot: &ThreadHeapSlot,
    m: Map<int, u8>,
    page_size: int,
    lists: Seq<Seq<usize>>,
) -> bool {
    let h = numa.state();
    &&& heap_valid(&numa.global(), m, Seq::empty(), lists)
    &&& slot.thread() matches Some(th) ==> (th@.heap == h.base ==> exists|
        listed: Seq<Seq<usize>>,
        parked: Seq<Seq<usize>>,
    | #[trigger]
        thread_valid(
            &th,
            h,
            m,
            heap_log(Seq::empty(), lists, 16 * h.nodes),
            page_size,
            listed,
            parked,
        ))
}

/// The heap passes all checks, and then the thread's heap fails with `e`.
pub open spec fn slot_fails(
    numa: &NumaAlloc,
    slot: &ThreadHeapSlot,
    m: Map<int, u8>,
    page_size: int,
    lists: Seq<Seq<usize>>,
    e: Violation,
) -> bool {
    let h = numa.state();
    &&& heap_valid(&numa.global(), m, Seq::empty(), lists)
    &&& slot.thread() matches Some(th) && th@.heap == h.base && thread_fails(
        &th,
        h,
        m,
        heap_log(Seq::empty(), lists, 16 * h.nodes),
        page_size,
        e,
    )
}

impl NumaAlloc {
    /// Check every allocator-internal invariant that can be verified from
    /// metadata alone.  The check only reads metadata and free blocks.
    ///
    /// Covers all per-node stacks and the *calling* thread's caches.  Other
    /// threads' caches are not reachable and are validated when they drain on
    /// thread exit (their blocks then appear on the node stacks).
    pub fn validate_internal_state<M: Memory>(
        &self,
        slot: &ThreadHeapSlot,
        mem: &M,
        page_size: usize,
    ) -> (r: Result<(), Violation>)
        requires
            self.ready(),
            self.global().sized(),
            self.state().mapped(mem@),
            slot.thread() matches Some(th) ==> 0 <= th@.node && forall|c: int|
                0 <= c < NUM_SIZE_CLASSES ==> (#[trigger] th.list(c)).counted() < usize::MAX,
            page_size > 0,
        ensures
            r is Ok <==> exists|lists: Seq<Seq<usize>>| #[trigger]
                state_valid(self, slot, mem@, page_size as int, lists),
            r matches Err(e) ==> {
                ||| heap_fails(&self.global(), mem@, Seq::empty(), e)
                ||| exists|lists: Seq<Seq<usize>>| #[trigger]
                    slot_fails(self, slot, mem@, page_size as int, lists, e)
            },
    {
        let heap = self.heap();
        let mut marks = Marks::new(heap);
        if let Err(e) = heap.validate(mem, &mut marks) {
            return Err(e);
        }
        let ghost lists = choose|lists: Seq<Seq<usize>>| #[trigger]
            heap_valid(&self.global(), mem@, Seq::empty(), lists);
        proof {
            heap.lemma_layout();
            assert forall|ls: Seq<Seq<usize>>| #[trigger]
                heap_valid(&self.global(), mem@, Seq::empty(), ls) implies marks.log() == heap_log(
                Seq::empty(),
                ls,
                16 * self.state().nodes,
            ) by {}
        }
        let base: usize = heap.base();
        if let Some(th) = slot.get() {
            if th.global_heap().is_for(base) {
                if let Err(e) = th.validate(heap, mem, &mut marks, page_size) {
                    assert(slot_fails(self, slot, mem@, page_size as int, lists, e));
                    return Err(e);
                }
            }
        }
        proof {
            assert(state_valid(self, slot, mem@, page_size as int, lists));
        }
        Ok(())
    }
}

// ---------------------------------------------------------------------------
// Well-formed states pass
// ---------------------------------------------------------------------------
/// No more than `k` distinct numbers lie in `[0, k)`.
proof fn lemma_pigeonhole(s: Seq<int>, k: int)
    requires
        s.no_duplicates(),
        0 <= k,
        forall|i: int| 0 <= i < s.len() ==> 0 <= #[trigger] s[i] < k,
    ensures
        s.len() <= k,
{
    s.unique_seq_to_set();
    vstd::set_lib::lemma_int_range(0, k);
    let all = vstd::set_lib::set_int_range(0, k);
    assert forall|x: int| #[trigger] s.to_set().contains(x) implies all.contains(x) by {
        let i = choose|i: int| 0 <= i < s.len() && s[i] == x;
    }
    vstd::set_lib::lemma_len_subset(s.to_set(), all);
}

/// A region holds no more objects of a class than fit.
proof fn lemma_object_count(h: HeapView, n: int, c: int, s: Seq<usize>)
    requires
        h.wf(),
        0 <= n < h.nodes,
        0 <= c < NUM_SIZE_CLASSES,
        s.no_duplicates(),
        h.all_placed(n, c, s),
    ensures
        s.len() <= h.region / size_class::class_size(c),
{
    let size = size_class::class_size(c);
    let t = Seq::new(s.len(), |i: int| (s[i] - h.lo(n)) / size);
    heap_view::lemma_bags(c);
    heap_view::lemma_region_aligned(h, n);
    heap_view::lemma_divides(h.lo(n), 262144, size);
    assert(h.node_ok(n));
    assert forall|i: int| 0 <= i < s.len() implies 0 <= #[trigger] t[i] < h.region / size && s[i]
        - h.lo(n) == size * t[i] by {
        assert(s.contains(s[i]));
        let off = s[i] - h.lo(n);
        heap_view::lemma_multiples(s[i] as int, h.lo(n), size);
        vstd::arithmetic::div_mod::lemma_fundamental_div_mod(off, size);
        vstd::arithmetic::div_mod::lemma_fundamental_div_mod(h.region, size);
        vstd::arithmetic::div_mod::lemma_mod_bound(h.region, size);
        let q = t[i];
        let r = h.region / size;
        assert(0 <= q < r) by (nonlinear_arith)
            requires
                size > 0,
                off == size * q,
                0 <= off,
                off + size <= h.region,
                h.region == size * r + h.region % size,
                0 <= h.region % size < size,
        ;
    }
    assert forall|i: int, j: int| 0 <= i < t.len() && 0 <= j < t.len() && i != j implies t[i]
        != t[j] by {
        assert(s[i] != s[j]);
        assert(s[i] - h.lo(n) == size * t[i]);
        assert(s[j] - h.lo(n) == size * t[j]);
    }
    assert(h.region / size >= 0) by (nonlinear_arith)
        requires
            h.region > 0,
            size > 0,
    ;
    lemma_pigeonhole(t, h.region / size);
}

/// The block of a mark is an object.
pub open spec fn is_placed(h: HeapView, k: Mark) -> bool {
    &&& 0 <= k.addr <= usize::MAX
    &&& h.placed(k.node, k.class, k.addr as usize)
}

/// The bag of an object lies inside its node's region, and every granule of it
/// was carved for the object's class.
proof fn lemma_bag_of(h: HeapView, k: Mark)
    requires
        h.wf(),
        is_placed(h, k),
    ensures
        ({
            let shift = (h.lo(k.node) - h.base) / 32768;
            &&& shift <= k.bag_from(h)
            &&& k.bag_to(h) <= shift + h.region / 32768
            &&& forall|g: int|
                k.bag_from(h) <= g < k.bag_to(h) ==> #[trigger] h.owners[k.node].contains_pair(
                    g - shift,
                    k.class,
                )
        }),
{
    let bag = size_class::class_bag(k.class);
    let lo = h.lo(k.node);
    let off = k.addr - lo;
    let shift = (lo - h.base) / 32768;
    let b = bag / 32768;
    let g = off / 32768;
    heap_view::lemma_bags(k.class);
    heap_view::lemma_bag_divides(k.class);
    heap_view::lemma_placed_inside(h, k.node, k.class, k.addr as usize);
    heap_view::lemma_region_aligned(h, k.node);
    heap_view::lemma_region_aligned(h, 0);
    heap_view::lemma_divides(lo, 262144, bag);
    assert(h.node_ok(k.node));
    assert(h.bag_owned(k.node, g, k.class));
    // The bag starts at the largest multiple of its size below the object.
    let start = off - off % bag;
    assert(k.addr % bag == off % bag) by {
        vstd::arithmetic::div_mod::lemma_fundamental_div_mod(lo, bag);
        vstd::arithmetic::div_mod::lemma_mod_multiples_vanish(lo / bag, off, bag);
        assert(bag * (lo / bag) + off == k.addr);
    }
    vstd::arithmetic::div_mod::lemma_fundamental_div_mod(off, bag);
    vstd::arithmetic::div_mod::lemma_mod_bound(off, bag);
    assert(start == (off / bag) * bag) by (nonlinear_arith)
        requires
            off == bag * (off / bag) + off % bag,
            start == off - off % bag,
    ;
    heap_view::lemma_quotient(start, bag, off / bag);
    heap_view::lemma_divides(start, bag, 32768);
    heap_view::lemma_start_granule(start, bag, off, g);
    assert(start / 32768 == g - g % b);
    assert((lo - h.base) % 32768 == 0);
    assert(k.addr - k.addr % bag - h.base == start + (lo - h.base));
    assert((start + (lo - h.base)) / 32768 == start / 32768 + shift);
}

/// Two objects at different addresses agree with each other.
proof fn lemma_placed_agree(h: HeapView, j: Mark, k: Mark)
    requires
        h.wf(),
        is_placed(h, j),
        is_placed(h, k),
        j.addr != k.addr,
    ensures
        j.agrees(k, h),
{
    heap_view::lemma_placed_disjoint(
        h,
        j.node,
        j.class,
        j.addr as usize,
        k.node,
        k.class,
        k.addr as usize,
    );
    lemma_bag_of(h, j);
    lemma_bag_of(h, k);
    heap_view::lemma_bags(j.class);
    heap_view::lemma_bags(k.class);
    if j.node == k.node {
        if j.class != k.class && j.bag_to(h) > k.bag_from(h) && k.bag_to(h) > j.bag_from(h) {
            let g = if j.bag_from(h) < k.bag_from(h) {
                k.bag_from(h)
            } else {
                j.bag_from(h)
            };
            let shift = (h.lo(k.node) - h.base) / 32768;
            assert(h.owners[k.node].contains_pair(g - shift, j.class));
            assert(h.owners[k.node].contains_pair(g - shift, k.class));
        }
    } else {
        heap_view::lemma_region_aligned(h, j.node);
        heap_view::lemma_region_aligned(h, k.node);
        if j.node < k.node {
            heap_view::lemma_regions(h, j.node, k.node);
        } else {
            heap_view::lemma_regions(h, k.node, j.node);
        }
        assert(j.bag_to(h) <= k.bag_from(h) || k.bag_to(h) <= j.bag_from(h));
    }
}

/// A chain of objects that were not recorded yet passes all checks.
proof fn lemma_chain_good(
    h: HeapView,
    m: Map<int, u8>,
    log: Seq<Mark>,
    n: int,
    c: int,
    s: Seq<usize>,
    limit: int,
)
    requires
        h.wf(),
        0 <= n < h.nodes,
        0 <= c < NUM_SIZE_CLASSES,
        freelist::chain(m, freelist::head_of(s), s),
        h.all_placed(n, c, s),
        forall|i: int|
            0 <= i < log.len() ==> is_placed(h, #[trigger] log[i]) && !s.contains(
                log[i].addr as usize,
            ),
        s.len() <= limit + 1,
    ensures
        good_list(h, m, log, n, c, freelist::head_of(s), limit, s),
{
    let ks = marks_of(n, c, s);
    assert forall|i: int| 0 <= i < s.len() implies mark_at(n, c, #[trigger] s[i]).fits(h) by {
        assert(s.contains(s[i]));
        heap_view::lemma_placed_node(h, n, c, s[i]);
    }
    assert forall|j: int| 0 <= j < ks.len() implies agrees_with_all(
        h,
        log + ks.take(j),
        #[trigger] ks[j],
    ) by {
        let all = log + ks.take(j);
        assert(s.contains(s[j]));
        assert(is_placed(h, ks[j]));
        assert forall|i: int| 0 <= i < all.len() implies (#[trigger] all[i]).agrees(ks[j], h) by {
            if i < log.len() {
                assert(all[i] == log[i]);
                assert(!s.contains(log[i].addr as usize));
                lemma_placed_agree(h, log[i], ks[j]);
            } else {
                let k = i - log.len();
                assert(all[i] == ks[k]);
                assert(s.contains(s[k]));
                assert(s[k] != s[j]);
                lemma_placed_agree(h, ks[k], ks[j]);
            }
        }
    }
}

/// What the stacks of a heap hold, class by class and node by node.
pub open spec fn stack_lists(h: HeapView) -> Seq<Seq<usize>> {
    Seq::new((16 * h.nodes) as nat, |p: int| h.stacks[p / 16][p % 16])
}

/// What was recorded of the first `q` stacks are objects on those stacks.
proof fn lemma_heap_log_placed(h: HeapView, q: int, i: int)
    requires
        h.wf(),
        0 <= q <= 16 * h.nodes,
        0 <= i < heap_log(Seq::empty(), stack_lists(h), q).len(),
    ensures
        ({
            let k = heap_log(Seq::empty(), stack_lists(h), q)[i];
            &&& is_placed(h, k)
            &&& 16 * k.node + k.class < q
            &&& h.stacks[k.node][k.class].contains(k.addr as usize)
        }),
    decreases q,
{
    let lists = stack_lists(h);
    if q > 0 {
        let p = q - 1;
        let before = heap_log(Seq::empty(), lists, p);
        let s = h.stacks[p / 16][p % 16];
        if i < before.len() {
            lemma_heap_log_placed(h, p, i);
        } else {
            let j = i - before.len();
            assert(lists[p] == s);
            assert(s.contains(s[j]));
            assert(h.stacks[p / 16][p % 16].contains(s[j]));
        }
    }
}

/// A well-formed heap passes all checks.
pub proof fn law_heap_validates(heap: &GlobalHeap, m: Map<int, u8>)
    requires
        heap.wf(m),
    ensures
        heap_valid(heap, m, Seq::empty(), stack_lists(heap@)),
{
    let h = heap@;
    let lists = stack_lists(h);
    heap.lemma_layout();
    heap.lemma_view();
    assert forall|p: int| 0 <= p < 16 * h.nodes implies good_list(
        h,
        m,
        heap_log(Seq::empty(), lists, p),
        p / 16,
        p % 16,
        freelist::word_ptr(heap.stack(p / 16, p % 16).word()),
        h.region / size_class::class_size(p % 16),
        #[trigger] lists[p],
    ) by {
        let n = p / 16;
        let c = p % 16;
        let s = h.stacks[n][c];
        let log = heap_log(Seq::empty(), lists, p);
        assert(heap.stack(n, c).wf(m));
        heap.stack(n, c).lemma_top();
        assert(h.all_placed(n, c, s));
        assert forall|i: int| 0 <= i < log.len() implies is_placed(h, #[trigger] log[i])
            && !s.contains(log[i].addr as usize) by {
            lemma_heap_log_placed(h, p, i);
            if s.contains(log[i].addr as usize) {
                heap_view::lemma_placed_unique(
                    h,
                    n,
                    c,
                    log[i].node,
                    log[i].class,
                    log[i].addr as usize,
                );
            }
        }
        lemma_object_count(h, n, c, s);
        lemma_chain_good(h, m, log, n, c, s, h.region / size_class::class_size(c));
    }
}

/// What was recorded of the first `c` classes of a thread, after the heap, are
/// objects on the heap's stacks and on those lists of the thread.
proof fn lemma_thread_log_placed(h: HeapView, th: &PerThreadHeap, c: int, i: int)
    requires
        h.wf(),
        th@.wf(h),
        0 <= c <= NUM_SIZE_CLASSES,
        0 <= i < thread_log(
            heap_log(Seq::empty(), stack_lists(h), 16 * h.nodes),
            th@.node,
            th@.lists,
            th@.parked,
            c,
        ).len(),
    ensures
        ({
            let k = thread_log(
                heap_log(Seq::empty(), stack_lists(h), 16 * h.nodes),
                th@.node,
                th@.lists,
                th@.parked,
                c,
            )[i];
            &&& is_placed(h, k)
            &&& h.stacks[k.node][k.class].contains(k.addr as usize) || (k.node == th@.node
                && k.class < c)
        }),
    decreases c,
{
    let t = th@;
    let log = heap_log(Seq::empty(), stack_lists(h), 16 * h.nodes);
    if c > 0 {
        let before = thread_log(log, t.node, t.lists, t.parked, c - 1);
        let a = marks_of(t.node, c - 1, t.lists[c - 1]);
        assert(t.class_ok(h, c - 1));
        if i < before.len() {
            lemma_thread_log_placed(h, th, c - 1, i);
        } else if i < before.len() + a.len() {
            let s = t.lists[c - 1];
            assert(s.contains(s[i - before.len()]));
        } else {
            let s = t.parked[c - 1];
            assert(s.contains(s[i - before.len() - a.len()]));
        }
    } else {
        lemma_heap_log_placed(h, 16 * h.nodes, i);
    }
}

/// A well-formed thread's heap passes all checks after its well-formed heap.
pub proof fn law_thread_validates(
    th: &PerThreadHeap,
    h: HeapView,
    m: Map<int, u8>,
    page_size: int,
)
    requires
        h.wf(),
        h.mapped(m),
        th.wf(h, m),
        thread_heap::mappings_ok(h, m, page_size, th@.large),
    ensures
        thread_valid(
            th,
            h,
            m,
            heap_log(Seq::empty(), stack_lists(h), 16 * h.nodes),
            page_size,
            th@.lists,
            th@.parked,
        ),
{
    let t = th@;
    let n = t.node;
    let log = heap_log(Seq::empty(), stack_lists(h), 16 * h.nodes);
    th.lemma_view();
    assert forall|c: int| 0 <= c < NUM_SIZE_CLASSES implies class_good(
        th,
        h,
        m,
        thread_log(log, n, t.lists, t.parked, c),
        c,
        #[trigger] t.lists[c],
        t.parked[c],
    ) by {
        let list = t.lists[c];
        let parked = t.parked[c];
        let before = thread_log(log, n, t.lists, t.parked, c);
        assert(th.list(c).wf(m));
        assert(t.class_ok(h, c));
        assert forall|i: int| 0 <= i < before.len() implies is_placed(h, #[trigger] before[i])
            && !list.contains(before[i].addr as usize) && !parked.contains(
            before[i].addr as usize,
        ) by {
            lemma_thread_log_placed(h, th, c, i);
            let k = before[i];
            let a = k.addr as usize;
            if list.contains(a) || parked.contains(a) {
                assert(h.placed(n, c, a));
                heap_view::lemma_placed_unique(h, n, c, k.node, k.class, a);
            }
        }
        lemma_chain_good(h, m, before, n, c, list, list.len() as int);
        let mid = before + marks_of(n, c, list);
        assert forall|i: int| 0 <= i < mid.len() implies is_placed(h, #[trigger] mid[i])
            && !parked.contains(mid[i].addr as usize) by {
            if i < before.len() {
                assert(mid[i] == before[i]);
            } else {
                let s = list[i - before.len()];
                assert(list.contains(s));
                assert(mid[i] == mark_at(n, c, s));
            }
        }
        lemma_object_count(h, n, c, parked);
        lemma_chain_good(h, m, mid, n, c, parked, h.region / size_class::class_size(c));
    }
    let s = th.cache()@;
    assert forall|i: int| 0 <= i < s.len() implies entry_valid(h, page_size, #[trigger] s[i]) by {
        assert(thread_heap::mapping_ok(h, m, page_size, s[i]));
    }
    assert forall|i: int, j: int| 0 <= j < i < s.len() implies thread_heap::mappings_apart(
        #[trigger] s[i],
        #[trigger] s[j],
    ) by {
        assert(thread_heap::mappings_apart(s[j], s[i]));
    }
}

/// Validation accepts every state that only the allocator has touched.
pub proof fn law_state_validates(
    numa: &NumaAlloc,
    slot: &ThreadHeapSlot,
    m: Map<int, u8>,
    page_size: int,
)
    requires
        numa.wf(m),
        slot.wf(numa.state(), m, page_size),
    ensures
        state_valid(numa, slot, m, page_size, stack_lists(numa.state())),
{
    numa.lemma_wf(m);
    law_heap_validates(&numa.global(), m);
    if slot.thread() is Some {
        let th = slot.thread()->0;
        if th@.heap == numa.state().base {
            law_thread_validates(&th, numa.state(), m, page_size);
        }
    }
}

// ---------------------------------------------------------------------------
// What passing the checks means
// ---------------------------------------------------------------------------
/// Every block that was walked is recorded.
proof fn lemma_heap_log_has(log: Seq<Mark>, lists: Seq<Seq<usize>>, q: int, p: int, i: int)
    requires
        0 <= p < q <= lists.len(),
        0 <= i < lists[p].len(),
    ensures
        heap_log(log, lists, q).contains(mark_at(p / 16, p % 16, lists[p][i])),
    decreases q,
{
    let before = heap_log(log, lists, q - 1);
    let ks = marks_of((q - 1) / 16, (q - 1) % 16, lists[q - 1]);
    let k = mark_at(p / 16, p % 16, lists[p][i]);
    if p == q - 1 {
        assert((before + ks)[before.len() + i] == k);
    } else {
        lemma_heap_log_has(log, lists, q - 1, p, i);
        let j = choose|j: int| 0 <= j < before.len() && before[j] == k;
        assert((before + ks)[j] == k);
    }
}

/// Where the bag of a block begins: its granules are whole.
proof fn lemma_bag_address(h: HeapView, k: Mark)
    requires
        h.shape_ok(),
        k.fits(h),
    ensures
        h.base + k.bag_from(h) * 32768 == k.addr - k.addr % size_class::class_bag(k.class),
        h.base + k.bag_to(h) * 32768 == k.addr - k.addr % size_class::class_bag(k.class)
            + size_class::class_bag(k.class),
{
    let bag = size_class::class_bag(k.class);
    let from = k.addr - k.addr % bag - h.base;
    lemma_mark_bag(h, k);
    heap_view::lemma_bags(k.class);
    heap_view::lemma_bag_divides(k.class);
    heap_view::lemma_divides(h.base, 262144, 32768);
    heap_view::lemma_region_aligned(h, h.nodes);
    heap_view::lemma_divides(h.base, 262144, bag);
    heap_view::lemma_divides(h.base + h.nodes * h.region, 262144, bag);
    lemma_round_down(h.base, k.addr, h.base + h.nodes * h.region, bag);
    heap_view::lemma_divides(k.addr - k.addr % bag, bag, 32768);
    heap_view::lemma_multiples(k.addr - k.addr % bag, h.base, 32768);
    vstd::arithmetic::div_mod::lemma_fundamental_div_mod(from, 32768);
}

/// Two recorded blocks lie apart, and so do their bags if they are of different
/// classes.
pub open spec fn blocks_apart(c: int, a: int, d: int, b: int) -> bool {
    let size = pow2((c + 3) as nat);
    let other = pow2((d + 3) as nat);
    let bag = if size > 32768 {
        size as int
    } else {
        32768
    };
    let other_bag = if other > 32768 {
        other as int
    } else {
        32768
    };
    &&& a + size <= b || b + other <= a
    &&& c != d ==> a - a % bag + bag <= b - b % other_bag || b - b % other_bag + other_bag <= a - a
        % bag
}

/// Marks that agree lie apart.
proof fn lemma_agree_apart(h: HeapView, k: Mark, l: Mark)
    requires
        h.shape_ok(),
        k.fits(h),
        l.fits(h),
        k.agrees(l, h),
    ensures
        blocks_apart(k.class, k.addr, l.class, l.addr),
        blocks_apart(l.class, l.addr, k.class, k.addr),
{
    lemma_bag_address(h, k);
    lemma_bag_address(h, l);
    vstd::arithmetic::power2::lemma2_to64();
    size_class::lemma_class_sizes();
}

/// Where a block that fits lies: in its node's region, below the bump offset, at
/// a multiple of its size.
pub open spec fn block_placed(h: HeapView, n: int, c: int, a: int) -> bool {
    &&& h.base + n * h.region <= a
    &&& a + pow2((c + 3) as nat) <= h.base + n * h.region + h.used[n]
    &&& a % (pow2((c + 3) as nat) as int) == 0
}

proof fn lemma_fits_placed(h: HeapView, k: Mark)
    requires
        h.shape_ok(),
        k.fits(h),
    ensures
        block_placed(h, k.node, k.class, k.addr),
{
    heap_view::lemma_node_of(h, k.node, k.addr);
    vstd::arithmetic::power2::lemma2_to64();
    size_class::lemma_class_sizes();
}

/// What holds of a heap that passes all checks: the base is aligned to 256 KiB,
/// no node carves more than its region has, and unused nodes have none.
pub proof fn law_validated_layout(heap: &GlobalHeap, m: Map<int, u8>, lists: Seq<Seq<usize>>, n: int)
    requires
        heap.sized(),
        heap_valid(heap, m, Seq::empty(), lists),
        0 <= n < 8,
    ensures
        heap@.base % 262144 == 0,
        n < heap@.nodes ==> heap@.used[n] <= heap@.region && heap.region(n).start() == heap@.base
            + n * heap@.region && heap.region(n).extent() == heap@.region,
        n >= heap@.nodes ==> heap.region(n).extent() == 0,
{
    heap.lemma_layout();
    heap.lemma_view();
    if n < heap@.nodes {
        assert(heap.region_ok(n));
    }
}

/// Each stack of a heap that passes all checks is a chain that ends: its blocks
/// follow each other by their links, from the head on.  Each block lies where
/// blocks of its node and class do, and apart from every other.
pub proof fn law_validated_stacks(
    heap: &GlobalHeap,
    m: Map<int, u8>,
    lists: Seq<Seq<usize>>,
    p: int,
    i: int,
    q: int,
    j: int,
)
    requires
        heap.sized(),
        heap_valid(heap, m, Seq::empty(), lists),
        0 <= p < 16 * heap@.nodes,
        0 <= i < lists[p].len(),
        0 <= q < 16 * heap@.nodes,
        0 <= j < lists[q].len(),
    ensures
        block_placed(heap@, p / 16, p % 16, lists[p][i] as int),
        freelist::word_ptr(heap.stack(p / 16, p % 16).word()) == Some(lists[p][0]),
        freelist::link(m, lists[p][i]) == (if i + 1 < lists[p].len() {
            Some(lists[p][i + 1])
        } else {
            None
        }),
        p != q || i != j ==> blocks_apart(p % 16, lists[p][i] as int, q % 16, lists[q][j] as int),
{
    let h = heap@;
    let log = Seq::<Mark>::empty();
    heap.lemma_layout();
    assert(good_list(
        h,
        m,
        heap_log(log, lists, p),
        p / 16,
        p % 16,
        freelist::word_ptr(heap.stack(p / 16, p % 16).word()),
        h.region / size_class::class_size(p % 16),
        lists[p],
    ));
    assert(good_list(
        h,
        m,
        heap_log(log, lists, q),
        q / 16,
        q % 16,
        freelist::word_ptr(heap.stack(q / 16, q % 16).word()),
        h.region / size_class::class_size(q % 16),
        lists[q],
    ));
    let k = mark_at(p / 16, p % 16, lists[p][i]);
    let l = mark_at(q / 16, q % 16, lists[q][j]);
    assert(k.fits(h) && l.fits(h));
    lemma_fits_placed(h, k);
    assert(freelist::link(m, lists[p][i]) == freelist::succ(lists[p], i));
    if p != q || i != j {
        if p < q || p == q && i < j {
            if p < q {
                lemma_heap_log_has(log, lists, q, p, i);
            }
            lemma_earlier_agrees(
                h,
                heap_log(log, lists, q),
                q / 16,
                q % 16,
                lists[q],
                j,
                k,
                if p < q {
                    -1
                } else {
                    i
                },
            );
            lemma_agree_apart(h, k, l);
        } else {
            if q < p {
                lemma_heap_log_has(log, lists, p, q, j);
            }
            lemma_earlier_agrees(
                h,
                heap_log(log, lists, p),
                p / 16,
                p % 16,
                lists[p],
                i,
                l,
                if q < p {
                    -1
                } else {
                    j
                },
            );
            lemma_agree_apart(h, l, k);
        }
    }
}

/// A block of a list that passes agrees with what was recorded before the list
/// (`i < 0`), and with the earlier blocks of the list.
proof fn lemma_earlier_agrees(
    h: HeapView,
    log: Seq<Mark>,
    n: int,
    c: int,
    s: Seq<usize>,
    j: int,
    k: Mark,
    i: int,
)
    requires
        extends(h, log, marks_of(n, c, s)),
        0 <= j < s.len(),
        i < 0 ==> log.contains(k),
        0 <= i ==> i < j && k == mark_at(n, c, s[i]),
    ensures
        k.agrees(mark_at(n, c, s[j]), h),
{
    let ks = marks_of(n, c, s);
    let all = log + ks.take(j);
    assert(agrees_with_all(h, all, ks[j]));
    if i < 0 {
        let x = choose|x: int| 0 <= x < log.len() && log[x] == k;
        assert(all[x] == k);
    } else {
        assert(all[log.len() + i] == k);
    }
}

/// The block is on a list or spare chain of class `d`.
pub open spec fn on_lists(
    n: int,
    lists: Seq<Seq<usize>>,
    parked: Seq<Seq<usize>>,
    d: int,
    k: Mark,
) -> bool {
    marks_of(n, d, lists[d]).contains(k) || marks_of(n, d, parked[d]).contains(k)
}

/// Every block of a thread's classes that was walked is recorded, and stays so.
proof fn lemma_thread_log_has(
    log: Seq<Mark>,
    n: int,
    lists: Seq<Seq<usize>>,
    parked: Seq<Seq<usize>>,
    c: int,
    k: Mark,
)
    requires
        0 <= c,
        log.contains(k) || exists|d: int| 0 <= d < c && #[trigger] on_lists(n, lists, parked, d, k),
    ensures
        thread_log(log, n, lists, parked, c).contains(k),
    decreases c,
{
    if c > 0 {
        let before = thread_log(log, n, lists, parked, c - 1);
        let a = marks_of(n, c - 1, lists[c - 1]);
        let b = marks_of(n, c - 1, parked[c - 1]);
        let all = before + a + b;
        if a.contains(k) {
            let i = choose|i: int| 0 <= i < a.len() && a[i] == k;
            assert(all[before.len() + i] == k);
        } else if b.contains(k) {
            let i = choose|i: int| 0 <= i < b.len() && b[i] == k;
            assert(all[before.len() + a.len() + i] == k);
        } else {
            if !log.contains(k) {
                let d = choose|d: int| 0 <= d < c && #[trigger] on_lists(n, lists, parked, d, k);
                assert(d < c - 1);
            }
            lemma_thread_log_has(log, n, lists, parked, c - 1, k);
            let x = choose|x: int| 0 <= x < before.len() && before[x] == k;
            assert(all[x] == k);
        }
    }
}

/// A block that was recorded before class `c` of a thread was walked lies apart
/// from every block of the class.
proof fn lemma_recorded_apart(
    th: &PerThreadHeap,
    h: HeapView,
    m: Map<int, u8>,
    log: Seq<Mark>,
    page_size: int,
    lists: Seq<Seq<usize>>,
    parked: Seq<Seq<usize>>,
    c: int,
    k: Mark,
    l: Mark,
)
    requires
        h.shape_ok(),
        thread_valid(th, h, m, log, page_size, lists, parked),
        0 <= c < 16,
        k.fits(h),
        log.contains(k) || exists|d: int|
            0 <= d < c && #[trigger] on_lists(th@.node, lists, parked, d, k),
        on_lists(th@.node, lists, parked, c, l),
    ensures
        blocks_apart(k.class, k.addr, c, l.addr),
        blocks_apart(c, l.addr, k.class, k.addr),
{
    let n = th@.node;
    let a = lists[c];
    let b = parked[c];
    let before = thread_log(log, n, lists, parked, c);
    let mid = before + marks_of(n, c, a);
    assert(class_good(th, h, m, before, c, lists[c], parked[c]));
    lemma_thread_log_has(log, n, lists, parked, c, k);
    if marks_of(n, c, a).contains(l) {
        let i = choose|i: int| 0 <= i < a.len() && marks_of(n, c, a)[i] == l;
        assert(mark_at(n, c, a[i]) == l);
        lemma_earlier_agrees(h, before, n, c, a, i, k, -1);
    } else {
        let i = choose|i: int| 0 <= i < b.len() && marks_of(n, c, b)[i] == l;
        assert(mark_at(n, c, b[i]) == l);
        let y = choose|y: int| 0 <= y < before.len() && before[y] == k;
        assert(mid[y] == k);
        lemma_earlier_agrees(h, mid, n, c, b, i, k, -1);
    }
    lemma_agree_apart(h, k, l);
}

/// Blocks of different classes of a thread that passes all checks lie apart.
pub proof fn law_validated_classes(
    th: &PerThreadHeap,
    h: HeapView,
    m: Map<int, u8>,
    log: Seq<Mark>,
    page_size: int,
    lists: Seq<Seq<usize>>,
    parked: Seq<Seq<usize>>,
    c: int,
    d: int,
    a: usize,
    b: usize,
)
    requires
        h.shape_ok(),
        thread_valid(th, h, m, log, page_size, lists, parked),
        0 <= c < d < 16,
        lists[c].contains(a) || parked[c].contains(a),
        lists[d].contains(b) || parked[d].contains(b),
    ensures
        blocks_apart(c, a as int, d, b as int),
{
    let n = th@.node;
    let k = mark_at(n, c, a);
    let l = mark_at(n, d, b);
    assert(class_good(
        th,
        h,
        m,
        thread_log(log, n, lists, parked, c),
        c,
        lists[c],
        parked[c],
    ));
    lemma_on_lists(n, lists, parked, c, a);
    lemma_on_lists(n, lists, parked, d, b);
    if lists[c].contains(a) {
        let i = choose|i: int| 0 <= i < lists[c].len() && lists[c][i] == a;
        assert(mark_at(n, c, lists[c][i]).fits(h));
    } else {
        let i = choose|i: int| 0 <= i < parked[c].len() && parked[c][i] == a;
        assert(mark_at(n, c, parked[c][i]).fits(h));
    }
    lemma_recorded_apart(th, h, m, log, page_size, lists, parked, d, k, l);
}

proof fn lemma_on_lists(
    n: int,
    lists: Seq<Seq<usize>>,
    parked: Seq<Seq<usize>>,
    c: int,
    a: usize,
)
    requires
        lists[c].contains(a) || parked[c].contains(a),
    ensures
        on_lists(n, lists, parked, c, mark_at(n, c, a)),
{
    if lists[c].contains(a) {
        let i = choose|i: int| 0 <= i < lists[c].len() && lists[c][i] == a;
        assert(marks_of(n, c, lists[c])[i] == mark_at(n, c, a));
    } else {
        let i = choose|i: int| 0 <= i < parked[c].len() && parked[c][i] == a;
        assert(marks_of(n, c, parked[c])[i] == mark_at(n, c, a));
    }
}

/// Each list of a thread that passes all checks is a chain that ends, with as
/// many blocks as its counter says and the last of them as its tail; its spare
/// chain is one too.  Each block lies where blocks of the thread's node and its
/// class do, and apart from everything recorded before and from the others of
/// the class.
pub proof fn law_validated_thread(
    th: &PerThreadHeap,
    h: HeapView,
    m: Map<int, u8>,
    log: Seq<Mark>,
    page_size: int,
    lists: Seq<Seq<usize>>,
    parked: Seq<Seq<usize>>,
    c: int,
)
    requires
        h.shape_ok(),
        thread_valid(th, h, m, log, page_size, lists, parked),
        forall|x: int| 0 <= x < log.len() ==> (#[trigger] log[x]).fits(h),
        0 <= c < 16,
    ensures
        th.list(c).counted() == lists[c].len(),
        th.list(c).first() == (if lists[c].len() > 0 {
            Some(lists[c][0])
        } else {
            None
        }),
        th.list(c).last() == (if lists[c].len() > 0 {
            Some(lists[c].last())
        } else {
            None
        }),
        th.list(c).first_parked() == (if parked[c].len() > 0 {
            Some(parked[c][0])
        } else {
            None
        }),
        forall|i: int|
            0 <= i < lists[c].len() ==> block_placed(
                h,
                th@.node,
                c,
                #[trigger] lists[c][i] as int,
            ) && freelist::link(m, lists[c][i]) == (if i + 1 < lists[c].len() {
                Some(lists[c][i + 1])
            } else {
                None
            }),
        forall|i: int|
            0 <= i < parked[c].len() ==> block_placed(
                h,
                th@.node,
                c,
                #[trigger] parked[c][i] as int,
            ) && freelist::link(m, parked[c][i]) == (if i + 1 < parked[c].len() {
                Some(parked[c][i + 1])
            } else {
                None
            }),
        forall|x: int, i: int|
            0 <= x < log.len() && 0 <= i < lists[c].len() ==> blocks_apart(
                (#[trigger] log[x]).class,
                log[x].addr,
                c,
                #[trigger] lists[c][i] as int,
            ),
        forall|x: int, i: int|
            0 <= x < log.len() && 0 <= i < parked[c].len() ==> blocks_apart(
                (#[trigger] log[x]).class,
                log[x].addr,
                c,
                #[trigger] parked[c][i] as int,
            ),
        forall|i: int, j: int|
            0 <= i < j < lists[c].len() ==> blocks_apart(
                c,
                #[trigger] lists[c][i] as int,
                c,
                #[trigger] lists[c][j] as int,
            ),
        forall|i: int, j: int|
            0 <= i < j < parked[c].len() ==> blocks_apart(
                c,
                #[trigger] parked[c][i] as int,
                c,
                #[trigger] parked[c][j] as int,
            ),
        forall|i: int, j: int|
            0 <= i < lists[c].len() && 0 <= j < parked[c].len() ==> blocks_apart(
                c,
                #[trigger] lists[c][i] as int,
                c,
                #[trigger] parked[c][j] as int,
            ),
{
    let n = th@.node;
    let a = lists[c];
    let b = parked[c];
    let before = thread_log(log, n, lists, parked, c);
    let mid = before + marks_of(n, c, a);
    assert(class_good(th, h, m, before, c, lists[c], parked[c]));
    assert(n < h.nodes);
    assert forall|i: int| 0 <= i < a.len() implies block_placed(h, n, c, #[trigger] a[i] as int)
        && freelist::link(m, a[i]) == (if i + 1 < a.len() {
        Some(a[i + 1])
    } else {
        None
    }) by {
        lemma_fits_placed(h, mark_at(n, c, a[i]));
        assert(freelist::link(m, a[i]) == freelist::succ(a, i));
    }
    assert forall|i: int| 0 <= i < b.len() implies block_placed(h, n, c, #[trigger] b[i] as int)
        && freelist::link(m, b[i]) == (if i + 1 < b.len() {
        Some(b[i + 1])
    } else {
        None
    }) by {
        lemma_fits_placed(h, mark_at(n, c, b[i]));
        assert(freelist::link(m, b[i]) == freelist::succ(b, i));
    }
    assert forall|x: int, i: int|
        0 <= x < log.len() && 0 <= i < a.len() implies blocks_apart(
        (#[trigger] log[x]).class,
        log[x].addr,
        c,
        #[trigger] a[i] as int,
    ) by {
        assert(log.contains(log[x]));
        assert(lists[c].contains(a[i]));
        lemma_on_lists(n, lists, parked, c, a[i]);
        lemma_recorded_apart(
            th,
            h,
            m,
            log,
            page_size,
            lists,
            parked,
            c,
            log[x],
            mark_at(n, c, a[i]),
        );
    }
    assert forall|x: int, i: int|
        0 <= x < log.len() && 0 <= i < b.len() implies blocks_apart(
        (#[trigger] log[x]).class,
        log[x].addr,
        c,
        #[trigger] b[i] as int,
    ) by {
        assert(log.contains(log[x]));
        assert(parked[c].contains(b[i]));
        lemma_on_lists(n, lists, parked, c, b[i]);
        lemma_recorded_apart(
            th,
            h,
            m,
            log,
            page_size,
            lists,
            parked,
            c,
            log[x],
            mark_at(n, c, b[i]),
        );
    }
    assert forall|i: int, j: int| 0 <= i < j < a.len() implies blocks_apart(
        c,
        #[trigger] a[i] as int,
        c,
        #[trigger] a[j] as int,
    ) by {
        lemma_earlier_agrees(h, before, n, c, a, j, mark_at(n, c, a[i]), i);
        lemma_agree_apart(h, mark_at(n, c, a[i]), mark_at(n, c, a[j]));
    }
    assert forall|i: int, j: int| 0 <= i < j < b.len() implies blocks_apart(
        c,
        #[trigger] b[i] as int,
        c,
        #[trigger] b[j] as int,
    ) by {
        lemma_earlier_agrees(h, mid, n, c, b, j, mark_at(n, c, b[i]), i);
        lemma_agree_apart(h, mark_at(n, c, b[i]), mark_at(n, c, b[j]));
    }
    assert forall|i: int, j: int|
        0 <= i < a.len() && 0 <= j < b.len() implies blocks_apart(
        c,
        #[trigger] a[i] as int,
        c,
        #[trigger] b[j] as int,
    ) by {
        assert(mid[before.len() + i] == mark_at(n, c, a[i]));
        lemma_earlier_agrees(h, mid, n, c, b, j, mark_at(n, c, a[i]), -1);
        lemma_agree_apart(h, mark_at(n, c, a[i]), mark_at(n, c, b[j]));
    }
}

/// A cache that passes all checks has at most 1024 mappings of at most 512 MiB in
/// all, exactly counted: whole pages outside the regions, apart from each other.
pub proof fn law_validated_cache(
    h: HeapView,
    page_size: int,
    cache: LargeCache,
    i: int,
    j: int,
)
    requires
        cache_valid(h, page_size, cache),
        0 <= i < cache@.len(),
        0 <= j < cache@.len(),
    ensures
        cache@.len() == cache.slots(),
        cache.slots() <= 1024,
        cache.accounted() <= 536870912,
        large_cache::total_bytes(cache@) == cache.accounted(),
        cache@[i].alloc_size > 0,
        cache@[i].original_ptr as int % page_size == 0,
        cache@[i].alloc_size as int % page_size == 0,
        cache@[i].original_ptr < h.base || h.base + h.nodes * h.region <= cache@[i].original_ptr,
        i != j ==> cache@[i].original_ptr + cache@[i].alloc_size <= cache@[j].original_ptr
            || cache@[j].original_ptr + cache@[j].alloc_size <= cache@[i].original_ptr,
{
    cache.lemma_view();
    if i < j {
        assert(thread_heap::mappings_apart(cache@[j], cache@[i]));
    } else if j < i {
        assert(thread_heap::mappings_apart(cache@[i], cache@[j]));
    }
}

/// What is said to be wrong with a block is.
pub proof fn law_violations(
    h: HeapView,
    log: Seq<Mark>,
    origin: Origin,
    node: usize,
    class: usize,
    addr: usize,
    e: Violation,
)
    requires
        h.shape_ok(),
        forall|x: int| 0 <= x < log.len() ==> (#[trigger] log[x]).fits(h),
        node < h.nodes,
        class < 16,
        block_fails(h, log, origin, node, class, addr, e),
    ensures
        ({
            let lo = h.base + node * h.region;
            let size = pow2((class + 3) as nat) as int;
            let bag = if size > 32768 {
                size
            } else {
                32768
            };
            match e {
                Violation::OutsideRegion { origin: o, node: n, class: c, addr: a } => {
                    &&& (o, n, c, a) == (origin, node, class, addr)
                    &&& addr < lo || lo + h.region <= addr
                },
                Violation::BeyondBump { origin: o, node: n, class: c, addr: a } => {
                    &&& (o, n, c, a) == (origin, node, class, addr)
                    &&& lo <= addr < lo + h.region
                    &&& addr + size > lo + h.used[node as int]
                },
                Violation::Misaligned { origin: o, node: n, class: c, addr: a } => {
                    &&& (o, n, c, a) == (origin, node, class, addr)
                    &&& addr as int % size != 0
                },
                Violation::BagConflict { origin: o, node: n, class: c, other, granule } => {
                    &&& (o, n, c) == (origin, node, class)
                    &&& other != class
                    &&& addr as int % size == 0
                    &&& addr - addr as int % bag <= lo + granule * 32768 < addr - addr as int % bag
                        + bag
                    &&& exists|x: int|
                        0 <= x < log.len() && (#[trigger] log[x]).class == other && log[x].addr
                            - log[x].addr % size_class::class_bag(log[x].class) <= lo + granule
                            * 32768 < log[x].addr - log[x].addr % size_class::class_bag(
                            log[x].class,
                        ) + size_class::class_bag(log[x].class)
                },
                Violation::Overlap { origin: o, node: n, class: c, addr: a } => {
                    &&& (o, n, c, a) == (origin, node, class, addr)
                    &&& addr as int % size == 0
                    &&& exists|x: int|
                        0 <= x < log.len() && (#[trigger] log[x]).addr < addr + size && addr
                            < log[x].addr + pow2((log[x].class + 3) as nat)
                },
                _ => false,
            }
        }),
{
    let k = Mark { node: node as int, class: class as int, addr: addr as int };
    let n = node as int;
    vstd::arithmetic::power2::lemma2_to64();
    size_class::lemma_class_sizes();
    heap_view::lemma_node_of(h, n, k.addr);
    heap_view::lemma_region_end(h, n);
    assert((n + 1) * h.region == n * h.region + h.region) by (nonlinear_arith);
    if e is BagConflict {
        assert(k.fits(h));
        lemma_bag_address(h, k);
        lemma_bag_in_region(h, k);
        let (g, other) = choose|g: int, other: usize|
            {
                &&& #[trigger] conflict_at(h, log, k, g, other as int)
                &&& forall|f: int, o: int| f < g ==> !#[trigger] conflict_at(h, log, k, f, o)
                &&& e == Violation::BagConflict {
                    origin,
                    node,
                    class,
                    other,
                    granule: (g - k.node * h.region / BAG_SIZE as int) as usize,
                }
            };
        let x = choose|x: int| #[trigger] claims(h, log, x, g) && log[x].class == other;
        lemma_bag_address(h, log[x]);
        lemma_mark_bag(h, k);
        heap_view::lemma_region_aligned(h, n);
        heap_view::lemma_divides(h.lo(n), 262144, 32768);
        heap_view::lemma_divides(h.base, 262144, 32768);
        heap_view::lemma_multiples(h.lo(n), h.base, 32768);
        vstd::arithmetic::div_mod::lemma_fundamental_div_mod(n * h.region, 32768);
        assert(g - n * h.region / 32768 <= usize::MAX) by {
            assert(g * 32768 <= h.nodes * h.region);
        }
        assert(0 <= x < log.len() && log[x].class == other);
    }
    if e is Overlap {
        let x = choose|x: int| 0 <= x < log.len() && !(#[trigger] log[x]).agrees(k, h);
        assert(log[x].fits(h));
        if log[x].end() <= k.addr || k.end() <= log[x].addr {
            // Different classes with bags that overlap would have been found.
            lemma_mark_bag(h, k);
            lemma_mark_bag(h, log[x]);
            let g = if k.bag_from(h) < log[x].bag_from(h) {
                log[x].bag_from(h)
            } else {
                k.bag_from(h)
            };
            assert(claims(h, log, x, g));
            assert(conflict_at(h, log, k, g, log[x].class));
        }
    }
}

/// What is said to be wrong with a list of a thread is: it has more blocks than
/// its counter says, or fewer, or another last one; or its spare chain has more
/// than fit a region.
pub proof fn law_list_violations(
    th: &PerThreadHeap,
    h: HeapView,
    m: Map<int, u8>,
    log: Seq<Mark>,
    class: usize,
    list: Seq<usize>,
    s: Seq<usize>,
    e: Violation,
)
    requires
        class < 16,
        0 <= th@.node <= usize::MAX,
        class_fails(th, h, m, log, class, list, s, e),
    ensures
        ({
            let fl = th.list(class as int);
            match e {
                Violation::ListTooLong { class: c } => c == class && s.len() == fl.counted() + 1,
                Violation::CountMismatch { class: c } => c == class && list.len() != fl.counted(),
                Violation::TailMismatch { class: c } => c == class && list.len() == fl.counted()
                    && fl.last() != (if list.len() == 0 {
                    None
                } else {
                    Some(list[list.len() - 1])
                }),
                Violation::SpareCycle { class: c } => c == class && s.len() == h.region
                    / size_class::class_size(class as int) + 1,
                _ => exists|log2: Seq<Mark>, origin: Origin, addr: usize| #[trigger]
                    block_fails(h, log2, origin, th@.node as usize, class, addr, e),
            }
        }),
{
    let n = th@.node as usize;
    let c = class as int;
    let fl = th.list(c);
    if exists|f: ListFault|
        #[trigger] list_fails(
            h,
            m,
            log,
            Origin::ThreadCache,
            n,
            class,
            fl.first(),
            fl.counted() as int,
            s,
            f,
        ) && e == match f {
            ListFault::TooLong => Violation::ListTooLong { class },
            ListFault::Block(v) => v,
        } {
        let f = choose|f: ListFault|
            #[trigger] list_fails(
                h,
                m,
                log,
                Origin::ThreadCache,
                n,
                class,
                fl.first(),
                fl.counted() as int,
                s,
                f,
            ) && e == match f {
                ListFault::TooLong => Violation::ListTooLong { class },
                ListFault::Block(v) => v,
            };
        if let ListFault::Block(v) = f {
            let addr = next_after(m, fl.first(), s)->0;
            assert(block_fails(
                h,
                log + marks_of(n as int, c, s),
                Origin::ThreadCache,
                n,
                class,
                addr,
                e,
            ));
        }
    } else if !(e is CountMismatch) && !(e is TailMismatch) {
        let before = log + marks_of(th@.node, c, list);
        let limit = h.region / size_class::class_size(c);
        let f = choose|f: ListFault|
            #[trigger] list_fails(
                h,
                m,
                before,
                Origin::ThreadSpare,
                n,
                class,
                fl.first_parked(),
                limit,
                s,
                f,
            ) && e == match f {
                ListFault::TooLong => Violation::SpareCycle { class },
                ListFault::Block(v) => v,
            };
        if let ListFault::Block(v) = f {
            let addr = next_after(m, fl.first_parked(), s)->0;
            assert(block_fails(
                h,
                before + marks_of(n as int, c, s),
                Origin::ThreadSpare,
                n,
                class,
                addr,
                e,
            ));
        }
    }
}

/// What is said to be wrong with a cache is.
pub proof fn law_cache_violations(h: HeapView, page_size: int, cache: LargeCache, e: Violation)
    requires
        cache_fails(h, page_size, cache, e),
    ensures
        ({
            let s = cache@;
            match e {
                Violation::LargeCount => cache.slots() > 1024,
                Violation::LargeBytes => cache.accounted() > 536870912,
                Violation::LargeUnaligned { entry } => s[entry as int].original_ptr as int
                    % page_size != 0,
                Violation::LargeSize { entry } => s[entry as int].alloc_size as int % page_size
                    != 0,
                Violation::LargeZero { entry } => s[entry as int].alloc_size == 0,
                Violation::LargeOwned { entry } => h.base <= s[entry as int].original_ptr
                    && s[entry as int].original_ptr < h.base + h.nodes * h.region,
                Violation::LargeOverlap { entry, other } => other < entry
                    && s[entry as int].original_ptr < s[other as int].original_ptr
                    + s[other as int].alloc_size && s[other as int].original_ptr
                    < s[entry as int].original_ptr + s[entry as int].alloc_size,
                Violation::LargeAccounting => large_cache::total_bytes(s) != cache.accounted(),
                _ => false,
            }
        }),
{
    cache.lemma_view();
}

/// What is said to be wrong with the layout of a heap is.
pub proof fn law_layout_violations(heap: &GlobalHeap, node: usize, e: Violation)
    requires
        node < 8,
    ensures
        heap.region_fails(node, e) ==> match e {
            Violation::BumpOverflow { node: n } => n == node && heap.region(node as int).used()
                > heap.region(node as int).extent(),
            Violation::RegionBase { node: n } => n == node && heap.region(node as int).start()
                != heap@.base + node * heap@.region,
            _ => false,
        },
        heap.unused_fails(e) ==> (e matches Violation::UnusedRegion { node: n } && heap@.nodes <= n
            < 8 && heap.region(n as int).extent() != 0),
        heap.base_fails(e) && e == Violation::BaseUnaligned ==> heap@.base % 262144 != 0,
{
}

} // verus!
