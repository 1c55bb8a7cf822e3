//! What a heap holds, as mathematics: the regions, the bags carved from them,
//! and where objects of each class can lie.
use crate::freelist::{self, ADDRESS_LIMIT};
use crate::heap::{MAX_NODES, MIN_REGION_SIZE};
use crate::memory;
use crate::size_class::{self, BAG_SIZE, NUM_SIZE_CLASSES};
use vstd::prelude::*;

verus! {

/// `x` rounded up to a multiple of `unit`.
pub open spec fn align_up(x: int, unit: int) -> int {
    (x + unit - 1) - (x + unit - 1) % unit
}

/// Rounding up gives the multiple of `unit` in `[x, x + unit)`.
pub proof fn lemma_align_up(x: int, unit: int)
    requires
        unit > 0,
    ensures
        x <= align_up(x, unit) < x + unit,
        align_up(x, unit) % unit == 0,
{
    let y = x + unit - 1;
    vstd::arithmetic::div_mod::lemma_fundamental_div_mod(y, unit);
    vstd::arithmetic::div_mod::lemma_mod_bound(y, unit);
    assert(align_up(x, unit) == unit * (y / unit) + 0);
    vstd::arithmetic::div_mod::lemma_mod_multiples_vanish(y / unit, 0, unit);
    vstd::arithmetic::div_mod::lemma_small_mod(0, unit as nat);
}

/// The state of a heap: where its regions lie, how much of each was carved
/// and for which classes, and the free blocks on the per-node stacks.
#[verifier::ext_equal]
pub struct HeapView {
    /// First address of node 0's region.
    pub base: int,
    /// Bytes per region.
    pub region: int,
    /// Number of nodes in use.
    pub nodes: int,
    /// Bytes carved from each node's region.
    pub used: Seq<int>,
    /// Class that each granule of each node's region was carved for.
    pub owners: Seq<Map<int, int>>,
    /// Blocks on the stack of each node and class, top first.
    pub stacks: Seq<Seq<Seq<usize>>>,
}

impl HeapView {
    /// First address of node `n`'s region.
    pub open spec fn lo(self, n: int) -> int {
        self.base + n * self.region
    }

    /// `addr` lies in one of the regions.
    pub open spec fn owns(self, addr: int) -> bool {
        self.base <= addr < self.lo(self.nodes)
    }

    /// Node whose region an address of the heap lies in.
    pub open spec fn node_of(self, addr: int) -> int {
        (addr - self.base) / self.region
    }

    /// `a` is the address of an object of class `c` carved from node `n`'s
    /// region.
    pub open spec fn placed(self, n: int, c: int, a: usize) -> bool {
        &&& 0 <= n < self.nodes
        &&& 0 <= c < NUM_SIZE_CLASSES
        &&& self.lo(n) <= a
        &&& a - self.lo(n) + size_class::class_size(c) <= self.used[n]
        &&& a as int % size_class::class_size(c) == 0
        &&& self.owners[n].contains_pair((a - self.lo(n)) / BAG_SIZE as int, c)
    }

    /// All of `s` are objects of class `c` at node `n`.
    pub open spec fn all_placed(self, n: int, c: int, s: Seq<usize>) -> bool {
        forall|a: usize| #[trigger] s.contains(a) ==> self.placed(n, c, a)
    }

    /// The bag of class `c` that holds granule `g` of node `n` was carved for
    /// that class as a whole.
    pub open spec fn bag_owned(self, n: int, g: int, c: int) -> bool {
        let b = size_class::class_bag(c) / BAG_SIZE as int;
        let s = g - g % b;
        &&& 0 <= c < NUM_SIZE_CLASSES
        &&& 0 <= g
        &&& (s + b) * BAG_SIZE <= self.used[n]
        &&& forall|k: int| s <= k < s + b ==> #[trigger] self.owners[n].contains_pair(k, c)
    }

    /// Regions follow each other, aligned to the largest bag, inside the
    /// 48-bit address space.
    pub open spec fn shape_ok(self) -> bool {
        &&& 1 <= self.nodes <= MAX_NODES
        &&& 0 < self.base
        &&& self.base % MIN_REGION_SIZE as int == 0
        &&& 0 < self.region
        &&& self.region % MIN_REGION_SIZE as int == 0
        &&& self.lo(self.nodes) <= ADDRESS_LIMIT
        &&& self.lo(self.nodes) <= usize::MAX
        &&& self.used.len() == MAX_NODES
        &&& self.owners.len() == MAX_NODES
        &&& self.stacks.len() == MAX_NODES
        &&& forall|n: int|
            0 <= n < MAX_NODES ==> (#[trigger] self.stacks[n]).len() == NUM_SIZE_CLASSES
    }

    /// What was carved from node `n`'s region consists of whole granules, each
    /// part of a bag of one class.
    pub open spec fn node_ok(self, n: int) -> bool {
        &&& 0 <= self.used[n] <= self.region
        &&& self.used[n] % BAG_SIZE as int == 0
        &&& forall|g: int| #[trigger]
            self.owners[n].dom().contains(g) ==> self.bag_owned(n, g, self.owners[n][g])
    }

    /// The state of a heap that only the allocator has touched.
    pub open spec fn wf(self) -> bool {
        &&& self.shape_ok()
        &&& forall|n: int| 0 <= n < self.nodes ==> #[trigger] self.node_ok(n)
        &&& forall|n: int, c: int, a: usize|
            0 <= n < self.nodes && 0 <= c < NUM_SIZE_CLASSES && #[trigger] self.stacks[n][c].contains(
                a,
            ) ==> self.placed(n, c, a)
        &&& forall|n: int, c: int|
            0 <= n < self.nodes && 0 <= c < NUM_SIZE_CLASSES ==> (
            #[trigger] self.stacks[n][c]).no_duplicates()
        &&& forall|n: int, c: int|
            self.nodes <= n < MAX_NODES && 0 <= c < NUM_SIZE_CLASSES ==> (
            #[trigger] self.stacks[n][c]) == Seq::<usize>::empty()
    }

    /// The byte at `i` belongs to the link word of a block on a stack.
    pub open spec fn link_byte(self, i: int) -> bool {
        exists|n: int, c: int|
            0 <= n < self.nodes && 0 <= c < NUM_SIZE_CLASSES && freelist::in_links(
                #[trigger] self.stacks[n][c],
                i,
            )
    }

    /// The regions are mapped.
    pub open spec fn mapped(self, m: Map<int, u8>) -> bool {
        memory::range_mapped(m, self.base, self.nodes * self.region)
    }

    /// The heap with the stack of class `c` at node `n` replaced.
    pub open spec fn with_stack(self, n: int, c: int, s: Seq<usize>) -> HeapView {
        HeapView { stacks: self.stacks.update(n, self.stacks[n].update(c, s)), ..self }
    }

    /// Address of the next bag of class `c` at node `n`.
    pub open spec fn bag_at(self, n: int, c: int) -> int {
        align_up(self.lo(n) + self.used[n], size_class::class_bag(c))
    }

    /// Node `n` has room for another bag of class `c`.
    pub open spec fn can_carve(self, n: int, c: int) -> bool {
        self.bag_at(n, c) + size_class::class_bag(c) <= self.lo(n) + self.region
    }

    /// The heap after a bag of class `c` was carved at node `n`.
    pub open spec fn with_bag(self, n: int, c: int) -> HeapView {
        let from = self.bag_at(n, c) - self.lo(n);
        let to = from + size_class::class_bag(c);
        HeapView {
            used: self.used.update(n, to),
            owners: self.owners.update(
                n,
                self.owners[n].union_prefer_right(
                    Map::new(
                        |g: int| from / BAG_SIZE as int <= g < to / BAG_SIZE as int,
                        |g: int| c,
                    ),
                ),
            ),
            ..self
        }
    }
}

/// The objects of class `c` in the bag at `bag`, last one first.
pub open spec fn bag_blocks(bag: int, c: int) -> Seq<usize> {
    Seq::new(
        size_class::class_count(c) as nat,
        |i: int|
            (bag + (size_class::class_count(c) - 1 - i) * size_class::class_size(c)) as usize,
    )
}

/// A product divided by one factor is the other.
pub proof fn lemma_quotient(x: int, d: int, q: int)
    requires
        d > 0,
        x == q * d,
    ensures
        x / d == q,
        x % d == 0,
{
    vstd::arithmetic::div_mod::lemma_fundamental_div_mod_converse(x, d, q, 0);
}

/// Divisibility is transitive.
pub proof fn lemma_divides(x: int, y: int, z: int)
    requires
        y > 0,
        z > 0,
        x % y == 0,
        y % z == 0,
    ensures
        x % z == 0,
{
    vstd::arithmetic::div_mod::lemma_fundamental_div_mod(x, y);
    vstd::arithmetic::div_mod::lemma_fundamental_div_mod(y, z);
    let q = y / z;
    let p = x / y;
    assert(x == (q * p) * z) by (nonlinear_arith)
        requires
            x == y * p,
            y == z * q,
    ;
    lemma_quotient(x, z, q * p);
}

/// Sums and differences of multiples are multiples.
pub proof fn lemma_multiples(x: int, y: int, z: int)
    requires
        z > 0,
        x % z == 0,
        y % z == 0,
    ensures
        (x + y) % z == 0,
        (x - y) % z == 0,
{
    vstd::arithmetic::div_mod::lemma_fundamental_div_mod(x, z);
    vstd::arithmetic::div_mod::lemma_fundamental_div_mod(y, z);
    let p = x / z;
    let q = y / z;
    assert(x + y == (p + q) * z && x - y == (p - q) * z) by (nonlinear_arith)
        requires
            x == z * p,
            y == z * q,
    ;
    lemma_quotient(x + y, z, p + q);
    lemma_quotient(x - y, z, p - q);
}

/// Bag sizes and object counts follow from the class sizes.
pub proof fn lemma_bags(c: int)
    requires
        0 <= c < NUM_SIZE_CLASSES,
    ensures
        size_class::class_bag(c) == 32768 || size_class::class_bag(c) == 65536
            || size_class::class_bag(c) == 131072 || size_class::class_bag(c) == 262144,
        size_class::class_count(c) * size_class::class_size(c) == size_class::class_bag(c),
        1 <= size_class::class_count(c) <= 4096,
        8 <= size_class::class_size(c) <= size_class::class_bag(c),
        size_class::class_size(c) % 8 == 0,
        size_class::class_bag(c) % size_class::class_size(c) == 0,
        262144int % size_class::class_size(c) == 0,
{
    size_class::lemma_class_sizes();
    if c == 0 {
        lemma_quotient(size_class::class_bag(c), size_class::class_size(c), 4096);
        lemma_quotient(262144, size_class::class_size(c), 32768);
    } else if c == 1 {
        lemma_quotient(size_class::class_bag(c), size_class::class_size(c), 2048);
        lemma_quotient(262144, size_class::class_size(c), 16384);
    } else if c == 2 {
        lemma_quotient(size_class::class_bag(c), size_class::class_size(c), 1024);
        lemma_quotient(262144, size_class::class_size(c), 8192);
    } else if c == 3 {
        lemma_quotient(size_class::class_bag(c), size_class::class_size(c), 512);
        lemma_quotient(262144, size_class::class_size(c), 4096);
    } else if c == 4 {
        lemma_quotient(size_class::class_bag(c), size_class::class_size(c), 256);
        lemma_quotient(262144, size_class::class_size(c), 2048);
    } else if c == 5 {
        lemma_quotient(size_class::class_bag(c), size_class::class_size(c), 128);
        lemma_quotient(262144, size_class::class_size(c), 1024);
    } else if c == 6 {
        lemma_quotient(size_class::class_bag(c), size_class::class_size(c), 64);
        lemma_quotient(262144, size_class::class_size(c), 512);
    } else if c == 7 {
        lemma_quotient(size_class::class_bag(c), size_class::class_size(c), 32);
        lemma_quotient(262144, size_class::class_size(c), 256);
    } else if c == 8 {
        lemma_quotient(size_class::class_bag(c), size_class::class_size(c), 16);
        lemma_quotient(262144, size_class::class_size(c), 128);
    } else if c == 9 {
        lemma_quotient(size_class::class_bag(c), size_class::class_size(c), 8);
        lemma_quotient(262144, size_class::class_size(c), 64);
    } else if c == 10 {
        lemma_quotient(size_class::class_bag(c), size_class::class_size(c), 4);
        lemma_quotient(262144, size_class::class_size(c), 32);
    } else if c == 11 {
        lemma_quotient(size_class::class_bag(c), size_class::class_size(c), 2);
        lemma_quotient(262144, size_class::class_size(c), 16);
    } else if c == 12 {
        lemma_quotient(size_class::class_bag(c), size_class::class_size(c), 1);
        lemma_quotient(262144, size_class::class_size(c), 8);
    } else if c == 13 {
        lemma_quotient(size_class::class_bag(c), size_class::class_size(c), 1);
        lemma_quotient(262144, size_class::class_size(c), 4);
    } else if c == 14 {
        lemma_quotient(size_class::class_bag(c), size_class::class_size(c), 1);
        lemma_quotient(262144, size_class::class_size(c), 2);
    } else {
        lemma_quotient(size_class::class_bag(c), size_class::class_size(c), 1);
        lemma_quotient(262144, size_class::class_size(c), 1);
    }
}

/// The number of objects in a bag of each class, written out.
pub proof fn lemma_counts()
    ensures
        size_class::class_count(0) == 4096,
        size_class::class_count(1) == 2048,
        size_class::class_count(2) == 1024,
        size_class::class_count(3) == 512,
        size_class::class_count(4) == 256,
        size_class::class_count(5) == 128,
        size_class::class_count(6) == 64,
        size_class::class_count(7) == 32,
        size_class::class_count(8) == 16,
        size_class::class_count(9) == 8,
        size_class::class_count(10) == 4,
        size_class::class_count(11) == 2,
        size_class::class_count(12) == 1,
        size_class::class_count(13) == 1,
        size_class::class_count(14) == 1,
        size_class::class_count(15) == 1,
{
    size_class::lemma_class_sizes();
    lemma_quotient(size_class::class_bag(0), size_class::class_size(0), 4096);
    lemma_quotient(size_class::class_bag(1), size_class::class_size(1), 2048);
    lemma_quotient(size_class::class_bag(2), size_class::class_size(2), 1024);
    lemma_quotient(size_class::class_bag(3), size_class::class_size(3), 512);
    lemma_quotient(size_class::class_bag(4), size_class::class_size(4), 256);
    lemma_quotient(size_class::class_bag(5), size_class::class_size(5), 128);
    lemma_quotient(size_class::class_bag(6), size_class::class_size(6), 64);
    lemma_quotient(size_class::class_bag(7), size_class::class_size(7), 32);
    lemma_quotient(size_class::class_bag(8), size_class::class_size(8), 16);
    lemma_quotient(size_class::class_bag(9), size_class::class_size(9), 8);
    lemma_quotient(size_class::class_bag(10), size_class::class_size(10), 4);
    lemma_quotient(size_class::class_bag(11), size_class::class_size(11), 2);
    lemma_quotient(size_class::class_bag(12), size_class::class_size(12), 1);
    lemma_quotient(size_class::class_bag(13), size_class::class_size(13), 1);
    lemma_quotient(size_class::class_bag(14), size_class::class_size(14), 1);
    lemma_quotient(size_class::class_bag(15), size_class::class_size(15), 1);
}

/// Regions of different nodes do not overlap.
pub proof fn lemma_regions(h: HeapView, n: int, k: int)
    requires
        h.region > 0,
        n < k,
    ensures
        h.lo(n) + h.region <= h.lo(k),
{
    assert(n * h.region + h.region <= k * h.region) by (nonlinear_arith)
        requires
            h.region > 0,
            n < k,
    ;
}

/// Every region ends where the heap does or before.
pub proof fn lemma_region_end(h: HeapView, n: int)
    requires
        h.shape_ok(),
        0 <= n < h.nodes,
    ensures
        h.base <= h.lo(n),
        h.lo(n) + h.region <= h.lo(h.nodes),
{
    assert(n * h.region >= 0) by (nonlinear_arith)
        requires
            n >= 0,
            h.region > 0,
    ;
    lemma_regions(h, n, h.nodes);
}

/// Every region starts at a multiple of the largest bag.
pub proof fn lemma_region_aligned(h: HeapView, n: int)
    requires
        h.shape_ok(),
        0 <= n,
    ensures
        h.lo(n) % 262144 == 0,
    decreases n,
{
    if n > 0 {
        lemma_region_aligned(h, n - 1);
        assert(n * h.region == (n - 1) * h.region + h.region) by (nonlinear_arith);
    } else {
        assert(0 * h.region == 0);
    }
}

/// An address is an object of at most one node and class.
pub proof fn lemma_placed_unique(h: HeapView, n: int, c: int, k: int, d: int, a: usize)
    requires
        h.wf(),
        h.placed(n, c, a),
        h.placed(k, d, a),
    ensures
        n == k,
        c == d,
{
    size_class::lemma_class_sizes();
    assert(h.node_ok(n) && h.node_ok(k));
    if n < k {
        lemma_regions(h, n, k);
    }
    if k < n {
        lemma_regions(h, k, n);
    }
}

/// An object carved from a mapped heap can be a free block.
pub proof fn lemma_placed_block(h: HeapView, m: Map<int, u8>, n: int, c: int, a: usize)
    requires
        h.wf(),
        h.mapped(m),
        h.placed(n, c, a),
    ensures
        freelist::block_ok(m, a),
        h.base <= a,
        a + size_class::class_size(c) <= h.lo(n + 1) <= h.lo(h.nodes),
{
    size_class::lemma_class_sizes();
    assert(h.node_ok(n));
    assert(n * h.region >= 0) by (nonlinear_arith)
        requires
            n >= 0,
            h.region > 0,
    ;
    assert((n + 1) * h.region == n * h.region + h.region) by (nonlinear_arith);
    if n + 1 < h.nodes {
        lemma_regions(h, n + 1, h.nodes);
    }
    assert(a as int % 8 == 0) by {
        lemma_multiple_of_class(a as int, c);
    }
    assert forall|i: int| a <= i < a + 8 implies #[trigger] m.dom().contains(i) by {
        assert(h.base <= i < h.base + h.nodes * h.region);
    }
}

/// A multiple of a class size is a multiple of the word size.
pub proof fn lemma_multiple_of_class(a: int, c: int)
    requires
        0 <= c < NUM_SIZE_CLASSES,
        a % size_class::class_size(c) == 0,
    ensures
        a % 8 == 0,
{
    lemma_bags(c);
    lemma_divides(a, size_class::class_size(c), 8);
}

/// Every bag size divides the largest and is a multiple of the smallest.
pub proof fn lemma_bag_divides(c: int)
    requires
        0 <= c < NUM_SIZE_CLASSES,
    ensures
        262144int % size_class::class_bag(c) == 0,
        size_class::class_bag(c) % 32768 == 0,
        size_class::class_bag(c) / 32768 * 32768 == size_class::class_bag(c),
{
    let bag = size_class::class_bag(c);
    lemma_bags(c);
    if bag == 32768 {
        lemma_quotient(262144, bag, 8);
    } else if bag == 65536 {
        lemma_quotient(262144, bag, 4);
    } else if bag == 131072 {
        lemma_quotient(262144, bag, 2);
    } else {
        lemma_quotient(262144, bag, 1);
    }
}

/// Where the next bag lies: behind everything carved so far, aligned to its
/// size.
pub proof fn lemma_bag_at(h: HeapView, n: int, c: int)
    requires
        h.wf(),
        0 <= n < h.nodes,
        0 <= c < NUM_SIZE_CLASSES,
    ensures
        h.lo(n) + h.used[n] <= h.bag_at(n, c),
        h.bag_at(n, c) % size_class::class_bag(c) == 0,
        (h.bag_at(n, c) - h.lo(n)) % size_class::class_bag(c) == 0,
        (h.bag_at(n, c) - h.lo(n)) % 32768 == 0,
{
    let bag = size_class::class_bag(c);
    lemma_bags(c);
    lemma_align_up(h.lo(n) + h.used[n], bag);
    lemma_region_aligned(h, n);
    lemma_bag_divides(c);
    lemma_divides(h.lo(n), 262144, bag);
    lemma_multiples(h.bag_at(n, c), h.lo(n), bag);
    lemma_divides(h.bag_at(n, c) - h.lo(n), bag, 32768);
}

/// The granules of a bag start at a multiple of their number.
proof fn lemma_bag_granules(from: int, bag: int, g: int)
    requires
        bag == 32768 || bag == 65536 || bag == 131072 || bag == 262144,
        0 <= from,
        from % bag == 0,
        from / 32768 <= g < (from + bag) / 32768,
    ensures
        g - g % (bag / 32768) == from / 32768,
        (from / 32768 + bag / 32768) * 32768 == from + bag,
        (from + bag) / 32768 == from / 32768 + bag / 32768,
{
    let b = bag / 32768;
    let q = from / bag;
    assert(b > 0 && bag == 32768 * b);
    vstd::arithmetic::div_mod::lemma_fundamental_div_mod(from, bag);
    assert(from == (b * q) * 32768 && from + bag == (b * q + b) * 32768) by (nonlinear_arith)
        requires
            bag == 32768 * b,
            from == bag * q,
    ;
    lemma_quotient(from, 32768, b * q);
    lemma_quotient(from + bag, 32768, b * q + b);
    assert(b * q == q * b) by (nonlinear_arith);
    vstd::arithmetic::div_mod::lemma_fundamental_div_mod_converse(g, b, q, g - b * q);
}

/// Carving a bag keeps the heap well-formed and every object in its place.
pub proof fn lemma_carve(h: HeapView, n: int, c: int)
    requires
        h.wf(),
        0 <= n < h.nodes,
        0 <= c < NUM_SIZE_CLASSES,
        h.can_carve(n, c),
    ensures
        h.with_bag(n, c).wf(),
        forall|k: int, d: int, a: usize| #[trigger]
            h.placed(k, d, a) ==> h.with_bag(n, c).placed(k, d, a),
{
    let h2 = h.with_bag(n, c);
    let from = h.bag_at(n, c) - h.lo(n);
    let bag = size_class::class_bag(c);
    let to = from + bag;
    lemma_bags(c);
    lemma_bag_at(h, n, c);
    assert(h.node_ok(n));
    assert(h2.node_ok(n)) by {
        assert forall|g: int| #[trigger] h2.owners[n].dom().contains(g) implies h2.bag_owned(
            n,
            g,
            h2.owners[n][g],
        ) by {
            if from / 32768 <= g < to / 32768 {
                lemma_bag_granules(from, bag, g);
            } else {
                let d = h.owners[n][g];
                assert(h.owners[n].dom().contains(g));
                assert(h.bag_owned(n, g, d));
                lemma_bags(d);
                let b = size_class::class_bag(d) / 32768;
                let s = g - g % b;
                assert forall|k: int| s <= k < s + b implies #[trigger] h2.owners[n].contains_pair(
                    k,
                    d,
                ) by {
                    assert(h.owners[n].contains_pair(k, d));
                }
            }
        }
    }
    assert forall|k: int| 0 <= k < h2.nodes implies #[trigger] h2.node_ok(k) by {
        assert(h.node_ok(k));
        if k != n {
            assert forall|g: int| #[trigger] h2.owners[k].dom().contains(g) implies h2.bag_owned(
                k,
                g,
                h2.owners[k][g],
            ) by {
                assert(h.owners[k].dom().contains(g));
                let d = h.owners[k][g];
                assert(h.bag_owned(k, g, d));
                let b = size_class::class_bag(d) / 32768;
                let s = g - g % b;
                assert forall|j: int| s <= j < s + b implies #[trigger] h2.owners[k].contains_pair(
                    j,
                    d,
                ) by {
                    assert(h.owners[k].contains_pair(j, d));
                }
            }
        }
    }
    assert forall|k: int, d: int, a: usize| #[trigger] h.placed(k, d, a) implies h2.placed(
        k,
        d,
        a,
    ) by {
        assert(h.node_ok(k));
        lemma_bags(d);
        assert((a - h.lo(k)) / 32768 < from / 32768 || k != n);
    }
    assert forall|k: int, d: int, a: usize|
        0 <= k < h2.nodes && 0 <= d < NUM_SIZE_CLASSES && #[trigger] h2.stacks[k][d].contains(
            a,
        ) implies h2.placed(k, d, a) by {
        assert(h.stacks[k][d].contains(a));
    }
    assert forall|k: int, d: int|
        0 <= k < h2.nodes && 0 <= d < NUM_SIZE_CLASSES implies (
        #[trigger] h2.stacks[k][d]).no_duplicates() by {
        assert(h.stacks[k][d].no_duplicates());
    }
}

/// The objects of a new bag are distinct, in place, and were no objects
/// before.
pub proof fn lemma_carved_blocks(h: HeapView, n: int, c: int)
    requires
        h.wf(),
        0 <= n < h.nodes,
        0 <= c < NUM_SIZE_CLASSES,
        h.can_carve(n, c),
    ensures
        bag_blocks(h.bag_at(n, c), c).len() == size_class::class_count(c),
        bag_blocks(h.bag_at(n, c), c).no_duplicates(),
        forall|i: int|
            0 <= i < size_class::class_count(c) ==> #[trigger] bag_blocks(h.bag_at(n, c), c)[i]
                == h.bag_at(n, c) + (size_class::class_count(c) - 1 - i) * size_class::class_size(
                c,
            ),
        h.with_bag(n, c).all_placed(n, c, bag_blocks(h.bag_at(n, c), c)),
        forall|k: int, d: int, a: usize| #[trigger]
            h.placed(k, d, a) ==> !bag_blocks(h.bag_at(n, c), c).contains(a),
{
    let h2 = h.with_bag(n, c);
    let at = h.bag_at(n, c);
    let blocks = bag_blocks(at, c);
    let size = size_class::class_size(c);
    let count = size_class::class_count(c);
    let bag = size_class::class_bag(c);
    lemma_bags(c);
    lemma_bag_at(h, n, c);
    assert(h.node_ok(n));
    lemma_regions(h, n, n + 1);
    if n + 1 < h.nodes {
        lemma_regions(h, n + 1, h.nodes);
    }
    assert(h.base <= h.lo(n)) by (nonlinear_arith)
        requires
            n >= 0,
            h.region > 0,
            h.lo(n) == h.base + n * h.region,
    ;
    lemma_divides(at, bag, size);
    assert forall|i: int| 0 <= i < count implies {
        let a = #[trigger] blocks[i];
        &&& a == at + (count - 1 - i) * size
        &&& at <= a
        &&& a + size <= at + bag
        &&& a as int % size == 0
    } by {
        let j = count - 1 - i;
        assert(0 <= j * size && j * size + size <= count * size) by (nonlinear_arith)
            requires
                0 <= j < count,
                size > 0,
        ;
        lemma_quotient(j * size, size, j);
        lemma_multiples(at, j * size, size);
    }
    assert forall|i: int, j: int| 0 <= i < j < count implies #[trigger] blocks[i]
        != #[trigger] blocks[j] by {
        assert((count - 1 - i) * size > (count - 1 - j) * size) by (nonlinear_arith)
            requires
                i < j,
                size > 0,
        ;
    }
    assert forall|a: usize| #[trigger] blocks.contains(a) implies h2.placed(n, c, a) by {
        let i = choose|i: int| 0 <= i < blocks.len() && blocks[i] == a;
        let from = at - h.lo(n);
        assert(from / 32768 <= (a - h.lo(n)) / 32768 < (from + bag) / 32768);
    }
    assert forall|k: int, d: int, a: usize| #[trigger] h.placed(k, d, a) implies !blocks.contains(
        a,
    ) by {
        lemma_bags(d);
        assert(h.node_ok(k));
        if blocks.contains(a) {
            let i = choose|i: int| 0 <= i < blocks.len() && blocks[i] == a;
            if k < n {
                lemma_regions(h, k, n);
            }
            if n < k {
                lemma_regions(h, n, k);
            }
        }
    }
}

/// Distinct objects do not overlap.
pub proof fn lemma_placed_disjoint(
    h: HeapView,
    n: int,
    c: int,
    a: usize,
    k: int,
    d: int,
    b: usize,
)
    requires
        h.wf(),
        h.placed(n, c, a),
        h.placed(k, d, b),
        a != b,
    ensures
        a + size_class::class_size(c) <= b || b + size_class::class_size(d) <= a,
{
    lemma_bags(c);
    lemma_bags(d);
    assert(h.node_ok(n) && h.node_ok(k));
    if n < k {
        lemma_regions(h, n, k);
    } else if k < n {
        lemma_regions(h, k, n);
    } else if c == d {
        let size = size_class::class_size(c);
        vstd::arithmetic::div_mod::lemma_fundamental_div_mod(a as int, size);
        vstd::arithmetic::div_mod::lemma_fundamental_div_mod(b as int, size);
        let p = a as int / size;
        let q = b as int / size;
        assert(size * p + size <= size * q || size * q + size <= size * p) by (nonlinear_arith)
            requires
                p != q,
                size > 0,
        ;
    } else if a < b {
        lemma_granules_of(h, n, c, a, b as int);
    } else {
        lemma_granules_of(h, n, d, b, a as int);
    }
}

/// Every byte of an object lies in a granule of its class.
proof fn lemma_granules_of(h: HeapView, n: int, c: int, a: usize, x: int)
    requires
        h.wf(),
        h.placed(n, c, a),
        a <= x,
    ensures
        x < a + size_class::class_size(c) ==> h.owners[n].contains_pair(
            (x - h.lo(n)) / BAG_SIZE as int,
            c,
        ),
{
    let size = size_class::class_size(c);
    let off = a - h.lo(n);
    let g = off / 32768;
    lemma_bags(c);
    assert(h.node_ok(n));
    lemma_region_aligned(h, n);
    lemma_divides(h.lo(n), 262144, size);
    lemma_multiples(a as int, h.lo(n), size);
    assert(h.bag_owned(n, g, c));
    let b = size_class::class_bag(c) / 32768;
    if x < a + size {
        let y = (x - h.lo(n)) / 32768;
        if size >= 32768 {
            // One object fills its bag.
            size_class::lemma_class_sizes();
            assert(size_class::class_bag(c) == size);
            lemma_bag_granules(off, size, g);
            lemma_bag_granules(off, size, y);
        } else {
            size_class::lemma_class_sizes();
            lemma_small_object(off, c);
            assert(y == g);
        }
        assert(g - g % b <= y < g - g % b + b);
    }
}

/// An object smaller than a granule does not cross a granule boundary.
proof fn lemma_small_object(off: int, c: int)
    requires
        0 <= c < NUM_SIZE_CLASSES,
        0 <= off,
        off % size_class::class_size(c) == 0,
        size_class::class_size(c) <= 32768,
    ensures
        off / 32768 == (off + size_class::class_size(c) - 1) / 32768,
{
    let size = size_class::class_size(c);
    lemma_bags(c);
    size_class::lemma_class_sizes();
    vstd::arithmetic::div_mod::lemma_fundamental_div_mod(off, 32768);
    let r = off % 32768;
    lemma_divides(off - r, 32768, size);
    lemma_multiples(off, off - r, size);
    lemma_multiples(32768, r, size);
    // A multiple of `size` below 32768 is at most 32768 - size.
    let t = 32768 - r;
    if t < size {
        vstd::arithmetic::div_mod::lemma_small_mod(t as nat, size as nat);
    }
}

/// A heap stays well-formed when a stack is replaced by objects that are in
/// place.
pub proof fn lemma_with_stack(h: HeapView, n: int, c: int, s: Seq<usize>)
    requires
        h.wf(),
        0 <= n < h.nodes,
        0 <= c < NUM_SIZE_CLASSES,
        h.all_placed(n, c, s),
        s.no_duplicates(),
    ensures
        h.with_stack(n, c, s).wf(),
        forall|k: int, d: int, a: usize| #[trigger]
            h.with_stack(n, c, s).placed(k, d, a) == h.placed(k, d, a),
{
    let v = h.with_stack(n, c, s);
    assert forall|k: int| 0 <= k < v.nodes implies #[trigger] v.node_ok(k) by {
        assert(h.node_ok(k));
        assert forall|g: int| #[trigger] v.owners[k].dom().contains(g) implies v.bag_owned(
            k,
            g,
            v.owners[k][g],
        ) by {
            assert(h.bag_owned(k, g, h.owners[k][g]));
        }
    }
    assert forall|k: int, d: int, a: usize|
        0 <= k < v.nodes && 0 <= d < NUM_SIZE_CLASSES && #[trigger] v.stacks[k][d].contains(
            a,
        ) implies v.placed(k, d, a) by {
        if k == n && d == c {
            assert(s.contains(a));
        } else {
            assert(h.stacks[k][d].contains(a));
        }
    }
    assert forall|k: int, d: int|
        0 <= k < v.nodes && 0 <= d < NUM_SIZE_CLASSES implies (
        #[trigger] v.stacks[k][d]).no_duplicates() by {
        assert(h.stacks[k][d].no_duplicates());
    }
    assert forall|k: int, d: int|
        v.nodes <= k < MAX_NODES && 0 <= d < NUM_SIZE_CLASSES implies (#[trigger] v.stacks[k][d])
        == Seq::<usize>::empty() by {
        assert(h.stacks[k][d] == Seq::<usize>::empty());
    }
}

/// Replacing a stack by itself changes nothing.
pub proof fn lemma_same_stack(h: HeapView, n: int, c: int)
    requires
        h.shape_ok(),
        0 <= n < MAX_NODES,
        0 <= c < NUM_SIZE_CLASSES,
    ensures
        h.with_stack(n, c, h.stacks[n][c]) == h,
{
    assert(h.stacks[n].update(c, h.stacks[n][c]) =~= h.stacks[n]);
    assert(h.stacks.update(n, h.stacks[n]) =~= h.stacks);
}

/// Objects joined to objects are objects.
pub proof fn lemma_all_placed_concat(h: HeapView, n: int, c: int, s: Seq<usize>, t: Seq<usize>)
    requires
        h.all_placed(n, c, s),
        h.all_placed(n, c, t),
    ensures
        h.all_placed(n, c, s + t),
{
    assert forall|a: usize| #[trigger] (s + t).contains(a) implies h.placed(n, c, a) by {
        let i = choose|i: int| 0 <= i < (s + t).len() && (s + t)[i] == a;
        if i < s.len() {
            assert(s.contains(s[i]));
        } else {
            assert(t.contains(t[i - s.len()]));
        }
    }
}

/// No byte of an object that is on no stack belongs to a link word of one that
/// is.
pub proof fn lemma_not_link(h: HeapView, n: int, c: int, a: usize, i: int)
    requires
        h.wf(),
        h.placed(n, c, a),
        !h.stacks[n][c].contains(a),
        a <= i < a + size_class::class_size(c),
    ensures
        !h.link_byte(i),
{
    if h.link_byte(i) {
        let (k, d) = choose|k: int, d: int|
            0 <= k < h.nodes && 0 <= d < NUM_SIZE_CLASSES && freelist::in_links(
                #[trigger] h.stacks[k][d],
                i,
            );
        let s = h.stacks[k][d];
        let b = choose|b: usize| #[trigger] s.contains(b) && b <= i < b + 8;
        assert(h.stacks[k][d].contains(b));
        lemma_bags(d);
        if a == b {
            lemma_placed_unique(h, n, c, k, d, a);
        } else {
            lemma_placed_disjoint(h, n, c, a, k, d, b);
        }
    }
}

/// No byte outside the regions belongs to a link word of a block on a stack.
pub proof fn lemma_outside_not_link(h: HeapView, i: int)
    requires
        h.wf(),
        !h.owns(i),
    ensures
        !h.link_byte(i),
{
    if h.link_byte(i) {
        let (k, d) = choose|k: int, d: int|
            0 <= k < h.nodes && 0 <= d < NUM_SIZE_CLASSES && freelist::in_links(
                #[trigger] h.stacks[k][d],
                i,
            );
        let s = h.stacks[k][d];
        let b = choose|b: usize| #[trigger] s.contains(b) && b <= i < b + 8;
        assert(h.stacks[k][d].contains(b));
        lemma_placed_inside(h, k, d, b);
        lemma_bags(d);
    }
}

/// An object lies inside the regions.
pub proof fn lemma_placed_inside(h: HeapView, n: int, c: int, a: usize)
    requires
        h.wf(),
        h.placed(n, c, a),
    ensures
        h.base <= h.lo(n) <= a,
        a + size_class::class_size(c) <= h.lo(n) + h.region <= h.lo(h.nodes),
{
    assert(h.node_ok(n));
    lemma_region_end(h, n);
}

/// The node of an address is the one whose region holds it.
pub proof fn lemma_node_of(h: HeapView, n: int, addr: int)
    requires
        h.region > 0,
    ensures
        h.lo(n) <= addr < h.lo(n) + h.region <==> h.node_of(addr) == n,
{
    let off = addr - h.base;
    let r = h.region;
    let q = h.node_of(addr);
    vstd::arithmetic::div_mod::lemma_fundamental_div_mod(off, r);
    vstd::arithmetic::div_mod::lemma_mod_bound(off, r);
    assert(r * q == q * r) by (nonlinear_arith);
    if q < n {
        lemma_regions(h, q, n);
    }
    if n < q {
        lemma_regions(h, n, q);
    }
}

/// An object lies at the node of its address.
pub proof fn lemma_placed_node(h: HeapView, n: int, c: int, a: usize)
    requires
        h.wf(),
        h.placed(n, c, a),
    ensures
        h.node_of(a as int) == n,
        h.owns(a as int),
{
    lemma_placed_inside(h, n, c, a);
    lemma_bags(c);
    lemma_node_of(h, n, a as int);
}

/// An aligned object that starts in a granule of its class ends in what was
/// carved.
pub proof fn lemma_object_in_bag(h: HeapView, n: int, c: int, a: usize, g: int)
    requires
        h.wf(),
        0 <= n < h.nodes,
        0 <= c < NUM_SIZE_CLASSES,
        h.bag_owned(n, g, c),
        h.lo(n) <= a,
        a as int % size_class::class_size(c) == 0,
        g == (a - h.lo(n)) / BAG_SIZE as int,
    ensures
        a - h.lo(n) + size_class::class_size(c) <= h.used[n],
{
    let size = size_class::class_size(c);
    let off = a - h.lo(n);
    let b = size_class::class_bag(c) / 32768;
    lemma_bags(c);
    lemma_bag_divides(c);
    lemma_region_aligned(h, n);
    lemma_divides(h.lo(n), 262144, size);
    lemma_multiples(a as int, h.lo(n), size);
    vstd::arithmetic::div_mod::lemma_mod_bound(g, b);
    if size >= 32768 {
        size_class::lemma_class_sizes();
        assert(size_class::class_bag(c) == size);
        lemma_bag_granules(off, size, g);
    } else {
        size_class::lemma_class_sizes();
        lemma_small_object(off, c);
        assert(off + size <= (g + 1) * 32768);
    }
}

/// The bag that holds an offset starts at the granule that is a multiple of
/// the bag's number of granules.
pub proof fn lemma_start_granule(start: int, bag: int, off: int, g: int)
    requires
        bag == 32768 || bag == 65536 || bag == 131072 || bag == 262144,
        0 <= start <= off < start + bag,
        start % bag == 0,
        g == off / 32768,
    ensures
        g - g % (bag / 32768) == start / 32768,
{
    lemma_bag_granules_bound(start, bag, off);
    lemma_bag_granules(start, bag, g);
}

/// An offset inside a bag lies in one of its granules.
proof fn lemma_bag_granules_bound(start: int, bag: int, off: int)
    requires
        bag == 32768 || bag == 65536 || bag == 131072 || bag == 262144,
        0 <= start <= off < start + bag,
        start % bag == 0,
    ensures
        start / 32768 <= off / 32768 < (start + bag) / 32768,
{
    let b = bag / 32768;
    let q = start / bag;
    vstd::arithmetic::div_mod::lemma_fundamental_div_mod(start, bag);
    assert(start == (b * q) * 32768 && start + bag == (b * q + b) * 32768) by (nonlinear_arith)
        requires
            bag == 32768 * b,
            start == bag * q,
    ;
    lemma_quotient(start, 32768, b * q);
    lemma_quotient(start + bag, 32768, b * q + b);
}

} // verus!
