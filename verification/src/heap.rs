//! The global heap: one contiguous mapping split into per-node regions.
//!
//! A region hands out *bags* by bumping an offset; a bag is carved into the
//! objects of one size class.  Freed objects return to the stack of their
//! class at the node whose region they lie in.
use crate::freelist::{self, TreiberStack, ADDRESS_LIMIT};
use crate::heap_view::{self, HeapView};
use crate::memory::{self, Memory};
use crate::node_heap::PerNodeHeap;
use crate::size_class::{self, NUM_SIZE_CLASSES};
use crate::validate::Violation;
use vstd::prelude::*;

verus! {

/// Maximum number of NUMA nodes supported.
pub const MAX_NODES: usize = 8;

/// Default virtual-address reservation per node (128 MiB).
/// Only virtual address space is consumed upfront; physical pages are
/// demand-faulted by the kernel.
pub const DEFAULT_REGION_SIZE: usize = 134217728;

/// Every per-node region must hold at least one bag of the largest class.
pub const MIN_REGION_SIZE: usize = 262144;

// ---------------------------------------------------------------------------
// NodeRegion — per-node slice of the contiguous heap
// ---------------------------------------------------------------------------
/// A contiguous virtual-memory region bound to one NUMA node.
#[derive(Clone, Copy)]
pub struct NodeRegion {
    /// First address of this region; 1 for unused slots.
    base: usize,
    size: usize,
    /// Bytes handed out so far, counted from `base`.
    bump: usize,
    node_heap: PerNodeHeap,
    /// Class that each 32 KiB granule was carved for.
    owners: Ghost<Map<int, int>>,
}

impl NodeRegion {
    /// First address.
    pub closed spec fn start(&self) -> int {
        self.base as int
    }

    /// Length in bytes.
    pub closed spec fn extent(&self) -> int {
        self.size as int
    }

    /// Bytes handed out so far, counted from the first address.
    pub closed spec fn used(&self) -> int {
        self.bump as int
    }

    /// Class that each granule was carved for.
    pub closed spec fn owners(&self) -> Map<int, int> {
        self.owners@
    }

    /// The stack of class `c`.
    pub closed spec fn stack(&self, c: int) -> TreiberStack {
        self.node_heap.stack(c)
    }

    /// The region fits the address space and no more was handed out than it
    /// holds.
    pub open spec fn wf(&self) -> bool {
        &&& self.start() + self.extent() <= usize::MAX
        &&& self.used() <= self.extent()
    }

    /// A region with nothing handed out.
    pub fn new(base: usize, size: usize) -> (region: Self)
        ensures
            region.start() == base,
            region.extent() == size,
            region.used() == 0,
            region.owners() == Map::<int, int>::empty(),
            forall|c: int|
                0 <= c < NUM_SIZE_CLASSES ==> (#[trigger] region.stack(c)).history() == seq![
                    Seq::<usize>::empty(),
                ] && region.stack(c).word() == 0,
    {
        NodeRegion {
            base,
            size,
            bump: 0,
            node_heap: PerNodeHeap::new(),
            owners: Ghost(Map::empty()),
        }
    }

    /// The region of an unused node slot.
    pub fn empty() -> (region: Self)
        ensures
            region.start() == 1,
            region.extent() == 0,
            region.used() == 0,
            region.owners() == Map::<int, int>::empty(),
            forall|c: int|
                0 <= c < NUM_SIZE_CLASSES ==> (#[trigger] region.stack(c)).history() == seq![
                    Seq::<usize>::empty(),
                ] && region.stack(c).word() == 0,
    {
        Self::new(1, 0)
    }

    /// Offset of the bag of `bag_size` bytes that follows the first `offset`
    /// bytes: the first one whose address is a multiple of `bag_size`.
    pub open spec fn bag_after(&self, offset: int, bag_size: int) -> int {
        heap_view::align_up(self.start() + offset, bag_size) - self.start()
    }

    /// One attempt to bump-allocate a bag, given the offset that was read
    /// before.  Succeeds if nothing was handed out since.
    pub fn try_allocate_bag(&mut self, offset: usize, bag_size: usize) -> (attempt: BagAttempt)
        requires
            old(self).wf(),
            bag_size > 0,
        ensures
            attempt == (if old(self).bag_after(offset as int, bag_size as int) + bag_size > old(
                self,
            ).extent() {
                BagAttempt::Exhausted
            } else if offset != old(self).used() {
                BagAttempt::Retry
            } else {
                BagAttempt::Bag(
                    (old(self).start() + old(self).bag_after(
                        offset as int,
                        bag_size as int,
                    )) as usize,
                )
            }),
            attempt is Bag ==> final(self).used() == old(self).bag_after(
                offset as int,
                bag_size as int,
            ) + bag_size,
            !(attempt is Bag) ==> *final(self) == *old(self),
            final(self).wf(),
            final(self).start() == old(self).start(),
            final(self).extent() == old(self).extent(),
            final(self).owners() == old(self).owners(),
            forall|c: int| #[trigger] final(self).stack(c) == old(self).stack(c),
    {
        let mask: usize = bag_size - 1;
        proof {
            heap_view::lemma_align_up(self.base + offset, bag_size as int);
        }
        // The base of the region need not be aligned to a bag.  Align the
        // absolute address so every carved object meets its layout.
        let end: usize = match self.base.checked_add(offset) {
            Some(v) => v,
            None => return BagAttempt::Exhausted,
        };
        let padded: usize = match end.checked_add(mask) {
            Some(v) => v,
            None => return BagAttempt::Exhausted,
        };
        let address: usize = padded - padded % bag_size;
        let aligned: usize = address - self.base;
        let new_offset: usize = match aligned.checked_add(bag_size) {
            Some(v) => v,
            None => return BagAttempt::Exhausted,
        };
        if new_offset > self.size {
            return BagAttempt::Exhausted;
        }
        if self.bump != offset {
            return BagAttempt::Retry;
        }
        self.bump = new_offset;
        BagAttempt::Bag(address)
    }

    /// Bump-allocate a bag of the given `bag_size`.  The returned address is
    /// aligned to `bag_size` so that objects carved from it inherit the
    /// alignment.  Returns `None` on exhaustion.
    pub fn allocate_bag(&mut self, bag_size: usize) -> (bag: Option<usize>)
        requires
            old(self).wf(),
            bag_size > 0,
        ensures
            bag is Some <==> old(self).bag_after(old(self).used(), bag_size as int) + bag_size
                <= old(self).extent(),
            bag matches Some(addr) ==> {
                &&& addr == old(self).start() + old(self).bag_after(
                    old(self).used(),
                    bag_size as int,
                )
                &&& addr % bag_size == 0
                &&& final(self).used() == addr - old(self).start() + bag_size
            },
            bag is None ==> *final(self) == *old(self),
            final(self).wf(),
            final(self).start() == old(self).start(),
            final(self).extent() == old(self).extent(),
            final(self).owners() == old(self).owners(),
            forall|c: int| #[trigger] final(self).stack(c) == old(self).stack(c),
    {
        proof {
            heap_view::lemma_align_up(self.base + self.bump, bag_size as int);
        }
        let offset: usize = self.bump;
        match self.try_allocate_bag(offset, bag_size) {
            BagAttempt::Bag(address) => Some(address),
            _ => None,
        }
    }

    /// Bytes carved from this region so far.
    pub fn bump(&self) -> (n: usize)
        ensures
            n == self.used(),
    {
        self.bump
    }

    /// First address of this region.
    pub fn base(&self) -> (addr: usize)
        ensures
            addr == self.start(),
    {
        self.base
    }

    /// Length of this region in bytes.
    pub fn size(&self) -> (n: usize)
        ensures
            n == self.extent(),
    {
        self.size
    }

    /// The shared stack of a size class.
    pub fn freelist(&self, class_index: usize) -> (stack: &TreiberStack)
        requires
            class_index < NUM_SIZE_CLASSES,
        ensures
            *stack == self.stack(class_index as int),
    {
        self.node_heap.freelist(class_index)
    }
}

/// Outcome of one attempt to bump-allocate a bag.
#[derive(Clone, Copy, PartialEq, Eq, Structural, Debug)]
pub enum BagAttempt {
    /// The bag at this address was handed out.
    Bag(usize),
    /// Something else was handed out first.
    Retry,
    /// The region has no room left.
    Exhausted,
}

// ---------------------------------------------------------------------------
// GlobalHeap — the top-level heap owning the mapped region
// ---------------------------------------------------------------------------
/// Number of nodes for a requested number.
pub open spec fn heap_nodes(num_nodes: int) -> int {
    if num_nodes < 1 {
        1
    } else if num_nodes > MAX_NODES {
        MAX_NODES as int
    } else {
        num_nodes
    }
}

/// Most bytes per region: the largest multiple of [`MIN_REGION_SIZE`] for which
/// a heap of `nodes` nodes can be reserved in `isize::MAX` bytes.
pub open spec fn largest_region(nodes: int) -> int {
    (isize::MAX - MIN_REGION_SIZE) / (nodes * MIN_REGION_SIZE) * MIN_REGION_SIZE
}

/// Bytes per region for a requested topology: the requested size rounded up to
/// a multiple of [`MIN_REGION_SIZE`], and clamped so that the whole reservation
/// fits in `isize::MAX` bytes.
pub open spec fn heap_region(num_nodes: int, region_size: int) -> int {
    let rounded = heap_view::align_up(
        if region_size < MIN_REGION_SIZE {
            MIN_REGION_SIZE as int
        } else {
            region_size
        },
        MIN_REGION_SIZE as int,
    );
    let largest = largest_region(heap_nodes(num_nodes));
    if rounded <= largest {
        rounded
    } else {
        largest
    }
}

/// Bytes to map for a heap: all regions, and one alignment unit so that the
/// base can be aligned.
pub open spec fn heap_reserve(num_nodes: int, region_size: int) -> int {
    heap_nodes(num_nodes) * heap_region(num_nodes, region_size) + MIN_REGION_SIZE
}

/// The largest region holds a bag of every class and leaves the reservation in
/// `isize::MAX` bytes; one more unit per region would not.
pub proof fn lemma_largest_region(nodes: int)
    requires
        1 <= nodes <= MAX_NODES,
    ensures
        largest_region(nodes) % MIN_REGION_SIZE as int == 0,
        MIN_REGION_SIZE <= largest_region(nodes),
        nodes * largest_region(nodes) + MIN_REGION_SIZE <= isize::MAX,
        nodes * (largest_region(nodes) + MIN_REGION_SIZE) + MIN_REGION_SIZE > isize::MAX,
{
    let unit = nodes * MIN_REGION_SIZE;
    let room = isize::MAX - MIN_REGION_SIZE;
    let q = room / unit;
    assert(unit > 0) by (nonlinear_arith)
        requires
            nodes >= 1,
            unit == nodes * 262144,
    ;
    vstd::arithmetic::div_mod::lemma_fundamental_div_mod(room, unit);
    vstd::arithmetic::div_mod::lemma_mod_bound(room, unit);
    assert(nodes * (q * 262144) == unit * q && nodes * (q * 262144 + 262144) == unit * q + unit)
        by (nonlinear_arith)
        requires
            unit == nodes * 262144,
    ;
    assert(q >= 1) by (nonlinear_arith)
        requires
            room == unit * q + room % unit,
            room % unit < unit,
            room >= unit,
            unit > 0,
    ;
    heap_view::lemma_quotient(largest_region(nodes), 262144, q);
}

/// Regions are whole bags, and the reservation fits in `isize::MAX` bytes.
pub proof fn lemma_heap_region(num_nodes: int, region_size: int)
    ensures
        heap_region(num_nodes, region_size) % MIN_REGION_SIZE as int == 0,
        MIN_REGION_SIZE <= heap_region(num_nodes, region_size),
        heap_region(num_nodes, region_size) <= largest_region(heap_nodes(num_nodes)),
        0 <= heap_nodes(num_nodes) * heap_region(num_nodes, region_size),
        heap_reserve(num_nodes, region_size) <= isize::MAX,
{
    let n = heap_nodes(num_nodes);
    let r = heap_region(num_nodes, region_size);
    let l = largest_region(n);
    lemma_largest_region(n);
    heap_view::lemma_align_up(
        if region_size < MIN_REGION_SIZE {
            MIN_REGION_SIZE as int
        } else {
            region_size
        },
        MIN_REGION_SIZE as int,
    );
    assert(0 <= n * r <= n * l) by (nonlinear_arith)
        requires
            n >= 1,
            0 <= r <= l,
    ;
}

/// The dimensions of a heap that is about to be mapped.
#[derive(Clone, Copy, PartialEq, Eq, Structural, Debug)]
pub struct HeapPlan {
    pub num_nodes: usize,
    pub region_size: usize,
    pub total_size: usize,
    pub map_size: usize,
}

/// Global heap: one contiguous mapping split into per-node sub-regions.
pub struct GlobalHeap {
    /// First byte of node 0's region; aligned to [`MIN_REGION_SIZE`] so that
    /// bag placement (and therefore capacity) does not depend on where the
    /// kernel put the mapping.
    base: usize,
    total_size: usize,
    region_size: usize,
    num_nodes: usize,
    nodes: [NodeRegion; 8],
    /// The raw mapping that backs `base`.
    map_base: usize,
    map_size: usize,
}

impl View for GlobalHeap {
    type V = HeapView;

    closed spec fn view(&self) -> HeapView {
        HeapView {
            base: self.base as int,
            region: self.region_size as int,
            nodes: self.num_nodes as int,
            used: Seq::new(8, |n: int| self.nodes@[n].used()),
            owners: Seq::new(8, |n: int| self.nodes@[n].owners()),
            stacks: Seq::new(8, |n: int| Seq::new(16, |c: int| self.nodes@[n].stack(c)@)),
        }
    }
}

impl GlobalHeap {
    /// The stack of class `c` at node `n`.
    pub closed spec fn stack(&self, n: int, c: int) -> TreiberStack {
        self.nodes@[n].stack(c)
    }

    /// Region of node `n`.
    pub closed spec fn region(&self, n: int) -> NodeRegion {
        self.nodes@[n]
    }

    /// First address and length of the mapping behind the heap.
    pub closed spec fn mapping_spec(&self) -> (usize, usize) {
        (self.map_base, self.map_size)
    }

    /// The regions follow each other inside the mapping, and unused node slots
    /// have none.
    pub closed spec fn coherent(&self) -> bool {
        &&& self.sized()
        &&& self.total_size == self.num_nodes * self.region_size
        &&& self.map_base <= self.base
        &&& self.base + self.total_size <= self.map_base + self.map_size
        &&& forall|n: int|
            0 <= n < 8 ==> (#[trigger] self.nodes@[n]).wf() && if n < self.num_nodes {
                self.nodes@[n].start() == self@.lo(n) && self.nodes@[n].extent()
                    == self.region_size
            } else {
                self.nodes@[n].extent() == 0
            }
    }

    /// The heap is laid out as its view says, and the blocks on its stacks are
    /// linked in memory.
    pub open spec fn wf(&self, m: Map<int, u8>) -> bool {
        &&& self.coherent()
        &&& self@.wf()
        &&& self@.mapped(m)
        &&& forall|n: int, c: int|
            0 <= n < MAX_NODES && 0 <= c < NUM_SIZE_CLASSES ==> #[trigger] self.stack(n, c).wf(m)
    }

    /// The view shows the blocks on each stack and the state of each region.
    pub proof fn lemma_view(&self)
        ensures
            self@.stacks.len() == 8,
            forall|n: int, c: int|
                0 <= n < MAX_NODES && 0 <= c < NUM_SIZE_CLASSES ==> (#[trigger] self.stack(n, c))@
                    == self@.stacks[n][c],
            forall|n: int|
                0 <= n < MAX_NODES ==> (#[trigger] self.region(n)).used() == self@.used[n],
            forall|n: int, c: int|
                0 <= n < MAX_NODES ==> #[trigger] self.region(n).stack(c) == self.stack(n, c),
            self.coherent() ==> forall|n: int|
                0 <= n < self@.nodes ==> (#[trigger] self.region(n)).start() == self@.lo(n)
                    && self.region(n).extent() == self@.region,
            self.coherent() ==> forall|n: int|
                self@.nodes <= n < MAX_NODES ==> (#[trigger] self.region(n)).extent() == 0,
            self.sized() ==> self@.nodes <= MAX_NODES,
            self.sized() ==> forall|n: int|
                0 <= n < self@.nodes ==> (#[trigger] self.region(n)).extent() == self@.region,
            self.coherent() ==> self.sized(),
            self.coherent() ==> forall|n: int|
                0 <= n < MAX_NODES ==> (#[trigger] self.region(n)).wf(),
    {
    }

    /// The dimensions that a heap keeps from the start: regions of whole bags,
    /// in a mapping inside the 48-bit address space.
    pub closed spec fn sized(&self) -> bool {
        &&& 1 <= self.num_nodes <= MAX_NODES
        &&& 0 < self.region_size
        &&& self.region_size % MIN_REGION_SIZE == 0
        &&& self.num_nodes * self.region_size <= self.map_size
        &&& 0 < self.map_base
        &&& self.map_base + self.map_size <= ADDRESS_LIMIT
        &&& self.map_base + self.map_size <= usize::MAX
        &&& forall|n: int|
            0 <= n < 8 ==> if n < self.num_nodes {
                (#[trigger] self.nodes@[n]).extent() == self.region_size
            } else {
                self.nodes@[n].used() == 0
            }
    }

    /// Whether the total size is that of all regions.
    pub closed spec fn total_ok(&self) -> bool {
        self.total_size == self.num_nodes * self.region_size
    }

    /// Whether the base lies in the mapping with room for all regions.
    pub closed spec fn base_inside(&self) -> bool {
        self.map_base <= self.base && self.base + self.total_size <= self.map_base
            + self.map_size
    }

    /// Whether the region of node `n` starts where it belongs.
    pub open spec fn region_placed(&self, n: int) -> bool {
        self.region(n).start() == self@.lo(n)
    }

    /// Whether total size and base are as they should be.
    pub open spec fn base_ok(&self) -> bool {
        &&& self.total_ok()
        &&& self@.base % MIN_REGION_SIZE as int == 0
        &&& self.base_inside()
    }

    /// The heap has the right dimensions, total size and base.
    pub open spec fn based(&self) -> bool {
        self.sized() && self.base_ok()
    }

    /// Node `n` carves no more than it has, from a region that is where it
    /// belongs.
    pub open spec fn region_ok(&self, n: int) -> bool {
        self.region(n).used() <= self.region(n).extent() && self.region_placed(n)
    }

    /// The regions of the first `n` nodes are as they should be.
    pub open spec fn nodes_ok(&self, n: int) -> bool {
        forall|k: int| 0 <= k < n ==> #[trigger] self.region_ok(k)
    }

    /// Whether base, regions and bump offsets agree with each other, and unused
    /// node slots have no regions.
    pub open spec fn layout_ok(&self) -> bool {
        &&& self.base_ok()
        &&& self.nodes_ok(self@.nodes)
        &&& forall|n: int|
            self@.nodes <= n < MAX_NODES ==> (#[trigger] self.region(n)).extent() == 0
    }

    /// The first check of [`GlobalHeap::check_base`] that fails gives `e`.
    pub open spec fn base_fails(&self, e: Violation) -> bool {
        if !self.total_ok() {
            e == Violation::TotalSize
        } else if self@.base % MIN_REGION_SIZE as int != 0 {
            e == Violation::BaseUnaligned
        } else {
            !self.base_inside() && e == Violation::BaseOutsideMapping
        }
    }

    /// The first check of [`GlobalHeap::check_region`] that fails gives `e`.
    pub open spec fn region_fails(&self, node: usize, e: Violation) -> bool {
        if self.region(node as int).used() > self.region(node as int).extent() {
            e == Violation::BumpOverflow { node }
        } else {
            !self.region_placed(node as int) && e == Violation::RegionBase { node }
        }
    }

    /// The first unused node slot that has a region gives `e`.
    pub open spec fn unused_fails(&self, e: Violation) -> bool {
        e matches Violation::UnusedRegion { node } && self@.nodes <= node < MAX_NODES
            && self.region(node as int).extent() != 0 && forall|k: int|
            self@.nodes <= k < node ==> (#[trigger] self.region(k)).extent() == 0
    }

    /// A heap of the right dimensions whose layout checks out is laid out as
    /// its view says, and the other way round.
    pub proof fn lemma_layout(&self)
        ensures
            self.sized() && self.layout_ok() ==> self.coherent() && self@.shape_ok(),
            self.coherent() ==> self.sized(),
            self.coherent() && self@.shape_ok() ==> self.layout_ok() && self.based(),
            self.based() ==> self@.shape_ok(),
            self.sized() ==> self@.region % 262144 == 0 && 0 < self@.region && 1 <= self@.nodes
                <= MAX_NODES && 0 <= self@.nodes * self@.region <= usize::MAX,
    {
        if self.sized() && self.layout_ok() {
            assert forall|n: int| 0 <= n < 8 implies (#[trigger] self.nodes@[n]).wf() && if n
                < self.num_nodes {
                self.nodes@[n].start() == self@.lo(n) && self.nodes@[n].extent()
                    == self.region_size
            } else {
                self.nodes@[n].extent() == 0
            } by {
                assert(self.region(n) == self.nodes@[n]);
                if n < self.num_nodes {
                    assert(self.region_ok(n));
                    heap_view::lemma_regions(self@, n, self.num_nodes as int);
                }
            }
        }
        if self.coherent() && self@.shape_ok() {
            assert forall|n: int| 0 <= n < self@.nodes implies #[trigger] self.region_ok(n) by {
                assert(self.nodes@[n].wf());
            }
            assert forall|n: int| self@.nodes <= n < MAX_NODES implies (#[trigger] self.region(
                n,
            )).extent() == 0 by {
                assert(self.nodes@[n].wf());
            }
        }
    }

    /// Check total size and base.
    pub fn check_base(&self) -> (r: Result<(), Violation>)
        requires
            self.sized(),
        ensures
            r is Ok <==> self.base_ok(),
            r matches Err(e) ==> self.base_fails(e),
    {
        let total: usize = self.num_nodes * self.region_size;
        if self.total_size != total {
            return Err(Violation::TotalSize);
        }
        if self.base % MIN_REGION_SIZE != 0 {
            return Err(Violation::BaseUnaligned);
        }
        if self.base < self.map_base || self.base - self.map_base > self.map_size - total {
            return Err(Violation::BaseOutsideMapping);
        }
        Ok(())
    }

    /// Check bump offset and base of a node's region.
    pub fn check_region(&self, node: usize) -> (r: Result<(), Violation>)
        requires
            self.based(),
            node < self@.nodes,
        ensures
            r is Ok <==> self.region_ok(node as int),
            r matches Err(e) ==> self.region_fails(node, e),
    {
        let region = &self.nodes[node];
        assert(*region == self.region(node as int));
        if region.bump() > region.size() {
            return Err(Violation::BumpOverflow { node });
        }
        proof {
            heap_view::lemma_regions(self@, node as int, self.num_nodes as int);
            assert(node * self.region_size >= 0) by (nonlinear_arith);
        }
        if region.base() != self.base + node * self.region_size {
            return Err(Violation::RegionBase { node });
        }
        Ok(())
    }

    /// Check that unused node slots have no regions.
    pub fn check_unused(&self) -> (r: Result<(), Violation>)
        requires
            self.sized(),
        ensures
            r is Ok <==> forall|n: int|
                self@.nodes <= n < MAX_NODES ==> (#[trigger] self.region(n)).extent() == 0,
            r matches Err(e) ==> self.unused_fails(e),
    {
        let mut node: usize = self.num_nodes;
        while node < MAX_NODES
            invariant
                self.num_nodes <= node <= 8,
                forall|n: int|
                    self.num_nodes <= n < node ==> (#[trigger] self.region(n)).extent() == 0,
            decreases MAX_NODES - node,
        {
            let region = &self.nodes[node];
            assert(*region == self.region(node as int));
            if region.size() != 0 {
                return Err(Violation::UnusedRegion { node });
            }
            node += 1;
        }
        Ok(())
    }

    /// Dimensions of the heap for a requested topology: `num_nodes` is clamped
    /// to `1..=MAX_NODES`, and `region_size` rounded up to a multiple of
    /// [`MIN_REGION_SIZE`] and clamped so that the whole reservation fits in
    /// `isize::MAX` bytes.
    pub fn plan(num_nodes: usize, region_size: usize) -> (plan: HeapPlan)
        ensures
            plan.num_nodes == heap_nodes(num_nodes as int),
            plan.region_size == heap_region(num_nodes as int, region_size as int),
            plan.total_size == plan.num_nodes * plan.region_size,
            plan.map_size == heap_reserve(num_nodes as int, region_size as int),
            plan.map_size <= isize::MAX,
    {
        let nodes: usize = if num_nodes < 1 {
            1
        } else if num_nodes > MAX_NODES {
            MAX_NODES
        } else {
            num_nodes
        };
        let wanted: usize = if region_size < MIN_REGION_SIZE {
            MIN_REGION_SIZE
        } else {
            region_size
        };
        proof {
            heap_view::lemma_align_up(wanted as int, MIN_REGION_SIZE as int);
            lemma_largest_region(nodes as int);
            lemma_heap_region(num_nodes as int, region_size as int);
            let l = largest_region(nodes as int);
            assert(l <= nodes * l) by (nonlinear_arith)
                requires
                    nodes >= 1,
                    l >= 0,
            ;
        }
        let largest: usize = (isize::MAX as usize - MIN_REGION_SIZE) / (nodes * MIN_REGION_SIZE)
            * MIN_REGION_SIZE;
        let region: usize = if wanted > largest {
            largest
        } else {
            let padded: usize = wanted + (MIN_REGION_SIZE - 1);
            padded - padded % MIN_REGION_SIZE
        };
        // Over-map by one alignment unit so the base can be aligned up.
        let total: usize = nodes * region;
        let map: usize = total + MIN_REGION_SIZE;
        HeapPlan { num_nodes: nodes, region_size: region, total_size: total, map_size: map }
    }

    /// Initialise the global heap on a mapping of
    /// [`GlobalHeap::plan`]`().map_size` bytes at `map_base` (`None` if the
    /// system had none to give).
    pub fn new(num_nodes: usize, region_size: usize, map_base: Option<usize>) -> (heap: Option<
        Self,
    >)
        requires
            map_base matches Some(raw) ==> 0 < raw && raw + heap_reserve(
                num_nodes as int,
                region_size as int,
            ) <= ADDRESS_LIMIT && raw + heap_reserve(num_nodes as int, region_size as int)
                <= usize::MAX,
        ensures
            heap is Some <==> map_base is Some,
            heap matches Some(h) ==> {
                &&& h@ == fresh_heap(map_base->0 as int, num_nodes as int, region_size as int)
                &&& h.mapping_spec() == (
                    map_base->0,
                    heap_reserve(num_nodes as int, region_size as int) as usize,
                )
                &&& h.coherent()
                &&& h@.wf()
                &&& forall|m: Map<int, u8>| #[trigger] h@.mapped(m) ==> h.wf(m)
            },
    {
        let raw: usize = match map_base {
            Some(v) => v,
            None => return None,
        };
        let plan = Self::plan(num_nodes, region_size);
        let region: usize = plan.region_size;
        let count: usize = plan.num_nodes;
        let padded: usize = raw + (MIN_REGION_SIZE - 1);
        let base: usize = padded - padded % MIN_REGION_SIZE;
        let ghost v = fresh_heap(raw as int, num_nodes as int, region_size as int);
        proof {
            heap_view::lemma_align_up(raw as int, MIN_REGION_SIZE as int);
            lemma_heap_region(num_nodes as int, region_size as int);
        }
        let mut nodes: [NodeRegion; 8] = [NodeRegion::empty();8];
        let mut i: usize = 0;
        while i < count
            invariant
                i <= count <= 8,
                v.base == base,
                v.region == region,
                v.nodes == count,
                v.lo(count as int) <= usize::MAX,
                forall|n: int|
                    0 <= n < 8 ==> {
                        let r = #[trigger] nodes@[n];
                        &&& r.wf()
                        &&& r.used() == 0
                        &&& r.owners() == Map::<int, int>::empty()
                        &&& if n < i {
                            r.start() == v.lo(n) && r.extent() == region
                        } else {
                            r.extent() == 0
                        }
                        &&& forall|c: int|
                            0 <= c < NUM_SIZE_CLASSES ==> (#[trigger] r.stack(c)).history() == seq![
                                Seq::<usize>::empty(),
                            ] && r.stack(c).word() == 0
                    },
            decreases count - i,
        {
            proof {
                assert(0 <= i * region && i * region + region <= count * region) by (nonlinear_arith)
                    requires
                        0 <= i < count,
                        region >= 0,
                ;
            }
            nodes[i] = NodeRegion::new(base + i * region, region);
            i += 1;
        }
        let heap = GlobalHeap {
            base,
            total_size: plan.total_size,
            region_size: region,
            num_nodes: count,
            nodes,
            map_base: raw,
            map_size: plan.map_size,
        };
        proof {
            assert forall|n: int, c: int| 0 <= n < MAX_NODES && 0 <= c < NUM_SIZE_CLASSES implies (
            #[trigger] heap.stack(n, c))@ == Seq::<usize>::empty() by {
                assert(heap.nodes@[n].stack(c).history() == seq![Seq::<usize>::empty()]);
            }
            assert(heap@.used =~= v.used);
            assert(heap@.owners =~= v.owners);
            assert forall|n: int| 0 <= n < 8 implies #[trigger] heap@.stacks[n] == v.stacks[n] by {
                assert forall|c: int| 0 <= c < 16 implies heap@.stacks[n][c] == v.stacks[n][c] by {
                    assert(heap.stack(n, c)@ == Seq::<usize>::empty());
                }
                assert(heap@.stacks[n] =~= v.stacks[n]);
            }
            assert(heap@.stacks =~= v.stacks);
            assert(heap@.wf()) by {
                assert forall|n: int| 0 <= n < heap@.nodes implies #[trigger] heap@.node_ok(n) by {}
            }
        }
        Some(heap)
    }
}

impl GlobalHeap {
    /// Determine which NUMA node owns `ptr`.  Returns `None` if the address
    /// falls outside the heap.
    pub fn node_for_ptr(&self, ptr: usize) -> (node: Option<usize>)
        requires
            self.based(),
        ensures
            node is Some <==> self@.owns(ptr as int),
            node matches Some(n) ==> n == self@.node_of(ptr as int) && n < self@.nodes && self@.lo(
                n as int,
            ) <= ptr < self@.lo(n + 1),
    {
        let offset: usize = ptr.wrapping_sub(self.base);
        if offset >= self.total_size {
            return None;
        }
        proof {
            let off = offset as int;
            let r = self.region_size as int;
            let q = off / r;
            vstd::arithmetic::div_mod::lemma_fundamental_div_mod(off, r);
            assert(q * r <= off < (q + 1) * r && 0 <= q < self.num_nodes) by (nonlinear_arith)
                requires
                    r > 0,
                    off == r * q + off % r,
                    0 <= off % r < r,
                    0 <= off < self.num_nodes * r,
            ;
        }
        Some(offset / self.region_size)
    }

    /// Check whether `ptr` belongs to this heap's region.
    pub fn is_owned(&self, ptr: usize) -> (owned: bool)
        requires
            self.based(),
        ensures
            owned == self@.owns(ptr as int),
    {
        self.node_for_ptr(ptr).is_some()
    }

    /// The region of a node.
    pub fn node_region(&self, node: usize) -> (region: &NodeRegion)
        requires
            node < MAX_NODES,
        ensures
            *region == self.region(node as int),
    {
        &self.nodes[node]
    }

    /// Number of nodes.
    pub fn num_nodes(&self) -> (n: usize)
        ensures
            n == self@.nodes,
    {
        self.num_nodes
    }

    /// Bytes per node.
    pub fn region_size(&self) -> (n: usize)
        ensures
            n == self@.region,
    {
        self.region_size
    }

    /// First address of node 0's region.
    pub fn base(&self) -> (addr: usize)
        ensures
            addr == self@.base,
    {
        self.base
    }

    /// First address and length of the mapping behind the heap, to be unmapped
    /// when the heap is no longer used.
    pub fn mapping(&self) -> (r: (usize, usize))
        ensures
            r == self.mapping_spec(),
    {
        (self.map_base, self.map_size)
    }

    /// Changes of the links of objects of one node and class leave the stacks
    /// of all others as they are.
    pub proof fn lemma_stacks_kept(
        &self,
        m: Map<int, u8>,
        m2: Map<int, u8>,
        n: int,
        c: int,
        s: Seq<usize>,
    )
        requires
            self.wf(m),
            freelist::links_only(m, m2, s),
            self@.all_placed(n, c, s),
        ensures
            self@.mapped(m2),
            forall|k: int, d: int|
                0 <= k < MAX_NODES && 0 <= d < NUM_SIZE_CLASSES && (k != n || d != c)
                    ==> #[trigger] self.stack(k, d).wf(m2),
            freelist::apart(s, self@.stacks[n][c]) && 0 <= n < MAX_NODES && 0 <= c
                < NUM_SIZE_CLASSES ==> self.wf(m2),
    {
        self.lemma_view();
        assert forall|a: usize| #[trigger] s.contains(a) implies freelist::block_ok(m, a) by {
            heap_view::lemma_placed_block(self@, m, n, c, a);
        }
        assert forall|k: int, d: int|
            0 <= k < MAX_NODES && 0 <= d < NUM_SIZE_CLASSES && (k != n || d != c
                || freelist::apart(s, self@.stacks[n][c])) implies #[trigger] self.stack(k, d).wf(
            m2,
        ) by {
            let t = self.stack(k, d);
            assert(t.wf(m));
            assert(t@ == self@.stacks[k][d]);
            assert(freelist::apart(s, t@)) by {
                assert forall|a: usize| s.contains(a) implies !(#[trigger] t@.contains(a)) by {
                    if t@.contains(a) && (k != n || d != c) {
                        if k < self@.nodes {
                            assert(self@.stacks[k][d].contains(a));
                            heap_view::lemma_placed_unique(self@, n, c, k, d, a);
                        } else {
                            assert(self@.stacks[k][d] == Seq::<usize>::empty());
                        }
                    }
                }
            }
            freelist::lemma_links_chain(m, m2, s, t@);
        }
    }

    /// The heap is kept by memory that agrees on the links of its stacks.
    pub proof fn lemma_frame(&self, m: Map<int, u8>, m2: Map<int, u8>)
        requires
            self.wf(m),
            self@.mapped(m2),
            forall|i: int| self@.link_byte(i) ==> #[trigger] m2[i] == m[i],
        ensures
            self.wf(m2),
    {
        self.lemma_view();
        assert forall|n: int, c: int|
            0 <= n < MAX_NODES && 0 <= c < NUM_SIZE_CLASSES implies #[trigger] self.stack(n, c).wf(
            m2,
        ) by {
            let s = self@.stacks[n][c];
            assert(self.stack(n, c).wf(m));
            assert forall|a: usize| #[trigger] s.contains(a) implies memory::agree(
                m,
                m2,
                a as int,
                8,
            ) && memory::range_mapped(m2, a as int, 8) by {
                assert(n < self@.nodes) by {
                    if n >= self@.nodes {
                        assert(self@.stacks[n][c] == Seq::<usize>::empty());
                    }
                }
                assert(self@.stacks[n][c].contains(a));
                heap_view::lemma_placed_block(self@, m2, n, c, a);
                assert forall|i: int| a <= i < a + 8 implies #[trigger] m2[i] == m[i] by {
                    assert(freelist::in_links(self@.stacks[n][c], i));
                    assert(self@.link_byte(i));
                }
            }
            freelist::lemma_chain_agree(m, m2, s);
        }
    }

    /// Push a freed object onto the stack of its node and class.
    pub fn push_block<M: Memory>(
        &mut self,
        mem: &mut M,
        node: usize,
        class_index: usize,
        block: usize,
    )
        requires
            old(self).wf(old(mem)@),
            old(self)@.placed(node as int, class_index as int, block),
            !old(self)@.stacks[node as int][class_index as int].contains(block),
        ensures
            final(self)@ == old(self)@.with_stack(
                node as int,
                class_index as int,
                seq![block] + old(self)@.stacks[node as int][class_index as int],
            ),
            final(mem)@ == memory::put_word(
                old(mem)@,
                block as int,
                freelist::link_word(
                    freelist::head_of(old(self)@.stacks[node as int][class_index as int]),
                ),
            ),
            final(self).mapping_spec() == old(self).mapping_spec(),
            final(self).wf(final(mem)@),
    {
        let ghost n = node as int;
        let ghost c = class_index as int;
        let ghost pushed = seq![block] + self@.stacks[n][c];
        proof {
            self.lemma_view();
            heap_view::lemma_placed_block(self@, mem@, n, c, block);
            assert(self.stack(n, c).wf(mem@));
            let w = freelist::link_word(freelist::head_of(self@.stacks[n][c]));
            let m2 = memory::put_word(mem@, block as int, w);
            assert(seq![block][0] == block);
            freelist::lemma_links_put(mem@, block, w, seq![block]);
            self.lemma_stacks_kept(mem@, m2, n, c, seq![block]);
        }
        self.nodes[node].node_heap.freelist_mut(class_index).push(mem, block);
        proof {
            assert(old(self)@.all_placed(n, c, pushed)) by {
                heap_view::lemma_all_placed_concat(
                    old(self)@,
                    n,
                    c,
                    seq![block],
                    old(self)@.stacks[n][c],
                );
            }
            self.lemma_restacked(old(self), n, c, pushed);
        }
    }

    /// Push the objects from `first` through `last` onto the stack of their
    /// node and class.
    pub fn push_blocks<M: Memory>(
        &mut self,
        mem: &mut M,
        node: usize,
        class_index: usize,
        first: usize,
        last: usize,
    )
        requires
            old(self).wf(old(mem)@),
            node < old(self)@.nodes,
            class_index < NUM_SIZE_CLASSES,
            exists|s: Seq<usize>|
                freelist::segment(old(mem)@, s, first, last) && #[trigger] old(self)@.all_placed(
                    node as int,
                    class_index as int,
                    s,
                ) && freelist::apart(s, old(self)@.stacks[node as int][class_index as int]),
        ensures
            forall|s: Seq<usize>| #[trigger]
                freelist::segment(old(mem)@, s, first, last) ==> final(self)@ == old(
                    self,
                )@.with_stack(
                    node as int,
                    class_index as int,
                    s + old(self)@.stacks[node as int][class_index as int],
                ),
            final(mem)@ == memory::put_word(
                old(mem)@,
                last as int,
                freelist::link_word(
                    freelist::head_of(old(self)@.stacks[node as int][class_index as int]),
                ),
            ),
            final(self).mapping_spec() == old(self).mapping_spec(),
            final(self).wf(final(mem)@),
    {
        let ghost n = node as int;
        let ghost c = class_index as int;
        let ghost s = choose|s: Seq<usize>|
            freelist::segment(old(mem)@, s, first, last) && #[trigger] old(self)@.all_placed(
                n,
                c,
                s,
            ) && freelist::apart(s, old(self)@.stacks[n][c]);
        proof {
            self.lemma_view();
            assert(s.contains(s[s.len() - 1]));
            assert(self.stack(n, c).wf(mem@));
            let w = freelist::link_word(freelist::head_of(self@.stacks[n][c]));
            let m2 = memory::put_word(mem@, last as int, w);
            assert(freelist::block_ok(mem@, s[s.len() - 1]));
            freelist::lemma_links_put(mem@, last, w, s);
            self.lemma_stacks_kept(mem@, m2, n, c, s);
        }
        self.nodes[node].node_heap.freelist_mut(class_index).push_chain(mem, first, last);
        proof {
            heap_view::lemma_all_placed_concat(old(self)@, n, c, s, old(self)@.stacks[n][c]);
            self.lemma_restacked(old(self), n, c, s + old(self)@.stacks[n][c]);
            assert forall|t: Seq<usize>| #[trigger]
                freelist::segment(old(mem)@, t, first, last) implies t == s by {
                freelist::lemma_segment_unique(old(mem)@, s, t, first, last);
            }
        }
    }

    /// Detach every object from the stack of a node and class.  Returns the
    /// first; the detached objects stay linked to each other.
    pub fn take_blocks(&mut self, node: usize, class_index: usize) -> (first: Option<usize>)
        requires
            exists|m: Map<int, u8>| old(self).wf(m),
            node < old(self)@.nodes,
            class_index < NUM_SIZE_CLASSES,
        ensures
            first == freelist::head_of(old(self)@.stacks[node as int][class_index as int]),
            final(self)@ == old(self)@.with_stack(node as int, class_index as int, Seq::empty()),
            final(self).mapping_spec() == old(self).mapping_spec(),
            forall|m: Map<int, u8>| #[trigger] old(self).wf(m) ==> final(self).wf(m),
    {
        let ghost n = node as int;
        let ghost c = class_index as int;
        proof {
            let m = choose|m: Map<int, u8>| old(self).wf(m);
            self.lemma_view();
            assert(self.stack(n, c).wf(m));
        }
        let first = self.nodes[node].node_heap.freelist_mut(class_index).take_all();
        proof {
            self.lemma_restacked(old(self), n, c, Seq::empty());
            assert forall|m: Map<int, u8>| #[trigger] old(self).wf(m) implies self.wf(m) by {
                assert forall|k: int, d: int|
                    0 <= k < MAX_NODES && 0 <= d < NUM_SIZE_CLASSES implies #[trigger] self.stack(
                    k,
                    d,
                ).wf(m) by {
                    assert(old(self).stack(k, d).wf(m));
                }
            }
        }
        first
    }

    /// Bump-allocate a bag for a node and class.  Returns `None` when the
    /// node's region has no room left.
    pub fn carve_bag(&mut self, node: usize, class_index: usize) -> (bag: Option<usize>)
        requires
            old(self).coherent(),
            old(self)@.wf(),
            node < old(self)@.nodes,
            class_index < NUM_SIZE_CLASSES,
        ensures
            bag is Some <==> old(self)@.can_carve(node as int, class_index as int),
            bag matches Some(addr) ==> {
                &&& addr == old(self)@.bag_at(node as int, class_index as int)
                &&& final(self)@ == old(self)@.with_bag(node as int, class_index as int)
            },
            bag is None ==> final(self)@ == old(self)@,
            final(self).mapping_spec() == old(self).mapping_spec(),
            final(self).coherent(),
            final(self)@.wf(),
            forall|m: Map<int, u8>| #[trigger] old(self).wf(m) ==> final(self).wf(m),
    {
        let ghost n = node as int;
        let ghost c = class_index as int;
        let bag_size: usize = size_class::bag_size_for_class(class_index);
        proof {
            heap_view::lemma_bags(c);
        }
        let bag = self.nodes[node].allocate_bag(bag_size);
        let ghost bumped = self.nodes@[n];
        match bag {
            None => {
                proof {
                    assert(self.nodes@ =~= old(self).nodes@);
                    assert(self@ =~= old(self)@);
                    assert forall|m: Map<int, u8>| #[trigger] old(self).wf(m) implies self.wf(
                        m,
                    ) by {
                        assert forall|k: int, d: int|
                            0 <= k < MAX_NODES && 0 <= d < NUM_SIZE_CLASSES implies
                            #[trigger] self.stack(k, d).wf(m) by {
                            assert(old(self).stack(k, d).wf(m));
                        }
                    }
                }
                None
            },
            Some(addr) => {
                let ghost v = old(self)@.with_bag(n, c);
                self.nodes[node].owners = Ghost(v.owners[n]);
                proof {
                    heap_view::lemma_carve(old(self)@, n, c);
                    assert(self@.used =~= v.used);
                    assert(self@.owners =~= v.owners);
                    assert forall|k: int, d: int|
                        0 <= k < 8 && 0 <= d < 16 implies #[trigger] self.stack(k, d) == old(
                        self,
                    ).stack(k, d) by {
                        assert(bumped.stack(d) == old(self).nodes@[n].stack(d));
                    }
                    assert forall|k: int| 0 <= k < 8 implies #[trigger] self@.stacks[k]
                        == v.stacks[k] by {
                        assert forall|d: int| 0 <= d < 16 implies self@.stacks[k][d]
                            == v.stacks[k][d] by {
                            assert(self.stack(k, d) == old(self).stack(k, d));
                        }
                        assert(self@.stacks[k] =~= v.stacks[k]);
                    }
                    assert(self@.stacks =~= v.stacks);
                    assert(self@ == v);
                    assert forall|m: Map<int, u8>| #[trigger] old(self).wf(m) implies self.wf(
                        m,
                    ) by {
                        assert forall|k: int, d: int|
                            0 <= k < MAX_NODES && 0 <= d < NUM_SIZE_CLASSES implies
                            #[trigger] self.stack(k, d).wf(m) by {
                            assert(old(self).stack(k, d).wf(m));
                        }
                    }
                }
                Some(addr)
            },
        }
    }

    /// After a change of one stack the heap is well-formed if what the stack
    /// holds is in place.
    proof fn lemma_restacked(&self, before: &Self, n: int, c: int, s: Seq<usize>)
        requires
            before.coherent(),
            before@.wf(),
            0 <= n < before@.nodes,
            0 <= c < NUM_SIZE_CLASSES,
            self.base == before.base,
            self.total_size == before.total_size,
            self.region_size == before.region_size,
            self.num_nodes == before.num_nodes,
            self.map_base == before.map_base,
            self.map_size == before.map_size,
            forall|k: int|
                0 <= k < 8 && k != n ==> #[trigger] self.nodes@[k] == before.nodes@[k],
            self.nodes@[n].start() == before.nodes@[n].start(),
            self.nodes@[n].extent() == before.nodes@[n].extent(),
            self.nodes@[n].used() == before.nodes@[n].used(),
            self.nodes@[n].owners() == before.nodes@[n].owners(),
            forall|d: int|
                0 <= d < 16 && d != c ==> #[trigger] self.nodes@[n].stack(d)
                    == before.nodes@[n].stack(d),
            self.nodes@[n].stack(c)@ == s,
            before@.all_placed(n, c, s),
            s.no_duplicates(),
        ensures
            self@ == before@.with_stack(n, c, s),
            self.coherent(),
            self@.wf(),
            forall|k: int, d: int|
                0 <= k < MAX_NODES && 0 <= d < NUM_SIZE_CLASSES && (k != n || d != c)
                    ==> #[trigger] self.stack(k, d) == before.stack(k, d),
    {
        let v = before@.with_stack(n, c, s);
        assert(self@.used =~= v.used);
        assert(self@.owners =~= v.owners);
        assert forall|k: int| 0 <= k < 8 implies #[trigger] self@.stacks[k] == v.stacks[k] by {
            assert forall|d: int| 0 <= d < 16 implies self@.stacks[k][d] == v.stacks[k][d] by {
                if k == n && d != c {
                    assert(self.nodes@[n].stack(d) == before.nodes@[n].stack(d));
                }
                if k != n {
                    assert(self.nodes@[k] == before.nodes@[k]);
                }
            }
            assert(self@.stacks[k] =~= v.stacks[k]);
        }
        assert(self@.stacks =~= v.stacks);
        assert(self@ == v);
        heap_view::lemma_with_stack(before@, n, c, s);
        assert forall|k: int| 0 <= k < 8 implies (#[trigger] self.nodes@[k]).wf() && if k
            < self.num_nodes {
            self.nodes@[k].start() == self@.lo(k) && self.nodes@[k].extent() == self.region_size
        } else {
            self.nodes@[k].extent() == 0
        } by {
            assert(before.nodes@[k].wf());
        }
    }
}

/// A heap with nothing carved, on the mapping at `raw`.
pub open spec fn fresh_heap(raw: int, num_nodes: int, region_size: int) -> HeapView {
    HeapView {
        base: heap_view::align_up(raw, MIN_REGION_SIZE as int),
        region: heap_region(num_nodes, region_size),
        nodes: heap_nodes(num_nodes),
        used: Seq::new(8, |n: int| 0int),
        owners: Seq::new(8, |n: int| Map::<int, int>::empty()),
        stacks: Seq::new(8, |n: int| Seq::new(16, |c: int| Seq::<usize>::empty())),
    }
}

// ---------------------------------------------------------------------------
// SharedHeap — heap ownership shared by an allocator and its thread caches
// ---------------------------------------------------------------------------
/// A share in a heap.  Neither copied nor cloned: a new share comes from
/// [`SharedHeap::retain`] and goes back by [`SharedHeap::release`].
pub struct HeapHandle {
    heap: usize,
}

impl HeapHandle {
    /// The heap that this is a share in, by its base address.
    pub closed spec fn heap(&self) -> int {
        self.heap as int
    }

    /// Whether this is a share in the heap with the given base address.
    pub fn is_for(&self, base: usize) -> (same: bool)
        ensures
            same == (self.heap() == base),
    {
        self.heap == base
    }
}

/// A heap and the number of shares in it.
pub struct SharedHeap {
    references: usize,
    heap: GlobalHeap,
}

impl SharedHeap {
    /// Number of shares.
    pub closed spec fn references(&self) -> int {
        self.references as int
    }

    /// The heap.
    pub closed spec fn inner(&self) -> GlobalHeap {
        self.heap
    }

    /// Share a heap; the caller gets the first share.
    pub fn new(heap: GlobalHeap) -> (r: (Self, HeapHandle))
        ensures
            r.0.references() == 1,
            r.0.inner() == heap,
            r.1.heap() == heap@.base,
    {
        let handle = HeapHandle { heap: heap.base };
        (SharedHeap { references: 1, heap }, handle)
    }

    /// Another share.  `None` when `isize::MAX` shares exist already.
    pub fn retain(&mut self) -> (handle: Option<HeapHandle>)
        ensures
            handle is Some <==> old(self).references() < isize::MAX,
            handle matches Some(h) ==> h.heap() == old(self).inner()@.base
                && final(self).references() == old(self).references() + 1,
            handle is None ==> *final(self) == *old(self),
            final(self).inner() == old(self).inner(),
    {
        if self.references >= isize::MAX as usize {
            return None;
        }
        self.references += 1;
        Some(HeapHandle { heap: self.heap.base })
    }

    /// Give a share back.  Returns `true` for the last one: the heap's mapping
    /// is then no longer used.
    pub fn release(&mut self, handle: HeapHandle) -> (last: bool)
        requires
            handle.heap() == old(self).inner()@.base,
            old(self).references() > 0,
        ensures
            last == (old(self).references() == 1),
            final(self).references() == old(self).references() - 1,
            final(self).inner() == old(self).inner(),
    {
        self.references -= 1;
        self.references == 0
    }

    /// The heap, for reading.
    pub fn heap(&self) -> (heap: &GlobalHeap)
        ensures
            *heap == self.inner(),
    {
        &self.heap
    }

    /// The heap, for changes.
    pub fn heap_mut(&mut self) -> (heap: &mut GlobalHeap)
        ensures
            *heap == old(self).inner(),
            final(self).inner() == *final(heap),
            final(self).references() == old(self).references(),
    {
        &mut self.heap
    }
}

} // verus!
