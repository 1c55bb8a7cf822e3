//! The allocator: routes each request to a thread cache, a node's stack, a
//! fresh bag or a mapping of its own.
//!
//! Nothing here asks the system for anything.  Where an operation needs a
//! mapping made, released or bound to a node, its result says so, and the
//! caller performs the request and hands the outcome back.
use crate::freelist;
use crate::heap::{self, GlobalHeap, HeapHandle, HeapPlan, SharedHeap};
use crate::heap_view::{self, HeapView};
use crate::large_cache::{self, LargeCacheEntry, PutStep, MADVISE_THRESHOLD};
use crate::large_object::{self, LargeHeader};
use crate::layout::{self, Layout};
use crate::memory::{self, Memory};
use crate::size_class::{self, NUM_SIZE_CLASSES, SMALL_LIMIT};
use crate::thread_heap::{self, PerThreadHeap, ThreadView};
use vstd::prelude::*;

verus! {

// ---------------------------------------------------------------------------
// Thread-local slot
// ---------------------------------------------------------------------------
/// Thread-local slot for the current thread's [`PerThreadHeap`].
///
/// When the owning thread exits the slot is destroyed: it gives its heap up
/// for draining and never holds one again.
pub struct ThreadHeapSlot {
    inner: Option<PerThreadHeap>,
    destroyed: bool,
}

impl ThreadHeapSlot {
    /// The thread's heap, if present.
    pub closed spec fn thread(&self) -> Option<PerThreadHeap> {
        self.inner
    }

    /// The thread has exited.
    pub closed spec fn is_destroyed(&self) -> bool {
        self.destroyed
    }

    /// State of the thread's heap, if present.
    pub open spec fn state(&self) -> Option<ThreadView> {
        match self.thread() {
            Some(th) => Some(th@),
            None => None,
        }
    }

    /// The slot holds a heap of the global heap `h`, or can no longer hold
    /// any.
    pub open spec fn settled(&self, h: HeapView) -> bool {
        match self.thread() {
            Some(th) => th@.heap == h.base,
            None => self.is_destroyed(),
        }
    }

    /// A destroyed slot is empty, and a heap of the global heap `h` is
    /// well-formed.
    pub open spec fn wf(&self, h: HeapView, m: Map<int, u8>, page_size: int) -> bool {
        &&& self.is_destroyed() ==> self.thread() is None
        &&& self.thread() matches Some(th) ==> th.cache().wf()
        &&& self.thread() matches Some(th) ==> (th@.heap == h.base ==> th.wf(h, m)
            && thread_heap::mappings_ok(h, m, page_size, th@.large))
    }

    /// An empty slot.
    pub fn new() -> (slot: Self)
        ensures
            slot.thread() is None,
            !slot.is_destroyed(),
            forall|h: HeapView, m: Map<int, u8>, page_size: int| #[trigger]
                slot.wf(h, m, page_size),
    {
        ThreadHeapSlot { inner: None, destroyed: false }
    }

    /// The thread's heap, if present.
    pub fn get(&self) -> (th: Option<&PerThreadHeap>)
        ensures
            th is Some <==> self.thread() is Some,
            th matches Some(t) ==> Some(*t) == self.thread(),
    {
        match &self.inner {
            Some(th) => Some(th),
            None => None,
        }
    }

    /// Whether the thread has exited.
    pub fn destroyed(&self) -> (yes: bool)
        ensures
            yes == self.is_destroyed(),
    {
        self.destroyed
    }

    /// Store a thread's heap into this slot.  Returns the previous one, whose
    /// blocks are to be drained to the heap it was created for.
    pub fn set(&mut self, val: Option<PerThreadHeap>) -> (previous: Option<PerThreadHeap>)
        requires
            old(self).is_destroyed() ==> val is None,
        ensures
            previous == old(self).thread(),
            final(self).thread() == val,
            final(self).is_destroyed() == old(self).is_destroyed(),
    {
        let mut previous = val;
        core::mem::swap(&mut previous, &mut self.inner);
        previous
    }

    /// End of the thread: give its heap up for draining, for good.
    pub fn destroy(&mut self) -> (previous: Option<PerThreadHeap>)
        ensures
            previous == old(self).thread(),
            final(self).thread() is None,
            final(self).is_destroyed(),
    {
        self.destroyed = true;
        let mut previous: Option<PerThreadHeap> = None;
        core::mem::swap(&mut previous, &mut self.inner);
        previous
    }
}

// ---------------------------------------------------------------------------
// NumaAlloc
// ---------------------------------------------------------------------------
/// What an allocation needs next.
#[derive(Clone, Copy, PartialEq, Eq, Structural, Debug)]
pub enum AllocStep {
    /// The allocation is finished: the address, or `None` on failure.
    Done(Option<usize>),
    /// Map `size` fresh bytes, bind them to `node`, and call
    /// [`NumaAlloc::finish_large`]; without a mapping the allocation fails.
    MapFresh { size: usize, node: usize },
}

/// What became of a thread's slot.
pub enum ThreadStep {
    /// The thread has exited; it allocates without a cache.
    Unavailable,
    /// The thread had a heap already.
    Ready,
    /// The thread got a new heap: drain the previous one to the heap it was
    /// created for, and bind the thread to `node`.
    Created { node: usize, previous: Option<PerThreadHeap> },
    /// The heap has as many shares as can be counted.
    Overflow,
}

/// Node of the thread that gets a heap when the counter stands at `counter`.
pub open spec fn turn(counter: usize, nodes: int) -> int {
    counter as int % nodes
}

/// The counter after another thread got a heap.
pub open spec fn next_counter(counter: usize) -> int {
    if counter == usize::MAX {
        0
    } else {
        counter + 1
    }
}

/// NUMA-aware memory allocator.
///
/// Each instance owns an independent [`GlobalHeap`] and round-robin counter,
/// so multiple allocators do not compete for the same resources.
pub struct NumaAlloc {
    heap: Option<SharedHeap>,
    /// The allocator's own share in its heap.
    share: Option<HeapHandle>,
    /// Round-robin counter for assigning threads to NUMA nodes.
    next_node: usize,
    /// Topology override (`0` nodes = auto-detect).
    config: (usize, usize),
}

impl Default for NumaAlloc {
    /// An allocator that detects the topology.
    fn default() -> (numa: Self)
        ensures
            !numa.ready(),
            numa.counter() == 0,
            numa.topology() == (0usize, 0usize),
    {
        NumaAlloc::new()
    }
}

impl NumaAlloc {
    /// The heap has been set up.
    pub closed spec fn ready(&self) -> bool {
        self.heap is Some
    }

    /// The allocator has not given its own share in the heap back.
    pub closed spec fn holds_share(&self) -> bool {
        self.share is Some
    }

    /// The heap.
    pub closed spec fn global(&self) -> GlobalHeap {
        self.heap->0.inner()
    }

    /// State of the heap.
    pub open spec fn state(&self) -> HeapView {
        self.global()@
    }

    /// Shares in the heap.
    pub closed spec fn shares(&self) -> int {
        self.heap->0.references()
    }

    /// Threads that got a heap so far, as far as the counter goes.
    pub closed spec fn counter(&self) -> usize {
        self.next_node
    }

    /// The requested topology; zero nodes stand for what the machine has.
    pub closed spec fn topology(&self) -> (usize, usize) {
        self.config
    }

    /// Everything but the heap's state is the same.
    pub open spec fn same_books(&self, other: &NumaAlloc) -> bool {
        &&& self.global().mapping_spec() == other.global().mapping_spec()
        &&& self.counter() == other.counter()
        &&& self.topology() == other.topology()
        &&& self.shares() == other.shares()
        &&& self.holds_share() == other.holds_share()
    }

    /// The heap has been set up and is well-formed.
    pub closed spec fn wf(&self, m: Map<int, u8>) -> bool {
        &&& self.ready()
        &&& self.global().wf(m)
        &&& self.share matches Some(s) ==> s.heap() == self.state().base
    }

    /// What a well-formed allocator holds.
    pub proof fn lemma_wf(&self, m: Map<int, u8>)
        requires
            self.wf(m),
        ensures
            self.ready(),
            self.global().wf(m),
            self.state().wf(),
            self.state().mapped(m),
    {
    }

    /// A well-formed allocator stays so while its heap does, whatever else
    /// becomes of memory.
    pub proof fn lemma_frame(&self, m: Map<int, u8>, m2: Map<int, u8>)
        requires
            self.wf(m),
            self.global().wf(m2),
        ensures
            self.wf(m2),
    {
    }

    /// An allocator that detects the topology.
    pub fn new() -> (numa: Self)
        ensures
            !numa.ready(),
            numa.counter() == 0,
            numa.topology() == (0usize, 0usize),
    {
        NumaAlloc { heap: None, share: None, next_node: 0, config: (0, 0) }
    }

    /// Build an allocator with an explicit virtual topology.
    ///
    /// `num_nodes` is clamped to `1..=MAX_NODES`; `region_size` (bytes per
    /// node) is rounded up to a multiple of 256 KiB.  Meant for tests and fuzz
    /// harnesses that need multi-node code paths or quick region exhaustion.
    pub fn with_config(num_nodes: usize, region_size: usize) -> (numa: Self)
        ensures
            !numa.ready(),
            numa.counter() == 0,
            numa.topology() == (heap::heap_nodes(num_nodes as int) as usize, region_size),
    {
        let nodes: usize = if num_nodes < 1 {
            1
        } else if num_nodes > heap::MAX_NODES {
            heap::MAX_NODES
        } else {
            num_nodes
        };
        NumaAlloc { heap: None, share: None, next_node: 0, config: (nodes, region_size) }
    }

    /// Nodes and region size to set the heap up with, given the number of
    /// nodes that the machine has.
    pub open spec fn request(&self, detected: usize) -> (usize, usize) {
        if self.topology().0 != 0 {
            self.topology()
        } else {
            (detected, heap::DEFAULT_REGION_SIZE)
        }
    }

    /// Whether the heap has been set up.
    pub fn is_ready(&self) -> (yes: bool)
        ensures
            yes == self.ready(),
    {
        self.heap.is_some()
    }

    /// Dimensions of the heap to map.
    pub fn heap_plan(&self, detected: usize) -> (plan: HeapPlan)
        ensures
            ({
                let (nodes, region) = self.request(detected);
                &&& plan.num_nodes == heap::heap_nodes(nodes as int)
                &&& plan.region_size == heap::heap_region(nodes as int, region as int)
                &&& plan.total_size == plan.num_nodes * plan.region_size
                &&& plan.map_size == heap::heap_reserve(nodes as int, region as int)
                &&& plan.map_size <= isize::MAX
            }),
    {
        let (nodes, region) = if self.config.0 != 0 {
            self.config
        } else {
            (detected, heap::DEFAULT_REGION_SIZE)
        };
        GlobalHeap::plan(nodes, region)
    }

    /// Set the heap up on the mapping at `map_base`.  Returns `false` if there
    /// is none; the allocator is then unchanged.
    pub fn init(&mut self, detected: usize, map_base: Option<usize>) -> (done: bool)
        requires
            !old(self).ready(),
            ({
                let (nodes, region) = old(self).request(detected);
                let reserve = heap::heap_reserve(nodes as int, region as int);
                map_base matches Some(raw) ==> 0 < raw && raw + reserve <= freelist::ADDRESS_LIMIT
                    && raw + reserve <= usize::MAX
            }),
        ensures
            ({
                let (nodes, region) = old(self).request(detected);
                let reserve = heap::heap_reserve(nodes as int, region as int);
                &&& done <==> map_base is Some
                &&& done ==> {
                    &&& final(self).ready()
                    &&& final(self).state() == heap::fresh_heap(
                        map_base->0 as int,
                        nodes as int,
                        region as int,
                    )
                    &&& final(self).global().mapping_spec() == (map_base->0, reserve as usize)
                    &&& final(self).shares() == 1
                    &&& final(self).holds_share()
                    &&& forall|m: Map<int, u8>| #[trigger]
                        final(self).state().mapped(m) ==> final(self).wf(m)
                }
            }),
            !done ==> *final(self) == *old(self),
            final(self).counter() == old(self).counter(),
            final(self).topology() == old(self).topology(),
    {
        let (nodes, region) = if self.config.0 != 0 {
            self.config
        } else {
            (detected, heap::DEFAULT_REGION_SIZE)
        };
        match GlobalHeap::new(nodes, region, map_base) {
            None => false,
            Some(heap) => {
                let (shared, share) = SharedHeap::new(heap);
                self.heap = Some(shared);
                self.share = Some(share);
                true
            },
        }
    }

    /// Number of NUMA nodes this allocator distributes threads across.
    pub fn num_nodes(&self) -> (n: usize)
        requires
            self.ready(),
        ensures
            n == self.state().nodes,
    {
        match &self.heap {
            Some(shared) => shared.heap().num_nodes(),
            None => 0,
        }
    }

    /// The heap, for reading.
    pub fn heap(&self) -> (heap: &GlobalHeap)
        requires
            self.ready(),
        ensures
            *heap == self.global(),
    {
        self.heap.as_ref().unwrap().heap()
    }

    /// Whether `ptr` lies inside this allocator's pre-mapped region (as
    /// opposed to a dedicated large-object mapping).
    pub fn owns(&self, ptr: usize) -> (owned: bool)
        requires
            self.ready(),
            self.global().coherent(),
            self.state().shape_ok(),
        ensures
            owned == (ptr != 0 && self.state().owns(ptr as int)),
    {
        proof {
            self.global().lemma_layout();
        }
        ptr != 0 && self.heap().is_owned(ptr)
    }

    /// Make sure that the thread has a heap of this allocator's, unless it has
    /// exited.  A new one is assigned to the nodes in turn.
    ///
    /// A destroyed slot cannot be filled again.  Its thread uses uncached
    /// mappings and returns freed blocks directly to their origin node.
    pub fn thread_heap(&mut self, slot: &mut ThreadHeapSlot) -> (step: ThreadStep)
        requires
            old(self).ready(),
            1 <= old(self).state().nodes,
            old(slot).is_destroyed() ==> old(slot).thread() is None,
        ensures
            step is Unavailable <==> old(slot).is_destroyed(),
            step is Ready <==> (old(slot).thread() matches Some(th) && th@.heap == old(
                self,
            ).state().base),
            step is Overflow <==> !old(slot).is_destroyed() && !old(slot).settled(
                old(self).state(),
            ) && old(self).shares() >= isize::MAX,
            step is Unavailable || step is Ready || step is Overflow ==> *final(slot) == *old(slot)
                && *final(self) == *old(self),
            step matches ThreadStep::Created { node, previous } ==> {
                &&& node == turn(old(self).counter(), old(self).state().nodes)
                &&& previous == old(slot).thread()
                &&& final(slot).state() == Some(
                    thread_heap::empty_thread(node as int, old(self).state().base),
                )
                &&& final(self).counter() == next_counter(old(self).counter())
                &&& final(self).shares() == old(self).shares() + 1
            },
            final(self).holds_share() == old(self).holds_share(),
            final(self).ready(),
            final(self).global() == old(self).global(),
            final(self).topology() == old(self).topology(),
            forall|m: Map<int, u8>| #[trigger] old(self).wf(m) ==> final(self).wf(m),
            forall|m: Map<int, u8>, page_size: int| #[trigger]
                old(slot).wf(old(self).state(), m, page_size) ==> final(slot).wf(
                    old(self).state(),
                    m,
                    page_size,
                ),
            step !is Overflow ==> final(slot).settled(final(self).state()),
            final(slot).is_destroyed() == old(slot).is_destroyed(),
    {
        if slot.destroyed() {
            return ThreadStep::Unavailable;
        }
        let base: usize = self.heap().base();
        let nodes: usize = self.heap().num_nodes();
        if let Some(th) = slot.get() {
            if th.global_heap().is_for(base) {
                return ThreadStep::Ready;
            }
        }
        let handle = match &mut self.heap {
            Some(shared) => shared.retain(),
            None => None,
        };
        match handle {
            None => ThreadStep::Overflow,
            Some(handle) => {
                let node: usize = self.next_node % nodes;
                self.next_node = self.next_node.wrapping_add(1);
                // Switching allocators relinquishes the thread's old cache,
                // which goes back to its original heap.
                let previous = slot.set(Some(PerThreadHeap::new(node, handle)));
                ThreadStep::Created { node, previous }
            },
        }
    }
}

// ---------------------------------------------------------------------------
// Allocation
// ---------------------------------------------------------------------------
/// What an allocation with a mapping of its own does: it takes a mapping from
/// the thread's cache if one fits, and else asks for a fresh one on the
/// thread's node.
pub open spec fn large_step(t: Option<ThreadView>, layout: Layout, page_size: int) -> (
    Option<ThreadView>,
    AllocStep,
) {
    let size = large_object::large_extent(layout, page_size);
    if size > isize::MAX {
        (t, AllocStep::Done(None))
    } else {
        match t {
            None => (t, AllocStep::MapFresh { size: size as usize, node: 0 }),
            Some(v) => match large_cache::taken(v.large, size) {
                None => (
                    t,
                    AllocStep::MapFresh { size: size as usize, node: v.node as usize },
                ),
                Some(e) => (
                    Some(ThreadView { large: large_cache::after_take(v.large, size), ..v }),
                    AllocStep::Done(
                        Some(large_object::payload_at(e.original_ptr as int, layout) as usize),
                    ),
                ),
            },
        }
    }
}

/// What such an allocation does to memory: it stores the header in a mapping
/// taken from the cache.
pub open spec fn large_memory(
    t: Option<ThreadView>,
    layout: Layout,
    page_size: int,
    m: Map<int, u8>,
) -> Map<int, u8> {
    let size = large_object::large_extent(layout, page_size);
    if size > isize::MAX || t is None {
        m
    } else {
        match large_cache::taken(t->0.large, size) {
            None => m,
            Some(e) => large_object::with_header(
                m,
                large_object::payload_at(e.original_ptr as int, layout),
                LargeHeader { original_ptr: e.original_ptr, alloc_size: e.alloc_size },
            ),
        }
    }
}

/// The allocation is served by an object of a size class.
pub open spec fn served_small(h: HeapView, t: Option<ThreadView>, layout: Layout) -> bool {
    &&& layout.effective() <= SMALL_LIMIT
    &&& t is Some
    &&& thread_heap::alloc_outcome(
        h,
        t->0,
        size_class::class_of(layout.effective()),
    ).2 is Some
}

/// What an allocation does to the heap and the thread's heap, and its result.
pub open spec fn alloc_step(
    h: HeapView,
    t: Option<ThreadView>,
    layout: Layout,
    page_size: int,
) -> (HeapView, Option<ThreadView>, AllocStep) {
    if served_small(h, t, layout) {
        let (h2, t2, r) = thread_heap::alloc_outcome(
            h,
            t->0,
            size_class::class_of(layout.effective()),
        );
        (h2, Some(t2), AllocStep::Done(r))
    } else {
        let (t2, step) = large_step(t, layout, page_size);
        (h, t2, step)
    }
}

/// What an allocation does to memory: it stores links of free blocks of its
/// class, or the header of a cached mapping.
pub open spec fn alloc_memory(
    h: HeapView,
    t: Option<ThreadView>,
    layout: Layout,
    page_size: int,
    m: Map<int, u8>,
    m2: Map<int, u8>,
) -> bool {
    if served_small(h, t, layout) {
        freelist::links_only(
            m,
            m2,
            thread_heap::alloc_touched(h, t->0, size_class::class_of(layout.effective())),
        )
    } else {
        m2 == large_memory(t, layout, page_size, m)
    }
}

impl NumaAlloc {
    /// Allocate a large object in a cached mapping, or ask for a fresh one.
    ///
    /// A header is placed just before the returned address so that
    /// [`NumaAlloc::dealloc`] can recover the mapping.
    pub fn alloc_large<M: Memory>(
        &self,
        slot: &mut ThreadHeapSlot,
        mem: &mut M,
        layout: Layout,
        page_size: usize,
    ) -> (step: AllocStep)
        requires
            self.wf(old(mem)@),
            old(slot).wf(self.state(), old(mem)@, page_size as int),
            old(slot).settled(self.state()),
            layout.wf(),
            0 < page_size <= isize::MAX,
        ensures
            (final(slot).state(), step) == large_step(
                old(slot).state(),
                layout,
                page_size as int,
            ),
            final(mem)@ == large_memory(
                old(slot).state(),
                layout,
                page_size as int,
                old(mem)@,
            ),
            self.wf(final(mem)@),
            final(slot).wf(self.state(), final(mem)@, page_size as int),
            final(slot).settled(self.state()),
            final(slot).is_destroyed() == old(slot).is_destroyed(),
    {
        let alloc_size: usize = match large_object::large_alloc_size(&layout, page_size) {
            Some(v) => v,
            None => return AllocStep::Done(None),
        };
        let ghost h = self.state();
        let ghost m = mem@;
        match &mut slot.inner {
            None => AllocStep::MapFresh { size: alloc_size, node: 0 },
            Some(th) => {
                let node: usize = th.node_id();
                let ghost large = th@.large;
                proof {
                    let rest = large_cache::after_take(large, alloc_size as int);
                    thread_heap::lemma_other_large(h, th@, rest);
                }
                match th.large_cache_take(alloc_size) {
                    None => AllocStep::MapFresh { size: alloc_size, node },
                    Some(e) => {
                        // Retain the full mapping extent, including close-size
                        // slack.
                        proof {
                            let i = large_cache::best(large, alloc_size as int)->0;
                            assert(large_cache::best_fit(large, i, alloc_size as int));
                            thread_heap::lemma_mappings_remove(h, m, page_size as int, large, i);
                            large_object::lemma_payload(
                                e.original_ptr as int,
                                layout,
                                e.alloc_size as int,
                                page_size as int,
                            );
                        }
                        let payload: usize = large_object::prepare_large_payload(
                            mem,
                            e.original_ptr,
                            e.alloc_size,
                            &layout,
                            page_size,
                        );
                        proof {
                            let header = LargeHeader {
                                original_ptr: e.original_ptr,
                                alloc_size: e.alloc_size,
                            };
                            assert(memory::range_mapped(m, payload - 16, 16));
                            large_object::lemma_with_header(m, payload as int, header);
                            self.lemma_outside_write(
                                th,
                                m,
                                mem@,
                                e.original_ptr as int,
                                e.original_ptr + e.alloc_size,
                            );
                            thread_heap::lemma_mappings_frame(
                                h,
                                m,
                                h,
                                mem@,
                                page_size as int,
                                th@.large,
                            );
                        }
                        AllocStep::Done(Some(payload))
                    },
                }
            },
        }
    }

    /// Writes outside the regions leave the heap and the thread's heap as they
    /// are.
    proof fn lemma_outside_write(
        &self,
        th: &PerThreadHeap,
        m: Map<int, u8>,
        m2: Map<int, u8>,
        from: int,
        to: int,
    )
        requires
            self.wf(m),
            th.wf(self.state(), m),
            memory::changed_within(m, m2, from, to - from),
            to <= self.state().base || self.state().lo(self.state().nodes) <= from,
        ensures
            self.wf(m2),
            th.wf(self.state(), m2),
    {
        let h = self.state();
        assert forall|i: int| h.link_byte(i) implies #[trigger] m2[i] == m[i] by {
            if !h.owns(i) {
                heap_view::lemma_outside_not_link(h, i);
            }
            assert(m.dom().contains(i));
        }
        self.global().lemma_frame(m, m2);
        assert forall|i: int| th@.link_byte(i) implies #[trigger] m2[i] == m[i] by {
            if !h.owns(i) {
                thread_heap::lemma_outside_not_thread_link(h, th@, i);
            }
            assert(m.dom().contains(i));
        }
        th.lemma_frame(h, m, h, m2);
    }
}

/// The part of the heap's state that never changes.
pub open spec fn same_shape(h: HeapView, h2: HeapView) -> bool {
    &&& h2.base == h.base
    &&& h2.region == h.region
    &&& h2.nodes == h.nodes
}

/// A change of link words of no blocks is no change.
proof fn lemma_no_links(m: Map<int, u8>, m2: Map<int, u8>)
    requires
        freelist::links_only(m, m2, Seq::empty()),
    ensures
        m2 == m,
{
    assert forall|i: int| m.dom().contains(i) implies #[trigger] m2[i] == m[i] by {
        assert(!freelist::in_links(Seq::empty(), i));
    }
    assert(m2 =~= m);
}

impl NumaAlloc {
    /// Allocate an object of a size class from the thread's heap.  `None` if
    /// the thread has none or its node's region is exhausted.
    fn alloc_small<M: Memory>(
        &mut self,
        slot: &mut ThreadHeapSlot,
        mem: &mut M,
        class_index: usize,
        Ghost(page_size): Ghost<int>,
    ) -> (r: Option<usize>)
        requires
            old(self).wf(old(mem)@),
            old(slot).wf(old(self).state(), old(mem)@, page_size),
            old(slot).settled(old(self).state()),
            class_index < NUM_SIZE_CLASSES,
        ensures
            r is Some ==> old(slot).state() is Some && (
                final(self).state(),
                final(slot).state()->0,
                r,
            ) == thread_heap::alloc_outcome(
                old(self).state(),
                old(slot).state()->0,
                class_index as int,
            ) && freelist::links_only(
                old(mem)@,
                final(mem)@,
                thread_heap::alloc_touched(
                    old(self).state(),
                    old(slot).state()->0,
                    class_index as int,
                ),
            ),
            r is None ==> {
                &&& final(self).state() == old(self).state()
                &&& final(slot).state() == old(slot).state()
                &&& final(mem)@ == old(mem)@
                &&& old(slot).state() matches Some(t) ==> thread_heap::alloc_outcome(
                    old(self).state(),
                    t,
                    class_index as int,
                ).2 is None
            },
            final(slot).state() is Some <==> old(slot).state() is Some,
            same_shape(old(self).state(), final(self).state()),
            final(self).wf(final(mem)@),
            final(slot).wf(final(self).state(), final(mem)@, page_size),
            final(slot).settled(final(self).state()),
            final(slot).is_destroyed() == old(slot).is_destroyed(),
            final(self).same_books(old(self)),
    {
        match &mut slot.inner {
            None => None,
            Some(th) => match &mut self.heap {
                None => None,
                Some(shared) => {
                    let ghost h = shared.inner()@;
                    let ghost m = mem@;
                    let ghost large = th@.large;
                    let r = th.alloc_block(shared.heap_mut(), mem, class_index);
                    proof {
                        thread_heap::lemma_mappings_frame(
                            h,
                            m,
                            shared.inner()@,
                            mem@,
                            page_size,
                            large,
                        );
                        if r is None {
                            lemma_no_links(m, mem@);
                        }
                    }
                    r
                },
            },
        }
    }

    /// Allocate memory for `layout`.
    pub fn allocate<M: Memory>(
        &mut self,
        slot: &mut ThreadHeapSlot,
        mem: &mut M,
        layout: Layout,
        page_size: usize,
    ) -> (step: AllocStep)
        requires
            old(self).wf(old(mem)@),
            old(slot).wf(old(self).state(), old(mem)@, page_size as int),
            old(slot).settled(old(self).state()),
            layout.wf(),
            0 < page_size <= isize::MAX,
        ensures
            (final(self).state(), final(slot).state(), step) == alloc_step(
                old(self).state(),
                old(slot).state(),
                layout,
                page_size as int,
            ),
            alloc_memory(
                old(self).state(),
                old(slot).state(),
                layout,
                page_size as int,
                old(mem)@,
                final(mem)@,
            ),
            same_shape(old(self).state(), final(self).state()),
            final(self).wf(final(mem)@),
            final(slot).wf(final(self).state(), final(mem)@, page_size as int),
            final(slot).settled(final(self).state()),
            final(slot).is_destroyed() == old(slot).is_destroyed(),
            final(self).same_books(old(self)),
    {
        proof {
            layout.lemma_bounds();
        }
        let effective_size: usize = layout.effective_size();
        if effective_size > SMALL_LIMIT {
            return self.alloc_large(slot, mem, layout, page_size);
        }
        let class_index: usize = match size_class::size_class_index(effective_size) {
            Some(i) => i,
            None => return AllocStep::Done(None),
        };
        proof {
            size_class::lemma_class_of(layout.effective(), class_index as int);
        }
        let block = self.alloc_small(slot, mem, class_index, Ghost(page_size as int));
        if block.is_some() {
            return AllocStep::Done(block);
        }
        // The thread has exited or the region is exhausted: use a mapping.
        self.alloc_large(slot, mem, layout, page_size)
    }

    /// Finish an allocation in the fresh mapping that [`NumaAlloc::allocate`]
    /// asked for: place the header and return the payload address.
    pub fn finish_large<M: Memory>(
        mem: &mut M,
        raw: usize,
        size: usize,
        layout: &Layout,
        page_size: usize,
    ) -> (payload: usize)
        requires
            layout.wf(),
            0 < page_size <= isize::MAX,
            size == large_object::large_extent(*layout, page_size as int),
            raw + size <= usize::MAX,
            memory::range_mapped(old(mem)@, raw as int, size as int),
        ensures
            payload == large_object::payload_at(raw as int, *layout),
            final(mem)@ == large_object::with_header(
                old(mem)@,
                payload as int,
                (LargeHeader { original_ptr: raw, alloc_size: size }),
            ),
    {
        large_object::prepare_large_payload(mem, raw, size, layout, page_size)
    }
}

impl NumaAlloc {
    /// Writes inside an object that is on no list leave the heap and the
    /// thread's heap as they are.
    proof fn lemma_inside_write(
        &self,
        th: &PerThreadHeap,
        m: Map<int, u8>,
        m2: Map<int, u8>,
        n: int,
        c: int,
        a: usize,
    )
        requires
            self.wf(m),
            th.wf(self.state(), m),
            memory::changed_within(m, m2, a as int, size_class::class_size(c)),
            self.state().placed(n, c, a),
            !self.state().stacks[n][c].contains(a),
            n == th@.node ==> th@.lacks(c, a),
        ensures
            self.wf(m2),
            th.wf(self.state(), m2),
    {
        let h = self.state();
        assert forall|i: int| h.link_byte(i) implies #[trigger] m2[i] == m[i] by {
            if !h.owns(i) {
                heap_view::lemma_outside_not_link(h, i);
            }
            assert(m.dom().contains(i));
            if a <= i < a + size_class::class_size(c) {
                heap_view::lemma_not_link(h, n, c, a, i);
            }
        }
        self.global().lemma_frame(m, m2);
        assert forall|i: int| th@.link_byte(i) implies #[trigger] m2[i] == m[i] by {
            if !h.owns(i) {
                thread_heap::lemma_outside_not_thread_link(h, th@, i);
            }
            assert(m.dom().contains(i));
            if a <= i < a + size_class::class_size(c) {
                thread_heap::lemma_not_thread_link(h, th@, n, c, a, i);
            }
        }
        th.lemma_frame(h, m, h, m2);
    }

    /// Where the memory lies that an allocation returns: an object of its
    /// class that is on no list, or the payload of a mapping that left the
    /// cache.
    proof fn lemma_alloc_result(
        &self,
        before: HeapView,
        slot: &ThreadHeapSlot,
        t: Option<ThreadView>,
        m0: Map<int, u8>,
        m: Map<int, u8>,
        layout: Layout,
        page_size: int,
        p: usize,
    )
        requires
            before.wf(),
            t matches Some(v) ==> v.wf(before) && thread_heap::mappings_ok(
                before,
                m0,
                page_size,
                v.large,
            ),
            layout.wf(),
            0 < page_size <= isize::MAX,
            (self.state(), slot.state(), AllocStep::Done(Some(p))) == alloc_step(
                before,
                t,
                layout,
                page_size,
            ),
            m.dom() == m0.dom(),
            self.wf(m),
            slot.wf(self.state(), m, page_size),
            slot.settled(self.state()),
        ensures
            slot.thread() is Some,
            memory::range_mapped(m, p as int, layout.spec_size()),
            p + layout.spec_size() <= usize::MAX,
            forall|m2: Map<int, u8>| #[trigger]
                memory::changed_within(m, m2, p as int, layout.spec_size()) ==> self.wf(m2)
                    && slot.wf(self.state(), m2, page_size),
    {
        let h = self.state();
        let th = slot.thread()->0;
        layout.lemma_bounds();
        if served_small(before, t, layout) {
            let c = size_class::class_of(layout.effective());
            size_class::lemma_class_sizes();
            assert(size_class::is_class_of(layout.effective(), c)) by {
                lemma_class_exists(layout.effective());
            }
            thread_heap::lemma_alloc_outcome(before, t->0, c);
            let n = t->0.node;
            heap_view::lemma_placed_inside(h, n, c, p);
            assert(h.mapped(m));
            assert forall|i: int| p <= i < p + layout.spec_size() implies #[trigger] m.dom().contains(
                i,
            ) by {
                assert(h.base <= i < h.base + h.nodes * h.region);
            }
            assert forall|m2: Map<int, u8>| #[trigger]
                memory::changed_within(m, m2, p as int, layout.spec_size()) implies self.wf(m2)
                && slot.wf(self.state(), m2, page_size) by {
                self.lemma_inside_write(&th, m, m2, n, c, p);
                thread_heap::lemma_mappings_frame(h, m, h, m2, page_size, th@.large);
            }
        } else {
            let size = large_object::large_extent(layout, page_size);
            let i = large_cache::best(t->0.large, size)->0;
            assert(large_cache::best_fit(t->0.large, i, size));
            let e = t->0.large[i];
            assert(thread_heap::mapping_ok(before, m0, page_size, e));
            large_object::lemma_payload(
                e.original_ptr as int,
                layout,
                e.alloc_size as int,
                page_size,
            );
            assert forall|k: int| p <= k < p + layout.spec_size() implies #[trigger] m.dom().contains(
                k,
            ) by {
                assert(m0.dom().contains(k));
            }
            assert forall|m2: Map<int, u8>| #[trigger]
                memory::changed_within(m, m2, p as int, layout.spec_size()) implies self.wf(m2)
                && slot.wf(self.state(), m2, page_size) by {
                self.lemma_outside_write(
                    &th,
                    m,
                    m2,
                    e.original_ptr as int,
                    e.original_ptr + e.alloc_size,
                );
                thread_heap::lemma_mappings_frame(h, m, h, m2, page_size, th@.large);
            }
        }
    }

    /// Allocate zero-filled memory for `layout`.
    ///
    /// A fresh mapping is zero-filled by the system; memory that was used
    /// before, on a free list or in the thread's cache, is zeroed here.
    pub fn alloc_zeroed<M: Memory>(
        &mut self,
        slot: &mut ThreadHeapSlot,
        mem: &mut M,
        layout: Layout,
        page_size: usize,
    ) -> (step: AllocStep)
        requires
            old(self).wf(old(mem)@),
            old(slot).wf(old(self).state(), old(mem)@, page_size as int),
            old(slot).settled(old(self).state()),
            layout.wf(),
            0 < page_size <= isize::MAX,
        ensures
            (final(self).state(), final(slot).state(), step) == alloc_step(
                old(self).state(),
                old(slot).state(),
                layout,
                page_size as int,
            ),
            exists|mid: Map<int, u8>| #[trigger]
                alloc_memory(
                    old(self).state(),
                    old(slot).state(),
                    layout,
                    page_size as int,
                    old(mem)@,
                    mid,
                ) && final(mem)@ == (match step {
                    AllocStep::Done(Some(p)) => memory::put_zeros(
                        mid,
                        p as int,
                        layout.spec_size(),
                    ),
                    _ => mid,
                }),
            step matches AllocStep::Done(Some(p)) ==> forall|i: int|
                p <= i < p + layout.spec_size() ==> #[trigger] final(mem)@[i] == 0
                    && final(mem)@.dom().contains(i),
            same_shape(old(self).state(), final(self).state()),
            final(self).wf(final(mem)@),
            final(slot).wf(final(self).state(), final(mem)@, page_size as int),
            final(slot).settled(final(self).state()),
            final(slot).is_destroyed() == old(slot).is_destroyed(),
            final(self).same_books(old(self)),
    {
        let ghost m0 = mem@;
        let step = self.allocate(slot, mem, layout, page_size);
        let ghost mid = mem@;
        if let AllocStep::Done(Some(p)) = step {
            proof {
                lemma_alloc_memory_dom(
                    old(self).state(),
                    old(slot).state(),
                    layout,
                    page_size as int,
                    m0,
                    mid,
                );
                self.lemma_alloc_result(
                    old(self).state(),
                    slot,
                    old(slot).state(),
                    m0,
                    mid,
                    layout,
                    page_size as int,
                    p,
                );
            }
            mem.fill_zero(p, layout.size());
            proof {
                assert(mem@.dom() =~= mid.dom());
                assert(memory::changed_within(mid, mem@, p as int, layout.spec_size()));
            }
        }
        step
    }
}

/// Some class holds every small size.
pub proof fn lemma_class_exists(size: int)
    requires
        1 <= size <= SMALL_LIMIT,
    ensures
        size_class::is_class_of(size, size_class::class_of(size)),
{
    size_class::lemma_class_sizes();
    let c: int = if size <= 8 {
        0
    } else if size <= 16 {
        1
    } else if size <= 32 {
        2
    } else if size <= 64 {
        3
    } else if size <= 128 {
        4
    } else if size <= 256 {
        5
    } else if size <= 512 {
        6
    } else if size <= 1024 {
        7
    } else if size <= 2048 {
        8
    } else if size <= 4096 {
        9
    } else if size <= 8192 {
        10
    } else if size <= 16384 {
        11
    } else if size <= 32768 {
        12
    } else if size <= 65536 {
        13
    } else if size <= 131072 {
        14
    } else {
        15
    };
    assert(size_class::is_class_of(size, c));
}

/// An allocation maps and unmaps nothing.
pub proof fn lemma_alloc_memory_dom(
    h: HeapView,
    t: Option<ThreadView>,
    layout: Layout,
    page_size: int,
    m: Map<int, u8>,
    m2: Map<int, u8>,
)
    requires
        alloc_memory(h, t, layout, page_size, m, m2),
    ensures
        m2.dom() == m.dom(),
{
    assert(m2.dom() =~= m.dom());
}

// ---------------------------------------------------------------------------
// Deallocation
// ---------------------------------------------------------------------------
/// What a deallocation needs next.
#[derive(Clone, Copy, PartialEq, Eq, Structural, Debug)]
pub enum DeallocStep {
    /// The deallocation is finished.
    Done,
    /// The memory was a large object with this header: call
    /// [`NumaAlloc::release_large`] until it says what to do with the mapping.
    Release(LargeHeader),
}

/// What to do with the mapping of a freed large object.
#[derive(Clone, Copy, PartialEq, Eq, Structural, Debug)]
pub enum ReleaseStep {
    /// Unmap this other mapping, which left the cache, and ask again.
    Evict(LargeCacheEntry),
    /// Nothing: the mapping is in the thread's cache.
    Kept,
    /// The mapping is in the thread's cache; tell the system that its pages
    /// are not needed for now.
    Advise,
    /// Unmap the mapping.
    Unmap,
}

/// `p` is an object of class `c` that is on no list of the heap or the thread.
pub open spec fn is_live(h: HeapView, t: Option<ThreadView>, c: int, p: usize) -> bool {
    let n = h.node_of(p as int);
    &&& h.placed(n, c, p)
    &&& !h.stacks[n][c].contains(p)
    &&& t matches Some(v) ==> (v.node == n ==> v.lacks(c, p))
}

/// What the deallocation of an object of class `c` leaves behind: it goes to
/// the list of the thread if the thread is on the object's node, and to the
/// stack of the object's node otherwise.
pub open spec fn dealloc_outcome(h: HeapView, t: Option<ThreadView>, c: int, p: usize) -> (
    HeapView,
    Option<ThreadView>,
) {
    let n = h.node_of(p as int);
    match t {
        Some(v) => if v.node == n {
            let (h2, t2) = thread_heap::free_outcome(h, v, c, p);
            (h2, Some(t2))
        } else {
            (h.with_stack(n, c, seq![p] + h.stacks[n][c]), t)
        },
        None => (h.with_stack(n, c, seq![p] + h.stacks[n][c]), t),
    }
}

/// The blocks whose links such a deallocation may store.
pub open spec fn dealloc_touched(h: HeapView, t: Option<ThreadView>, c: int, p: usize) -> Seq<
    usize,
> {
    match t {
        Some(v) => if v.node == h.node_of(p as int) {
            seq![p] + v.lists[c]
        } else {
            seq![p]
        },
        None => seq![p],
    }
}

/// The deallocation is one of an object of a size class.
pub open spec fn frees_small(h: HeapView, layout: Layout, p: usize) -> bool {
    layout.effective() <= SMALL_LIMIT && h.owns(p as int)
}

/// What becomes of a freed mapping, given the thread's cached mappings.
pub open spec fn release_step(large: Seq<LargeCacheEntry>, e: LargeCacheEntry) -> (
    Seq<LargeCacheEntry>,
    ReleaseStep,
) {
    if large_cache::must_evict(large, e.alloc_size as int) {
        (large.drop_first(), ReleaseStep::Evict(large[0]))
    } else if e.alloc_size > large_cache::MAX_LARGE_CACHE_BYTES {
        (large, ReleaseStep::Unmap)
    } else if e.alloc_size > MADVISE_THRESHOLD {
        (large.push(e), ReleaseStep::Advise)
    } else {
        (large.push(e), ReleaseStep::Kept)
    }
}

impl NumaAlloc {
    /// Push an object onto the stack of its own node.
    fn push_remote<M: Memory>(
        &mut self,
        slot: &ThreadHeapSlot,
        mem: &mut M,
        node: usize,
        class_index: usize,
        ptr: usize,
        Ghost(page_size): Ghost<int>,
    )
        requires
            old(self).wf(old(mem)@),
            slot.wf(old(self).state(), old(mem)@, page_size),
            old(self).state().placed(node as int, class_index as int, ptr),
            !old(self).state().stacks[node as int][class_index as int].contains(ptr),
            slot.thread() matches Some(th) ==> th@.heap == old(self).state().base && th@.node
                != node,
        ensures
            final(self).state() == old(self).state().with_stack(
                node as int,
                class_index as int,
                seq![ptr] + old(self).state().stacks[node as int][class_index as int],
            ),
            freelist::links_only(old(mem)@, final(mem)@, seq![ptr]),
            final(self).wf(final(mem)@),
            slot.wf(final(self).state(), final(mem)@, page_size),
            final(self).same_books(old(self)),
    {
        let ghost h = self.state();
        let ghost m = mem@;
        let ghost n = node as int;
        let ghost c = class_index as int;
        match &mut self.heap {
            None => {},
            Some(shared) => {
                shared.heap_mut().push_block(mem, node, class_index, ptr);
            },
        }
        proof {
            let h2 = self.state();
            assert(seq![ptr][0] == ptr);
            heap_view::lemma_placed_block(h, m, n, c, ptr);
            freelist::lemma_links_put(
                m,
                ptr,
                freelist::link_word(freelist::head_of(h.stacks[n][c])),
                seq![ptr],
            );
            if slot.thread() is Some {
                let th = slot.thread()->0;
                thread_heap::lemma_remote_stack(
                    h,
                    th@,
                    n,
                    c,
                    seq![ptr] + h.stacks[n][c],
                );
                assert forall|i: int| th@.link_byte(i) implies #[trigger] mem@[i] == m[i] by {
                    if !h.owns(i) {
                        thread_heap::lemma_outside_not_thread_link(h, th@, i);
                    }
                    assert(m.dom().contains(i));
                    if freelist::in_links(seq![ptr], i) {
                        heap_view::lemma_bags(c);
                        thread_heap::lemma_not_thread_link(h, th@, n, c, ptr, i);
                    }
                }
                th.lemma_frame(h, m, h2, mem@);
                thread_heap::lemma_mappings_frame(h, m, h2, mem@, page_size, th@.large);
            }
        }
    }

    /// Push an object of the thread's own node onto the thread's list.
    fn push_local<M: Memory>(
        &mut self,
        slot: &mut ThreadHeapSlot,
        mem: &mut M,
        class_index: usize,
        ptr: usize,
        Ghost(page_size): Ghost<int>,
    )
        requires
            old(self).wf(old(mem)@),
            old(slot).wf(old(self).state(), old(mem)@, page_size),
            class_index < NUM_SIZE_CLASSES,
            old(slot).thread() matches Some(th) && th@.heap == old(self).state().base && old(
                self,
            ).state().placed(th@.node, class_index as int, ptr) && !old(
                self,
            ).state().stacks[th@.node][class_index as int].contains(ptr) && th@.lacks(
                class_index as int,
                ptr,
            ),
        ensures
            final(slot).state() is Some,
            (final(self).state(), final(slot).state()->0) == thread_heap::free_outcome(
                old(self).state(),
                old(slot).state()->0,
                class_index as int,
                ptr,
            ),
            freelist::links_only(
                old(mem)@,
                final(mem)@,
                seq![ptr] + old(slot).state()->0.lists[class_index as int],
            ),
            final(self).wf(final(mem)@),
            final(slot).wf(final(self).state(), final(mem)@, page_size),
            final(slot).is_destroyed() == old(slot).is_destroyed(),
            final(self).same_books(old(self)),
    {
        match &mut slot.inner {
            None => {},
            Some(th) => match &mut self.heap {
                None => {},
                Some(shared) => {
                    let ghost h = shared.inner()@;
                    let ghost m = mem@;
                    let ghost large = th@.large;
                    th.free_block(shared.heap_mut(), mem, class_index, ptr);
                    proof {
                        thread_heap::lemma_mappings_frame(
                            h,
                            m,
                            shared.inner()@,
                            mem@,
                            page_size,
                            large,
                        );
                    }
                },
            },
        }
    }

    /// Whether memory that was requested with `layout` is an object of a size
    /// class.  Freeing one involves the thread's heap; freeing anything else
    /// does not create one.
    pub fn is_small(&self, ptr: usize, layout: &Layout) -> (small: bool)
        requires
            self.ready(),
            self.global().coherent(),
            self.state().shape_ok(),
        ensures
            small == (ptr != 0 && frees_small(self.state(), *layout, ptr)),
    {
        layout.effective_size() <= SMALL_LIMIT && self.owns(ptr)
    }


    /// Deallocate the memory at `ptr` that was allocated for `layout`.
    pub fn dealloc<M: Memory>(
        &mut self,
        slot: &mut ThreadHeapSlot,
        mem: &mut M,
        ptr: usize,
        layout: Layout,
        page_size: usize,
    ) -> (step: DeallocStep)
        requires
            old(self).wf(old(mem)@),
            old(slot).wf(old(self).state(), old(mem)@, page_size as int),
            layout.wf(),
            ptr != 0 && frees_small(old(self).state(), layout, ptr) ==> old(slot).settled(
                old(self).state(),
            ) && is_live(
                old(self).state(),
                old(slot).state(),
                size_class::class_of(layout.effective()),
                ptr,
            ),
            ptr != 0 && !frees_small(old(self).state(), layout, ptr) ==> ptr >= 16 && ptr % 8 == 0
                && memory::range_mapped(old(mem)@, ptr - 16, 16),
        ensures
            ptr != 0 && frees_small(old(self).state(), layout, ptr) ==> {
                let c = size_class::class_of(layout.effective());
                &&& step == DeallocStep::Done
                &&& (final(self).state(), final(slot).state()) == dealloc_outcome(
                    old(self).state(),
                    old(slot).state(),
                    c,
                    ptr,
                )
                &&& freelist::links_only(
                    old(mem)@,
                    final(mem)@,
                    dealloc_touched(old(self).state(), old(slot).state(), c, ptr),
                )
            },
            ptr == 0 || !frees_small(old(self).state(), layout, ptr) ==> {
                &&& step == if ptr == 0 {
                    DeallocStep::Done
                } else {
                    DeallocStep::Release(large_object::header_at(old(mem)@, ptr as int))
                }
                &&& *final(self) == *old(self)
                &&& *final(slot) == *old(slot)
                &&& final(mem)@ == old(mem)@
            },
            same_shape(old(self).state(), final(self).state()),
            final(self).wf(final(mem)@),
            final(slot).wf(final(self).state(), final(mem)@, page_size as int),
            old(slot).settled(old(self).state()) ==> final(slot).settled(final(self).state()),
            final(slot).is_destroyed() == old(slot).is_destroyed(),
            final(self).same_books(old(self)),
    {
        if ptr == 0 {
            return DeallocStep::Done;
        }
        proof {
            layout.lemma_bounds();
            self.global().lemma_layout();
        }
        let effective_size: usize = layout.effective_size();
        if effective_size > SMALL_LIMIT {
            return DeallocStep::Release(large_object::read_header(mem, ptr));
        }
        let origin_node: usize = match self.heap().node_for_ptr(ptr) {
            // Not from our region — treat as large.
            None => return DeallocStep::Release(large_object::read_header(mem, ptr)),
            Some(n) => n,
        };
        let class_index: usize = match size_class::size_class_index(effective_size) {
            Some(i) => i,
            None => return DeallocStep::Done,
        };
        proof {
            size_class::lemma_class_of(layout.effective(), class_index as int);
        }
        let local: bool = match slot.get() {
            Some(th) => th.node_id() == origin_node,
            None => false,
        };
        if local {
            // Local deallocation — push to the thread's list.
            self.push_local(slot, mem, class_index, ptr, Ghost(page_size as int));
        } else {
            // Remote deallocation — push directly to the origin node's stack.
            self.push_remote(
                slot,
                mem,
                origin_node,
                class_index,
                ptr,
                Ghost(page_size as int),
            );
        }
        DeallocStep::Done
    }

    /// One step towards releasing the mapping of a freed large object: try to
    /// cache it for reuse by this thread.
    pub fn release_large(&self, slot: &mut ThreadHeapSlot, header: LargeHeader) -> (step:
        ReleaseStep)
        requires
            self.ready(),
            old(slot).thread() matches Some(th) ==> th.cache().wf(),
        ensures
            ({
                let e = LargeCacheEntry {
                    original_ptr: header.original_ptr,
                    alloc_size: header.alloc_size,
                };
                match old(slot).state() {
                    Some(t) => if t.heap == self.state().base {
                        let (large, s) = release_step(t.large, e);
                        step == s && final(slot).state() == Some(ThreadView { large, ..t })
                    } else {
                        step == ReleaseStep::Unmap && final(slot).state() == Some(t)
                    },
                    None => step == ReleaseStep::Unmap && final(slot).state() is None,
                }
            }),
            final(slot).is_destroyed() == old(slot).is_destroyed(),
            final(slot).thread() matches Some(th) ==> th.cache().wf(),
            forall|m: Map<int, u8>, page_size: int|
                #![trigger old(slot).wf(self.state(), m, page_size)]
                old(slot).wf(self.state(), m, page_size) && can_cache(
                    self.state(),
                    m,
                    page_size,
                    old(slot).state(),
                    header,
                ) ==> final(slot).wf(self.state(), m, page_size),
    {
        let base: usize = self.heap().base();
        let ghost h = self.state();
        match &mut slot.inner {
            None => ReleaseStep::Unmap,
            Some(th) => {
                if !th.global_heap().is_for(base) {
                    return ReleaseStep::Unmap;
                }
                let ghost before = *th;
                let step = th.large_cache_put(header.original_ptr, header.alloc_size);
                proof {
                    let e = LargeCacheEntry {
                        original_ptr: header.original_ptr,
                        alloc_size: header.alloc_size,
                    };
                    large_cache::lemma_total_nonneg(before@.large);
                    assert forall|m: Map<int, u8>, page_size: int|
                        before.wf(h, m) && #[trigger] thread_heap::mappings_ok(
                            h,
                            m,
                            page_size,
                            before@.large,
                        ) && thread_heap::mapping_ok(h, m, page_size, e) && (forall|i: int|
                            0 <= i < before@.large.len() ==> thread_heap::mappings_apart(
                                e,
                                #[trigger] before@.large[i],
                            )) implies th.wf(h, m) && thread_heap::mappings_ok(
                        h,
                        m,
                        page_size,
                        th@.large,
                    ) by {
                        thread_heap::lemma_other_large(h, before@, th@.large);
                    }
                }
                match step {
                    PutStep::Evicted(e) => ReleaseStep::Evict(e),
                    PutStep::Refused => ReleaseStep::Unmap,
                    PutStep::Stored => {
                        // Only release physical pages for large regions.
                        if header.alloc_size > MADVISE_THRESHOLD {
                            ReleaseStep::Advise
                        } else {
                            ReleaseStep::Kept
                        }
                    },
                }
            },
        }
    }
}

/// The mapping of a header can be cached: whole mapped pages outside the
/// regions, apart from everything cached already.
pub open spec fn can_cache(
    h: HeapView,
    m: Map<int, u8>,
    page_size: int,
    t: Option<ThreadView>,
    header: LargeHeader,
) -> bool {
    let e = LargeCacheEntry {
        original_ptr: header.original_ptr,
        alloc_size: header.alloc_size,
    };
    &&& thread_heap::mapping_ok(h, m, page_size, e)
    &&& t matches Some(v) ==> forall|i: int|
        0 <= i < v.large.len() ==> thread_heap::mappings_apart(e, #[trigger] v.large[i])
}

impl NumaAlloc {
    /// Give the small blocks of a thread's heap back, at the end of the thread
    /// or when it turns to another allocator.
    pub fn drain_thread<M: Memory>(&mut self, th: &mut PerThreadHeap, mem: &mut M)
        requires
            old(self).wf(old(mem)@),
            old(th).wf(old(self).state(), old(mem)@),
        ensures
            final(self).state() == thread_heap::drain_outcome(old(self).state(), old(th)@),
            final(th)@ == (ThreadView {
                large: old(th)@.large,
                ..thread_heap::empty_thread(old(th)@.node, old(th)@.heap)
            }),
            freelist::links_only(
                old(mem)@,
                final(mem)@,
                thread_heap::thread_blocks(old(th)@, NUM_SIZE_CLASSES as int),
            ),
            final(self).wf(final(mem)@),
            final(th).wf(final(self).state(), final(mem)@),
            final(self).same_books(old(self)),
    {
        match &mut self.heap {
            None => {},
            Some(shared) => {
                th.drain_to_node_heap(shared.heap_mut(), mem);
            },
        }
    }

    /// Give the share of a drained thread's heap back.  Returns `true` if it
    /// was the last: the heap's mapping can then be unmapped.
    pub fn release_thread(&mut self, th: PerThreadHeap) -> (last: bool)
        requires
            old(self).ready(),
            th@.heap == old(self).state().base,
            old(self).shares() > 0,
        ensures
            last == (old(self).shares() == 1),
            final(self).shares() == old(self).shares() - 1,
            final(self).ready(),
            final(self).global() == old(self).global(),
            final(self).counter() == old(self).counter(),
            final(self).topology() == old(self).topology(),
            final(self).holds_share() == old(self).holds_share(),
            forall|m: Map<int, u8>| #[trigger] old(self).wf(m) ==> final(self).wf(m),
    {
        let handle = th.into_handle();
        match &mut self.heap {
            None => false,
            Some(shared) => shared.release(handle),
        }
    }

    /// Give the allocator's own share back.  Returns `true` if it was the
    /// last: the heap's mapping can then be unmapped.
    pub fn release(&mut self) -> (last: bool)
        requires
            exists|m: Map<int, u8>| old(self).wf(m),
            old(self).holds_share(),
            old(self).shares() > 0,
        ensures
            last == (old(self).shares() == 1),
            final(self).shares() == old(self).shares() - 1,
            final(self).ready(),
            final(self).global() == old(self).global(),
            final(self).counter() == old(self).counter(),
            final(self).topology() == old(self).topology(),
            !final(self).holds_share(),
            forall|m: Map<int, u8>| #[trigger] old(self).wf(m) ==> final(self).wf(m),
    {
        let mut share: Option<HeapHandle> = None;
        core::mem::swap(&mut share, &mut self.share);
        match share {
            None => false,
            Some(handle) => match &mut self.heap {
                None => false,
                Some(shared) => shared.release(handle),
            },
        }
    }
}

// ---------------------------------------------------------------------------
// Reallocation
// ---------------------------------------------------------------------------
/// What a reallocation needs next.
#[derive(Clone, Copy, PartialEq, Eq, Structural, Debug)]
pub enum ReallocStep {
    /// The reallocation is finished and the memory stays where it is, or it
    /// failed and the old memory is unchanged (`None`).
    Done(Option<usize>),
    /// The contents were copied to `ptr`; finish the deallocation of the old
    /// memory.
    Moved { ptr: usize, release: DeallocStep },
    /// Map `size` fresh bytes, bind them to `node`, call
    /// [`NumaAlloc::finish_large`] with `layout` and then
    /// [`NumaAlloc::finish_realloc`]; without a mapping the reallocation fails.
    MapFresh { size: usize, node: usize, layout: Layout },
}

/// The old memory has room for the new size: both sizes fall into the same
/// small class and the memory is an object of the heap.
pub open spec fn fits_in_place(
    h: HeapView,
    ptr: usize,
    old_layout: Layout,
    new_size: usize,
) -> bool {
    let new_effective = if new_size < old_layout.spec_align() {
        old_layout.spec_align()
    } else {
        new_size as int
    };
    &&& old_layout.effective() <= SMALL_LIMIT
    &&& new_effective <= SMALL_LIMIT
    &&& size_class::class_of(old_layout.effective()) == size_class::class_of(new_effective)
    &&& ptr != 0
    &&& h.owns(ptr as int)
}

/// The memory at `ptr` was allocated for `layout`: an object of its class that
/// is on no list, or the payload of a mapping outside the regions that is not
/// cached.
pub open spec fn allocated(
    h: HeapView,
    t: Option<ThreadView>,
    m: Map<int, u8>,
    ptr: usize,
    layout: Layout,
) -> bool {
    &&& ptr != 0
    &&& if frees_small(h, layout, ptr) {
        is_live(h, t, size_class::class_of(layout.effective()), ptr)
    } else {
        let end = ptr + layout.spec_size();
        &&& ptr >= 16
        &&& ptr % 8 == 0
        &&& end <= usize::MAX
        &&& memory::range_mapped(m, ptr - 16, 16 + layout.spec_size())
        &&& end <= h.base || h.lo(h.nodes) <= ptr - 16
        &&& t matches Some(v) ==> forall|i: int|
            0 <= i < v.large.len() ==> end <= (#[trigger] v.large[i]).original_ptr
                || v.large[i].original_ptr + v.large[i].alloc_size <= ptr - 16
    }
}

/// Smaller of two sizes.
pub open spec fn smaller(a: int, b: int) -> int {
    if a < b {
        a
    } else {
        b
    }
}

/// What the second half of a reallocation does to memory: copy the contents,
/// then link the old memory into a list if it was an object of a class.
pub open spec fn moved_memory(
    h: HeapView,
    t: Option<ThreadView>,
    ptr: usize,
    old_layout: Layout,
    new_ptr: usize,
    new_size: usize,
    m: Map<int, u8>,
    m2: Map<int, u8>,
) -> bool {
    let copied = memory::put_copy(
        m,
        ptr as int,
        new_ptr as int,
        smaller(old_layout.spec_size(), new_size as int),
    );
    if frees_small(h, old_layout, ptr) {
        freelist::links_only(
            copied,
            m2,
            dealloc_touched(h, t, size_class::class_of(old_layout.effective()), ptr),
        )
    } else {
        m2 == copied
    }
}

/// What the second half of a reallocation does to the heap and the thread's
/// heap, and its result.
pub open spec fn moved_step(
    h: HeapView,
    t: Option<ThreadView>,
    ptr: usize,
    old_layout: Layout,
    m: Map<int, u8>,
) -> (HeapView, Option<ThreadView>, DeallocStep) {
    if frees_small(h, old_layout, ptr) {
        let (h2, t2) = dealloc_outcome(
            h,
            t,
            size_class::class_of(old_layout.effective()),
            ptr,
        );
        (h2, t2, DeallocStep::Done)
    } else {
        (h, t, DeallocStep::Release(large_object::header_at(m, ptr as int)))
    }
}

/// What a reallocation does to the heap and the thread's heap, and its result:
/// memory with room for the new size stays where it is, a size that makes no
/// layout is refused, and otherwise the contents move to a new allocation.
pub open spec fn realloc_step(
    h: HeapView,
    t: Option<ThreadView>,
    ptr: usize,
    old_layout: Layout,
    new_size: usize,
    page_size: int,
    m: Map<int, u8>,
) -> (HeapView, Option<ThreadView>, ReallocStep) {
    if fits_in_place(h, ptr, old_layout, new_size) {
        (h, t, ReallocStep::Done(Some(ptr)))
    } else if !layout::valid_layout(new_size as int, old_layout.spec_align()) {
        (h, t, ReallocStep::Done(None))
    } else {
        let layout = Layout::of(new_size, old_layout.spec_align() as usize);
        let (h1, t1, s1) = alloc_step(h, t, layout, page_size);
        match s1 {
            AllocStep::Done(None) => (h1, t1, ReallocStep::Done(None)),
            AllocStep::MapFresh { size, node } => (
                h1,
                t1,
                ReallocStep::MapFresh { size, node, layout },
            ),
            AllocStep::Done(Some(q)) => {
                let (h2, t2, release) = moved_step(h1, t1, ptr, old_layout, m);
                (h2, t2, ReallocStep::Moved { ptr: q, release })
            },
        }
    }
}

/// What a reallocation does to memory: what the new allocation does, and then
/// what the move does.
pub open spec fn realloc_memory(
    h: HeapView,
    t: Option<ThreadView>,
    ptr: usize,
    old_layout: Layout,
    new_size: usize,
    page_size: int,
    m: Map<int, u8>,
    m2: Map<int, u8>,
) -> bool {
    if fits_in_place(h, ptr, old_layout, new_size) || !layout::valid_layout(
        new_size as int,
        old_layout.spec_align(),
    ) {
        m2 == m
    } else {
        let layout = Layout::of(new_size, old_layout.spec_align() as usize);
        let (h1, t1, s1) = alloc_step(h, t, layout, page_size);
        match s1 {
            AllocStep::Done(Some(q)) => exists|mid: Map<int, u8>| #[trigger]
                alloc_memory(h, t, layout, page_size, m, mid) && moved_memory(
                    h1,
                    t1,
                    ptr,
                    old_layout,
                    q,
                    new_size,
                    mid,
                    m2,
                ),
            _ => alloc_memory(h, t, layout, page_size, m, m2),
        }
    }
}

impl NumaAlloc {
    /// Second half of a reallocation: copy the contents to `new_ptr` and
    /// deallocate the old memory.
    fn copy_and_free<M: Memory>(
        &mut self,
        slot: &mut ThreadHeapSlot,
        mem: &mut M,
        ptr: usize,
        old_layout: Layout,
        new_ptr: usize,
        new_size: usize,
        page_size: usize,
    ) -> (step: DeallocStep)
        requires
            old(self).wf(old(mem)@),
            old(slot).wf(old(self).state(), old(mem)@, page_size as int),
            old(slot).settled(old(self).state()),
            old_layout.wf(),
            allocated(old(self).state(), old(slot).state(), old(mem)@, ptr, old_layout),
            memory::range_mapped(old(mem)@, new_ptr as int, new_size as int),
            ptr + old_layout.spec_size() <= new_ptr || new_ptr + new_size <= ptr - 16
                || frees_small(old(self).state(), old_layout, ptr) && new_ptr + new_size <= ptr,
            forall|m2: Map<int, u8>| #[trigger]
                memory::changed_within(old(mem)@, m2, new_ptr as int, new_size as int) ==> old(
                    self,
                ).wf(m2) && old(slot).wf(old(self).state(), m2, page_size as int),
        ensures
            (final(self).state(), final(slot).state(), step) == moved_step(
                old(self).state(),
                old(slot).state(),
                ptr,
                old_layout,
                old(mem)@,
            ),
            moved_memory(
                old(self).state(),
                old(slot).state(),
                ptr,
                old_layout,
                new_ptr,
                new_size,
                old(mem)@,
                final(mem)@,
            ),
            same_shape(old(self).state(), final(self).state()),
            final(self).wf(final(mem)@),
            final(slot).wf(final(self).state(), final(mem)@, page_size as int),
            final(slot).settled(final(self).state()),
            final(slot).is_destroyed() == old(slot).is_destroyed(),
            final(self).same_books(old(self)),
    {
        let ghost m = mem@;
        let ghost h = self.state();
        let copy_size: usize = if old_layout.size() < new_size {
            old_layout.size()
        } else {
            new_size
        };
        proof {
            old_layout.lemma_bounds();
            if frees_small(h, old_layout, ptr) {
                let c = size_class::class_of(old_layout.effective());
                lemma_class_exists(old_layout.effective());
                heap_view::lemma_placed_inside(h, h.node_of(ptr as int), c, ptr);
                assert(h.mapped(m));
            }
            assert forall|i: int| ptr <= i < ptr + copy_size implies #[trigger] m.dom().contains(
                i,
            ) by {
                if frees_small(h, old_layout, ptr) {
                    assert(h.base <= i < h.base + h.nodes * h.region);
                }
            }
        }
        mem.copy(ptr, new_ptr, copy_size);
        proof {
            assert(mem@.dom() =~= m.dom());
            assert(memory::changed_within(m, mem@, new_ptr as int, new_size as int));
            if !frees_small(h, old_layout, ptr) {
                assert(memory::range_mapped(mem@, ptr - 16, 16));
                assert(memory::agree(m, mem@, ptr - 16, 8)) by {
                    assert forall|i: int| ptr - 16 <= i < ptr - 8 implies #[trigger] mem@[i]
                        == m[i] by {
                        assert(m.dom().contains(i));
                    }
                }
                assert(memory::agree(m, mem@, ptr - 8, 8)) by {
                    assert forall|i: int| ptr - 8 <= i < ptr implies #[trigger] mem@[i]
                        == m[i] by {
                        assert(m.dom().contains(i));
                    }
                }
                memory::lemma_word_agree(m, mem@, ptr - 16);
                memory::lemma_word_agree(m, mem@, ptr - 8);
            }
        }
        self.dealloc(slot, mem, ptr, old_layout, page_size)
    }
}

/// Memory that was allocated stays allocated, and is apart from what another
/// allocation returns.
pub proof fn lemma_alloc_apart(
    h: HeapView,
    t: Option<ThreadView>,
    m: Map<int, u8>,
    m2: Map<int, u8>,
    layout: Layout,
    page_size: int,
    ptr: usize,
    old_layout: Layout,
)
    requires
        h.wf(),
        h.mapped(m),
        t matches Some(v) ==> v.wf(h) && thread_heap::mappings_ok(h, m, page_size, v.large),
        layout.wf(),
        old_layout.wf(),
        0 < page_size <= isize::MAX,
        allocated(h, t, m, ptr, old_layout),
        alloc_memory(h, t, layout, page_size, m, m2),
    ensures
        ({
            let (h2, t2, step) = alloc_step(h, t, layout, page_size);
            &&& allocated(h2, t2, m2, ptr, old_layout)
            &&& frees_small(h2, old_layout, ptr) == frees_small(h, old_layout, ptr)
            &&& step matches AllocStep::Done(Some(q)) ==> {
                ||| ptr + old_layout.spec_size() <= q
                ||| q + layout.spec_size() <= ptr - 16
                ||| frees_small(h, old_layout, ptr) && q + layout.spec_size() <= ptr
            }
            &&& !frees_small(h, old_layout, ptr) ==> large_object::header_at(m2, ptr as int)
                == large_object::header_at(m, ptr as int)
        }),
{
    let (h2, t2, step) = alloc_step(h, t, layout, page_size);
    let d = size_class::class_of(old_layout.effective());
    let n = h.node_of(ptr as int);
    layout.lemma_bounds();
    old_layout.lemma_bounds();
    lemma_alloc_memory_dom(h, t, layout, page_size, m, m2);
    if frees_small(h, old_layout, ptr) {
        lemma_class_exists(old_layout.effective());
        heap_view::lemma_placed_inside(h, n, d, ptr);
    }
    if served_small(h, t, layout) {
        let v = t->0;
        let c = size_class::class_of(layout.effective());
        lemma_class_exists(layout.effective());
        thread_heap::lemma_alloc_outcome(h, v, c);
        let q = step->Done_0->0;
        heap_view::lemma_placed_inside(h2, v.node, c, q);
        let touched = thread_heap::alloc_touched(h, v, c);
        assert forall|i: int| m.dom().contains(i) && !h.owns(i) implies #[trigger] m2[i]
            == m[i] by {
            if freelist::in_links(touched, i) {
                let a = choose|a: usize| #[trigger] touched.contains(a) && a <= i < a + 8;
                assert(h2.placed(v.node, c, a));
                heap_view::lemma_bags(c);
                heap_view::lemma_placed_inside(h2, v.node, c, a);
            }
        }
        if frees_small(h, old_layout, ptr) {
            thread_heap::lemma_alloc_keeps(h, v, c, n, d, ptr);
            heap_view::lemma_placed_disjoint(h2, v.node, c, q, n, d, ptr);
        } else {
            lemma_header_kept(m, m2, ptr);
        }
    } else {
        let size = large_object::large_extent(layout, page_size);
        if let AllocStep::Done(Some(q)) = step {
            let v = t->0;
            let i = large_cache::best(v.large, size)->0;
            assert(large_cache::best_fit(v.large, i, size));
            let e = v.large[i];
            assert(thread_heap::mapping_ok(h, m, page_size, e));
            large_object::lemma_payload(
                e.original_ptr as int,
                layout,
                e.alloc_size as int,
                page_size,
            );
            let header = LargeHeader { original_ptr: e.original_ptr, alloc_size: e.alloc_size };
            assert(memory::range_mapped(m, q - 16, 16));
            large_object::lemma_with_header(m, q as int, header);
            let rest = v.large.remove(i);
            if !frees_small(h, old_layout, ptr) {
                assert forall|j: int| 0 <= j < rest.len() implies ptr + old_layout.spec_size()
                    <= (#[trigger] rest[j]).original_ptr || rest[j].original_ptr
                    + rest[j].alloc_size <= ptr - 16 by {
                    let k = if j < i {
                        j
                    } else {
                        j + 1
                    };
                    assert(rest[j] == v.large[k]);
                }
                lemma_header_kept(m, m2, ptr);
            }
        }
    }
}

/// A header is kept by memory that agrees on it.
proof fn lemma_header_kept(m: Map<int, u8>, m2: Map<int, u8>, ptr: usize)
    requires
        forall|i: int| ptr - 16 <= i < ptr ==> #[trigger] m2[i] == m[i],
    ensures
        large_object::header_at(m2, ptr as int) == large_object::header_at(m, ptr as int),
{
    memory::lemma_word_agree(m, m2, ptr - 16);
    memory::lemma_word_agree(m, m2, ptr - 8);
}

impl NumaAlloc {
    /// Whether an allocation has room for `new_size` bytes: both sizes land in
    /// the same size class, and the memory is an object of that class.
    pub fn fits_in_place(&self, ptr: usize, old_layout: &Layout, new_size: usize) -> (fits: bool)
        requires
            self.ready(),
            self.global().coherent(),
            self.state().shape_ok(),
            old_layout.wf(),
        ensures
            fits == fits_in_place(self.state(), ptr, *old_layout, new_size),
    {
        proof {
            old_layout.lemma_bounds();
        }
        let old_effective: usize = old_layout.effective_size();
        let new_effective: usize = if new_size < old_layout.align() {
            old_layout.align()
        } else {
            new_size
        };
        if old_effective > SMALL_LIMIT || new_effective > SMALL_LIMIT {
            return false;
        }
        match (
            size_class::size_class_index(old_effective),
            size_class::size_class_index(new_effective),
        ) {
            (Some(old_class), Some(new_class)) => {
                proof {
                    size_class::lemma_class_of(old_effective as int, old_class as int);
                    size_class::lemma_class_of(new_effective as int, new_class as int);
                }
                old_class == new_class && self.owns(ptr)
            },
            _ => false,
        }
    }

    /// Resize the memory at `ptr` that was allocated for `old_layout`.
    ///
    /// Memory whose old and new size fall into the same small class stays
    /// where it is; otherwise the contents move to a new allocation.
    pub fn realloc<M: Memory>(
        &mut self,
        slot: &mut ThreadHeapSlot,
        mem: &mut M,
        ptr: usize,
        old_layout: Layout,
        new_size: usize,
        page_size: usize,
    ) -> (step: ReallocStep)
        requires
            old(self).wf(old(mem)@),
            old(slot).wf(old(self).state(), old(mem)@, page_size as int),
            old(slot).settled(old(self).state()),
            old_layout.wf(),
            0 < page_size <= isize::MAX,
            allocated(old(self).state(), old(slot).state(), old(mem)@, ptr, old_layout),
        ensures
            (final(self).state(), final(slot).state(), step) == realloc_step(
                old(self).state(),
                old(slot).state(),
                ptr,
                old_layout,
                new_size,
                page_size as int,
                old(mem)@,
            ),
            realloc_memory(
                old(self).state(),
                old(slot).state(),
                ptr,
                old_layout,
                new_size,
                page_size as int,
                old(mem)@,
                final(mem)@,
            ),
            same_shape(old(self).state(), final(self).state()),
            final(self).wf(final(mem)@),
            final(slot).wf(final(self).state(), final(mem)@, page_size as int),
            final(slot).settled(final(self).state()),
            final(slot).is_destroyed() == old(slot).is_destroyed(),
            final(self).same_books(old(self)),
    {
        let ghost h = self.state();
        let ghost t = slot.state();
        let ghost m = mem@;
        if self.fits_in_place(ptr, &old_layout, new_size) {
            return ReallocStep::Done(Some(ptr));
        }
        // General case: allocate, copy, deallocate.
        let layout = match Layout::from_size_align(new_size, old_layout.align()) {
            Ok(l) => l,
            Err(_) => return ReallocStep::Done(None),
        };
        let allocated = self.allocate(slot, mem, layout, page_size);
        let ghost mid = mem@;
        proof {
            lemma_alloc_apart(h, t, m, mid, layout, page_size as int, ptr, old_layout);
        }
        match allocated {
            AllocStep::Done(None) => ReallocStep::Done(None),
            AllocStep::MapFresh { size, node } => ReallocStep::MapFresh { size, node, layout },
            AllocStep::Done(Some(new_ptr)) => {
                proof {
                    lemma_alloc_memory_dom(h, t, layout, page_size as int, m, mid);
                    self.lemma_alloc_result(
                        h,
                        slot,
                        t,
                        m,
                        mid,
                        layout,
                        page_size as int,
                        new_ptr,
                    );
                }
                let release = self.copy_and_free(
                    slot,
                    mem,
                    ptr,
                    old_layout,
                    new_ptr,
                    new_size,
                    page_size,
                );
                ReallocStep::Moved { ptr: new_ptr, release }
            },
        }
    }

    /// Finish a reallocation into a fresh mapping: copy the contents to the
    /// payload `new_ptr` and deallocate the old memory.
    pub fn finish_realloc<M: Memory>(
        &mut self,
        slot: &mut ThreadHeapSlot,
        mem: &mut M,
        ptr: usize,
        old_layout: Layout,
        new_ptr: usize,
        new_size: usize,
        page_size: usize,
    ) -> (release: DeallocStep)
        requires
            old(self).wf(old(mem)@),
            old(slot).wf(old(self).state(), old(mem)@, page_size as int),
            old(slot).settled(old(self).state()),
            old_layout.wf(),
            allocated(old(self).state(), old(slot).state(), old(mem)@, ptr, old_layout),
            memory::range_mapped(old(mem)@, new_ptr as int, new_size as int),
            new_ptr + new_size <= old(self).state().base || old(self).state().lo(
                old(self).state().nodes,
            ) <= new_ptr,
            ptr + old_layout.spec_size() <= new_ptr || new_ptr + new_size <= ptr - 16
                || frees_small(old(self).state(), old_layout, ptr) && new_ptr + new_size <= ptr,
        ensures
            (final(self).state(), final(slot).state(), release) == moved_step(
                old(self).state(),
                old(slot).state(),
                ptr,
                old_layout,
                old(mem)@,
            ),
            moved_memory(
                old(self).state(),
                old(slot).state(),
                ptr,
                old_layout,
                new_ptr,
                new_size,
                old(mem)@,
                final(mem)@,
            ),
            same_shape(old(self).state(), final(self).state()),
            final(self).wf(final(mem)@),
            final(slot).wf(final(self).state(), final(mem)@, page_size as int),
            final(slot).settled(final(self).state()),
            final(slot).is_destroyed() == old(slot).is_destroyed(),
            final(self).same_books(old(self)),
    {
        proof {
            let h = self.state();
            let m = mem@;
            assert forall|m2: Map<int, u8>| #[trigger]
                memory::changed_within(m, m2, new_ptr as int, new_size as int) implies self.wf(
                m2,
            ) && slot.wf(h, m2, page_size as int) by {
                self.lemma_outside_frame(m, m2, new_ptr as int, new_ptr + new_size);
                if slot.thread() is Some {
                    let th = slot.thread()->0;
                    self.lemma_outside_write(&th, m, m2, new_ptr as int, new_ptr + new_size);
                    thread_heap::lemma_mappings_frame(h, m, h, m2, page_size as int, th@.large);
                }
            }
        }
        self.copy_and_free(slot, mem, ptr, old_layout, new_ptr, new_size, page_size)
    }

    /// Writes outside the regions leave the heap as it is.
    proof fn lemma_outside_frame(&self, m: Map<int, u8>, m2: Map<int, u8>, from: int, to: int)
        requires
            self.wf(m),
            memory::changed_within(m, m2, from, to - from),
            to <= self.state().base || self.state().lo(self.state().nodes) <= from,
        ensures
            self.wf(m2),
    {
        let h = self.state();
        assert forall|i: int| h.link_byte(i) implies #[trigger] m2[i] == m[i] by {
            if !h.owns(i) {
                heap_view::lemma_outside_not_link(h, i);
            }
            assert(m.dom().contains(i));
        }
        self.global().lemma_frame(m, m2);
    }
}

} // verus!
