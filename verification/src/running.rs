//! What the functions require, and that a running system always gives it.
//!
//! A [`System`] shows an allocator, the slots of its threads and memory.  In a
//! well-formed one every call meets what its function requires; and what the
//! function leaves behind, together with the slots of all other threads, is
//! what the next call requires.
use crate::allocator::{self, NumaAlloc, ThreadHeapSlot};
use crate::freelist;
use crate::heap_view::{self, HeapView};
use crate::large_object::{self, LargeHeader};
use crate::laws;
use crate::layout::Layout;
use crate::memory;
use crate::size_class::{self, NUM_SIZE_CLASSES, SMALL_LIMIT};
use crate::system::{self, Call, Owner, System};
use crate::thread_heap::{self, PerThreadHeap};
use vstd::prelude::*;

verus! {

/// The slot holds the heap of thread `i`.
pub open spec fn holds(slot: ThreadHeapSlot, s: System, page_size: int, i: int) -> bool {
    &&& 0 <= i < s.world.threads.len()
    &&& slot.state() == Some(s.world.threads[i])
    &&& slot.wf(s.world.heap, s.memory, page_size)
}

/// The slot is that of `thread`, or of one that has exited.
pub open spec fn belongs(
    slot: ThreadHeapSlot,
    s: System,
    page_size: int,
    thread: Option<int>,
) -> bool {
    match thread {
        Some(i) => holds(slot, s, page_size, i),
        None => slot.thread() is None && slot.is_destroyed(),
    }
}

/// The system shows the allocator and the slots of its threads.
pub open spec fn shows(
    s: System,
    page_size: int,
    numa: NumaAlloc,
    slots: Seq<ThreadHeapSlot>,
) -> bool {
    &&& numa.wf(s.memory)
    &&& numa.state() == s.world.heap
    &&& slots.len() == s.world.threads.len()
    &&& forall|i: int| 0 <= i < slots.len() ==> holds(#[trigger] slots[i], s, page_size, i)
}

// ---------------------------------------------------------------------------
// What the functions require
// ---------------------------------------------------------------------------
/// Any thread can allocate, and so can one that has exited.
pub proof fn law_can_allocate(
    s: System,
    page_size: int,
    thread: Option<int>,
    slot: ThreadHeapSlot,
)
    requires
        s.wf(page_size),
        belongs(slot, s, page_size, thread),
    ensures
        slot.wf(s.world.heap, s.memory, page_size),
        slot.settled(s.world.heap),
        slot.state() == s.thread(thread),
{
    if let Some(i) = thread {
        assert(s.world.threads[i].wf(s.world.heap));
    }
}

/// An allocation that asked for a fresh mapping can be finished in the one that
/// the system gave.
pub proof fn law_can_finish(s: System, page_size: int, raw: usize, layout: Layout)
    requires
        system::fresh(
            s,
            page_size,
            raw,
            large_object::large_extent(layout, page_size),
        ),
    ensures
        ({
            let size = large_object::large_extent(layout, page_size);
            &&& raw + size <= usize::MAX
            &&& memory::range_mapped(
                system::with_fresh(s.memory, raw as int, size),
                raw as int,
                size,
            )
        }),
{
}

/// Any thread can deallocate or reallocate a small object in use, with a layout
/// of its class.
pub proof fn law_can_deallocate(
    s: System,
    page_size: int,
    thread: Option<int>,
    slot: ThreadHeapSlot,
    addr: usize,
    layout: Layout,
)
    requires
        s.wf(page_size),
        belongs(slot, s, page_size, thread),
        s.world.live.dom().contains(addr),
        layout.wf(),
        layout.effective() <= SMALL_LIMIT,
        size_class::class_of(layout.effective()) == s.world.live[addr],
    ensures
        addr != 0,
        allocator::frees_small(s.world.heap, layout, addr),
        allocator::is_live(s.world.heap, slot.state(), s.world.live[addr], addr),
        allocator::allocated(s.world.heap, slot.state(), s.memory, addr, layout),
{
    let h = s.world.heap;
    let c = s.world.live[addr];
    assert(s.world.live_ok(addr));
    heap_view::lemma_bags(c);
    heap_view::lemma_placed_inside(h, h.node_of(addr as int), c, addr);
    assert(!s.world.is_free(h.node_of(addr as int), c, addr));
    if let Some(i) = thread {
        laws::law_live_can_be_freed(s.world, i, addr);
    }
}

/// Any thread can deallocate or reallocate a large object, with the layout that
/// it was allocated for: its header leads to its mapping, which can be cached.
pub proof fn law_can_release(
    s: System,
    page_size: int,
    thread: Option<int>,
    slot: ThreadHeapSlot,
    key: usize,
    payload: usize,
    layout: Layout,
)
    requires
        s.wf(page_size),
        belongs(slot, s, page_size, thread),
        s.maps.dom().contains(key),
        s.maps[key].owner == (Owner::Live { payload, layout }),
    ensures
        ({
            let header = LargeHeader { original_ptr: key, alloc_size: s.maps[key].size };
            &&& payload >= 16
            &&& payload % 8 == 0
            &&& !allocator::frees_small(s.world.heap, layout, payload)
            &&& memory::range_mapped(s.memory, payload - 16, 16)
            &&& allocator::allocated(s.world.heap, slot.state(), s.memory, payload, layout)
            &&& large_object::header_at(s.memory, payload as int) == header
            &&& allocator::can_cache(
                s.world.heap,
                s.memory,
                page_size,
                slot.state(),
                header,
            )
        }),
{
    let h = s.world.heap;
    assert(s.object_ok(key, payload, layout));
    assert(thread_heap::mapping_ok(h, s.memory, page_size, s.entry(key)));
    layout.lemma_bounds();
    if let Some(i) = thread {
        let large = s.world.threads[i].large;
        assert forall|j: int| 0 <= j < large.len() implies thread_heap::mappings_apart(
            s.entry(key),
            #[trigger] large[j],
        ) by {
            assert(s.has(i, j));
            let e = s.cached(i, j);
            assert(s.entry(e.original_ptr) == e);
        }
    }
    assert forall|x: int| payload - 16 <= x < payload + layout.spec_size() implies
        #[trigger] s.memory.dom().contains(x) by {
        assert(s.covers(key, x));
        system::lemma_covered(s, page_size, key, x);
    }
}

/// A reallocation into a fresh mapping can be finished once the mapping holds
/// its new object: from a small object.
pub proof fn law_can_move_small(
    s: System,
    page_size: int,
    addr: usize,
    old_layout: Layout,
    key: usize,
    payload: usize,
    layout: Layout,
)
    requires
        s.wf(page_size),
        s.world.live.dom().contains(addr),
        old_layout.wf(),
        old_layout.effective() <= SMALL_LIMIT,
        size_class::class_of(old_layout.effective()) == s.world.live[addr],
        s.maps.dom().contains(key),
        s.maps[key].owner == (Owner::Live { payload, layout }),
    ensures
        ({
            let h = s.world.heap;
            let end = payload + layout.spec_size();
            &&& memory::range_mapped(s.memory, payload as int, layout.spec_size())
            &&& end <= h.base || h.lo(h.nodes) <= payload
            &&& addr + old_layout.spec_size() <= payload || allocator::frees_small(
                h,
                old_layout,
                addr,
            ) && end <= addr
        }),
{
    let h = s.world.heap;
    let c = s.world.live[addr];
    assert(s.object_ok(key, payload, layout));
    assert(thread_heap::mapping_ok(h, s.memory, page_size, s.entry(key)));
    assert(s.world.live_ok(addr));
    old_layout.lemma_bounds();
    allocator::lemma_class_exists(old_layout.effective());
    heap_view::lemma_bags(c);
    heap_view::lemma_placed_inside(h, h.node_of(addr as int), c, addr);
    assert forall|x: int| payload <= x < payload + layout.spec_size() implies
        #[trigger] s.memory.dom().contains(x) by {
        assert(s.covers(key, x));
        system::lemma_covered(s, page_size, key, x);
    }
}

/// Same from a large object.
pub proof fn law_can_move_large(
    s: System,
    page_size: int,
    old_key: usize,
    old_payload: usize,
    old_layout: Layout,
    key: usize,
    payload: usize,
    layout: Layout,
)
    requires
        s.wf(page_size),
        s.maps.dom().contains(old_key),
        s.maps[old_key].owner == (Owner::Live { payload: old_payload, layout: old_layout }),
        s.maps.dom().contains(key),
        s.maps[key].owner == (Owner::Live { payload, layout }),
        key != old_key,
    ensures
        ({
            let h = s.world.heap;
            let end = payload + layout.spec_size();
            &&& memory::range_mapped(s.memory, payload as int, layout.spec_size())
            &&& end <= h.base || h.lo(h.nodes) <= payload
            &&& old_payload + old_layout.spec_size() <= payload || end <= old_payload - 16
        }),
{
    let h = s.world.heap;
    assert(s.object_ok(key, payload, layout));
    assert(s.object_ok(old_key, old_payload, old_layout));
    assert(thread_heap::mapping_ok(h, s.memory, page_size, s.entry(key)));
    assert(thread_heap::mappings_apart(s.entry(key), s.entry(old_key)));
    assert forall|x: int| payload <= x < payload + layout.spec_size() implies
        #[trigger] s.memory.dom().contains(x) by {
        assert(s.covers(key, x));
        system::lemma_covered(s, page_size, key, x);
    }
}

/// The heap of any thread can be drained, at the end of the thread, and its
/// share given back.
pub proof fn law_can_exit(s: System, page_size: int, i: int, slot: ThreadHeapSlot)
    requires
        s.wf(page_size),
        holds(slot, s, page_size, i),
    ensures
        slot.thread() matches Some(th) && th.wf(s.world.heap, s.memory) && th@.heap
            == s.world.heap.base && th.cache().wf(),
{
    assert(s.world.threads[i].wf(s.world.heap));
}

// ---------------------------------------------------------------------------
// What the calls leave behind
// ---------------------------------------------------------------------------
/// The memories hold the same in the regions.
pub open spec fn regions_agree(h: HeapView, m: Map<int, u8>, m2: Map<int, u8>) -> bool {
    forall|x: int|
        h.base <= x < h.lo(h.nodes) ==> m2.dom().contains(x) && #[trigger] m2[x] == m[x]
}

/// The heap of a thread is kept by memory that agrees on the regions.
proof fn lemma_thread_kept(
    th: PerThreadHeap,
    h: HeapView,
    m: Map<int, u8>,
    h2: HeapView,
    m2: Map<int, u8>,
)
    requires
        th.wf(h, m),
        th@.wf(h2),
        h2.wf(),
        h2.mapped(m2),
        regions_agree(h2, m, m2),
    ensures
        th.wf(h2, m2),
{
    assert forall|x: int| th@.link_byte(x) implies #[trigger] m2[x] == m[x] by {
        if !h2.owns(x) {
            thread_heap::lemma_outside_not_thread_link(h2, th@, x);
        }
    }
    th.lemma_frame(h, m, h2, m2);
}

/// An allocator is kept by memory that agrees on the regions.
pub proof fn law_allocator_kept(numa: NumaAlloc, m: Map<int, u8>, m2: Map<int, u8>)
    requires
        numa.wf(m),
        numa.state().mapped(m2),
        regions_agree(numa.state(), m, m2),
    ensures
        numa.wf(m2),
{
    let h = numa.state();
    numa.lemma_wf(m);
    assert forall|x: int| h.link_byte(x) implies #[trigger] m2[x] == m[x] by {
        if !h.owns(x) {
            heap_view::lemma_outside_not_link(h, x);
        }
    }
    numa.global().lemma_frame(m, m2);
    numa.lemma_frame(m, m2);
}

/// A slot that holds a thread's heap in some memory holds it in that of the
/// system, if they agree on the regions.
proof fn lemma_slot_kept(
    slot: ThreadHeapSlot,
    h: HeapView,
    m: Map<int, u8>,
    s: System,
    page_size: int,
    i: int,
)
    requires
        s.wf(page_size),
        0 <= i < s.world.threads.len(),
        slot.state() == Some(s.world.threads[i]),
        h.base == s.world.heap.base,
        slot.wf(h, m, page_size),
        regions_agree(s.world.heap, m, s.memory),
    ensures
        holds(slot, s, page_size, i),
{
    assert(s.world.threads[i].wf(s.world.heap));
    lemma_thread_kept(slot.thread()->0, h, m, s.world.heap, s.memory);
    system::lemma_cache_ok(s, page_size, i);
}

/// The thread that a call concerns.
pub open spec fn caller(c: Call) -> Option<int> {
    match c {
        Call::Allocate { thread, .. } => thread,
        Call::Deallocate { thread, .. } => thread,
        Call::Release { thread, .. } => thread,
        Call::Exit { thread } => Some(thread),
        _ => None,
    }
}

/// Number of thread `j` after the call: those behind one that exits move up.
pub open spec fn number_after(c: Call, j: int) -> int {
    match c {
        Call::Exit { thread } => if thread < j {
            j - 1
        } else {
            j
        },
        _ => j,
    }
}

/// Memory of the calls that concern the regions, without what was unmapped.
spec fn before_unmapping(s: System, s2: System) -> Map<int, u8> {
    Map::new(
        |x: int| s.memory.dom().contains(x),
        |x: int|
            if s2.memory.dom().contains(x) {
                s2.memory[x]
            } else {
                s.memory[x]
            },
    )
}

/// Calls that concern only mappings leave the regions alone.
proof fn lemma_regions_kept(s: System, page_size: int, c: Call, s2: System)
    requires
        0 < page_size <= isize::MAX,
        s.wf(page_size),
        system::leads_to(s, page_size, c, s2),
        match c {
            Call::Allocate { thread, layout, .. } => !allocator::served_small(
                s.world.heap,
                s.thread(thread),
                layout,
            ),
            Call::Release { .. } => true,
            Call::Enter { .. } => true,
            _ => false,
        },
    ensures
        s2.world.heap == s.world.heap,
        regions_agree(s.world.heap, s.memory, s2.memory),
{
    let h = s.world.heap;
    system::law_call(s, page_size, c, s2);
    assert forall|x: int| h.base <= x < h.lo(h.nodes) implies s2.memory.dom().contains(x)
        && #[trigger] s2.memory[x] == s.memory[x] by {
        assert(h.base <= x < h.base + h.nodes * h.region);
        assert(s.memory.dom().contains(x) && s2.memory.dom().contains(x));
        match c {
            Call::Allocate { thread, layout, raw } => {
                system::lemma_mapping_outside(s, page_size, thread, layout, raw, s2, x);
            },
            Call::Release { key, .. } => {
                if s.covers(key, x) {
                    system::lemma_covered(s, page_size, key, x);
                }
            },
            _ => {},
        }
    }
}

/// No call disturbs a thread other than the caller: what its slot holds is well
/// formed in the system that the call leads to.
pub proof fn law_others_undisturbed(
    s: System,
    page_size: int,
    c: Call,
    s2: System,
    slot: ThreadHeapSlot,
    j: int,
)
    requires
        0 < page_size <= isize::MAX,
        s.wf(page_size),
        system::leads_to(s, page_size, c, s2),
        holds(slot, s, page_size, j),
        caller(c) != Some(j),
    ensures
        holds(slot, s2, page_size, number_after(c, j)),
{
    let h = s.world.heap;
    let h2 = s2.world.heap;
    let t = s.world.threads[j];
    let th = slot.thread()->0;
    let k = number_after(c, j);
    system::law_call(s, page_size, c, s2);
    assert(t.wf(h));
    assert(s2.world.threads[k] == t);
    assert(s2.world.threads[k].wf(h2));
    match c {
        Call::Write => lemma_written(s, page_size, s2, th, j),
        Call::Deallocate { thread, addr } => {
            let n = h.node_of(addr as int);
            let d = s.world.live[addr];
            let touched = allocator::dealloc_touched(h, s.thread(thread), d, addr);
            assert(s.world.live_ok(addr));
            assert(seq![addr][0] == addr);
            assert forall|a: usize| #[trigger] touched.contains(a) implies freelist::block_ok(
                s.memory,
                a,
            ) by {
                if thread is Some && s.world.threads[thread->0].node == n {
                    let u = s.world.threads[thread->0];
                    assert(u.wf(h) && u.class_ok(h, d));
                    laws::lemma_concat_contains(seq![addr], u.lists[d]);
                }
                assert(h.placed(n, d, a));
                heap_view::lemma_placed_block(h, s.memory, n, d, a);
            }
            assert forall|e: int, a: usize|
                0 <= e < NUM_SIZE_CLASSES && #[trigger] laws::in_thread(th@, e, a) implies
                !touched.contains(a) by {
                laws::law_dealloc_concerns_no_other(s.world, thread, addr, j, e, a);
            }
            laws::law_other_thread_undisturbed(&th, h, s.memory, h2, s2.memory, touched);
        },
        Call::Exit { thread: i } => {
            let u = s.world.threads[i];
            let blocks = thread_heap::thread_blocks(u, NUM_SIZE_CLASSES as int);
            let m1 = before_unmapping(s, s2);
            assert(u.wf(h));
            assert(m1.dom() =~= s.memory.dom());
            assert(freelist::links_only(s.memory, m1, blocks));
            assert forall|a: usize| #[trigger] blocks.contains(a) implies freelist::block_ok(
                s.memory,
                a,
            ) by {
                laws::lemma_thread_blocks(u, 16, a);
                let d = choose|d: int|
                    0 <= d < NUM_SIZE_CLASSES && #[trigger] laws::in_thread(u, d, a);
                assert(u.class_ok(h, d));
                assert(h.placed(u.node, d, a));
                heap_view::lemma_placed_block(h, s.memory, u.node, d, a);
            }
            assert forall|e: int, a: usize|
                0 <= e < NUM_SIZE_CLASSES && #[trigger] laws::in_thread(th@, e, a) implies
                !blocks.contains(a) by {
                laws::law_exit_concerns_no_other(s.world, i, j, e, a);
            }
            assert(h2.mapped(m1)) by {
                assert forall|x: int| h2.base <= x < h2.base + h2.nodes * h2.region implies
                    #[trigger] m1.dom().contains(x) by {
                    assert(s2.memory.dom().contains(x));
                }
            }
            laws::law_other_thread_undisturbed(&th, h, s.memory, h2, m1, blocks);
            assert(regions_agree(h2, m1, s2.memory)) by {
                assert forall|x: int| h2.base <= x < h2.lo(h2.nodes) implies
                    s2.memory.dom().contains(x) && #[trigger] s2.memory[x] == m1[x] by {
                    assert(h2.base <= x < h2.base + h2.nodes * h2.region);
                    assert(s2.memory.dom().contains(x));
                }
            }
            lemma_thread_kept(th, h2, m1, h2, s2.memory);
        },
        Call::Allocate { thread, layout, raw } => {
            if allocator::served_small(h, s.thread(thread), layout) {
                let i = thread->0;
                let u = s.world.threads[i];
                let d = size_class::class_of(layout.effective());
                let touched = thread_heap::alloc_touched(h, u, d);
                layout.lemma_bounds();
                allocator::lemma_class_exists(layout.effective());
                assert(u.wf(h));
                thread_heap::lemma_alloc_outcome(h, u, d);
                assert forall|a: usize| #[trigger] touched.contains(a) implies freelist::block_ok(
                    s.memory,
                    a,
                ) by {
                    assert(h2.placed(u.node, d, a));
                    heap_view::lemma_placed_block(h2, s.memory, u.node, d, a);
                }
                assert forall|e: int, a: usize|
                    0 <= e < NUM_SIZE_CLASSES && #[trigger] laws::in_thread(th@, e, a) implies
                    !touched.contains(a) by {
                    laws::law_alloc_concerns_no_other(s.world, i, j, d, e, a);
                }
                laws::law_other_thread_undisturbed(&th, h, s.memory, h2, s2.memory, touched);
            } else {
                lemma_regions_kept(s, page_size, c, s2);
                lemma_thread_kept(th, h, s.memory, h2, s2.memory);
            }
        },
        _ => {
            lemma_regions_kept(s, page_size, c, s2);
            lemma_thread_kept(th, h, s.memory, h2, s2.memory);
        },
    }
    system::lemma_cache_ok(s2, page_size, k);
}

/// A use of allocated memory touches no link of a free object.
proof fn lemma_written(s: System, page_size: int, s2: System, th: PerThreadHeap, j: int)
    requires
        s.wf(page_size),
        s2.wf(page_size),
        system::writes(s, s2),
        0 <= j < s.world.threads.len(),
        th@ == s.world.threads[j],
        th.wf(s.world.heap, s.memory),
    ensures
        th.wf(s.world.heap, s2.memory),
{
    let h = s.world.heap;
    let t = th@;
    assert(t.wf(h));
    assert forall|x: int| t.link_byte(x) implies #[trigger] s2.memory[x] == s.memory[x] by {
        if !h.owns(x) {
            thread_heap::lemma_outside_not_thread_link(h, t, x);
        }
        assert(h.base <= x < h.base + h.nodes * h.region);
        assert(s.memory.dom().contains(x));
        if s.small_byte(x) {
            let a = choose|a: usize| #[trigger]
                s.world.live.dom().contains(a) && a <= x < a + size_class::class_size(
                    s.world.live[a],
                );
            assert(s.world.live_ok(a));
            let n = h.node_of(a as int);
            if n == t.node {
                assert(!laws::in_thread(s.world.threads[j], s.world.live[a], a));
            }
            thread_heap::lemma_not_thread_link(h, t, n, s.world.live[a], a, x);
        } else if s.live_byte(x) {
            let k = choose|k: usize| s.in_object(k, x);
            system::lemma_in_object(s, page_size, k, x);
        }
    }
    th.lemma_frame(h, s.memory, h, s2.memory);
}

/// A use of allocated memory disturbs neither the allocator nor any thread.
pub proof fn law_use_is_shown(
    s: System,
    page_size: int,
    s2: System,
    numa: NumaAlloc,
    slots: Seq<ThreadHeapSlot>,
)
    requires
        0 < page_size <= isize::MAX,
        s.wf(page_size),
        shows(s, page_size, numa, slots),
        system::writes(s, s2),
    ensures
        s2.wf(page_size),
        shows(s2, page_size, numa, slots),
{
    let h = s.world.heap;
    assert(system::leads_to(s, page_size, Call::Write, s2));
    system::law_call(s, page_size, Call::Write, s2);
    numa.lemma_wf(s.memory);
    assert forall|x: int| h.link_byte(x) implies #[trigger] s2.memory[x] == s.memory[x] by {
        if !h.owns(x) {
            heap_view::lemma_outside_not_link(h, x);
        }
        assert(h.base <= x < h.base + h.nodes * h.region);
        assert(s.memory.dom().contains(x));
        if s.small_byte(x) {
            let a = choose|a: usize| #[trigger]
                s.world.live.dom().contains(a) && a <= x < a + size_class::class_size(
                    s.world.live[a],
                );
            assert(s.world.live_ok(a));
            let n = h.node_of(a as int);
            assert(!s.world.is_free(n, s.world.live[a], a));
            heap_view::lemma_not_link(h, n, s.world.live[a], a, x);
        } else if s.live_byte(x) {
            let k = choose|k: usize| s.in_object(k, x);
            system::lemma_in_object(s, page_size, k, x);
        }
    }
    numa.global().lemma_frame(s.memory, s2.memory);
    numa.lemma_frame(s.memory, s2.memory);
    assert forall|i: int| 0 <= i < slots.len() implies holds(
        #[trigger] slots[i],
        s2,
        page_size,
        i,
    ) by {
        law_others_undisturbed(s, page_size, Call::Write, s2, slots[i], i);
    }
}

/// `m` is memory when the function has returned, before the system maps what
/// the call asked for or unmaps what it gave up.
pub open spec fn returns_with(
    s: System,
    page_size: int,
    c: Call,
    s2: System,
    m: Map<int, u8>,
) -> bool {
    match c {
        Call::Allocate { thread, layout, .. } => if allocator::alloc_step(
            s.world.heap,
            s.thread(thread),
            layout,
            page_size,
        ).2 is MapFresh {
            m == s.memory
        } else {
            m == s2.memory
        },
        Call::Deallocate { .. } => m == s2.memory,
        Call::Release { .. } => m == s.memory,
        Call::Enter { .. } => m == s.memory,
        Call::Exit { .. } => regions_agree(s2.world.heap, m, s2.memory),
        Call::Write => false,
    }
}

/// The slots after a call, of which `slot` is the caller's, or that of the
/// thread that started.
pub open spec fn slots_after(
    slots: Seq<ThreadHeapSlot>,
    c: Call,
    slot: ThreadHeapSlot,
) -> Seq<ThreadHeapSlot> {
    match c {
        Call::Enter { .. } => slots.push(slot),
        Call::Exit { thread } => slots.remove(thread),
        _ => match caller(c) {
            Some(i) => slots.update(i, slot),
            None => slots,
        },
    }
}

/// What a call leaves behind is what the next call requires: where allocator and
/// caller are as the function has left them, the system that the call leads to
/// shows them and all other threads.
pub proof fn law_call_is_shown(
    s: System,
    page_size: int,
    c: Call,
    s2: System,
    m: Map<int, u8>,
    numa: NumaAlloc,
    slots: Seq<ThreadHeapSlot>,
    numa2: NumaAlloc,
    slot: ThreadHeapSlot,
)
    requires
        0 < page_size <= isize::MAX,
        s.wf(page_size),
        shows(s, page_size, numa, slots),
        system::leads_to(s, page_size, c, s2),
        returns_with(s, page_size, c, s2, m),
        numa2.wf(m),
        numa2.state() == s2.world.heap,
        match c {
            Call::Enter { .. } => slot.state() == Some(s2.world.threads.last()) && slot.wf(
                s2.world.heap,
                m,
                page_size,
            ),
            Call::Exit { .. } => true,
            _ => caller(c) matches Some(i) ==> slot.state() == Some(s2.world.threads[i])
                && slot.wf(s2.world.heap, m, page_size),
        },
    ensures
        s2.wf(page_size),
        shows(s2, page_size, numa2, slots_after(slots, c, slot)),
{
    let h2 = s2.world.heap;
    let after = slots_after(slots, c, slot);
    system::law_call(s, page_size, c, s2);
    assert(regions_agree(h2, m, s2.memory)) by {
        let outside = match c {
            Call::Allocate { thread, layout, .. } => !allocator::served_small(
                s.world.heap,
                s.thread(thread),
                layout,
            ),
            _ => c is Release || c is Enter,
        };
        if outside {
            lemma_regions_kept(s, page_size, c, s2);
        }
        if m == s2.memory {
            assert forall|x: int| h2.base <= x < h2.lo(h2.nodes) implies
                #[trigger] s2.memory.dom().contains(x) by {
                assert(h2.base <= x < h2.base + h2.nodes * h2.region);
            }
        }
    }
    law_allocator_kept(numa2, m, s2.memory);
    assert forall|k: int| 0 <= k < after.len() implies holds(
        #[trigger] after[k],
        s2,
        page_size,
        k,
    ) by {
        let j = match c {
            Call::Exit { thread } => if thread <= k {
                k + 1
            } else {
                k
            },
            _ => k,
        };
        if c is Enter && k == slots.len() || !(c is Exit) && caller(c) == Some(k) {
            lemma_slot_kept(slot, h2, m, s2, page_size, k);
        } else {
            assert(after[k] == slots[j]);
            assert(holds(slots[j], s, page_size, j));
            law_others_undisturbed(s, page_size, c, s2, slots[j], j);
        }
    }
}

} // verus!
