//! What holds of everything that was allocated, large objects included.
//!
//! A [`System`] is a [`World`] together with the mappings of large objects and
//! with memory.  Its steps are the calls of any number of threads, and what
//! their users do to the memory that they were given.
use crate::allocator::{self, AllocStep};
use crate::freelist;
use crate::heap_view::{self, HeapView};
use crate::large_cache::{self, LargeCacheEntry};
use crate::large_object::{self, LargeHeader};
use crate::laws::{self, World};
use crate::layout::Layout;
use crate::memory;
use crate::size_class::{self, NUM_SIZE_CLASSES};
use crate::thread_heap::{self, ThreadView};
use vstd::prelude::*;

verus! {

/// Who has a mapping.
pub enum Owner {
    /// It holds an object that was allocated for `layout`.
    Live { payload: usize, layout: Layout },
    /// A thread keeps it for reuse.
    Cached,
}

/// A mapping outside the regions.
pub struct Mapping {
    pub size: usize,
    pub owner: Owner,
}

/// Small objects and threads, the mappings of large objects by their first
/// address, and memory.
pub struct System {
    pub world: World,
    pub maps: Map<usize, Mapping>,
    pub memory: Map<int, u8>,
}

impl System {
    /// The mapping at `k`.
    pub open spec fn entry(self, k: usize) -> LargeCacheEntry {
        LargeCacheEntry { original_ptr: k, alloc_size: self.maps[k].size }
    }

    /// Byte `x` belongs to the mapping at `k`.
    pub open spec fn covers(self, k: usize, x: int) -> bool {
        self.maps.dom().contains(k) && k <= x < k + self.maps[k].size
    }

    /// Thread `i` has a mapping number `j` in its cache.
    pub open spec fn has(self, i: int, j: int) -> bool {
        0 <= i < self.world.threads.len() && 0 <= j < self.world.threads[i].large.len()
    }

    /// Mapping number `j` in the cache of thread `i`.
    pub open spec fn cached(self, i: int, j: int) -> LargeCacheEntry {
        self.world.threads[i].large[j]
    }

    /// What the threads have cached are mappings without an object, each in one
    /// cache.
    pub open spec fn caches_ok(self) -> bool {
        &&& forall|i: int, j: int| #[trigger]
            self.has(i, j) ==> {
                let e = self.cached(i, j);
                &&& self.maps.dom().contains(e.original_ptr)
                &&& self.maps[e.original_ptr].size == e.alloc_size
                &&& self.maps[e.original_ptr].owner is Cached
            }
        &&& forall|i: int, j: int, k: int, l: int| #[trigger]
            self.has(i, j) && #[trigger] self.has(k, l) && self.cached(i, j).original_ptr
                == self.cached(k, l).original_ptr ==> i == k && j == l
    }

    /// The object in the mapping at `k` lies behind its header.
    pub open spec fn object_ok(self, k: usize, payload: usize, layout: Layout) -> bool {
        &&& layout.wf()
        &&& k + 16 <= payload < k + self.maps[k].size
        &&& payload + layout.spec_size() <= k + self.maps[k].size
        &&& payload % 8 == 0
        &&& payload as int % layout.spec_align() == 0
        &&& large_object::header_at(self.memory, payload as int) == (LargeHeader {
            original_ptr: k,
            alloc_size: self.maps[k].size,
        })
    }

    /// Small objects are in use or free, and not both; mappings are whole pages
    /// outside the regions, overlap no others, and hold an object or are in one
    /// cache.
    pub open spec fn wf(self, page_size: int) -> bool {
        &&& self.world.wf()
        &&& self.world.heap.mapped(self.memory)
        &&& forall|k: usize| #[trigger]
            self.maps.dom().contains(k) ==> thread_heap::mapping_ok(
                self.world.heap,
                self.memory,
                page_size,
                self.entry(k),
            )
        &&& forall|k: usize, l: usize| #[trigger]
            self.maps.dom().contains(k) && #[trigger] self.maps.dom().contains(l) && k != l
                ==> thread_heap::mappings_apart(self.entry(k), self.entry(l))
        &&& self.caches_ok()
        &&& forall|k: usize| #[trigger]
            self.maps.dom().contains(k) ==> (self.maps[k].owner matches Owner::Live {
                payload,
                layout,
            } ==> self.object_ok(k, payload, layout))
    }

    /// Byte `x` belongs to a small object in use.
    pub open spec fn small_byte(self, x: int) -> bool {
        exists|a: usize| #[trigger]
            self.world.live.dom().contains(a) && a <= x < a + size_class::class_size(
                self.world.live[a],
            )
    }

    /// Byte `x` belongs to the large object in the mapping at `k`.
    pub open spec fn in_object(self, k: usize, x: int) -> bool {
        &&& self.maps.dom().contains(k)
        &&& self.maps[k].owner matches Owner::Live { payload, layout } && payload <= x < payload
            + layout.spec_size()
    }

    /// An object in use begins at `p`.
    pub open spec fn live_at(self, p: usize) -> bool {
        ||| self.world.live.dom().contains(p)
        ||| exists|k: usize| #[trigger]
            self.maps.dom().contains(k) && (self.maps[k].owner matches Owner::Live { payload, .. }
                && payload == p)
    }

    /// Byte `x` is allocated.
    pub open spec fn live_byte(self, x: int) -> bool {
        self.small_byte(x) || exists|k: usize| self.in_object(k, x)
    }

    /// View of a thread, or of one whose heap is gone.
    pub open spec fn thread(self, t: Option<int>) -> Option<ThreadView> {
        match t {
            Some(i) => Some(self.world.threads[i]),
            None => None,
        }
    }

    /// The thread exists.
    pub open spec fn known(self, t: Option<int>) -> bool {
        t matches Some(i) ==> 0 <= i < self.world.threads.len()
    }
}

/// A call, or what a user does to memory.
///
/// A zeroed allocation is an allocation and then a use of the new memory; a
/// reallocation that moves is an allocation, a use of the new memory and a
/// deallocation.
#[allow(inconsistent_fields)]
pub enum Call {
    /// A thread of a node starts to use the allocator.
    Enter { node: int },
    /// An allocation; where it needs a fresh mapping, the system has the one at
    /// `raw` to give, or none.
    Allocate { thread: Option<int>, layout: Layout, raw: Option<usize> },
    /// A deallocation of a small object.
    Deallocate { thread: Option<int>, addr: usize },
    /// A deallocation of the large object in the mapping at `key`.
    Release { thread: Option<int>, key: usize },
    /// A thread exits.
    Exit { thread: int },
    /// Any use of allocated memory.
    Write,
}

/// The system can map `size` bytes at `raw`: whole pages that nobody has.
pub open spec fn fresh(s: System, page_size: int, raw: usize, size: int) -> bool {
    &&& 0 < raw
    &&& 0 < size
    &&& raw + size <= usize::MAX
    &&& raw as int % page_size == 0
    &&& forall|x: int| raw <= x < raw + size ==> !#[trigger] s.memory.dom().contains(x)
}

/// Memory with `size` fresh zero bytes at `raw`.
pub open spec fn with_fresh(m: Map<int, u8>, raw: int, size: int) -> Map<int, u8> {
    Map::new(
        |x: int| m.dom().contains(x) || raw <= x < raw + size,
        |x: int|
            if raw <= x < raw + size {
                0u8
            } else {
                m[x]
            },
    )
}

/// What an allocation returns, where the system has the mapping at `raw` to
/// give.
pub open spec fn allocated_at(
    s: System,
    page_size: int,
    thread: Option<int>,
    layout: Layout,
    raw: Option<usize>,
) -> Option<usize> {
    match allocator::alloc_step(s.world.heap, s.thread(thread), layout, page_size).2 {
        AllocStep::Done(p) => p,
        AllocStep::MapFresh { .. } => match raw {
            Some(a) => Some(large_object::payload_at(a as int, layout) as usize),
            None => None,
        },
    }
}

/// The allocation leads from `s` to `s2`.  Pages are whole words where a request
/// is for no bytes.
pub open spec fn allocates(
    s: System,
    page_size: int,
    thread: Option<int>,
    layout: Layout,
    raw: Option<usize>,
    s2: System,
) -> bool {
    let h = s.world.heap;
    let t = s.thread(thread);
    let (h2, t2, step) = allocator::alloc_step(h, t, layout, page_size);
    &&& s.known(thread)
    &&& layout.wf()
    &&& layout.spec_size() > 0 || page_size % 8 == 0
    &&& match step {
        AllocStep::Done(None) => s2 == s,
        AllocStep::Done(Some(p)) => {
            &&& allocator::alloc_memory(h, t, layout, page_size, s.memory, s2.memory)
            &&& if allocator::served_small(h, t, layout) {
                &&& s2.world == laws::after_alloc(
                    s.world,
                    thread->0,
                    size_class::class_of(layout.effective()),
                )
                &&& s2.maps == s.maps
            } else {
                let e = large_cache::taken(
                    t->0.large,
                    large_object::large_extent(layout, page_size),
                )->0;
                &&& s2.world == (World {
                    threads: s.world.threads.update(thread->0, t2->0),
                    ..s.world
                })
                &&& s2.maps == s.maps.insert(
                    e.original_ptr,
                    Mapping {
                        size: e.alloc_size,
                        owner: Owner::Live { payload: p, layout },
                    },
                )
            }
        },
        AllocStep::MapFresh { size, .. } => match raw {
            None => s2 == s,
            Some(a) => {
                let payload = large_object::payload_at(a as int, layout);
                &&& fresh(s, page_size, a, size as int)
                &&& s2.world == s.world
                &&& s2.maps == s.maps.insert(
                    a,
                    Mapping {
                        size,
                        owner: Owner::Live { payload: payload as usize, layout },
                    },
                )
                &&& s2.memory == large_object::with_header(
                    with_fresh(s.memory, a as int, size as int),
                    payload,
                    LargeHeader { original_ptr: a, alloc_size: size },
                )
            },
        },
    }
}

/// The deallocation of a small object leads from `s` to `s2`.
pub open spec fn deallocates(s: System, thread: Option<int>, addr: usize, s2: System) -> bool {
    &&& s.known(thread)
    &&& s.world.live.dom().contains(addr)
    &&& s2.world == match thread {
        Some(i) => laws::after_dealloc(s.world, i, addr),
        None => laws::after_bare_dealloc(s.world, addr),
    }
    &&& s2.maps == s.maps
    &&& freelist::links_only(
        s.memory,
        s2.memory,
        allocator::dealloc_touched(
            s.world.heap,
            s.thread(thread),
            s.world.live[addr],
            addr,
        ),
    )
}

/// Memory of the mappings `gone` is no longer mapped, and all else still is.
pub open spec fn unmaps(s: System, gone: Set<usize>, m2: Map<int, u8>) -> bool {
    forall|x: int| #[trigger]
        m2.dom().contains(x) <==> s.memory.dom().contains(x) && !exists|k: usize|
            gone.contains(k) && s.covers(k, x)
}

/// The mappings that thread `i` evicts to make room for `size` bytes.
pub open spec fn evicted(s: System, i: int, size: int) -> Set<usize> {
    let large = s.world.threads[i].large;
    let n = large.len() - large_cache::after_evictions(large, size).len();
    Set::new(|k: usize| exists|j: int| 0 <= j < n && (#[trigger] large[j]).original_ptr == k)
}

/// The mappings that thread `i` has cached.
pub open spec fn cache_of(s: System, i: int) -> Set<usize> {
    Set::new(
        |k: usize|
            exists|j: int|
                0 <= j < s.world.threads[i].large.len() && (
                #[trigger] s.world.threads[i].large[j]).original_ptr == k,
    )
}

/// The deallocation of a large object leads from `s` to `s2`: its mapping ends
/// up in the thread's cache, from which older ones are evicted, or is unmapped.
/// Pages of a cached mapping may lose their contents.
pub open spec fn releases(s: System, thread: Option<int>, key: usize, s2: System) -> bool {
    let size = s.maps[key].size;
    let keeps = thread is Some && size <= large_cache::MAX_LARGE_CACHE_BYTES;
    let out = match thread {
        Some(i) => evicted(s, i, size as int),
        None => Set::empty(),
    };
    let gone = if keeps {
        out
    } else {
        out.insert(key)
    };
    &&& s.known(thread)
    &&& s.maps.dom().contains(key)
    &&& s.maps[key].owner is Live
    &&& match thread {
        Some(i) => {
            let t = s.world.threads[i];
            let rest = large_cache::after_evictions(t.large, size as int);
            s2.world == (World {
                threads: s.world.threads.update(
                    i,
                    ThreadView {
                        large: if keeps {
                            rest.push(s.entry(key))
                        } else {
                            rest
                        },
                        ..t
                    },
                ),
                ..s.world
            })
        },
        None => s2.world == s.world,
    }
    &&& s2.maps == Map::new(
        |k: usize| s.maps.dom().contains(k) && !gone.contains(k),
        |k: usize|
            if k == key {
                Mapping { size, owner: Owner::Cached }
            } else {
                s.maps[k]
            },
    )
    &&& unmaps(s, gone, s2.memory)
    &&& forall|x: int|
        s2.memory.dom().contains(x) && !s.covers(key, x) ==> #[trigger] s2.memory[x]
            == s.memory[x]
}

/// The exit of thread `i` leads from `s` to `s2`: its blocks go back to its
/// node, and what it had cached is unmapped.
pub open spec fn exits(s: System, i: int, s2: System) -> bool {
    let gone = cache_of(s, i);
    let blocks = thread_heap::thread_blocks(s.world.threads[i], NUM_SIZE_CLASSES as int);
    &&& 0 <= i < s.world.threads.len()
    &&& s2.world == laws::after_exit(s.world, i)
    &&& s2.maps == Map::new(
        |k: usize| s.maps.dom().contains(k) && !gone.contains(k),
        |k: usize| s.maps[k],
    )
    &&& unmaps(s, gone, s2.memory)
    &&& forall|x: int|
        s2.memory.dom().contains(x) && !freelist::in_links(blocks, x) ==> #[trigger] s2.memory[x]
            == s.memory[x]
}

/// The call leads from `s` to `s2`.
pub open spec fn leads_to(s: System, page_size: int, c: Call, s2: System) -> bool {
    match c {
        Call::Enter { node } => {
            &&& 0 <= node < s.world.heap.nodes
            &&& s2 == (System {
                world: World {
                    threads: s.world.threads.push(
                        thread_heap::empty_thread(node, s.world.heap.base),
                    ),
                    ..s.world
                },
                ..s
            })
        },
        Call::Allocate { thread, layout, raw } => allocates(
            s,
            page_size,
            thread,
            layout,
            raw,
            s2,
        ),
        Call::Deallocate { thread, addr } => deallocates(s, thread, addr, s2),
        Call::Release { thread, key } => releases(s, thread, key, s2),
        Call::Exit { thread } => exits(s, thread, s2),
        Call::Write => writes(s, s2),
    }
}

/// Only allocated memory was written.
pub open spec fn writes(s: System, s2: System) -> bool {
    &&& s2.world == s.world
    &&& s2.maps == s.maps
    &&& s2.memory.dom() == s.memory.dom()
    &&& forall|x: int|
        s.memory.dom().contains(x) && !s.live_byte(x) ==> #[trigger] s2.memory[x]
            == s.memory[x]
}

// ---------------------------------------------------------------------------
// Frames
// ---------------------------------------------------------------------------
/// The heaps have the same regions.
pub open spec fn same_regions(h: HeapView, h2: HeapView) -> bool {
    h2.base == h.base && h2.region == h.region && h2.nodes == h.nodes
}

/// A header is kept by memory that agrees on it.
proof fn lemma_header_kept(m: Map<int, u8>, m2: Map<int, u8>, payload: int)
    requires
        forall|x: int| payload - 16 <= x < payload ==> #[trigger] m2[x] == m[x],
    ensures
        large_object::header_at(m2, payload) == large_object::header_at(m, payload),
{
    memory::lemma_word_agree(m, m2, payload - 16);
    memory::lemma_word_agree(m, m2, payload - 8);
}

/// A system stays well-formed when small objects move, mappings go or lose
/// their objects, and what is left stays mapped and keeps its headers.
proof fn lemma_frame(s: System, s2: System, page_size: int)
    requires
        s.wf(page_size),
        s2.world.wf(),
        same_regions(s.world.heap, s2.world.heap),
        s2.caches_ok(),
        s2.world.heap.mapped(s2.memory),
        forall|k: usize| #[trigger]
            s2.maps.dom().contains(k) ==> s.maps.dom().contains(k) && s2.maps[k].size
                == s.maps[k].size && (s2.maps[k].owner is Cached || s2.maps[k].owner
                == s.maps[k].owner),
        forall|k: usize, x: int| #[trigger]
            s2.covers(k, x) ==> s2.memory.dom().contains(x),
        forall|k: usize, x: int|
            #![trigger s2.maps.dom().contains(k), s2.memory[x]]
            s2.maps.dom().contains(k) && (s2.maps[k].owner matches Owner::Live { payload, .. }
                && payload - 16 <= x < payload) ==> s2.memory[x] == s.memory[x],
    ensures
        s2.wf(page_size),
{
    assert forall|k: usize| #[trigger]
        s2.maps.dom().contains(k) implies thread_heap::mapping_ok(
        s2.world.heap,
        s2.memory,
        page_size,
        s2.entry(k),
    ) by {
        assert(s2.entry(k) == s.entry(k));
        assert(thread_heap::mapping_ok(s.world.heap, s.memory, page_size, s.entry(k)));
        assert forall|x: int| k <= x < k + s2.maps[k].size implies #[trigger] s2.memory.dom().contains(
            x,
        ) by {
            assert(s2.covers(k, x));
        }
    }
    assert forall|k: usize, l: usize| #[trigger]
        s2.maps.dom().contains(k) && #[trigger] s2.maps.dom().contains(l) && k
            != l implies thread_heap::mappings_apart(s2.entry(k), s2.entry(l)) by {
        assert(s2.entry(k) == s.entry(k) && s2.entry(l) == s.entry(l));
    }
    assert forall|k: usize| #[trigger]
        s2.maps.dom().contains(k) implies (s2.maps[k].owner matches Owner::Live {
        payload,
        layout,
    } ==> s2.object_ok(k, payload, layout)) by {
        if let Owner::Live { payload, layout } = s2.maps[k].owner {
            assert(s.maps.dom().contains(k));
            assert(s.object_ok(k, payload, layout));
            lemma_header_kept(s.memory, s2.memory, payload as int);
        }
    }
}

/// Caches stay as they are when every thread keeps its mappings.
proof fn lemma_same_caches(s: System, s2: System)
    requires
        s.caches_ok(),
        s2.maps == s.maps,
        s2.world.threads.len() == s.world.threads.len(),
        forall|i: int|
            0 <= i < s.world.threads.len() ==> (#[trigger] s2.world.threads[i]).large
                == s.world.threads[i].large,
    ensures
        s2.caches_ok(),
{
    assert forall|i: int, j: int| #[trigger] s2.has(i, j) implies s.has(i, j) && s2.cached(i, j)
        == s.cached(i, j) by {
        assert(s2.world.threads[i].large == s.world.threads[i].large);
    }
}

/// What a thread has cached is well-formed and apart.
pub proof fn lemma_cache_ok(s: System, page_size: int, i: int)
    requires
        s.wf(page_size),
        0 <= i < s.world.threads.len(),
    ensures
        thread_heap::mappings_ok(
            s.world.heap,
            s.memory,
            page_size,
            s.world.threads[i].large,
        ),
{
    let large = s.world.threads[i].large;
    assert forall|j: int| 0 <= j < large.len() implies thread_heap::mapping_ok(
        s.world.heap,
        s.memory,
        page_size,
        #[trigger] large[j],
    ) by {
        assert(s.has(i, j));
        assert(s.cached(i, j) == s.entry(large[j].original_ptr));
    }
    assert forall|j: int, l: int| 0 <= j < l < large.len() implies thread_heap::mappings_apart(
        #[trigger] large[j],
        #[trigger] large[l],
    ) by {
        assert(s.has(i, j) && s.has(i, l));
        assert(s.cached(i, j) == s.entry(large[j].original_ptr));
        assert(s.cached(i, l) == s.entry(large[l].original_ptr));
    }
}

/// Storing links of objects leaves everything outside the regions alone.
proof fn lemma_outside_kept(
    h: HeapView,
    m: Map<int, u8>,
    m2: Map<int, u8>,
    blocks: Seq<usize>,
    x: int,
)
    requires
        h.wf(),
        freelist::links_only(m, m2, blocks),
        forall|a: usize| #[trigger] blocks.contains(a) ==> laws::is_object(h, a),
        x < h.base || h.lo(h.nodes) <= x,
        m.dom().contains(x),
    ensures
        m2[x] == m[x],
{
    if freelist::in_links(blocks, x) {
        let a = choose|a: usize| #[trigger] blocks.contains(a) && a <= x < a + 8;
        assert(laws::is_object(h, a));
        let (n, c) = choose|n: int, c: int| h.placed(n, c, a);
        heap_view::lemma_bags(c);
        heap_view::lemma_placed_inside(h, n, c, a);
    }
}

/// The bytes of a mapping are mapped and lie outside the regions.
pub proof fn lemma_covered(s: System, page_size: int, k: usize, x: int)
    requires
        s.wf(page_size),
        s.covers(k, x),
    ensures
        s.memory.dom().contains(x),
        x < s.world.heap.base || s.world.heap.lo(s.world.heap.nodes) <= x,
{
    assert(thread_heap::mapping_ok(s.world.heap, s.memory, page_size, s.entry(k)));
}

/// The bytes of a small object in use are mapped and lie in the regions.
proof fn lemma_small_byte(s: System, page_size: int, a: usize, x: int)
    requires
        s.wf(page_size),
        s.world.live.dom().contains(a),
        a <= x < a + size_class::class_size(s.world.live[a]),
    ensures
        s.memory.dom().contains(x),
        s.world.heap.base <= x < s.world.heap.lo(s.world.heap.nodes),
{
    let h = s.world.heap;
    assert(s.world.live_ok(a));
    heap_view::lemma_placed_inside(h, h.node_of(a as int), s.world.live[a], a);
}

/// A world does not depend on what its threads have cached.
proof fn lemma_world_caches(w: World, w2: World)
    requires
        w.wf(),
        w2.heap == w.heap,
        w2.live == w.live,
        w2.threads.len() == w.threads.len(),
        forall|i: int|
            0 <= i < w.threads.len() ==> (#[trigger] w2.threads[i]) == (ThreadView {
                large: w2.threads[i].large,
                ..w.threads[i]
            }),
    ensures
        w2.wf(),
{
    assert forall|i: int| 0 <= i < w2.threads.len() implies (#[trigger] w2.threads[i]).wf(
        w2.heap,
    ) by {
        let t = w.threads[i];
        assert(t.wf(w.heap));
        assert forall|c: int| 0 <= c < NUM_SIZE_CLASSES implies #[trigger] w2.threads[i].class_ok(
            w.heap,
            c,
        ) by {
            assert(t.class_ok(w.heap, c));
        }
    }
    assert forall|i: int, j: int| 0 <= i < w2.threads.len() && 0 <= j < w2.threads.len() && i
        != j implies laws::threads_apart(#[trigger] w2.threads[i], #[trigger] w2.threads[j]) by {
        assert(laws::threads_apart(w.threads[i], w.threads[j]));
        assert forall|c: int, a: usize|
            w2.threads[i].node == w2.threads[j].node && 0 <= c < NUM_SIZE_CLASSES
                && #[trigger] laws::in_thread(w2.threads[i], c, a) implies !laws::in_thread(
            w2.threads[j],
            c,
            a,
        ) by {
            assert(laws::in_thread(w.threads[i], c, a));
        }
    }
    assert forall|n: int, c: int, a: usize| w2.is_free(n, c, a) <==> w.is_free(n, c, a) by {
        if w.is_free(n, c, a) && !w.heap.stacks[n][c].contains(a) {
            let i = choose|i: int|
                0 <= i < w.threads.len() && (#[trigger] w.threads[i]).node == n
                    && laws::in_thread(w.threads[i], c, a);
            assert(w2.threads[i].node == n && laws::in_thread(w2.threads[i], c, a));
        }
        if w2.is_free(n, c, a) && !w.heap.stacks[n][c].contains(a) {
            let i = choose|i: int|
                0 <= i < w2.threads.len() && (#[trigger] w2.threads[i]).node == n
                    && laws::in_thread(w2.threads[i], c, a);
            assert(w.threads[i].node == n && laws::in_thread(w.threads[i], c, a));
        }
    }
    assert forall|a: usize| #[trigger] w2.live.dom().contains(a) implies w2.live_ok(a) by {
        assert(w.live_ok(a));
        let n = w.heap.node_of(a as int);
        assert(!w.is_free(n, w.live[a], a));
    }
    assert forall|n: int, c: int, a: usize| #[trigger] w2.heap.placed(n, c, a) implies w2.is_free(
        n,
        c,
        a,
    ) || w2.live.contains_pair(a, c) by {
        assert(w.heap.placed(n, c, a));
    }
}

// ---------------------------------------------------------------------------
// Allocations
// ---------------------------------------------------------------------------
/// An allocation of a small object.
proof fn lemma_allocates_small(
    s: System,
    page_size: int,
    i: int,
    layout: Layout,
    raw: Option<usize>,
    s2: System,
)
    requires
        0 < page_size <= isize::MAX,
        s.wf(page_size),
        allocates(s, page_size, Some(i), layout, raw, s2),
        allocator::served_small(s.world.heap, s.thread(Some(i)), layout),
    ensures
        s2.wf(page_size),
        forall|x: int| s.live_byte(x) ==> #[trigger] s2.memory[x] == s.memory[x],
        ({
            let p = allocated_at(s, page_size, Some(i), layout, raw)->0;
            let n = s.world.threads[i].node;
            &&& allocated_at(s, page_size, Some(i), layout, raw) is Some
            &&& p != 0
            &&& p as int % layout.spec_align() == 0
            &&& memory::range_mapped(s2.memory, p as int, layout.spec_size())
            &&& forall|x: int| p <= x < p + layout.spec_size() ==> !#[trigger] s.live_byte(x)
            &&& !s.live_at(p)
            &&& s.world.heap.lo(n) <= p
            &&& p + layout.spec_size() <= s.world.heap.lo(n) + s.world.heap.region
        }),
{
    let w = s.world;
    let h = w.heap;
    let t = w.threads[i];
    let c = size_class::class_of(layout.effective());
    let (h2, t2, r) = thread_heap::alloc_outcome(h, t, c);
    let p = r->0;
    let touched = thread_heap::alloc_touched(h, t, c);
    layout.lemma_bounds();
    allocator::lemma_class_exists(layout.effective());
    assert(t.wf(h));
    lemma_cache_ok(s, page_size, i);
    thread_heap::lemma_alloc_outcome(h, t, c);
    laws::lemma_alloc_moves(h, t, c);
    laws::law_alloc(w, i, c);
    assert(s2.memory.dom() =~= s.memory.dom());
    assert forall|a: usize| #[trigger] touched.contains(a) implies laws::is_object(h2, a) by {
        assert(h2.placed(t.node, c, a));
    }
    assert forall|k: usize, x: int| #[trigger] s.covers(k, x) implies s2.memory[x]
        == s.memory[x] by {
        lemma_covered(s, page_size, k, x);
        lemma_outside_kept(h2, s.memory, s2.memory, touched, x);
    }
    assert forall|k: usize, x: int|
        #![trigger s.maps.dom().contains(k), s2.memory[x]]
        s.maps.dom().contains(k) && (s.maps[k].owner matches Owner::Live { payload, .. }
            && payload - 16 <= x < payload) implies s2.memory[x] == s.memory[x] by {
        assert(s.maps[k].owner matches Owner::Live { payload, layout } ==> s.object_ok(
            k,
            payload,
            layout,
        ));
        assert(s.covers(k, x));
    }
    lemma_same_caches(s, s2);
    assert forall|k: usize, x: int| #[trigger] s2.covers(k, x) implies s2.memory.dom().contains(
        x,
    ) by {
        assert(s.covers(k, x));
        lemma_covered(s, page_size, k, x);
    }
    lemma_frame(s, s2, page_size);
    assert forall|x: int| s.live_byte(x) implies #[trigger] s2.memory[x] == s.memory[x] by {
        if s.small_byte(x) {
            let b = choose|b: usize| #[trigger]
                w.live.dom().contains(b) && b <= x < b + size_class::class_size(w.live[b]);
            lemma_small_byte(s, page_size, b, x);
            laws::law_alloc_keeps_contents(w, i, c, s.memory, s2.memory, b, x);
        } else {
            let k = choose|k: usize| s.in_object(k, x);
            lemma_in_object(s, page_size, k, x);
        }
    }
    laws::law_alloc_fits(h, Some(t), s.memory, layout, page_size);
    heap_view::lemma_placed_inside(h2, t.node, c, p);
    let w2 = s2.world;
    assert(w2.live.dom().contains(p));
    assert forall|x: int| p <= x < p + layout.spec_size() implies !#[trigger] s.live_byte(x) by {
        if s.small_byte(x) {
            let b = choose|b: usize| #[trigger]
                w.live.dom().contains(b) && b <= x < b + size_class::class_size(w.live[b]);
            assert(b != p);
            assert(w2.live.dom().contains(b));
            laws::law_live_disjoint(w2, p, b);
        } else if s.live_byte(x) {
            let k = choose|k: usize| s.in_object(k, x);
            lemma_in_object(s, page_size, k, x);
        }
    }
    if s.live_at(p) {
        if w.live.dom().contains(p) {
            let k = h.node_of(p as int);
            assert(w.live_ok(p));
            heap_view::lemma_placed_unique(h2, t.node, c, k, w.live[p], p);
            assert(!laws::in_thread(w.threads[i], c, p));
        } else {
            let k = choose|k: usize| #[trigger]
                s.maps.dom().contains(k) && (s.maps[k].owner matches Owner::Live { payload, .. }
                    && payload == p);
            assert(s.object_ok(k, p, s.maps[k].owner->layout));
            assert(s.covers(k, p as int));
            lemma_covered(s, page_size, k, p as int);
        }
    }
}

/// No object in use begins inside a cached mapping.
proof fn lemma_not_live_at(s: System, page_size: int, key: usize, p: usize)
    requires
        s.wf(page_size),
        s.covers(key, p as int),
        s.maps[key].owner is Cached,
    ensures
        !s.live_at(p),
{
    lemma_covered(s, page_size, key, p as int);
    if s.live_at(p) {
        if s.world.live.dom().contains(p) {
            assert(s.world.live_ok(p));
            heap_view::lemma_bags(s.world.live[p]);
            lemma_small_byte(s, page_size, p, p as int);
        } else {
            let k = choose|k: usize| #[trigger]
                s.maps.dom().contains(k) && (s.maps[k].owner matches Owner::Live { payload, .. }
                    && payload == p);
            assert(s.object_ok(k, p, s.maps[k].owner->layout));
            assert(s.covers(k, p as int));
            lemma_apart(s, page_size, k, key, p as int);
        }
    }
}

/// The bytes of a large object belong to its mapping.
pub proof fn lemma_in_object(s: System, page_size: int, k: usize, x: int)
    requires
        s.wf(page_size),
        s.in_object(k, x),
    ensures
        s.covers(k, x),
        s.memory.dom().contains(x),
        x < s.world.heap.base || s.world.heap.lo(s.world.heap.nodes) <= x,
{
    assert(s.maps[k].owner matches Owner::Live { payload, layout } ==> s.object_ok(
        k,
        payload,
        layout,
    ));
    lemma_covered(s, page_size, k, x);
}

/// Bytes of two mappings differ.
proof fn lemma_apart(s: System, page_size: int, k: usize, l: usize, x: int)
    requires
        s.wf(page_size),
        s.covers(k, x),
        s.covers(l, x),
    ensures
        k == l,
{
    if k != l {
        assert(thread_heap::mappings_apart(s.entry(k), s.entry(l)));
    }
}

/// An allocation of a large object in a cached mapping.
proof fn lemma_allocates_cached(
    s: System,
    page_size: int,
    i: int,
    layout: Layout,
    raw: Option<usize>,
    s2: System,
)
    requires
        0 < page_size <= isize::MAX,
        s.wf(page_size),
        allocates(s, page_size, Some(i), layout, raw, s2),
        !allocator::served_small(s.world.heap, s.thread(Some(i)), layout),
        allocator::alloc_step(
            s.world.heap,
            s.thread(Some(i)),
            layout,
            page_size,
        ).2 matches AllocStep::Done(Some(_)),
    ensures
        s2.wf(page_size),
        forall|x: int| s.live_byte(x) ==> #[trigger] s2.memory[x] == s.memory[x],
        ({
            let p = allocated_at(s, page_size, Some(i), layout, raw)->0;
            &&& allocated_at(s, page_size, Some(i), layout, raw) is Some
            &&& p != 0
            &&& p as int % layout.spec_align() == 0
            &&& memory::range_mapped(s2.memory, p as int, layout.spec_size())
            &&& forall|x: int| p <= x < p + layout.spec_size() ==> !#[trigger] s.live_byte(x)
            &&& !s.live_at(p)
            &&& !s.world.heap.owns(p as int)
        }),
{
    let w = s.world;
    let h = w.heap;
    let t = w.threads[i];
    let size = large_object::large_extent(layout, page_size);
    let b = large_cache::best(t.large, size)->0;
    let e = t.large[b];
    let key = e.original_ptr;
    let p = large_object::payload_at(key as int, layout);
    let header = LargeHeader { original_ptr: key, alloc_size: e.alloc_size };
    assert(large_cache::best_fit(t.large, b, size));
    assert(s.has(i, b) && s.cached(i, b) == e);
    assert(s.entry(key) == e);
    assert(thread_heap::mapping_ok(h, s.memory, page_size, e));
    layout.lemma_bounds();
    large_object::lemma_payload(key as int, layout, e.alloc_size as int, page_size);
    large_object::lemma_payload_inside(key as int, layout, e.alloc_size as int, page_size);
    assert(memory::range_mapped(s.memory, p - 16, 16)) by {
        assert forall|x: int| p - 16 <= x < p implies #[trigger] s.memory.dom().contains(x) by {
            assert(s.covers(key, x));
            lemma_covered(s, page_size, key, x);
        }
    }
    large_object::lemma_with_header(s.memory, p, header);
    assert(s2.memory == large_object::with_header(s.memory, p, header));
    lemma_world_caches(w, s2.world);
    // Bytes outside the mapping are left alone.
    assert forall|x: int| s.memory.dom().contains(x) && !s.covers(key, x) implies #[trigger] s2.memory[x]
        == s.memory[x] by {}
    assert(s2.caches_ok()) by {
        assert forall|k: int, j: int| #[trigger] s2.has(k, j) implies {
            let j0 = if k == i && j >= b {
                j + 1
            } else {
                j
            };
            s.has(k, j0) && s2.cached(k, j) == s.cached(k, j0) && s2.cached(k, j).original_ptr
                != key
        } by {
            let j0 = if k == i && j >= b {
                j + 1
            } else {
                j
            };
            assert(s.has(k, j0));
            assert(s.has(i, b));
            assert(s2.cached(k, j) == s.cached(k, j0));
        }
        assert forall|k: int, j: int, l: int, o: int| #[trigger]
            s2.has(k, j) && #[trigger] s2.has(l, o) && s2.cached(k, j).original_ptr == s2.cached(
                l,
                o,
            ).original_ptr implies k == l && j == o by {
            let j0 = if k == i && j >= b {
                j + 1
            } else {
                j
            };
            let o0 = if l == i && o >= b {
                o + 1
            } else {
                o
            };
            assert(s.has(k, j0) && s.has(l, o0));
        }
    }
    assert forall|k: usize| #[trigger]
        s2.maps.dom().contains(k) implies s.maps.dom().contains(k) && s2.entry(k) == s.entry(
        k,
    ) by {}
    assert forall|k: usize| #[trigger]
        s2.maps.dom().contains(k) implies thread_heap::mapping_ok(
        h,
        s2.memory,
        page_size,
        s2.entry(k),
    ) by {
        assert(thread_heap::mapping_ok(h, s.memory, page_size, s.entry(k)));
    }
    assert forall|k: usize, l: usize| #[trigger]
        s2.maps.dom().contains(k) && #[trigger] s2.maps.dom().contains(l) && k
            != l implies thread_heap::mappings_apart(s2.entry(k), s2.entry(l)) by {
        assert(s.maps.dom().contains(k) && s.maps.dom().contains(l));
    }
    assert forall|k: usize| #[trigger]
        s2.maps.dom().contains(k) implies (s2.maps[k].owner matches Owner::Live {
        payload,
        layout: l,
    } ==> s2.object_ok(k, payload, l)) by {
        if k != key {
            assert(s.maps.dom().contains(k));
            if let Owner::Live { payload, layout: l } = s.maps[k].owner {
                assert(s.object_ok(k, payload, l));
                assert forall|x: int| payload - 16 <= x < payload implies #[trigger] s2.memory[x]
                    == s.memory[x] by {
                    assert(s.covers(k, x));
                    lemma_covered(s, page_size, k, x);
                    if s.covers(key, x) {
                        lemma_apart(s, page_size, k, key, x);
                    }
                }
                lemma_header_kept(s.memory, s2.memory, payload as int);
            }
        }
    }
    assert forall|x: int| s.live_byte(x) implies s.memory.dom().contains(x) && !s.covers(
        key,
        x,
    ) by {
        if s.small_byte(x) {
            let a = choose|a: usize| #[trigger]
                w.live.dom().contains(a) && a <= x < a + size_class::class_size(w.live[a]);
            lemma_small_byte(s, page_size, a, x);
            if s.covers(key, x) {
                lemma_covered(s, page_size, key, x);
            }
        } else {
            let k = choose|k: usize| s.in_object(k, x);
            lemma_in_object(s, page_size, k, x);
            if s.covers(key, x) {
                lemma_apart(s, page_size, k, key, x);
            }
        }
    }
    assert forall|x: int| p <= x < p + layout.spec_size() implies s2.memory.dom().contains(x)
        && !#[trigger] s.live_byte(x) by {
        assert(s.covers(key, x));
        lemma_covered(s, page_size, key, x);
    }
    assert(s.covers(key, p));
    lemma_covered(s, page_size, key, p);
    lemma_not_live_at(s, page_size, key, p as usize);
}

/// An allocation of a large object in a fresh mapping.
proof fn lemma_allocates_fresh(
    s: System,
    page_size: int,
    thread: Option<int>,
    layout: Layout,
    raw: usize,
    s2: System,
)
    requires
        0 < page_size <= isize::MAX,
        s.wf(page_size),
        allocates(s, page_size, thread, layout, Some(raw), s2),
        allocator::alloc_step(
            s.world.heap,
            s.thread(thread),
            layout,
            page_size,
        ).2 is MapFresh,
    ensures
        s2.wf(page_size),
        forall|x: int| s.live_byte(x) ==> #[trigger] s2.memory[x] == s.memory[x],
        ({
            let p = allocated_at(s, page_size, thread, layout, Some(raw))->0;
            &&& allocated_at(s, page_size, thread, layout, Some(raw)) is Some
            &&& p != 0
            &&& p as int % layout.spec_align() == 0
            &&& memory::range_mapped(s2.memory, p as int, layout.spec_size())
            &&& forall|x: int| p <= x < p + layout.spec_size() ==> !#[trigger] s.live_byte(x)
            &&& !s.live_at(p)
            &&& !s.world.heap.owns(p as int)
        }),
{
    let w = s.world;
    let h = w.heap;
    let size = large_object::large_extent(layout, page_size);
    let p = large_object::payload_at(raw as int, layout);
    let header = LargeHeader { original_ptr: raw, alloc_size: size as usize };
    let m1 = with_fresh(s.memory, raw as int, size);
    layout.lemma_bounds();
    laws::law_large_payload(raw as int, layout, page_size);
    large_object::lemma_payload(raw as int, layout, size, page_size);
    large_object::lemma_payload_inside(raw as int, layout, size, page_size);
    assert(memory::range_mapped(m1, p - 16, 16)) by {
        assert forall|x: int| p - 16 <= x < p implies #[trigger] m1.dom().contains(x) by {}
    }
    large_object::lemma_with_header(m1, p, header);
    assert(s2.memory == large_object::with_header(m1, p, header));
    // What was mapped before is not in the new mapping, and left alone.
    assert forall|x: int| #[trigger] s.memory.dom().contains(x) implies s2.memory.dom().contains(
        x,
    ) && s2.memory[x] == s.memory[x] && !(raw <= x < raw + size) by {
        assert(m1.dom().contains(x));
    }
    assert forall|x: int| raw <= x < raw + size implies #[trigger] s2.memory.dom().contains(x) by {
        assert(m1.dom().contains(x));
    }
    assert(!s.maps.dom().contains(raw)) by {
        if s.maps.dom().contains(raw) {
            assert(thread_heap::mapping_ok(h, s.memory, page_size, s.entry(raw)));
            assert(s.covers(raw, raw as int));
            lemma_covered(s, page_size, raw, raw as int);
        }
    }
    assert(raw + size <= h.base || h.lo(h.nodes) <= raw) by {
        if raw + size > h.base && raw < h.lo(h.nodes) {
            let x = if raw < h.base {
                h.base
            } else {
                raw as int
            };
            heap_view::lemma_region_end(h, 0);
            assert(h.base <= x < h.base + h.nodes * h.region);
            assert(s.memory.dom().contains(x));
        }
    }
    assert(h.mapped(s2.memory)) by {
        assert forall|x: int| h.base <= x < h.base + h.nodes * h.region implies #[trigger] s2.memory.dom().contains(
            x,
        ) by {
            assert(s.memory.dom().contains(x));
        }
    }
    assert(s2.caches_ok()) by {
        assert forall|i: int, j: int| #[trigger] s2.has(i, j) implies s.has(i, j) by {}
    }
    assert forall|k: usize| #[trigger]
        s2.maps.dom().contains(k) implies thread_heap::mapping_ok(
        h,
        s2.memory,
        page_size,
        s2.entry(k),
    ) by {
        if k != raw {
            assert(s.maps.dom().contains(k));
            assert(s2.entry(k) == s.entry(k));
            assert forall|x: int| k <= x < k + s.maps[k].size implies #[trigger] s2.memory.dom().contains(
                x,
            ) by {
                assert(s.covers(k, x));
                lemma_covered(s, page_size, k, x);
            }
        }
    }
    assert forall|k: usize| #[trigger] s.maps.dom().contains(k) implies {
        let e = s.entry(k);
        raw + size <= e.original_ptr || e.original_ptr + e.alloc_size <= raw
    } by {
        let e = s.entry(k);
        if raw + size > e.original_ptr && e.original_ptr + e.alloc_size > raw {
            assert(thread_heap::mapping_ok(h, s.memory, page_size, e));
            let x = if raw < k {
                k as int
            } else {
                raw as int
            };
            assert(s.covers(k, x));
            lemma_covered(s, page_size, k, x);
        }
    }
    assert forall|k: usize, l: usize| #[trigger]
        s2.maps.dom().contains(k) && #[trigger] s2.maps.dom().contains(l) && k
            != l implies thread_heap::mappings_apart(s2.entry(k), s2.entry(l)) by {
        if k != raw {
            assert(s.maps.dom().contains(k));
            assert(s2.entry(k) == s.entry(k));
        }
        if l != raw {
            assert(s.maps.dom().contains(l));
            assert(s2.entry(l) == s.entry(l));
        }
    }
    assert forall|k: usize| #[trigger]
        s2.maps.dom().contains(k) implies (s2.maps[k].owner matches Owner::Live {
        payload,
        layout: l,
    } ==> s2.object_ok(k, payload, l)) by {
        if k != raw {
            assert(s.maps.dom().contains(k));
            if let Owner::Live { payload, layout: l } = s.maps[k].owner {
                assert(s.object_ok(k, payload, l));
                assert forall|x: int| payload - 16 <= x < payload implies #[trigger] s2.memory[x]
                    == s.memory[x] by {
                    assert(s.covers(k, x));
                    lemma_covered(s, page_size, k, x);
                }
                lemma_header_kept(s.memory, s2.memory, payload as int);
            }
        }
    }
    assert forall|x: int| s.live_byte(x) implies s.memory.dom().contains(x) by {
        if s.small_byte(x) {
            let a = choose|a: usize| #[trigger]
                w.live.dom().contains(a) && a <= x < a + size_class::class_size(w.live[a]);
            lemma_small_byte(s, page_size, a, x);
        } else {
            let k = choose|k: usize| s.in_object(k, x);
            lemma_in_object(s, page_size, k, x);
        }
    }
    assert forall|x: int| p <= x < p + layout.spec_size() implies s2.memory.dom().contains(x)
        && !#[trigger] s.live_byte(x) by {
        if s.live_byte(x) {
            assert(s.memory.dom().contains(x));
        }
    }
    if s.live_at(p as usize) {
        if w.live.dom().contains(p as usize) {
            assert(w.live_ok(p as usize));
            heap_view::lemma_bags(w.live[p as usize]);
            lemma_small_byte(s, page_size, p as usize, p);
        } else {
            let k = choose|k: usize| #[trigger]
                s.maps.dom().contains(k) && (s.maps[k].owner matches Owner::Live { payload, .. }
                    && payload == p);
            assert(s.object_ok(k, p as usize, s.maps[k].owner->layout));
            assert(s.covers(k, p));
            lemma_covered(s, page_size, k, p);
        }
    }
}

/// An allocation in a mapping stores its header outside the regions.
pub proof fn lemma_mapping_outside(
    s: System,
    page_size: int,
    thread: Option<int>,
    layout: Layout,
    raw: Option<usize>,
    s2: System,
    x: int,
)
    requires
        0 < page_size <= isize::MAX,
        s.wf(page_size),
        allocates(s, page_size, thread, layout, raw, s2),
        !allocator::served_small(s.world.heap, s.thread(thread), layout),
        s.world.heap.base <= x < s.world.heap.lo(s.world.heap.nodes),
    ensures
        s2.memory[x] == s.memory[x],
{
    let h = s.world.heap;
    let t = s.thread(thread);
    let size = large_object::large_extent(layout, page_size);
    layout.lemma_bounds();
    assert(s.memory.dom().contains(x)) by {
        assert(h.base <= x < h.base + h.nodes * h.region);
    }
    match allocator::alloc_step(h, t, layout, page_size).2 {
        AllocStep::Done(None) => {},
        AllocStep::Done(Some(_)) => {
            let b = large_cache::best(t->0.large, size)->0;
            let e = t->0.large[b];
            let key = e.original_ptr;
            let p = large_object::payload_at(key as int, layout);
            assert(large_cache::best_fit(t->0.large, b, size));
            assert(s.has(thread->0, b) && s.cached(thread->0, b) == e);
            assert(s.entry(key) == e);
            assert(thread_heap::mapping_ok(h, s.memory, page_size, e));
            large_object::lemma_payload(key as int, layout, e.alloc_size as int, page_size);
            assert(memory::range_mapped(s.memory, p - 16, 16));
            large_object::lemma_with_header(
                s.memory,
                p,
                LargeHeader { original_ptr: key, alloc_size: e.alloc_size },
            );
        },
        AllocStep::MapFresh { .. } => {
            if let Some(a) = raw {
                let p = large_object::payload_at(a as int, layout);
                let m1 = with_fresh(s.memory, a as int, size);
                large_object::lemma_payload(a as int, layout, size, page_size);
                assert(memory::range_mapped(m1, p - 16, 16));
                large_object::lemma_with_header(
                    m1,
                    p,
                    LargeHeader { original_ptr: a, alloc_size: size as usize },
                );
                assert(m1.dom().contains(x));
            }
        },
    }
}

/// Any allocation, by any thread, in any state that the system can be in: what
/// it returns is aligned as requested and mapped for the requested size, shares
/// no byte with what is allocated, begins where nothing else does, and lies in
/// the region of the thread's own node or outside all regions; nothing that is
/// allocated changes; and the system stays well-formed.
pub proof fn law_allocation(
    s: System,
    page_size: int,
    thread: Option<int>,
    layout: Layout,
    raw: Option<usize>,
    s2: System,
)
    requires
        0 < page_size <= isize::MAX,
        s.wf(page_size),
        allocates(s, page_size, thread, layout, raw, s2),
    ensures
        s2.wf(page_size),
        forall|x: int| s.live_byte(x) ==> #[trigger] s2.memory[x] == s.memory[x],
        allocated_at(s, page_size, thread, layout, raw) matches Some(p) ==> {
            let h = s.world.heap;
            &&& p != 0
            &&& p as int % layout.spec_align() == 0
            &&& memory::range_mapped(s2.memory, p as int, layout.spec_size())
            &&& forall|x: int| p <= x < p + layout.spec_size() ==> !#[trigger] s.live_byte(x)
            &&& !s.live_at(p)
            &&& h.owns(p as int) ==> {
                &&& thread is Some
                &&& h.lo(s.world.threads[thread->0].node) <= p
                &&& p + layout.spec_size() <= h.lo(s.world.threads[thread->0].node) + h.region
            }
        },
{
    match allocator::alloc_step(s.world.heap, s.thread(thread), layout, page_size).2 {
        AllocStep::Done(None) => {},
        AllocStep::Done(Some(_)) => {
            if allocator::served_small(s.world.heap, s.thread(thread), layout) {
                lemma_allocates_small(s, page_size, thread->0, layout, raw, s2);
            } else {
                lemma_allocates_cached(s, page_size, thread->0, layout, raw, s2);
            }
        },
        AllocStep::MapFresh { .. } => {
            if let Some(a) = raw {
                lemma_allocates_fresh(s, page_size, thread, layout, a, s2);
            }
        },
    }
}

// ---------------------------------------------------------------------------
// Other calls
// ---------------------------------------------------------------------------
/// A live byte is mapped.
proof fn lemma_live_mapped(s: System, page_size: int, x: int)
    requires
        s.wf(page_size),
        s.live_byte(x),
    ensures
        s.memory.dom().contains(x),
{
    if s.small_byte(x) {
        let a = choose|a: usize| #[trigger]
            s.world.live.dom().contains(a) && a <= x < a + size_class::class_size(
                s.world.live[a],
            );
        lemma_small_byte(s, page_size, a, x);
    } else {
        let k = choose|k: usize| s.in_object(k, x);
        lemma_in_object(s, page_size, k, x);
    }
}

/// A deallocation of a small object.
proof fn lemma_deallocates(
    s: System,
    page_size: int,
    thread: Option<int>,
    addr: usize,
    s2: System,
)
    requires
        s.wf(page_size),
        deallocates(s, thread, addr, s2),
    ensures
        s2.wf(page_size),
        forall|x: int|
            s.live_byte(x) && s2.live_byte(x) ==> #[trigger] s2.memory[x] == s.memory[x],
{
    let w = s.world;
    let h = w.heap;
    let c = w.live[addr];
    let n = h.node_of(addr as int);
    let t = s.thread(thread);
    let touched = allocator::dealloc_touched(h, t, c, addr);
    match thread {
        Some(i) => {
            laws::law_dealloc(w, i, addr);
            assert(w.threads[i].wf(h));
        },
        None => laws::law_bare_dealloc(w, addr),
    }
    assert(w.live_ok(addr));
    assert(s2.memory.dom() =~= s.memory.dom());
    assert forall|a: usize| #[trigger] touched.contains(a) implies laws::is_object(h, a) by {
        assert(h.placed(n, c, a)) by {
            if t is Some && t->0.node == n {
                assert(t->0.class_ok(h, c));
                laws::lemma_concat_contains(seq![addr], t->0.lists[c]);
            }
        }
    }
    assert forall|k: usize, x: int| #[trigger] s.covers(k, x) implies s2.memory[x]
        == s.memory[x] by {
        lemma_covered(s, page_size, k, x);
        lemma_outside_kept(h, s.memory, s2.memory, touched, x);
    }
    assert forall|k: usize, x: int|
        #![trigger s2.maps.dom().contains(k), s2.memory[x]]
        s2.maps.dom().contains(k) && (s2.maps[k].owner matches Owner::Live { payload, .. }
            && payload - 16 <= x < payload) implies s2.memory[x] == s.memory[x] by {
        assert(s.maps.dom().contains(k));
        assert(s.maps[k].owner matches Owner::Live { payload, layout } ==> s.object_ok(
            k,
            payload,
            layout,
        ));
        assert(s.covers(k, x));
    }
    assert forall|k: usize, x: int| #[trigger] s2.covers(k, x) implies s2.memory.dom().contains(
        x,
    ) by {
        assert(s.covers(k, x));
        lemma_covered(s, page_size, k, x);
    }
    assert forall|j: int| 0 <= j < w.threads.len() implies (#[trigger] s2.world.threads[j]).large
        == w.threads[j].large by {}
    lemma_same_caches(s, s2);
    lemma_frame(s, s2, page_size);
    assert forall|x: int| s.live_byte(x) && s2.live_byte(x) implies #[trigger] s2.memory[x]
        == s.memory[x] by {
        lemma_live_mapped(s, page_size, x);
        if s2.small_byte(x) {
            let b = choose|b: usize| #[trigger]
                s2.world.live.dom().contains(b) && b <= x < b + size_class::class_size(
                    s2.world.live[b],
                );
            assert(w.live.dom().contains(b) && b != addr);
            laws::law_dealloc_keeps_contents(w, thread, addr, s.memory, s2.memory, b, x);
        } else {
            let k = choose|k: usize| s2.in_object(k, x);
            assert(s.in_object(k, x));
            lemma_in_object(s, page_size, k, x);
        }
    }
}

/// A start of a thread.
proof fn lemma_enters(s: System, page_size: int, node: int, s2: System)
    requires
        s.wf(page_size),
        leads_to(s, page_size, Call::Enter { node }, s2),
    ensures
        s2.wf(page_size),
        s2.memory == s.memory,
{
    laws::law_thread_enter(s.world, node);
    assert forall|i: int, j: int| #[trigger] s2.has(i, j) implies s.has(i, j) && s2.cached(i, j)
        == s.cached(i, j) by {}
    assert(s2.caches_ok());
    assert forall|k: usize, x: int| #[trigger] s2.covers(k, x) implies s2.memory.dom().contains(
        x,
    ) by {
        assert(s.covers(k, x));
        lemma_covered(s, page_size, k, x);
    }
    lemma_frame(s, s2, page_size);
}

/// A use of allocated memory.
proof fn lemma_writes(s: System, page_size: int, s2: System)
    requires
        s.wf(page_size),
        writes(s, s2),
    ensures
        s2.wf(page_size),
{
    assert forall|k: usize, x: int|
        #![trigger s2.maps.dom().contains(k), s2.memory[x]]
        s2.maps.dom().contains(k) && (s2.maps[k].owner matches Owner::Live { payload, .. }
            && payload - 16 <= x < payload) implies s2.memory[x] == s.memory[x] by {
        assert(s.maps.dom().contains(k));
        assert(s.maps[k].owner matches Owner::Live { payload, layout } ==> s.object_ok(
            k,
            payload,
            layout,
        ));
        assert(s.covers(k, x));
        lemma_covered(s, page_size, k, x);
        if s.live_byte(x) {
            if s.small_byte(x) {
                let a = choose|a: usize| #[trigger]
                    s.world.live.dom().contains(a) && a <= x < a + size_class::class_size(
                        s.world.live[a],
                    );
                lemma_small_byte(s, page_size, a, x);
            } else {
                let l = choose|l: usize| s.in_object(l, x);
                lemma_in_object(s, page_size, l, x);
                lemma_apart(s, page_size, k, l, x);
            }
        }
    }
    assert forall|k: usize, x: int| #[trigger] s2.covers(k, x) implies s2.memory.dom().contains(
        x,
    ) by {
        assert(s.covers(k, x));
        lemma_covered(s, page_size, k, x);
    }
    lemma_same_caches(s, s2);
    lemma_frame(s, s2, page_size);
}

/// What is left when mappings are unmapped is still mapped.
proof fn lemma_unmaps(s: System, page_size: int, gone: Set<usize>, m2: Map<int, u8>)
    requires
        s.wf(page_size),
        unmaps(s, gone, m2),
    ensures
        s.world.heap.mapped(m2),
        forall|k: usize, x: int| #[trigger]
            s.covers(k, x) && !gone.contains(k) ==> m2.dom().contains(x),
        forall|x: int|
            s.world.heap.base <= x < s.world.heap.lo(s.world.heap.nodes)
                ==> #[trigger] m2.dom().contains(x),
{
    let h = s.world.heap;
    assert forall|x: int| h.base <= x < h.lo(h.nodes) implies #[trigger] m2.dom().contains(x) by {
        assert(s.memory.dom().contains(x));
        if exists|k: usize| gone.contains(k) && s.covers(k, x) {
            let k = choose|k: usize| gone.contains(k) && s.covers(k, x);
            lemma_covered(s, page_size, k, x);
        }
    }
    assert forall|k: usize, x: int| #[trigger]
        s.covers(k, x) && !gone.contains(k) implies m2.dom().contains(x) by {
        lemma_covered(s, page_size, k, x);
        if exists|l: usize| gone.contains(l) && s.covers(l, x) {
            let l = choose|l: usize| gone.contains(l) && s.covers(l, x);
            lemma_apart(s, page_size, k, l, x);
        }
    }
}

/// A deallocation of a large object.
proof fn lemma_releases(s: System, page_size: int, thread: Option<int>, key: usize, s2: System)
    requires
        s.wf(page_size),
        releases(s, thread, key, s2),
    ensures
        s2.wf(page_size),
        forall|x: int|
            s.live_byte(x) && s2.live_byte(x) ==> #[trigger] s2.memory[x] == s.memory[x],
{
    let size = s.maps[key].size;
    let keeps = thread is Some && size <= large_cache::MAX_LARGE_CACHE_BYTES;
    let out = match thread {
        Some(i) => evicted(s, i, size as int),
        None => Set::empty(),
    };
    let gone = if keeps {
        out
    } else {
        out.insert(key)
    };
    lemma_unmaps(s, page_size, gone, s2.memory);
    assert(s2.caches_ok()) by {
        match thread {
            None => {
                assert forall|k: int, j: int| #[trigger] s2.has(k, j) implies s.has(k, j) && s2.cached(
                    k,
                    j,
                ) == s.cached(k, j) && s.cached(k, j).original_ptr != key by {
                    assert(s.has(k, j));
                }
            },
            Some(i) => lemma_released_caches(s, page_size, i, key, s2),
        }
    }
    lemma_world_caches(s.world, s2.world);
    assert forall|k: usize, x: int| #[trigger] s2.covers(k, x) implies s2.memory.dom().contains(
        x,
    ) by {
        assert(s.covers(k, x) && !gone.contains(k));
    }
    assert forall|k: usize, x: int|
        #![trigger s2.maps.dom().contains(k), s2.memory[x]]
        s2.maps.dom().contains(k) && (s2.maps[k].owner matches Owner::Live { payload, .. }
            && payload - 16 <= x < payload) implies s2.memory[x] == s.memory[x] by {
        assert(s.maps.dom().contains(k) && k != key);
        assert(s.maps[k].owner matches Owner::Live { payload, layout } ==> s.object_ok(
            k,
            payload,
            layout,
        ));
        assert(s.covers(k, x));
        if s.covers(key, x) {
            lemma_apart(s, page_size, k, key, x);
        }
        assert(s2.memory.dom().contains(x));
    }
    lemma_frame(s, s2, page_size);
    assert forall|x: int| s.live_byte(x) && s2.live_byte(x) implies #[trigger] s2.memory[x]
        == s.memory[x] by {
        lemma_live_mapped(s2, page_size, x);
        if s.covers(key, x) {
            lemma_covered(s, page_size, key, x);
            if s2.small_byte(x) {
                let a = choose|a: usize| #[trigger]
                    s2.world.live.dom().contains(a) && a <= x < a + size_class::class_size(
                        s2.world.live[a],
                    );
                lemma_small_byte(s2, page_size, a, x);
            } else {
                let k = choose|k: usize| s2.in_object(k, x);
                assert(k != key);
                assert(s.in_object(k, x));
                lemma_in_object(s, page_size, k, x);
                lemma_apart(s, page_size, k, key, x);
            }
        }
    }
}

/// The caches after a release: the evicted mappings are gone, and the released
/// one comes last.
proof fn lemma_released_caches(s: System, page_size: int, i: int, key: usize, s2: System)
    requires
        s.wf(page_size),
        releases(s, Some(i), key, s2),
    ensures
        s2.caches_ok(),
{
    let size = s.maps[key].size;
    let keeps = size <= large_cache::MAX_LARGE_CACHE_BYTES;
    let large = s.world.threads[i].large;
    let rest = large_cache::after_evictions(large, size as int);
    let out = evicted(s, i, size as int);
    laws::law_evicts_oldest(large, size as int);
    let n = choose|n: int|
        #![trigger large.skip(n)]
        0 <= n <= large.len() && rest == large.skip(n) && (n > 0 ==> large_cache::must_evict(
            large.skip(n - 1),
            size as int,
        ));
    assert(n == large.len() - rest.len());
    let was = |k: int, j: int|
        if k == i {
            j + n
        } else {
            j
        };
    assert forall|k: int, j: int| #[trigger] s2.has(k, j) implies {
        ||| k == i && j == rest.len() && keeps && s2.cached(k, j) == s.entry(key)
        ||| s.has(k, was(k, j)) && s2.cached(k, j) == s.cached(k, was(k, j)) && s2.cached(
            k,
            j,
        ).original_ptr != key && !out.contains(s2.cached(k, j).original_ptr)
    } by {
        if !(k == i && j == rest.len()) {
            let o = was(k, j);
            assert(s.has(k, o));
            assert(s2.cached(k, j) == s.cached(k, o));
            let e = s.cached(k, o);
            assert(e.original_ptr != key);
            if out.contains(e.original_ptr) {
                let l = choose|l: int|
                    0 <= l < n && (#[trigger] large[l]).original_ptr == e.original_ptr;
                assert(s.has(i, l) && s.cached(i, l) == large[l]);
            }
        }
    }
    if keeps {
        if out.contains(key) {
            let l = choose|l: int| 0 <= l < n && (#[trigger] large[l]).original_ptr == key;
            assert(s.has(i, l) && s.cached(i, l) == large[l]);
        }
    }
    assert forall|k: int, j: int| #[trigger] s2.has(k, j) implies {
        let e = s2.cached(k, j);
        &&& s2.maps.dom().contains(e.original_ptr)
        &&& s2.maps[e.original_ptr].size == e.alloc_size
        &&& s2.maps[e.original_ptr].owner is Cached
    } by {
        if !(k == i && j == rest.len() && keeps) {
            assert(s.has(k, was(k, j)));
        }
    }
    assert forall|k: int, j: int, l: int, o: int| #[trigger]
        s2.has(k, j) && #[trigger] s2.has(l, o) && s2.cached(k, j).original_ptr == s2.cached(
            l,
            o,
        ).original_ptr implies k == l && j == o by {
        if s2.cached(k, j).original_ptr != key {
            assert(s.has(k, was(k, j)) && s.has(l, was(l, o)));
        }
    }
}

/// An exit of a thread.
proof fn lemma_exits(s: System, page_size: int, i: int, s2: System)
    requires
        s.wf(page_size),
        exits(s, i, s2),
    ensures
        s2.wf(page_size),
        forall|x: int|
            s.live_byte(x) && s2.live_byte(x) ==> #[trigger] s2.memory[x] == s.memory[x],
{
    let w = s.world;
    let h = w.heap;
    let t = w.threads[i];
    let gone = cache_of(s, i);
    let blocks = thread_heap::thread_blocks(t, NUM_SIZE_CLASSES as int);
    laws::law_thread_exit(w, i);
    lemma_unmaps(s, page_size, gone, s2.memory);
    assert(t.wf(h));
    // What memory would be without the unmapping.
    let m1 = Map::<int, u8>::new(
        |x: int| s.memory.dom().contains(x),
        |x: int|
            if s2.memory.dom().contains(x) {
                s2.memory[x]
            } else {
                s.memory[x]
            },
    );
    assert(freelist::links_only(s.memory, m1, blocks)) by {
        assert(m1.dom() =~= s.memory.dom());
    }
    assert forall|a: usize| #[trigger] blocks.contains(a) implies laws::is_object(h, a) by {
        laws::lemma_thread_blocks(t, 16, a);
        let c = choose|c: int|
            0 <= c < NUM_SIZE_CLASSES && #[trigger] laws::in_thread(t, c, a);
        assert(t.class_ok(h, c));
        assert(h.placed(t.node, c, a));
    }
    assert(s2.caches_ok()) by {
        assert forall|k: int, j: int| #[trigger] s2.has(k, j) implies {
            let o = if k < i {
                k
            } else {
                k + 1
            };
            s.has(o, j) && s2.cached(k, j) == s.cached(o, j) && !gone.contains(
                s2.cached(k, j).original_ptr,
            )
        } by {
            let o = if k < i {
                k
            } else {
                k + 1
            };
            assert(s.has(o, j));
            let e = s.cached(o, j);
            if gone.contains(e.original_ptr) {
                let l = choose|l: int|
                    0 <= l < t.large.len() && (#[trigger] t.large[l]).original_ptr
                        == e.original_ptr;
                assert(s.has(i, l) && s.cached(i, l) == t.large[l]);
            }
        }
        assert forall|k: int, j: int, l: int, p: int| #[trigger]
            s2.has(k, j) && #[trigger] s2.has(l, p) && s2.cached(k, j).original_ptr == s2.cached(
                l,
                p,
            ).original_ptr implies k == l && j == p by {
            let o = if k < i {
                k
            } else {
                k + 1
            };
            let q = if l < i {
                l
            } else {
                l + 1
            };
            assert(s.has(o, j) && s.has(q, p));
        }
    }
    assert forall|k: usize, x: int| #[trigger] s2.covers(k, x) implies s2.memory.dom().contains(
        x,
    ) && s2.memory[x] == s.memory[x] by {
        assert(s.covers(k, x) && !gone.contains(k));
        lemma_covered(s, page_size, k, x);
        lemma_outside_kept(h, s.memory, m1, blocks, x);
    }
    assert forall|k: usize, x: int|
        #![trigger s2.maps.dom().contains(k), s2.memory[x]]
        s2.maps.dom().contains(k) && (s2.maps[k].owner matches Owner::Live { payload, .. }
            && payload - 16 <= x < payload) implies s2.memory[x] == s.memory[x] by {
        assert(s.maps.dom().contains(k));
        assert(s.maps[k].owner matches Owner::Live { payload, layout } ==> s.object_ok(
            k,
            payload,
            layout,
        ));
        assert(s2.covers(k, x));
    }
    lemma_frame(s, s2, page_size);
    assert forall|x: int| s.live_byte(x) && s2.live_byte(x) implies #[trigger] s2.memory[x]
        == s.memory[x] by {
        lemma_live_mapped(s2, page_size, x);
        if s2.small_byte(x) {
            let b = choose|b: usize| #[trigger]
                s2.world.live.dom().contains(b) && b <= x < b + size_class::class_size(
                    s2.world.live[b],
                );
            lemma_small_byte(s, page_size, b, x);
            laws::law_exit_keeps_contents(w, i, s.memory, m1, b, x);
        } else {
            let k = choose|k: usize| s2.in_object(k, x);
            lemma_in_object(s2, page_size, k, x);
        }
    }
}

/// Every call keeps the system well-formed, and, unless it is a use of memory,
/// changes no byte that is allocated before and after it.
pub proof fn law_call(s: System, page_size: int, c: Call, s2: System)
    requires
        0 < page_size <= isize::MAX,
        s.wf(page_size),
        leads_to(s, page_size, c, s2),
    ensures
        s2.wf(page_size),
        !(c is Write) ==> forall|x: int|
            s.live_byte(x) && s2.live_byte(x) ==> #[trigger] s2.memory[x] == s.memory[x],
{
    match c {
        Call::Enter { node } => lemma_enters(s, page_size, node, s2),
        Call::Allocate { thread, layout, raw } => law_allocation(
            s,
            page_size,
            thread,
            layout,
            raw,
            s2,
        ),
        Call::Deallocate { thread, addr } => lemma_deallocates(s, page_size, thread, addr, s2),
        Call::Release { thread, key } => lemma_releases(s, page_size, thread, key, s2),
        Call::Exit { thread } => lemma_exits(s, page_size, thread, s2),
        Call::Write => lemma_writes(s, page_size, s2),
    }
}

/// The system of a new heap, in memory that is mapped for it.
pub proof fn law_fresh_system(s: System, page_size: int)
    requires
        s.world.wf(),
        s.world.threads.len() == 0,
        s.world.heap.mapped(s.memory),
        s.maps == Map::<usize, Mapping>::empty(),
    ensures
        s.wf(page_size),
{
}

/// Whatever any number of threads call, in whatever order, every state on the
/// way is well-formed; so what [`law_allocation`] says holds of every
/// allocation.
pub proof fn law_calls(states: Seq<System>, page_size: int, calls: Seq<Call>, n: int)
    requires
        0 < page_size <= isize::MAX,
        states.len() == calls.len() + 1,
        states[0].wf(page_size),
        forall|k: int|
            0 <= k < calls.len() ==> leads_to(
                states[k],
                page_size,
                #[trigger] calls[k],
                states[k + 1],
            ),
        0 <= n < states.len(),
    ensures
        states[n].wf(page_size),
    decreases n,
{
    if n > 0 {
        law_calls(states, page_size, calls, n - 1);
        let c = calls[n - 1];
        law_call(states[n - 1], page_size, c, states[n]);
    }
}

} // verus!
