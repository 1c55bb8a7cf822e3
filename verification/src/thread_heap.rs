//! Per-thread heaps: free lists for small objects and a cache of large
//! mappings, used by one thread without synchronisation.
use crate::freelist::{self, FreeBlock, ThreadFreelist, REFILL_BATCH};
use crate::heap::{GlobalHeap, HeapHandle};
use crate::heap_view::{self, HeapView};
use crate::large_cache::{self, LargeCache, LargeCacheEntry, PutStep};
use crate::memory::{self, Memory};
use crate::size_class::{self, NUM_SIZE_CLASSES};
use vstd::prelude::*;

verus! {

/// Maximum objects cached per size class in a per-thread free list before
/// draining excess to the per-node heap.
///
/// Scales with object size: small objects cache up to 2048 items, while large
/// objects cache only 64.  This keeps memory overhead bounded while avoiding
/// excessive drain/refill for bulk allocation patterns.
pub const MAX_CACHE_TABLE: [usize; 16] = [
    2048,
    2048,
    2048,
    1024,
    512,
    256,
    128,
    64,
    64,
    64,
    64,
    64,
    64,
    64,
    64,
    64,
];

/// Two bags' worth of objects, at least 64 and at most 2048.
pub open spec fn max_cache(c: int) -> int {
    let raw = 2 * size_class::class_count(c);
    if raw < 64 {
        64
    } else if raw > 2048 {
        2048
    } else {
        raw
    }
}

/// Returns the maximum per-thread cache size for a given size class.
pub fn max_thread_cache(class_idx: usize) -> (n: usize)
    requires
        class_idx < NUM_SIZE_CLASSES,
    ensures
        n == max_cache(class_idx as int),
{
    proof {
        heap_view::lemma_counts();
    }
    MAX_CACHE_TABLE[class_idx]
}

/// Most objects of class `c` that ever stay on a thread's counted list: the
/// cache limit, or what is left of a fresh bag after the first allocation.
pub open spec fn cache_bound(c: int) -> int {
    if size_class::class_count(c) - 1 > max_cache(c) {
        size_class::class_count(c) - 1
    } else {
        max_cache(c)
    }
}

// ---------------------------------------------------------------------------
// ThreadView — what a thread's heap holds, as mathematics
// ---------------------------------------------------------------------------
/// The state of a thread's heap.
#[verifier::ext_equal]
pub struct ThreadView {
    /// Node that the thread allocates from.
    pub node: int,
    /// Base address of the heap that the thread allocates from.
    pub heap: int,
    /// Counted list of each class, next block first.
    pub lists: Seq<Seq<usize>>,
    /// Spare chain of each class.
    pub parked: Seq<Seq<usize>>,
    /// Cached large mappings.
    pub large: Seq<LargeCacheEntry>,
}

impl ThreadView {
    /// The thread's heap with the lists of class `c` replaced.
    pub open spec fn with_lists(self, c: int, list: Seq<usize>, parked: Seq<usize>) -> ThreadView {
        ThreadView {
            lists: self.lists.update(c, list),
            parked: self.parked.update(c, parked),
            ..self
        }
    }

    /// The lists of class `c` hold distinct objects of the thread's node, none
    /// of them on the node's stack.
    pub open spec fn class_ok(self, h: HeapView, c: int) -> bool {
        &&& self.lists[c].no_duplicates()
        &&& self.parked[c].no_duplicates()
        &&& h.all_placed(self.node, c, self.lists[c])
        &&& h.all_placed(self.node, c, self.parked[c])
        &&& freelist::apart(self.lists[c], self.parked[c])
        &&& freelist::apart(self.lists[c], h.stacks[self.node][c])
        &&& freelist::apart(self.parked[c], h.stacks[self.node][c])
        &&& self.lists[c].len() <= cache_bound(c)
    }

    /// The byte at `i` belongs to the link word of a block on a list.
    pub open spec fn link_byte(self, i: int) -> bool {
        exists|c: int|
            0 <= c < NUM_SIZE_CLASSES && (freelist::in_links(#[trigger] self.lists[c], i)
                || freelist::in_links(self.parked[c], i))
    }

    /// No list has the block `a` of class `c`.
    pub open spec fn lacks(self, c: int, a: usize) -> bool {
        &&& !self.lists[c].contains(a)
        &&& !self.parked[c].contains(a)
    }

    /// The state of a thread's heap that only the allocator has touched.
    pub open spec fn wf(self, h: HeapView) -> bool {
        &&& 0 <= self.node < h.nodes
        &&& self.heap == h.base
        &&& self.lists.len() == NUM_SIZE_CLASSES
        &&& self.parked.len() == NUM_SIZE_CLASSES
        &&& forall|c: int| 0 <= c < NUM_SIZE_CLASSES ==> #[trigger] self.class_ok(h, c)
    }
}

/// A mapping that can be cached: whole mapped pages outside the regions.
pub open spec fn mapping_ok(
    h: HeapView,
    m: Map<int, u8>,
    page_size: int,
    e: LargeCacheEntry,
) -> bool {
    &&& 0 < e.original_ptr
    &&& 0 < e.alloc_size
    &&& e.original_ptr + e.alloc_size <= usize::MAX
    &&& e.original_ptr as int % page_size == 0
    &&& e.alloc_size as int % page_size == 0
    &&& memory::range_mapped(m, e.original_ptr as int, e.alloc_size as int)
    &&& e.original_ptr + e.alloc_size <= h.base || h.lo(h.nodes) <= e.original_ptr
}

/// Two mappings do not overlap.
pub open spec fn mappings_apart(e: LargeCacheEntry, f: LargeCacheEntry) -> bool {
    ||| e.original_ptr + e.alloc_size <= f.original_ptr
    ||| f.original_ptr + f.alloc_size <= e.original_ptr
}

/// All cached mappings are whole mapped pages outside the regions, and none
/// overlap.
pub open spec fn mappings_ok(
    h: HeapView,
    m: Map<int, u8>,
    page_size: int,
    s: Seq<LargeCacheEntry>,
) -> bool {
    &&& forall|i: int| 0 <= i < s.len() ==> mapping_ok(h, m, page_size, #[trigger] s[i])
    &&& forall|i: int, j: int|
        0 <= i < j < s.len() ==> mappings_apart(#[trigger] s[i], #[trigger] s[j])
}

/// Taking a mapping out of the cache leaves the others well-formed and apart
/// from it.
pub proof fn lemma_mappings_remove(
    h: HeapView,
    m: Map<int, u8>,
    page_size: int,
    s: Seq<LargeCacheEntry>,
    i: int,
)
    requires
        mappings_ok(h, m, page_size, s),
        0 <= i < s.len(),
    ensures
        mappings_ok(h, m, page_size, s.remove(i)),
        mapping_ok(h, m, page_size, s[i]),
        forall|j: int|
            0 <= j < s.len() - 1 ==> mappings_apart(s[i], #[trigger] s.remove(i)[j]),
{
    let t = s.remove(i);
    assert forall|j: int| 0 <= j < t.len() implies mapping_ok(h, m, page_size, #[trigger] t[j])
        && mappings_apart(s[i], t[j]) by {
        let k = if j < i {
            j
        } else {
            j + 1
        };
        assert(t[j] == s[k]);
        if k < i {
            assert(mappings_apart(s[k], s[i]));
        } else {
            assert(mappings_apart(s[i], s[k]));
        }
    }
    assert forall|j: int, l: int| 0 <= j < l < t.len() implies mappings_apart(
        #[trigger] t[j],
        #[trigger] t[l],
    ) by {
        let k = if j < i {
            j
        } else {
            j + 1
        };
        let o = if l < i {
            l
        } else {
            l + 1
        };
        assert(mappings_apart(s[k], s[o]));
    }
}

/// A change of another node's stack does not matter to a thread's heap.
pub proof fn lemma_remote_stack(h: HeapView, t: ThreadView, n: int, c: int, s: Seq<usize>)
    requires
        t.wf(h),
        h.shape_ok(),
        0 <= n < h.nodes,
        n != t.node,
    ensures
        t.wf(h.with_stack(n, c, s)),
{
    let h2 = h.with_stack(n, c, s);
    assert forall|d: int| 0 <= d < NUM_SIZE_CLASSES implies #[trigger] t.class_ok(h2, d) by {
        assert(t.class_ok(h, d));
        assert forall|k: int, e: int, a: usize| #[trigger] h.placed(k, e, a) implies h2.placed(
            k,
            e,
            a,
        ) by {}
    }
}

/// What is cached of large mappings does not matter to the lists.
pub proof fn lemma_other_large(h: HeapView, t: ThreadView, large: Seq<LargeCacheEntry>)
    requires
        t.wf(h),
    ensures
        (ThreadView { large, ..t }).wf(h),
{
    let u = ThreadView { large, ..t };
    assert forall|c: int| 0 <= c < NUM_SIZE_CLASSES implies #[trigger] u.class_ok(h, c) by {
        assert(t.class_ok(h, c));
    }
}

/// Cached mappings are kept by memory in which they stay mapped.
pub proof fn lemma_mappings_frame(
    h: HeapView,
    m: Map<int, u8>,
    h2: HeapView,
    m2: Map<int, u8>,
    page_size: int,
    s: Seq<LargeCacheEntry>,
)
    requires
        mappings_ok(h, m, page_size, s),
        h2.base == h.base,
        h2.lo(h2.nodes) == h.lo(h.nodes),
        m2.dom() == m.dom(),
    ensures
        mappings_ok(h2, m2, page_size, s),
{
    assert forall|i: int| 0 <= i < s.len() implies mapping_ok(
        h2,
        m2,
        page_size,
        #[trigger] s[i],
    ) by {
        assert(mapping_ok(h, m, page_size, s[i]));
    }
}

/// The part of a chain that a refill counts.
pub open spec fn counted_part(s: Seq<usize>) -> Seq<usize> {
    if s.len() < REFILL_BATCH {
        s
    } else {
        s.take(REFILL_BATCH as int)
    }
}

/// The part of a chain that a refill parks.
pub open spec fn parked_part(s: Seq<usize>) -> Seq<usize> {
    if s.len() < REFILL_BATCH {
        Seq::empty()
    } else {
        s.skip(REFILL_BATCH as int)
    }
}

/// What an allocation of class `c` leaves behind and returns: the first block
/// of the thread's list; else of the spare chain; else of the node's stack,
/// which moves to the thread; else of a new bag.
pub open spec fn alloc_outcome(h: HeapView, t: ThreadView, c: int) -> (
    HeapView,
    ThreadView,
    Option<usize>,
) {
    let n = t.node;
    if t.lists[c].len() > 0 {
        (h, t.with_lists(c, t.lists[c].skip(1), t.parked[c]), Some(t.lists[c][0]))
    } else if t.parked[c].len() > 0 {
        let s = t.parked[c];
        (h, t.with_lists(c, counted_part(s).skip(1), parked_part(s)), Some(s[0]))
    } else if h.stacks[n][c].len() > 0 {
        let s = h.stacks[n][c];
        (
            h.with_stack(n, c, Seq::empty()),
            t.with_lists(c, counted_part(s).skip(1), parked_part(s)),
            Some(s[0]),
        )
    } else if h.can_carve(n, c) {
        let b = heap_view::bag_blocks(h.bag_at(n, c), c);
        (h.with_bag(n, c), t.with_lists(c, b.skip(1), t.parked[c]), Some(b[0]))
    } else {
        (h, t, None)
    }
}

/// The blocks whose links an allocation of class `c` may store.
pub open spec fn alloc_touched(h: HeapView, t: ThreadView, c: int) -> Seq<usize> {
    let n = t.node;
    if t.lists[c].len() > 0 {
        Seq::empty()
    } else if t.parked[c].len() > 0 {
        t.parked[c]
    } else if h.stacks[n][c].len() > 0 {
        h.stacks[n][c]
    } else if h.can_carve(n, c) {
        heap_view::bag_blocks(h.bag_at(n, c), c)
    } else {
        Seq::empty()
    }
}

/// What a deallocation of a local object of class `c` leaves behind: the
/// object is first on the thread's list, and if the list has grown beyond the
/// cache limit, all but the first half of the limit moves to the node's stack.
pub open spec fn free_outcome(h: HeapView, t: ThreadView, c: int, b: usize) -> (
    HeapView,
    ThreadView,
) {
    let n = t.node;
    let s = seq![b] + t.lists[c];
    if s.len() > max_cache(c) {
        let keep = max_cache(c) / 2;
        (
            h.with_stack(n, c, s.skip(keep) + h.stacks[n][c]),
            t.with_lists(c, s.take(keep), t.parked[c]),
        )
    } else {
        (h, t.with_lists(c, s, t.parked[c]))
    }
}

/// The heap after a thread has given all its blocks back.
pub open spec fn drain_outcome(h: HeapView, t: ThreadView) -> HeapView {
    HeapView {
        stacks: h.stacks.update(
            t.node,
            Seq::new(
                NUM_SIZE_CLASSES as nat,
                |c: int| t.parked[c] + (t.lists[c] + h.stacks[t.node][c]),
            ),
        ),
        ..h
    }
}

// ---------------------------------------------------------------------------
// PerThreadHeap
// ---------------------------------------------------------------------------
/// Per-thread heap: one [`ThreadFreelist`] per size class, plus the owning
/// node id.  Accessed exclusively by a single thread (no synchronisation).
pub struct PerThreadHeap {
    node_id: usize,
    /// Share in the heap that the cached blocks go back to when the thread
    /// exits.
    global_heap: HeapHandle,
    freelists: [ThreadFreelist; 16],
    large_cache: LargeCache,
}

impl View for PerThreadHeap {
    type V = ThreadView;

    closed spec fn view(&self) -> ThreadView {
        ThreadView {
            node: self.node_id as int,
            heap: self.global_heap.heap(),
            lists: Seq::new(16, |c: int| self.freelists@[c]@),
            parked: Seq::new(16, |c: int| self.freelists@[c].parked()),
            large: self.large_cache@,
        }
    }
}

impl PerThreadHeap {
    /// The free list of class `c`.
    pub closed spec fn list(&self, c: int) -> ThreadFreelist {
        self.freelists@[c]
    }

    /// The cache of large mappings.
    pub closed spec fn cache(&self) -> LargeCache {
        self.large_cache
    }

    /// The thread's heap is as its view says, and its blocks are linked in
    /// memory.
    pub open spec fn wf(&self, h: HeapView, m: Map<int, u8>) -> bool {
        &&& self@.wf(h)
        &&& self.cache().wf()
        &&& forall|c: int| 0 <= c < NUM_SIZE_CLASSES ==> #[trigger] self.list(c).wf(m)
    }

    /// The view shows the blocks on each list.
    pub proof fn lemma_view(&self)
        ensures
            self@.lists.len() == NUM_SIZE_CLASSES,
            self@.parked.len() == NUM_SIZE_CLASSES,
            self@.large == self.cache()@,
            forall|c: int|
                0 <= c < NUM_SIZE_CLASSES ==> (#[trigger] self.list(c))@ == self@.lists[c]
                    && self.list(c).parked() == self@.parked[c],
    {
    }

    /// A thread's heap with nothing cached.
    pub fn new(node_id: usize, global_heap: HeapHandle) -> (th: Self)
        ensures
            th@ == empty_thread(node_id as int, global_heap.heap()),
            th.cache().wf(),
            forall|c: int, m: Map<int, u8>|
                0 <= c < NUM_SIZE_CLASSES ==> #[trigger] th.list(c).wf(m),
            forall|h: HeapView, m: Map<int, u8>|
                node_id < h.nodes && h.base == global_heap.heap() ==> #[trigger] th.wf(h, m),
    {
        let th = PerThreadHeap {
            node_id,
            global_heap,
            freelists: [ThreadFreelist::new();16],
            large_cache: LargeCache::new(),
        };
        proof {
            let v = empty_thread(node_id as int, global_heap.heap());
            assert(th@.lists =~= v.lists);
            assert(th@.parked =~= v.parked);
            assert forall|h: HeapView, m: Map<int, u8>|
                node_id < h.nodes && h.base == global_heap.heap() implies #[trigger] th.wf(
                h,
                m,
            ) by {
                assert forall|c: int| 0 <= c < NUM_SIZE_CLASSES implies #[trigger] th@.class_ok(
                    h,
                    c,
                ) by {
                    heap_view::lemma_bags(c);
                }
            }
        }
        th
    }

    /// Node that the thread allocates from.
    pub fn node_id(&self) -> (n: usize)
        ensures
            n == self@.node,
    {
        self.node_id
    }

    /// The share in the heap, for reading.
    pub fn global_heap(&self) -> (handle: &HeapHandle)
        ensures
            handle.heap() == self@.heap,
    {
        &self.global_heap
    }

    /// Give up the thread's heap for its share in the global heap.
    pub fn into_handle(self) -> (handle: HeapHandle)
        ensures
            handle.heap() == self@.heap,
    {
        self.global_heap
    }

    /// The cache of large mappings, for reading.
    pub fn large_cache(&self) -> (cache: &LargeCache)
        ensures
            *cache == self.cache(),
    {
        &self.large_cache
    }

    /// The free list of a size class.
    pub fn freelist(&self, class_index: usize) -> (list: &ThreadFreelist)
        requires
            class_index < NUM_SIZE_CLASSES,
        ensures
            *list == self.list(class_index as int),
    {
        &self.freelists[class_index]
    }

    /// The free list of a size class, for a change of that list alone.
    pub fn freelist_mut(&mut self, class_index: usize) -> (list: &mut ThreadFreelist)
        requires
            class_index < NUM_SIZE_CLASSES,
        ensures
            *list == old(self).list(class_index as int),
            final(self).list(class_index as int) == *final(list),
            forall|c: int|
                0 <= c < NUM_SIZE_CLASSES && c != class_index ==> #[trigger] final(self).list(c)
                    == old(self).list(c),
            final(self)@ == old(self)@.with_lists(
                class_index as int,
                final(list)@,
                final(list).parked(),
            ),
            final(self).cache() == old(self).cache(),
    {
        &mut self.freelists[class_index]
    }
}

/// The state of a thread's heap with nothing cached.
pub open spec fn empty_thread(node: int, heap: int) -> ThreadView {
    ThreadView {
        node,
        heap,
        lists: Seq::new(16, |c: int| Seq::<usize>::empty()),
        parked: Seq::new(16, |c: int| Seq::<usize>::empty()),
        large: Seq::empty(),
    }
}

/// What holds of a list holds of its parts.
pub proof fn lemma_parts(s: Seq<usize>, k: int)
    requires
        0 <= k <= s.len(),
    ensures
        forall|a: usize| #[trigger] s.take(k).contains(a) ==> s.contains(a),
        forall|a: usize| #[trigger] s.skip(k).contains(a) ==> s.contains(a),
        s.no_duplicates() ==> s.take(k).no_duplicates() && s.skip(k).no_duplicates()
            && freelist::apart(s.take(k), s.skip(k)),
{
    assert forall|a: usize| #[trigger] s.take(k).contains(a) implies s.contains(a) by {
        let i = choose|i: int| 0 <= i < k && s.take(k)[i] == a;
        assert(s[i] == a);
    }
    assert forall|a: usize| #[trigger] s.skip(k).contains(a) implies s.contains(a) by {
        let i = choose|i: int| 0 <= i < s.len() - k && s.skip(k)[i] == a;
        assert(s[i + k] == a);
    }
    if s.no_duplicates() {
        assert forall|a: usize| s.take(k).contains(a) implies !(#[trigger] s.skip(k).contains(
            a,
        )) by {
            if s.skip(k).contains(a) {
                let i = choose|i: int| 0 <= i < k && s.take(k)[i] == a;
                let j = choose|j: int| 0 <= j < s.len() - k && s.skip(k)[j] == a;
                assert(s[i] == s[j + k]);
            }
        }
    }
}

/// A change of the lists of one class and of that class's stack keeps the rest
/// of a thread's heap well-formed.
pub proof fn lemma_with_lists(
    h: HeapView,
    t: ThreadView,
    h2: HeapView,
    c: int,
    list: Seq<usize>,
    parked: Seq<usize>,
)
    requires
        t.wf(h),
        0 <= c < NUM_SIZE_CLASSES,
        h2.base == h.base,
        h2.nodes == h.nodes,
        forall|k: int, d: int, a: usize| #[trigger] h.placed(k, d, a) ==> h2.placed(k, d, a),
        forall|d: int|
            0 <= d < NUM_SIZE_CLASSES && d != c ==> #[trigger] h2.stacks[t.node][d]
                == h.stacks[t.node][d],
        t.with_lists(c, list, parked).class_ok(h2, c),
    ensures
        t.with_lists(c, list, parked).wf(h2),
{
    let t2 = t.with_lists(c, list, parked);
    assert forall|d: int| 0 <= d < NUM_SIZE_CLASSES implies #[trigger] t2.class_ok(h2, d) by {
        if d != c {
            assert(t.class_ok(h, d));
            assert(h2.stacks[t.node][d] == h.stacks[t.node][d]);
        }
    }
}

/// An allocation keeps the heap and the thread's heap well-formed, stores
/// links of free blocks of its class only, and returns one of those.
pub proof fn lemma_alloc_outcome(h: HeapView, t: ThreadView, c: int)
    requires
        h.wf(),
        t.wf(h),
        0 <= c < NUM_SIZE_CLASSES,
    ensures
        ({
            let (h2, t2, r) = alloc_outcome(h, t, c);
            &&& h2.wf()
            &&& t2.wf(h2)
            &&& h2.all_placed(t.node, c, alloc_touched(h, t, c))
            &&& freelist::apart(alloc_touched(h, t, c), h2.stacks[t.node][c])
            &&& r matches Some(a) ==> {
                &&& h2.placed(t.node, c, a)
                &&& !t2.lists[c].contains(a)
                &&& !t2.parked[c].contains(a)
                &&& !h2.stacks[t.node][c].contains(a)
            }
        }),
{
    let n = t.node;
    let (h2, t2, r) = alloc_outcome(h, t, c);
    assert(t.class_ok(h, c));
    heap_view::lemma_bags(c);
    if t.lists[c].len() > 0 {
        let s = t.lists[c];
        lemma_parts(s, 1);
        assert(s.contains(s[0]));
        assert(s.take(1)[0] == s[0]);
        assert(s.take(1).contains(s[0]));
        lemma_with_lists(h, t, h2, c, s.skip(1), t.parked[c]);
    } else if t.parked[c].len() > 0 {
        let s = t.parked[c];
        lemma_refill_lists(s);
        lemma_with_lists(h, t, h2, c, counted_part(s).skip(1), parked_part(s));
    } else if h.stacks[n][c].len() > 0 {
        let s = h.stacks[n][c];
        lemma_refill_lists(s);
        heap_view::lemma_with_stack(h, n, c, Seq::empty());
        assert(s.no_duplicates());
        lemma_with_lists(h, t, h2, c, counted_part(s).skip(1), parked_part(s));
    } else if h.can_carve(n, c) {
        let b = heap_view::bag_blocks(h.bag_at(n, c), c);
        heap_view::lemma_carve(h, n, c);
        heap_view::lemma_carved_blocks(h, n, c);
        lemma_parts(b, 1);
        assert(b.contains(b[0]));
        assert(b.take(1)[0] == b[0]);
        assert(b.take(1).contains(b[0]));
        lemma_with_lists(h, t, h2, c, b.skip(1), t.parked[c]);
    }
}

/// An object that is on no list before an allocation is on none afterwards,
/// and is not the one that is returned.
pub proof fn lemma_alloc_keeps(h: HeapView, t: ThreadView, c: int, n: int, d: int, p: usize)
    requires
        h.wf(),
        t.wf(h),
        0 <= c < NUM_SIZE_CLASSES,
        h.placed(n, d, p),
        !h.stacks[n][d].contains(p),
        n == t.node ==> t.lacks(d, p),
    ensures
        ({
            let (h2, t2, r) = alloc_outcome(h, t, c);
            &&& h2.placed(n, d, p)
            &&& !h2.stacks[n][d].contains(p)
            &&& n == t.node ==> t2.lacks(d, p)
            &&& r != Some(p)
        }),
{
    let k = t.node;
    let (h2, t2, r) = alloc_outcome(h, t, c);
    assert(t.class_ok(h, c));
    if t.lists[c].len() > 0 {
        let s = t.lists[c];
        lemma_parts(s, 1);
        assert(s.contains(s[0]));
        if r == Some(p) {
            heap_view::lemma_placed_unique(h, n, d, k, c, p);
        }
    } else if t.parked[c].len() > 0 {
        let s = t.parked[c];
        lemma_refill_lists(s);
        if r == Some(p) {
            heap_view::lemma_placed_unique(h, n, d, k, c, p);
        }
    } else if h.stacks[k][c].len() > 0 {
        let s = h.stacks[k][c];
        assert(s.no_duplicates());
        lemma_refill_lists(s);
        heap_view::lemma_with_stack(h, k, c, Seq::empty());
        if r == Some(p) {
            assert(h.stacks[k][c].contains(p));
            heap_view::lemma_placed_unique(h, n, d, k, c, p);
        }
    } else if h.can_carve(k, c) {
        let b = heap_view::bag_blocks(h.bag_at(k, c), c);
        heap_view::lemma_bags(c);
        heap_view::lemma_carve(h, k, c);
        heap_view::lemma_carved_blocks(h, k, c);
        lemma_parts(b, 1);
        assert(b.contains(b[0]));
    }
}

/// The parts into which a refill splits a chain.
proof fn lemma_refill_lists(s: Seq<usize>)
    requires
        s.len() > 0,
        s.no_duplicates(),
    ensures
        counted_part(s).len() > 0,
        counted_part(s).len() <= REFILL_BATCH,
        counted_part(s)[0] == s[0],
        s.contains(s[0]),
        counted_part(s).skip(1).no_duplicates(),
        parked_part(s).no_duplicates(),
        !counted_part(s).skip(1).contains(s[0]),
        !parked_part(s).contains(s[0]),
        freelist::apart(counted_part(s).skip(1), parked_part(s)),
        forall|a: usize| #[trigger] counted_part(s).skip(1).contains(a) ==> s.contains(a),
        forall|a: usize| #[trigger] parked_part(s).contains(a) ==> s.contains(a),
{
    let k = if s.len() < REFILL_BATCH {
        s.len() as int
    } else {
        REFILL_BATCH as int
    };
    let u = counted_part(s);
    lemma_parts(s, k);
    assert(u =~= s.take(k));
    assert(parked_part(s) =~= s.skip(k));
    lemma_parts(u, 1);
    assert(u.contains(u[0]));
    assert(u.take(1)[0] == u[0]);
    assert(u.take(1).contains(u[0]));
}

impl PerThreadHeap {
    /// Changes of the links of objects of one class leave the thread's lists
    /// of all other classes as they are.
    proof fn lemma_lists_kept(
        &self,
        h: HeapView,
        m: Map<int, u8>,
        m2: Map<int, u8>,
        c: int,
        h2: HeapView,
        s: Seq<usize>,
    )
        requires
            self.wf(h, m),
            h2.wf(),
            h2.mapped(m),
            forall|k: int, d: int, a: usize| #[trigger] h.placed(k, d, a) ==> h2.placed(k, d, a),
            freelist::links_only(m, m2, s),
            h2.all_placed(self@.node, c, s),
        ensures
            forall|d: int|
                0 <= d < NUM_SIZE_CLASSES && d != c ==> #[trigger] self.list(d).wf(m2),
    {
        self.lemma_view();
        let n = self@.node;
        assert forall|a: usize| #[trigger] s.contains(a) implies freelist::block_ok(m, a) by {
            heap_view::lemma_placed_block(h2, m, n, c, a);
        }
        assert forall|d: int| 0 <= d < NUM_SIZE_CLASSES && d != c implies #[trigger] self.list(
            d,
        ).wf(m2) by {
            let l = self.list(d);
            assert(l.wf(m));
            assert(self@.class_ok(h, d));
            assert(freelist::apart(s, l@)) by {
                assert forall|a: usize| s.contains(a) implies !(#[trigger] l@.contains(a)) by {
                    if l@.contains(a) {
                        assert(h.placed(n, d, a));
                        heap_view::lemma_placed_unique(h2, n, c, n, d, a);
                    }
                }
            }
            assert(freelist::apart(s, l.parked())) by {
                assert forall|a: usize| s.contains(a) implies !(#[trigger] l.parked().contains(
                    a,
                )) by {
                    if l.parked().contains(a) {
                        assert(h.placed(n, d, a));
                        heap_view::lemma_placed_unique(h2, n, c, n, d, a);
                    }
                }
            }
            freelist::lemma_links_chain(m, m2, s, l@);
            freelist::lemma_links_chain(m, m2, s, l.parked());
        }
    }
}

/// Carve the bag at `bag` into objects of a class and put them all on the
/// empty list.
fn fill_from_bag<M: Memory>(
    list: &mut ThreadFreelist,
    mem: &mut M,
    bag: usize,
    class_index: usize,
)
    requires
        old(list).wf(old(mem)@),
        old(list)@.len() == 0,
        old(list).parked().len() == 0,
        class_index < NUM_SIZE_CLASSES,
        bag + size_class::class_bag(class_index as int) <= usize::MAX,
        heap_view::bag_blocks(bag as int, class_index as int).no_duplicates(),
        forall|a: usize| #[trigger]
            heap_view::bag_blocks(bag as int, class_index as int).contains(a)
                ==> freelist::block_ok(old(mem)@, a),
    ensures
        final(list)@ == heap_view::bag_blocks(bag as int, class_index as int),
        final(list).parked() == old(list).parked(),
        final(list).wf(final(mem)@),
        freelist::links_only(
            old(mem)@,
            final(mem)@,
            heap_view::bag_blocks(bag as int, class_index as int),
        ),
{
    let ghost c = class_index as int;
    let ghost blocks = heap_view::bag_blocks(bag as int, c);
    let obj_size: usize = size_class::size_for_class(class_index);
    let count: usize = size_class::objects_per_bag(class_index);
    proof {
        heap_view::lemma_bags(c);
        assert(blocks.skip(count as int) =~= Seq::empty());
        assert(list@ =~= Seq::empty());
    }
    let mut i: usize = 0;
    while i < count
        invariant
            i <= count <= 4096,
            c == class_index,
            0 <= c < NUM_SIZE_CLASSES,
            count == size_class::class_count(c),
            obj_size == size_class::class_size(c),
            count * obj_size == size_class::class_bag(c),
            bag + size_class::class_bag(c) <= usize::MAX,
            blocks == heap_view::bag_blocks(bag as int, c),
            blocks.no_duplicates(),
            forall|a: usize| #[trigger] blocks.contains(a) ==> freelist::block_ok(old(mem)@, a),
            list@ == blocks.skip(count - i),
            list.parked() == old(list).parked(),
            old(list).parked().len() == 0,
            list.wf(mem@),
            freelist::links_only(old(mem)@, mem@, blocks),
        decreases count - i,
    {
        proof {
            assert(0 <= i * obj_size && i * obj_size + obj_size <= count * obj_size)
                by (nonlinear_arith)
                requires
                    0 <= i < count,
            ;
        }
        let obj: usize = bag + i * obj_size;
        let ghost before = mem@;
        proof {
            let j = count - 1 - i;
            assert(blocks[j] == obj);
            assert(blocks.contains(obj));
            assert(freelist::block_ok(old(mem)@, obj));
            assert(freelist::block_ok(mem@, obj));
            assert(!list@.contains(obj)) by {
                if list@.contains(obj) {
                    let k = choose|k: int| 0 <= k < list@.len() && list@[k] == obj;
                    assert(blocks[k + count - i] == blocks[j]);
                }
            }
            assert(seq![obj] + blocks.skip(count - i) =~= blocks.skip(count - i - 1));
        }
        list.push(mem, obj);
        proof {
            freelist::lemma_links_put(
                before,
                obj,
                freelist::link_word(freelist::head_of(blocks.skip(count - i))),
                blocks,
            );
            freelist::lemma_links_trans(old(mem)@, before, mem@, blocks);
        }
        i += 1;
    }
    assert(blocks.skip(0) =~= blocks);
}

/// Refill an empty list from the chain that starts at `first`, and take its
/// first block.
fn refill_and_pop<M: Memory>(
    list: &mut ThreadFreelist,
    mem: &mut M,
    first: usize,
    Ghost(s): Ghost<Seq<usize>>,
) -> (r: Option<usize>)
    requires
        old(list).wf(old(mem)@),
        old(list)@.len() == 0,
        old(list).parked().len() == 0,
        freelist::chain(old(mem)@, Some(first), s),
    ensures
        r == Some(s[0]),
        final(list)@ == counted_part(s).skip(1),
        final(list).parked() == parked_part(s),
        final(list).wf(final(mem)@),
        freelist::links_only(old(mem)@, final(mem)@, s),
{
    proof {
        let k = counted_part(s).len() - 1;
        assert(s.contains(s[k]));
        assert(freelist::block_ok(mem@, s[k]));
        freelist::lemma_links_put(mem@, s[k], 0, s);
        assert(s.take(s.len() as int) =~= s);
        assert(s.skip(s.len() as int) =~= Seq::empty());
    }
    list.refill(mem, first);
    list.pop(mem)
}

impl PerThreadHeap {
    /// Take the first block of the counted list of a class.
    fn alloc_listed<M: Memory>(
        &mut self,
        Ghost(h): Ghost<HeapView>,
        mem: &M,
        class_index: usize,
    ) -> (r: Option<usize>)
        requires
            h.wf(),
            h.mapped(mem@),
            old(self).wf(h, mem@),
            class_index < NUM_SIZE_CLASSES,
        ensures
            r is Some <==> old(self)@.lists[class_index as int].len() > 0,
            r is Some ==> (h, final(self)@, r) == alloc_outcome(h, old(self)@, class_index as int),
            r is None ==> final(self)@ == old(self)@,
            final(self).cache() == old(self).cache(),
            final(self).wf(h, mem@),
    {
        let ghost c = class_index as int;
        let ghost t2 = alloc_outcome(h, self@, c).1;
        proof {
            self.lemma_view();
            lemma_alloc_outcome(h, self@, c);
            assert(self.list(c).wf(mem@));
        }
        let popped = self.freelists[class_index].pop(mem);
        proof {
            if popped is Some {
                assert(self@ =~= t2);
            } else {
                assert(self@ =~= old(self)@);
            }
            self.lemma_settled(old(self), h, mem@, mem@, h, c, Seq::empty());
        }
        popped
    }

    /// Refill the empty list of a class and take its first block.
    fn alloc_refilled<M: Memory>(
        &mut self,
        heap: &mut GlobalHeap,
        mem: &mut M,
        class_index: usize,
    ) -> (r: Option<usize>)
        requires
            old(heap).wf(old(mem)@),
            old(self).wf(old(heap)@, old(mem)@),
            class_index < NUM_SIZE_CLASSES,
            old(self)@.lists[class_index as int].len() == 0,
        ensures
            r is Some <==> old(self)@.parked[class_index as int].len() > 0 || old(
                heap,
            )@.stacks[old(self)@.node][class_index as int].len() > 0,
            r is Some ==> (final(heap)@, final(self)@, r) == alloc_outcome(
                old(heap)@,
                old(self)@,
                class_index as int,
            ),
            r is None ==> final(heap)@ == old(heap)@ && final(self)@ == old(self)@,
            freelist::links_only(
                old(mem)@,
                final(mem)@,
                if r is Some {
                    alloc_touched(old(heap)@, old(self)@, class_index as int)
                } else {
                    Seq::empty()
                },
            ),
            final(heap).mapping_spec() == old(heap).mapping_spec(),
            final(self).cache() == old(self).cache(),
            final(heap).wf(final(mem)@),
            final(self).wf(final(heap)@, final(mem)@),
    {
        let ghost c = class_index as int;
        let ghost h0 = heap@;
        let ghost t0 = self@;
        let ghost n = self@.node;
        proof {
            self.lemma_view();
            heap.lemma_view();
            lemma_alloc_outcome(h0, t0, c);
            assert(t0.class_ok(h0, c));
            assert(self.list(c).wf(mem@));
        }
        // Use this thread's parked spare chain if it has one; otherwise detach
        // the whole shared chain in one step.  Links are only ever read on a
        // chain this thread owns outright.  Only REFILL_BATCH blocks are
        // walked; the remainder is parked as spare, so refill cost is bounded
        // whatever the node stack length.
        let node: usize = self.node_id;
        let spare = self.freelists[class_index].take_spare();
        let chain = match spare {
            Some(first) => Some(first),
            None => heap.take_blocks(node, class_index),
        };
        match chain {
            Some(first) => {
                let ghost touched = alloc_touched(h0, t0, c);
                let ghost (h2, t2, r2) = alloc_outcome(h0, t0, c);
                proof {
                    if spare is None {
                        assert(old(heap).stack(n, c).wf(mem@));
                    }
                    assert(freelist::chain(mem@, Some(first), touched));
                }
                let block = refill_and_pop(
                    &mut self.freelists[class_index],
                    mem,
                    first,
                    Ghost(touched),
                );
                proof {
                    assert(heap@ == h2);
                    assert(self@ =~= t2);
                    heap.lemma_stacks_kept(old(mem)@, mem@, n, c, touched);
                    self.lemma_settled(old(self), h0, old(mem)@, mem@, h2, c, touched);
                }
                block
            },
            None => {
                proof {
                    assert(t0.parked[c] =~= Seq::empty());
                    assert(self@ =~= t0);
                    heap_view::lemma_same_stack(h0, n, c);
                    assert(h0.stacks[n][c] =~= Seq::empty());
                    assert(heap@ == h0);
                    self.lemma_settled(old(self), h0, mem@, mem@, h0, c, Seq::empty());
                }
                None
            },
        }
    }

    /// Carve a new bag for a class of which neither the thread nor its node
    /// has a free block, and take its first block.
    fn alloc_carved<M: Memory>(
        &mut self,
        heap: &mut GlobalHeap,
        mem: &mut M,
        class_index: usize,
    ) -> (r: Option<usize>)
        requires
            old(heap).wf(old(mem)@),
            old(self).wf(old(heap)@, old(mem)@),
            class_index < NUM_SIZE_CLASSES,
            old(self)@.lists[class_index as int].len() == 0,
            old(self)@.parked[class_index as int].len() == 0,
            old(heap)@.stacks[old(self)@.node][class_index as int].len() == 0,
        ensures
            (final(heap)@, final(self)@, r) == alloc_outcome(
                old(heap)@,
                old(self)@,
                class_index as int,
            ),
            freelist::links_only(
                old(mem)@,
                final(mem)@,
                alloc_touched(old(heap)@, old(self)@, class_index as int),
            ),
            final(heap).mapping_spec() == old(heap).mapping_spec(),
            final(self).cache() == old(self).cache(),
            final(heap).wf(final(mem)@),
            final(self).wf(final(heap)@, final(mem)@),
    {
        let ghost c = class_index as int;
        let ghost h0 = heap@;
        let ghost t0 = self@;
        let ghost n = self@.node;
        let ghost touched = alloc_touched(h0, t0, c);
        let ghost (h2, t2, r2) = alloc_outcome(h0, t0, c);
        proof {
            self.lemma_view();
            lemma_alloc_outcome(h0, t0, c);
            assert(self.list(c).wf(mem@));
        }
        let node: usize = self.node_id;
        match heap.carve_bag(node, class_index) {
            None => None,
            Some(bag) => {
                proof {
                    heap_view::lemma_carve(h0, n, c);
                    heap_view::lemma_carved_blocks(h0, n, c);
                    heap_view::lemma_bag_at(h0, n, c);
                    heap_view::lemma_region_end(h0, n);
                    heap_view::lemma_bags(c);
                    assert forall|a: usize| #[trigger] touched.contains(a) implies
                        freelist::block_ok(mem@, a) by {
                        heap_view::lemma_placed_block(h2, mem@, n, c, a);
                    }
                }
                fill_from_bag(&mut self.freelists[class_index], mem, bag, class_index);
                let block = self.freelists[class_index].pop(mem);
                proof {
                    assert(heap@ == h2);
                    assert(self@ =~= t2);
                    heap.lemma_stacks_kept(old(mem)@, mem@, n, c, touched);
                    self.lemma_settled(old(self), h0, old(mem)@, mem@, h2, c, touched);
                }
                block
            },
        }
    }

    /// Allocate an object of a size class: from the counted list, else after a
    /// refill, else from a new bag.  `None` when the node's region is
    /// exhausted.
    pub fn alloc_block<M: Memory>(
        &mut self,
        heap: &mut GlobalHeap,
        mem: &mut M,
        class_index: usize,
    ) -> (r: Option<usize>)
        requires
            old(heap).wf(old(mem)@),
            old(self).wf(old(heap)@, old(mem)@),
            class_index < NUM_SIZE_CLASSES,
        ensures
            (final(heap)@, final(self)@, r) == alloc_outcome(
                old(heap)@,
                old(self)@,
                class_index as int,
            ),
            freelist::links_only(
                old(mem)@,
                final(mem)@,
                alloc_touched(old(heap)@, old(self)@, class_index as int),
            ),
            final(heap).mapping_spec() == old(heap).mapping_spec(),
            final(self).cache() == old(self).cache(),
            final(heap).wf(final(mem)@),
            final(self).wf(final(heap)@, final(mem)@),
    {
        let listed = self.alloc_listed(Ghost(heap@), mem, class_index);
        if listed.is_some() {
            return listed;
        }
        let refilled = self.alloc_refilled(heap, mem, class_index);
        if refilled.is_some() {
            return refilled;
        }
        let ghost before = mem@;
        let carved = self.alloc_carved(heap, mem, class_index);
        proof {
            let touched = alloc_touched(old(heap)@, old(self)@, class_index as int);
            freelist::lemma_links_widen(old(mem)@, before, Seq::empty(), touched);
            freelist::lemma_links_trans(old(mem)@, before, mem@, touched);
        }
        carved
    }

    /// After a change of the lists of one class the thread's heap is
    /// well-formed if its view and those lists are.
    proof fn lemma_settled(
        &self,
        before: &Self,
        h: HeapView,
        m: Map<int, u8>,
        m2: Map<int, u8>,
        h2: HeapView,
        c: int,
        s: Seq<usize>,
    )
        requires
            before.wf(h, m),
            h2.wf(),
            h2.mapped(m),
            forall|k: int, d: int, a: usize| #[trigger] h.placed(k, d, a) ==> h2.placed(k, d, a),
            freelist::links_only(m, m2, s),
            h2.all_placed(before@.node, c, s),
            self@.wf(h2),
            self.cache() == before.cache(),
            0 <= c < NUM_SIZE_CLASSES,
            self.list(c).wf(m2),
            forall|d: int|
                0 <= d < NUM_SIZE_CLASSES && d != c ==> #[trigger] self.list(d) == before.list(d),
        ensures
            self.wf(h2, m2),
    {
        before.lemma_lists_kept(h, m, m2, c, h2, s);
        assert forall|d: int| 0 <= d < NUM_SIZE_CLASSES implies #[trigger] self.list(d).wf(
            m2,
        ) by {
            if d != c {
                assert(self.list(d) == before.list(d));
                assert(before.list(d).wf(m2));
            }
        }
    }
}

/// A local deallocation keeps the heap and the thread's heap well-formed.
pub proof fn lemma_free_outcome(h: HeapView, t: ThreadView, c: int, b: usize)
    requires
        h.wf(),
        t.wf(h),
        0 <= c < NUM_SIZE_CLASSES,
        h.placed(t.node, c, b),
        !t.lists[c].contains(b),
        !t.parked[c].contains(b),
        !h.stacks[t.node][c].contains(b),
    ensures
        ({
            let (h2, t2) = free_outcome(h, t, c, b);
            &&& h2.wf()
            &&& t2.wf(h2)
        }),
        h.all_placed(t.node, c, seq![b] + t.lists[c]),
        (seq![b] + t.lists[c]).no_duplicates(),
        freelist::apart(seq![b] + t.lists[c], h.stacks[t.node][c]),
        freelist::apart(seq![b] + t.lists[c], t.parked[c]),
{
    let n = t.node;
    let (h2, t2) = free_outcome(h, t, c, b);
    let s = seq![b] + t.lists[c];
    heap_view::lemma_bags(c);
    assert(t.class_ok(h, c));
    assert(seq![b][0] == b);
    heap_view::lemma_all_placed_concat(h, n, c, seq![b], t.lists[c]);
    freelist::lemma_apart_concat(seq![b], t.lists[c], h.stacks[n][c]);
    freelist::lemma_apart_concat(seq![b], t.lists[c], t.parked[c]);
    assert(s.no_duplicates()) by {
        assert forall|i: int, j: int| 0 <= i < s.len() && 0 <= j < s.len() && i != j implies s[i]
            != s[j] by {
            if i == 0 {
                assert(t.lists[c].contains(t.lists[c][j - 1]));
            }
            if j == 0 {
                assert(t.lists[c].contains(t.lists[c][i - 1]));
            }
        }
    }
    if s.len() > max_cache(c) {
        let keep = max_cache(c) / 2;
        let hot = s.take(keep);
        let cold = s.skip(keep);
        let stack = h.stacks[n][c];
        lemma_parts(s, keep);
        heap_view::lemma_all_placed_concat(h, n, c, cold, stack);
        assert(stack.no_duplicates());
        lemma_no_duplicates_concat(cold, stack);
        heap_view::lemma_with_stack(h, n, c, cold + stack);
        assert(freelist::apart(hot, cold + stack)) by {
            assert forall|a: usize| hot.contains(a) implies !(#[trigger] (cold + stack).contains(
                a,
            )) by {
                if (cold + stack).contains(a) {
                    let i = choose|i: int| 0 <= i < (cold + stack).len() && (cold + stack)[i] == a;
                    if i < cold.len() {
                        assert(cold.contains(cold[i]));
                    } else {
                        assert(stack.contains(stack[i - cold.len()]));
                    }
                }
            }
        }
        assert(freelist::apart(t.parked[c], cold + stack)) by {
            assert forall|a: usize| t.parked[c].contains(a) implies !(
            #[trigger] (cold + stack).contains(a)) by {
                if (cold + stack).contains(a) {
                    let i = choose|i: int| 0 <= i < (cold + stack).len() && (cold + stack)[i] == a;
                    if i < cold.len() {
                        assert(cold.contains(cold[i]));
                    } else {
                        assert(stack.contains(stack[i - cold.len()]));
                    }
                }
            }
        }
        lemma_with_lists(h, t, h2, c, hot, t.parked[c]);
    } else {
        lemma_with_lists(h, t, h2, c, s, t.parked[c]);
    }
}

/// Distinct blocks joined to other distinct blocks are distinct.
pub proof fn lemma_no_duplicates_concat(s: Seq<usize>, t: Seq<usize>)
    requires
        s.no_duplicates(),
        t.no_duplicates(),
        freelist::apart(s, t),
    ensures
        (s + t).no_duplicates(),
{
    let u = s + t;
    assert forall|i: int, j: int| 0 <= i < u.len() && 0 <= j < u.len() && i != j implies u[i]
        != u[j] by {
        if i < s.len() && j >= s.len() {
            assert(s.contains(s[i]) && t.contains(t[j - s.len()]));
        }
        if j < s.len() && i >= s.len() {
            assert(s.contains(s[j]) && t.contains(t[i - s.len()]));
        }
    }
}

impl PerThreadHeap {
    /// Deallocate an object of the thread's own node: push it onto the list of
    /// its class, and drain excess to the per-node heap.
    pub fn free_block<M: Memory>(
        &mut self,
        heap: &mut GlobalHeap,
        mem: &mut M,
        class_index: usize,
        block: usize,
    )
        requires
            old(heap).wf(old(mem)@),
            old(self).wf(old(heap)@, old(mem)@),
            class_index < NUM_SIZE_CLASSES,
            old(heap)@.placed(old(self)@.node, class_index as int, block),
            !old(self)@.lists[class_index as int].contains(block),
            !old(self)@.parked[class_index as int].contains(block),
            !old(heap)@.stacks[old(self)@.node][class_index as int].contains(block),
        ensures
            (final(heap)@, final(self)@) == free_outcome(
                old(heap)@,
                old(self)@,
                class_index as int,
                block,
            ),
            freelist::links_only(
                old(mem)@,
                final(mem)@,
                seq![block] + old(self)@.lists[class_index as int],
            ),
            final(heap).mapping_spec() == old(heap).mapping_spec(),
            final(self).cache() == old(self).cache(),
            final(heap).wf(final(mem)@),
            final(self).wf(final(heap)@, final(mem)@),
    {
        let ghost c = class_index as int;
        let ghost h0 = heap@;
        let ghost t0 = self@;
        let ghost n = self@.node;
        let ghost s = seq![block] + t0.lists[c];
        let ghost m0 = mem@;
        let ghost (h2, t2) = free_outcome(h0, t0, c, block);
        proof {
            self.lemma_view();
            lemma_free_outcome(h0, t0, c, block);
            heap_view::lemma_bags(c);
            heap_view::lemma_placed_block(h0, m0, n, c, block);
            assert(t0.class_ok(h0, c));
            assert(self.list(c).wf(m0));
            assert(s[0] == block);
            freelist::lemma_links_put(
                m0,
                block,
                freelist::link_word(freelist::head_of(t0.lists[c])),
                s,
            );
        }
        let node: usize = self.node_id;
        self.freelists[class_index].push(mem, block);
        let ghost m1 = mem@;
        proof {
            heap.lemma_stacks_kept(m0, m1, n, c, s);
        }
        let cache_limit: usize = max_thread_cache(class_index);
        if self.freelists[class_index].count() > cache_limit {
            let ghost keep = max_cache(c) / 2;
            let drained = self.freelists[class_index].drain(mem, cache_limit / 2);
            let ghost m2 = mem@;
            if let Some((head, tail, _)) = drained {
                let ghost cold = s.skip(keep);
                let ghost hot = s.take(keep);
                proof {
                    lemma_parts(s, keep);
                    assert(s.contains(s[keep - 1]));
                    heap_view::lemma_placed_block(h0, m1, n, c, s[keep - 1]);
                    freelist::lemma_links_put(m1, s[keep - 1], 0, s);
                    heap.lemma_stacks_kept(m1, m2, n, c, s);
                    freelist::lemma_chain_is_segment(m2, cold);
                    assert(h0.all_placed(n, c, cold));
                }
                heap.push_blocks(mem, node, class_index, head, tail);
                proof {
                    assert(cold.contains(tail)) by {
                        assert(cold[cold.len() - 1] == tail);
                    }
                    assert(s.contains(tail));
                    let next = freelist::head_of(h0.stacks[n][c]);
                    heap_view::lemma_placed_block(h0, m2, n, c, tail);
                    freelist::lemma_links_put(m2, tail, freelist::link_word(next), s);
                    freelist::lemma_links_trans(m0, m1, m2, s);
                    freelist::lemma_links_trans(m0, m2, mem@, s);
                    freelist::lemma_chain_put(m2, tail, next, freelist::head_of(hot), hot);
                    freelist::lemma_chain_put(
                        m2,
                        tail,
                        next,
                        freelist::head_of(t0.parked[c]),
                        t0.parked[c],
                    );
                }
            }
        }
        proof {
            assert(heap@ == h2);
            assert(self@ =~= t2);
            self.lemma_settled(old(self), h0, m0, mem@, h2, c, s);
        }
    }
}

/// Giving the blocks of a class back keeps the heap and the thread's heap
/// well-formed.
proof fn lemma_drain_class(h: HeapView, t: ThreadView, c: int)
    requires
        h.wf(),
        t.wf(h),
        0 <= c < NUM_SIZE_CLASSES,
    ensures
        ({
            let mid = h.with_stack(t.node, c, t.lists[c] + h.stacks[t.node][c]);
            let h2 = h.with_stack(
                t.node,
                c,
                t.parked[c] + (t.lists[c] + h.stacks[t.node][c]),
            );
            &&& mid.wf()
            &&& h2.wf()
            &&& freelist::apart(t.parked[c], t.lists[c] + h.stacks[t.node][c])
            &&& t.with_lists(c, Seq::empty(), Seq::empty()).wf(h2)
        }),
{
    let n = t.node;
    let stack = h.stacks[n][c];
    let list = t.lists[c];
    let parked = t.parked[c];
    heap_view::lemma_bags(c);
    assert(t.class_ok(h, c));
    assert(stack.no_duplicates());
    heap_view::lemma_all_placed_concat(h, n, c, list, stack);
    heap_view::lemma_all_placed_concat(h, n, c, parked, list + stack);
    lemma_no_duplicates_concat(list, stack);
    assert(freelist::apart(parked, list + stack)) by {
        freelist::lemma_apart_concat(list, stack, parked);
    }
    lemma_no_duplicates_concat(parked, list + stack);
    heap_view::lemma_with_stack(h, n, c, list + stack);
    heap_view::lemma_with_stack(h, n, c, parked + (list + stack));
    let h2 = h.with_stack(n, c, parked + (list + stack));
    lemma_with_lists(h, t, h2, c, Seq::empty(), Seq::empty());
}

/// Last block of the chain that starts at `head`.
fn chain_tail<M: Memory>(mem: &M, head: usize, Ghost(s): Ghost<Seq<usize>>) -> (tail: usize)
    requires
        freelist::chain(mem@, Some(head), s),
    ensures
        tail == s[s.len() - 1],
{
    let mut tail: usize = head;
    let ghost mut i: int = 0;
    loop
        invariant
            freelist::chain(mem@, Some(head), s),
            0 <= i < s.len(),
            tail == s[i],
        ensures
            i == s.len() - 1,
        decreases s.len() - i,
    {
        proof {
            assert(freelist::block_ok(mem@, s[i]));
            assert(freelist::link(mem@, s[i]) == freelist::succ(s, i));
        }
        match (FreeBlock { addr: tail }).read_next(mem) {
            Some(next) => {
                tail = next;
                proof {
                    i = i + 1;
                }
            },
            None => {
                break;
            },
        }
    }
    tail
}

impl PerThreadHeap {
    /// Give the blocks of one class back to the node's stack.
    fn drain_class<M: Memory>(&mut self, heap: &mut GlobalHeap, mem: &mut M, class_index: usize)
        requires
            old(heap).wf(old(mem)@),
            old(self).wf(old(heap)@, old(mem)@),
            class_index < NUM_SIZE_CLASSES,
        ensures
            final(heap)@ == old(heap)@.with_stack(
                old(self)@.node,
                class_index as int,
                old(self)@.parked[class_index as int] + (old(self)@.lists[class_index as int]
                    + old(heap)@.stacks[old(self)@.node][class_index as int]),
            ),
            final(self)@ == old(self)@.with_lists(class_index as int, Seq::empty(), Seq::empty()),
            freelist::links_only(
                old(mem)@,
                final(mem)@,
                old(self)@.lists[class_index as int] + old(self)@.parked[class_index as int],
            ),
            final(heap).mapping_spec() == old(heap).mapping_spec(),
            final(self).cache() == old(self).cache(),
            final(heap).wf(final(mem)@),
            final(self).wf(final(heap)@, final(mem)@),
    {
        let ghost c = class_index as int;
        let ghost h0 = heap@;
        let ghost t0 = self@;
        let ghost n = self@.node;
        let ghost m0 = mem@;
        let ghost list = t0.lists[c];
        let ghost parked = t0.parked[c];
        let ghost stack = h0.stacks[n][c];
        let ghost s = list + parked;
        proof {
            self.lemma_view();
            lemma_drain_class(h0, t0, c);
            assert(t0.class_ok(h0, c));
            assert(self.list(c).wf(m0));
            heap_view::lemma_all_placed_concat(h0, n, c, list, parked);
            assert forall|a: usize| #[trigger] list.contains(a) implies s.contains(a) by {
                let i = choose|i: int| 0 <= i < list.len() && list[i] == a;
                assert(s[i] == a);
            }
            assert forall|a: usize| #[trigger] parked.contains(a) implies s.contains(a) by {
                let i = choose|i: int| 0 <= i < parked.len() && parked[i] == a;
                assert(s[i + list.len()] == a);
            }
        }
        let node: usize = self.node_id;
        if let Some((head, tail, _)) = self.freelists[class_index].drain_all() {
            proof {
                freelist::lemma_chain_is_segment(m0, list);
                assert(list.contains(list[list.len() - 1]));
                heap_view::lemma_placed_block(h0, m0, n, c, tail);
                freelist::lemma_links_put(
                    m0,
                    tail,
                    freelist::link_word(freelist::head_of(stack)),
                    s,
                );
                assert(!parked.contains(tail));
                freelist::lemma_chain_put(
                    m0,
                    tail,
                    freelist::head_of(stack),
                    freelist::head_of(parked),
                    parked,
                );
            }
            heap.push_blocks(mem, node, class_index, head, tail);
        } else {
            proof {
                assert(list + stack =~= stack);
                heap_view::lemma_same_stack(h0, n, c);
            }
        }
        let ghost m1 = mem@;
        let ghost mid = h0.with_stack(n, c, list + stack);
        assert(heap@ == mid);
        // The spare chain's tail is unknown: walk it (cold path, thread exit)
        // so the whole chain goes back in one swap.
        if let Some(head) = self.freelists[class_index].take_spare() {
            let tail: usize = chain_tail(mem, head, Ghost(parked));
            proof {
                freelist::lemma_chain_is_segment(m1, parked);
                assert(parked.contains(parked[parked.len() - 1]));
                assert(mid.all_placed(n, c, parked));
                heap_view::lemma_placed_block(mid, m1, n, c, tail);
                freelist::lemma_links_put(
                    m1,
                    tail,
                    freelist::link_word(freelist::head_of(list + stack)),
                    s,
                );
            }
            heap.push_blocks(mem, node, class_index, head, tail);
            proof {
                freelist::lemma_links_trans(m0, m1, mem@, s);
                assert(mid.stacks[n].update(c, parked + (list + stack)) =~= h0.stacks[n].update(
                    c,
                    parked + (list + stack),
                ));
                assert(mid.stacks.update(
                    n,
                    mid.stacks[n].update(c, parked + (list + stack)),
                ) =~= h0.stacks.update(n, h0.stacks[n].update(c, parked + (list + stack))));
            }
        } else {
            proof {
                assert(parked + (list + stack) =~= list + stack);
            }
        }
        proof {
            let h2 = h0.with_stack(n, c, parked + (list + stack));
            let t2 = t0.with_lists(c, Seq::empty(), Seq::empty());
            assert(heap@ == h2);
            assert(self@ =~= t2);
            self.lemma_settled(old(self), h0, m0, mem@, h2, c, s);
        }
    }
}

/// The blocks on a thread's lists and spare chains of the first `k` classes.
pub open spec fn thread_blocks(t: ThreadView, k: int) -> Seq<usize>
    decreases k,
{
    if k <= 0 {
        Seq::empty()
    } else {
        thread_blocks(t, k - 1) + (t.lists[k - 1] + t.parked[k - 1])
    }
}

/// The heap after a thread has given back the blocks of the first `k` classes.
pub open spec fn drained_heap(h: HeapView, t: ThreadView, k: int) -> HeapView {
    HeapView {
        stacks: h.stacks.update(
            t.node,
            Seq::new(
                NUM_SIZE_CLASSES as nat,
                |c: int|
                    if c < k {
                        t.parked[c] + (t.lists[c] + h.stacks[t.node][c])
                    } else {
                        h.stacks[t.node][c]
                    },
            ),
        ),
        ..h
    }
}

/// The thread's heap after it has given back the blocks of the first `k`
/// classes.
pub open spec fn drained_thread(t: ThreadView, k: int) -> ThreadView {
    ThreadView {
        lists: Seq::new(
            NUM_SIZE_CLASSES as nat,
            |c: int|
                if c < k {
                    Seq::empty()
                } else {
                    t.lists[c]
                },
        ),
        parked: Seq::new(
            NUM_SIZE_CLASSES as nat,
            |c: int|
                if c < k {
                    Seq::empty()
                } else {
                    t.parked[c]
                },
        ),
        ..t
    }
}

/// Giving back one more class.
proof fn lemma_drain_step(h: HeapView, t: ThreadView, k: int)
    requires
        h.shape_ok(),
        0 <= t.node < h.nodes,
        t.lists.len() == NUM_SIZE_CLASSES,
        t.parked.len() == NUM_SIZE_CLASSES,
        0 <= k < NUM_SIZE_CLASSES,
    ensures
        drained_heap(h, t, k + 1) == drained_heap(h, t, k).with_stack(
            t.node,
            k,
            t.parked[k] + (t.lists[k] + h.stacks[t.node][k]),
        ),
        drained_thread(t, k + 1) == drained_thread(t, k).with_lists(
            k,
            Seq::empty(),
            Seq::empty(),
        ),
        drained_heap(h, t, k).stacks[t.node][k] == h.stacks[t.node][k],
{
    let a = drained_heap(h, t, k + 1);
    let b = drained_heap(h, t, k).with_stack(
        t.node,
        k,
        t.parked[k] + (t.lists[k] + h.stacks[t.node][k]),
    );
    assert(a.stacks[t.node] =~= b.stacks[t.node]);
    assert(a.stacks =~= b.stacks);
    let c = drained_thread(t, k + 1);
    let d = drained_thread(t, k).with_lists(k, Seq::empty(), Seq::empty());
    assert(c.lists =~= d.lists);
    assert(c.parked =~= d.parked);
}

impl PerThreadHeap {
    /// Drain all per-size-class free lists back to the per-node stacks.
    pub fn drain_to_node_heap<M: Memory>(&mut self, heap: &mut GlobalHeap, mem: &mut M)
        requires
            old(heap).wf(old(mem)@),
            old(self).wf(old(heap)@, old(mem)@),
        ensures
            final(heap)@ == drain_outcome(old(heap)@, old(self)@),
            final(self)@ == (ThreadView {
                large: old(self)@.large,
                ..empty_thread(old(self)@.node, old(self)@.heap)
            }),
            freelist::links_only(
                old(mem)@,
                final(mem)@,
                thread_blocks(old(self)@, NUM_SIZE_CLASSES as int),
            ),
            final(heap).mapping_spec() == old(heap).mapping_spec(),
            final(self).cache() == old(self).cache(),
            final(heap).wf(final(mem)@),
            final(self).wf(final(heap)@, final(mem)@),
    {
        let ghost h0 = heap@;
        let ghost t0 = self@;
        let ghost n = self@.node;
        let ghost m0 = mem@;
        proof {
            assert(drained_heap(h0, t0, 0).stacks[n] =~= h0.stacks[n]);
            assert(drained_heap(h0, t0, 0).stacks =~= h0.stacks);
            assert(drained_thread(t0, 0).lists =~= t0.lists);
            assert(drained_thread(t0, 0).parked =~= t0.parked);
        }
        let mut class_idx: usize = 0;
        while class_idx < NUM_SIZE_CLASSES
            invariant
                class_idx <= NUM_SIZE_CLASSES,
                h0 == old(heap)@,
                t0 == old(self)@,
                h0.wf(),
                t0.wf(h0),
                n == t0.node,
                m0 == old(mem)@,
                heap@ == drained_heap(h0, t0, class_idx as int),
                self@ == drained_thread(t0, class_idx as int),
                heap.wf(mem@),
                self.wf(heap@, mem@),
                heap.mapping_spec() == old(heap).mapping_spec(),
                self.cache() == old(self).cache(),
                freelist::links_only(m0, mem@, thread_blocks(t0, class_idx as int)),
            decreases NUM_SIZE_CLASSES - class_idx,
        {
            let ghost before = mem@;
            proof {
                lemma_drain_step(h0, t0, class_idx as int);
            }
            self.drain_class(heap, mem, class_idx);
            proof {
                let s = thread_blocks(t0, class_idx as int);
                let x = t0.lists[class_idx as int] + t0.parked[class_idx as int];
                let u = thread_blocks(t0, class_idx + 1);
                assert(u == s + x);
                assert forall|a: usize| #[trigger] s.contains(a) implies u.contains(a) by {
                    let i = choose|i: int| 0 <= i < s.len() && s[i] == a;
                    assert(u[i] == a);
                }
                assert forall|a: usize| #[trigger] x.contains(a) implies u.contains(a) by {
                    let i = choose|i: int| 0 <= i < x.len() && x[i] == a;
                    assert(u[i + s.len()] == a);
                }
                freelist::lemma_links_widen(m0, before, s, u);
                freelist::lemma_links_widen(before, mem@, x, u);
                freelist::lemma_links_trans(m0, before, mem@, u);
            }
            class_idx += 1;
        }
        proof {
            let d = drain_outcome(h0, t0);
            assert(heap@.stacks[n] =~= d.stacks[n]);
            assert(heap@.stacks =~= d.stacks);
            let e = empty_thread(t0.node, t0.heap);
            assert(self@.lists =~= e.lists);
            assert(self@.parked =~= e.parked);
        }
    }

    /// Try to find a cached large mapping for `alloc_size` bytes.
    pub fn large_cache_take(&mut self, alloc_size: usize) -> (r: Option<LargeCacheEntry>)
        requires
            old(self).cache().wf(),
        ensures
            r is None <==> forall|i: int|
                !#[trigger] large_cache::serves(old(self)@.large, i, alloc_size as int),
            r == large_cache::taken(old(self)@.large, alloc_size as int),
            final(self)@ == (ThreadView {
                large: large_cache::after_take(old(self)@.large, alloc_size as int),
                ..old(self)@
            }),
            final(self).cache().wf(),
            forall|c: int| #[trigger] final(self).list(c) == old(self).list(c),
    {
        proof {
            self.lemma_view();
        }
        self.large_cache.take(alloc_size)
    }

    /// One step towards caching a freed large mapping for later reuse.
    pub fn large_cache_put(&mut self, original_ptr: usize, alloc_size: usize) -> (step: PutStep)
        requires
            old(self).cache().wf(),
        ensures
            step is Evicted <==> large_cache::must_evict(old(self)@.large, alloc_size as int),
            step matches PutStep::Evicted(e) ==> e == old(self)@.large[0]
                && final(self)@.large == old(self)@.large.drop_first(),
            step is Refused <==> old(self)@.large.len() == 0 && alloc_size
                > large_cache::MAX_LARGE_CACHE_BYTES,
            step is Refused ==> final(self)@.large == old(self)@.large,
            step is Stored ==> final(self)@.large == old(self)@.large.push(
                LargeCacheEntry { original_ptr, alloc_size },
            ),
            final(self)@ == (ThreadView { large: final(self)@.large, ..old(self)@ }),
            final(self).cache().wf(),
            forall|c: int| #[trigger] final(self).list(c) == old(self).list(c),
    {
        self.large_cache.put(original_ptr, alloc_size)
    }

    /// Take the oldest cached large mapping out, to be unmapped.  `None` when
    /// none is cached.
    pub fn large_cache_flush(&mut self) -> (r: Option<LargeCacheEntry>)
        requires
            old(self).cache().wf(),
        ensures
            r is None <==> old(self)@.large.len() == 0,
            r matches Some(e) ==> e == old(self)@.large[0] && final(self)@.large == old(
                self,
            )@.large.drop_first(),
            r is None ==> final(self)@.large == old(self)@.large,
            final(self)@ == (ThreadView { large: final(self)@.large, ..old(self)@ }),
            final(self).cache().wf(),
            forall|c: int| #[trigger] final(self).list(c) == old(self).list(c),
    {
        self.large_cache.flush()
    }
}

/// No byte of an object that is on none of the thread's lists belongs to a
/// link word of one that is.
pub proof fn lemma_not_thread_link(h: HeapView, t: ThreadView, n: int, c: int, a: usize, i: int)
    requires
        h.wf(),
        t.wf(h),
        h.placed(n, c, a),
        n == t.node ==> t.lacks(c, a),
        a <= i < a + size_class::class_size(c),
    ensures
        !t.link_byte(i),
{
    if t.link_byte(i) {
        let d = choose|d: int|
            0 <= d < NUM_SIZE_CLASSES && (freelist::in_links(#[trigger] t.lists[d], i)
                || freelist::in_links(t.parked[d], i));
        assert(t.class_ok(h, d));
        let s = if freelist::in_links(t.lists[d], i) {
            t.lists[d]
        } else {
            t.parked[d]
        };
        let b = choose|b: usize| #[trigger] s.contains(b) && b <= i < b + 8;
        assert(h.placed(t.node, d, b));
        heap_view::lemma_bags(d);
        if a == b {
            heap_view::lemma_placed_unique(h, n, c, t.node, d, a);
        } else {
            heap_view::lemma_placed_disjoint(h, n, c, a, t.node, d, b);
        }
    }
}

/// No byte outside the regions belongs to a link word of a block on a list.
pub proof fn lemma_outside_not_thread_link(h: HeapView, t: ThreadView, i: int)
    requires
        h.wf(),
        t.wf(h),
        !h.owns(i),
    ensures
        !t.link_byte(i),
{
    if t.link_byte(i) {
        let d = choose|d: int|
            0 <= d < NUM_SIZE_CLASSES && (freelist::in_links(#[trigger] t.lists[d], i)
                || freelist::in_links(t.parked[d], i));
        assert(t.class_ok(h, d));
        let s = if freelist::in_links(t.lists[d], i) {
            t.lists[d]
        } else {
            t.parked[d]
        };
        let b = choose|b: usize| #[trigger] s.contains(b) && b <= i < b + 8;
        assert(h.placed(t.node, d, b));
        heap_view::lemma_bags(d);
        heap_view::lemma_placed_inside(h, t.node, d, b);
    }
}

impl PerThreadHeap {
    /// The thread's heap is kept by memory that agrees on the links of its
    /// lists, and by a heap that keeps its objects and stays apart from them.
    pub proof fn lemma_frame(&self, h: HeapView, m: Map<int, u8>, h2: HeapView, m2: Map<int, u8>)
        requires
            self.wf(h, m),
            self@.wf(h2),
            h2.wf(),
            h2.mapped(m2),
            forall|i: int| self@.link_byte(i) ==> #[trigger] m2[i] == m[i],
        ensures
            self.wf(h2, m2),
    {
        self.lemma_view();
        assert forall|c: int| 0 <= c < NUM_SIZE_CLASSES implies #[trigger] self.list(c).wf(
            m2,
        ) by {
            assert(self.list(c).wf(m));
            assert(self@.class_ok(h2, c));
            let s = self@.lists[c];
            let p = self@.parked[c];
            assert forall|a: usize| #[trigger] s.contains(a) implies memory::agree(
                m,
                m2,
                a as int,
                8,
            ) && memory::range_mapped(m2, a as int, 8) by {
                heap_view::lemma_placed_block(h2, m2, self@.node, c, a);
                assert forall|i: int| a <= i < a + 8 implies #[trigger] m2[i] == m[i] by {
                    assert(freelist::in_links(self@.lists[c], i));
                    assert(self@.link_byte(i));
                }
            }
            assert forall|a: usize| #[trigger] p.contains(a) implies memory::agree(
                m,
                m2,
                a as int,
                8,
            ) && memory::range_mapped(m2, a as int, 8) by {
                heap_view::lemma_placed_block(h2, m2, self@.node, c, a);
                assert forall|i: int| a <= i < a + 8 implies #[trigger] m2[i] == m[i] by {
                    assert(freelist::in_links(self@.parked[c], i));
                    assert(self@.lists[c] == self@.lists[c]);
                    assert(self@.link_byte(i));
                }
            }
            freelist::lemma_chain_agree(m, m2, s);
            freelist::lemma_chain_agree(m, m2, p);
        }
    }
}

} // verus!
