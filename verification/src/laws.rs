//! What holds of the allocator as a whole.
//!
//! A [`World`] is a heap, the heaps of all threads that use it, and the small
//! objects that are in use.  Every operation of the allocator is a step from
//! one well-formed world to another.
use crate::allocator::{self, AllocStep, ReallocStep, ReleaseStep};
use crate::freelist;
use crate::heap;
use crate::heap_view::{self, HeapView};
use crate::large_cache::{self, LargeCacheEntry};
use crate::large_object::{self, LargeHeader};
use crate::layout::{self, Layout};
use crate::memory;
use crate::size_class::{self, NUM_SIZE_CLASSES};
use crate::thread_heap::{self, PerThreadHeap, ThreadView};
use vstd::prelude::*;

verus! {

/// A heap, the heaps of the threads that use it, and the objects in use.
#[verifier::ext_equal]
pub struct World {
    pub heap: HeapView,
    pub threads: Seq<ThreadView>,
    /// Class of each object in use, by address.
    pub live: Map<usize, int>,
}

/// A thread has the block `a` of class `c` on one of its lists.
pub open spec fn in_thread(t: ThreadView, c: int, a: usize) -> bool {
    t.lists[c].contains(a) || t.parked[c].contains(a)
}

/// No block is on lists of both threads.
pub open spec fn threads_apart(t: ThreadView, u: ThreadView) -> bool {
    t.node == u.node ==> forall|c: int, a: usize|
        0 <= c < NUM_SIZE_CLASSES && #[trigger] in_thread(t, c, a) ==> !in_thread(u, c, a)
}

impl World {
    /// The object `a` of class `c` at node `n` is free: on the node's stack or
    /// on a list of one of the threads.
    pub open spec fn is_free(self, n: int, c: int, a: usize) -> bool {
        ||| self.heap.stacks[n][c].contains(a)
        ||| exists|i: int|
            0 <= i < self.threads.len() && (#[trigger] self.threads[i]).node == n && in_thread(
                self.threads[i],
                c,
                a,
            )
    }

    /// The object in use at `a` is an object of its class, and not free.
    pub open spec fn live_ok(self, a: usize) -> bool {
        let n = self.heap.node_of(a as int);
        let c = self.live[a];
        self.heap.placed(n, c, a) && !self.is_free(n, c, a)
    }

    /// Every object is in use or free, and not both; every free object is free
    /// in one place only.
    pub open spec fn wf(self) -> bool {
        &&& self.heap.wf()
        &&& forall|i: int|
            0 <= i < self.threads.len() ==> (#[trigger] self.threads[i]).wf(self.heap)
        &&& forall|i: int, j: int|
            0 <= i < self.threads.len() && 0 <= j < self.threads.len() && i != j ==> threads_apart(
                #[trigger] self.threads[i],
                #[trigger] self.threads[j],
            )
        &&& forall|a: usize| #[trigger] self.live.dom().contains(a) ==> self.live_ok(a)
        &&& forall|n: int, c: int, a: usize| #[trigger]
            self.heap.placed(n, c, a) ==> self.is_free(n, c, a) || self.live.contains_pair(a, c)
    }
}

/// The world of a new heap: no threads, and nothing carved.
pub proof fn law_fresh_world(raw: int, num_nodes: int, region_size: int)
    requires
        heap::fresh_heap(raw, num_nodes, region_size).wf(),
    ensures
        (World {
            heap: heap::fresh_heap(raw, num_nodes, region_size),
            threads: Seq::empty(),
            live: Map::empty(),
        }).wf(),
{
}

/// What an allocation of class `c` by a thread at node `n` moves: the blocks
/// on the thread's lists, on the node's stack and in the bag that was carved
/// are afterwards on the thread's lists, on the stack, or returned.
pub proof fn lemma_alloc_moves(h: HeapView, t: ThreadView, c: int)
    requires
        h.wf(),
        t.wf(h),
        0 <= c < NUM_SIZE_CLASSES,
    ensures
        ({
            let (h2, t2, r) = thread_heap::alloc_outcome(h, t, c);
            let n = t.node;
            &&& forall|a: usize| #[trigger]
                in_thread(t2, c, a) ==> in_thread(t, c, a) || h.stacks[n][c].contains(a)
                    || !h.placed(n, c, a)
            &&& forall|a: usize|
                (#[trigger] in_thread(t, c, a) || h.stacks[n][c].contains(a)) && r != Some(a)
                    ==> in_thread(t2, c, a) || h2.stacks[n][c].contains(a)
            &&& forall|a: usize| #[trigger]
                h2.stacks[n][c].contains(a) ==> h.stacks[n][c].contains(a)
            &&& forall|k: int, d: int, a: usize| #[trigger]
                h2.placed(k, d, a) && !h.placed(k, d, a) ==> k == n && d == c && (in_thread(
                    t2,
                    c,
                    a,
                ) || r == Some(a))
            &&& forall|k: int, d: int, a: usize| #[trigger] h.placed(k, d, a) ==> h2.placed(k, d, a)
            &&& r matches Some(a) ==> in_thread(t, c, a) || h.stacks[n][c].contains(a)
                || !h.placed(n, c, a)
            &&& h2.base == h.base && h2.region == h.region && h2.nodes == h.nodes
            &&& t2.node == t.node && t2.heap == t.heap
        }),
{
    let (h2, t2, r) = thread_heap::alloc_outcome(h, t, c);
    let n = t.node;
    assert(t.class_ok(h, c));
    heap_view::lemma_bags(c);
    if t.lists[c].len() > 0 {
        let s = t.lists[c];
        thread_heap::lemma_parts(s, 1);
        assert(s.contains(s[0]));
        assert forall|a: usize| s.contains(a) && r != Some(a) implies s.skip(1).contains(a) by {
            let i = choose|i: int| 0 <= i < s.len() && s[i] == a;
            assert(s.skip(1)[i - 1] == a);
        }
    } else if t.parked[c].len() > 0 {
        lemma_refill_moves(t.parked[c]);
    } else if h.stacks[n][c].len() > 0 {
        lemma_refill_moves(h.stacks[n][c]);
        heap_view::lemma_with_stack(h, n, c, Seq::empty());
    } else if h.can_carve(n, c) {
        let b = heap_view::bag_blocks(h.bag_at(n, c), c);
        heap_view::lemma_carve(h, n, c);
        heap_view::lemma_carved_blocks(h, n, c);
        thread_heap::lemma_parts(b, 1);
        assert(b.contains(b[0]));
        assert forall|a: usize| b.contains(a) && r != Some(a) implies b.skip(1).contains(a) by {
            let i = choose|i: int| 0 <= i < b.len() && b[i] == a;
            assert(b.skip(1)[i - 1] == a);
        }
        assert forall|k: int, d: int, a: usize| #[trigger]
            h2.placed(k, d, a) && !h.placed(k, d, a) implies k == n && d == c && b.contains(a) by {
            lemma_only_bag_blocks(h, n, c, k, d, a);
        }
    }
}

/// What a refill from `s` moves: all of it is counted, parked or returned.
proof fn lemma_refill_moves(s: Seq<usize>)
    requires
        s.len() > 0,
    ensures
        s.contains(s[0]),
        forall|a: usize| #[trigger]
            thread_heap::counted_part(s).skip(1).contains(a) ==> s.contains(a),
        forall|a: usize| #[trigger] thread_heap::parked_part(s).contains(a) ==> s.contains(a),
        forall|a: usize| #[trigger]
            s.contains(a) && a != s[0] ==> thread_heap::counted_part(s).skip(1).contains(a)
                || thread_heap::parked_part(s).contains(a),
{
    let u = thread_heap::counted_part(s);
    let v = thread_heap::parked_part(s);
    assert forall|a: usize| #[trigger] u.skip(1).contains(a) implies s.contains(a) by {
        let i = choose|i: int| 0 <= i < u.skip(1).len() && u.skip(1)[i] == a;
        assert(s[i + 1] == a);
    }
    assert forall|a: usize| #[trigger] v.contains(a) implies s.contains(a) by {
        let i = choose|i: int| 0 <= i < v.len() && v[i] == a;
        assert(s[i + u.len()] == a);
    }
    assert forall|a: usize| #[trigger] s.contains(a) && a != s[0] implies u.skip(1).contains(a)
        || v.contains(a) by {
        let i = choose|i: int| 0 <= i < s.len() && s[i] == a;
        if i < u.len() {
            assert(u.skip(1)[i - 1] == a);
        } else {
            assert(v[i - u.len()] == a);
        }
    }
}

/// The only objects that carving a bag adds are those of the bag.
proof fn lemma_only_bag_blocks(h: HeapView, n: int, c: int, k: int, d: int, a: usize)
    requires
        h.wf(),
        0 <= n < h.nodes,
        0 <= c < NUM_SIZE_CLASSES,
        h.can_carve(n, c),
        h.with_bag(n, c).placed(k, d, a),
        !h.placed(k, d, a),
    ensures
        k == n,
        d == c,
        heap_view::bag_blocks(h.bag_at(n, c), c).contains(a),
{
    let h2 = h.with_bag(n, c);
    let at = h.bag_at(n, c);
    let bag = size_class::class_bag(c);
    let size = size_class::class_size(c);
    let count = size_class::class_count(c);
    let from = at - h.lo(n);
    let b = heap_view::bag_blocks(at, c);
    heap_view::lemma_bags(c);
    heap_view::lemma_bags(d);
    heap_view::lemma_bag_at(h, n, c);
    heap_view::lemma_carve(h, n, c);
    heap_view::lemma_carved_blocks(h, n, c);
    assert(h.node_ok(k));
    let g = (a - h.lo(k)) / 32768;
    if k == n && from / 32768 <= g < (from + bag) / 32768 {
        assert(d == c);
        // The object lies in the bag, at a multiple of the object size.
        assert(at <= a);
        heap_view::lemma_divides(at, bag, size);
        heap_view::lemma_multiples(a as int, at, size);
        vstd::arithmetic::div_mod::lemma_fundamental_div_mod(a - at, size);
        let j = (a - at) / size;
        assert(a + size <= at + bag);
        assert(0 <= j < count) by (nonlinear_arith)
            requires
                size > 0,
                a - at == size * j,
                0 <= a - at,
                a - at + size <= count * size,
        ;
        assert(j * size == size * j) by (nonlinear_arith);
        assert(b[count - 1 - j] == a);
    } else {
        // The granule was carved before, and its whole bag lies in what was
        // handed out then.
        assert(h.owners[k].contains_pair(g, d));
        assert(h.bag_owned(k, g, d));
        heap_view::lemma_object_in_bag(h, k, d, a, g);
        assert(h.placed(k, d, a));
    }
}

/// The world after thread `i` has allocated an object of class `c`, if there
/// was one to be had.
pub open spec fn after_alloc(w: World, i: int, c: int) -> World {
    let (h2, t2, r) = thread_heap::alloc_outcome(w.heap, w.threads[i], c);
    World {
        heap: h2,
        threads: w.threads.update(i, t2),
        live: match r {
            Some(a) => w.live.insert(a, c),
            None => w.live,
        },
    }
}

/// An allocation returns an object that nobody uses, and leads to a well-formed
/// world: no object is lost and none is handed out twice.
pub proof fn law_alloc(w: World, i: int, c: int)
    requires
        w.wf(),
        0 <= i < w.threads.len(),
        0 <= c < NUM_SIZE_CLASSES,
    ensures
        after_alloc(w, i, c).wf(),
        thread_heap::alloc_outcome(w.heap, w.threads[i], c).2 matches Some(a) ==> {
            &&& !w.live.dom().contains(a)
            &&& after_alloc(w, i, c).heap.placed(w.threads[i].node, c, a)
        },
{
    let h = w.heap;
    let t = w.threads[i];
    let n = t.node;
    let (h2, t2, r) = thread_heap::alloc_outcome(h, t, c);
    let w2 = after_alloc(w, i, c);
    thread_heap::lemma_alloc_outcome(h, t, c);
    lemma_alloc_moves(h, t, c);
    assert(t.class_ok(h, c));
    // The other threads.
    assert forall|j: int| 0 <= j < w2.threads.len() implies (#[trigger] w2.threads[j]).wf(h2) by {
        if j != i {
            let u = w.threads[j];
            assert(u.wf(h));
            assert forall|d: int| 0 <= d < NUM_SIZE_CLASSES implies #[trigger] u.class_ok(
                h2,
                d,
            ) by {
                assert(u.class_ok(h, d));
            }
        }
    }
    assert forall|j: int| 0 <= j < w.threads.len() && j != i implies threads_apart(
        t2,
        #[trigger] w.threads[j],
    ) && threads_apart(w.threads[j], t2) by {
        let u = w.threads[j];
        assert(threads_apart(t, u) && threads_apart(u, t));
        assert(u.wf(h));
        if u.node == n {
            assert forall|d: int, a: usize|
                0 <= d < NUM_SIZE_CLASSES && in_thread(u, d, a) implies !#[trigger] in_thread(
                t2,
                d,
                a,
            ) by {
                assert(u.class_ok(h, d));
                if d == c && in_thread(t2, d, a) {
                    assert(in_thread(t, c, a) || h.stacks[n][c].contains(a) || !h.placed(
                        n,
                        c,
                        a,
                    ));
                } else if d != c {
                    assert(t2.lists[d] == t.lists[d] && t2.parked[d] == t.parked[d]);
                    if in_thread(t2, d, a) {
                        assert(in_thread(t, d, a));
                    }
                }
            }
        }
    }
    assert forall|j: int, k: int|
        0 <= j < w2.threads.len() && 0 <= k < w2.threads.len() && j != k implies threads_apart(
        #[trigger] w2.threads[j],
        #[trigger] w2.threads[k],
    ) by {
        if j == i {
            assert(w2.threads[k] == w.threads[k]);
        } else if k == i {
            assert(w2.threads[j] == w.threads[j]);
        } else {
            assert(threads_apart(w.threads[j], w.threads[k]));
        }
    }
    // What was in use was not free, so it is not returned and stays in use.
    if r is Some && w.live.dom().contains(r->0) {
        let a = r->0;
        assert(w.live_ok(a));
        let k = h.node_of(a as int);
        heap_view::lemma_placed_unique(h2, n, c, k, w.live[a], a);
        assert(w.threads[i].node == n);
        assert(false);
    }
    assert forall|a: usize| #[trigger] w2.live.dom().contains(a) implies w2.live_ok(a) by {
        if r == Some(a) {
            heap_view::lemma_placed_node(h2, n, c, a);
            assert forall|j: int| 0 <= j < w2.threads.len() && (#[trigger] w2.threads[j]).node
                == n implies !in_thread(w2.threads[j], c, a) by {
                if j != i {
                    let u = w.threads[j];
                    assert(u.wf(h));
                    assert(u.class_ok(h, c));
                    assert(threads_apart(t, u));
                    if in_thread(u, c, a) {
                        assert(h.placed(n, c, a));
                        assert(in_thread(t, c, a) || h.stacks[n][c].contains(a));
                    }
                }
            }
        } else {
            assert(w.live_ok(a));
            let k = h.node_of(a as int);
            let d = w.live[a];
            lemma_live_kept(w, i, c, a);
        }
    }
    // Every object is free or in use.
    assert forall|k: int, d: int, a: usize| #[trigger] h2.placed(k, d, a) implies w2.is_free(
        k,
        d,
        a,
    ) || w2.live.contains_pair(a, d) by {
        if r == Some(a) {
            heap_view::lemma_placed_unique(h2, n, c, k, d, a);
        } else if !h.placed(k, d, a) {
            assert(w2.threads[i] == t2);
            assert(in_thread(t2, c, a));
        } else if w.is_free(k, d, a) {
            if w.heap.stacks[k][d].contains(a) {
                if k == n && d == c {
                    assert(!in_thread(t, c, a));
                    assert(in_thread(t2, c, a) || h2.stacks[n][c].contains(a));
                    assert(w2.threads[i] == t2);
                } else {
                    assert(h2.stacks[k][d] == h.stacks[k][d]);
                }
            } else {
                let j = choose|j: int|
                    0 <= j < w.threads.len() && (#[trigger] w.threads[j]).node == k && in_thread(
                        w.threads[j],
                        d,
                        a,
                    );
                if j != i {
                    assert(w2.threads[j] == w.threads[j]);
                } else if d == c {
                    assert(in_thread(t, c, a));
                    assert(w2.threads[i] == t2);
                } else {
                    assert(t2.lists[d] == t.lists[d] && t2.parked[d] == t.parked[d]);
                    assert(w2.threads[i] == t2);
                    assert(in_thread(t2, d, a));
                }
                assert(w2.is_free(k, d, a));
            }
            assert(w2.is_free(k, d, a));
        } else {
            assert(w.live.contains_pair(a, d));
            assert(w2.live.contains_pair(a, d));
        }
    }
}

/// What is in use before an allocation is in use after it.
proof fn lemma_live_kept(w: World, i: int, c: int, a: usize)
    requires
        w.wf(),
        0 <= i < w.threads.len(),
        0 <= c < NUM_SIZE_CLASSES,
        w.live.dom().contains(a),
        thread_heap::alloc_outcome(w.heap, w.threads[i], c).2 != Some(a),
    ensures
        after_alloc(w, i, c).live_ok(a),
{
    let h = w.heap;
    let t = w.threads[i];
    let (h2, t2, r) = thread_heap::alloc_outcome(h, t, c);
    let w2 = after_alloc(w, i, c);
    let k = h.node_of(a as int);
    let d = w.live[a];
    assert(w.live_ok(a));
    lemma_alloc_moves(h, t, c);
    assert(w2.live[a] == d);
    assert(h2.node_of(a as int) == k);
    assert(w.threads[i] == t);
    assert(!(t.node == k && in_thread(t, d, a)));
    assert(!h2.stacks[k][d].contains(a)) by {
        if k == t.node && d == c {
        } else {
            assert(h2.stacks[k][d] == h.stacks[k][d]);
        }
    }
    assert forall|j: int| 0 <= j < w2.threads.len() && (#[trigger] w2.threads[j]).node
        == k implies !in_thread(w2.threads[j], d, a) by {
        if j != i {
            assert(w2.threads[j] == w.threads[j]);
        } else if d == c {
            if in_thread(t2, c, a) {
                assert(in_thread(t, c, a) || h.stacks[k][c].contains(a) || !h.placed(k, c, a));
            }
        } else {
            assert(t2.lists[d] == t.lists[d] && t2.parked[d] == t.parked[d]);
            assert(!in_thread(t, d, a));
        }
    }
}

/// The world after thread `i` has deallocated the object in use at `a`.
pub open spec fn after_dealloc(w: World, i: int, a: usize) -> World {
    let (h2, t2) = allocator::dealloc_outcome(w.heap, Some(w.threads[i]), w.live[a], a);
    World { heap: h2, threads: w.threads.update(i, t2->0), live: w.live.remove(a) }
}

/// The world after a thread without a heap has deallocated the object in use
/// at `a`.
pub open spec fn after_bare_dealloc(w: World, a: usize) -> World {
    let (h2, _) = allocator::dealloc_outcome(w.heap, None, w.live[a], a);
    World { heap: h2, threads: w.threads, live: w.live.remove(a) }
}

/// What is in use can be deallocated by any thread.
pub proof fn law_live_can_be_freed(w: World, i: int, a: usize)
    requires
        w.wf(),
        0 <= i < w.threads.len(),
        w.live.dom().contains(a),
    ensures
        allocator::is_live(w.heap, Some(w.threads[i]), w.live[a], a),
        allocator::is_live(w.heap, None, w.live[a], a),
{
    assert(w.live_ok(a));
    let n = w.heap.node_of(a as int);
    let c = w.live[a];
    if w.threads[i].node == n {
        assert(!in_thread(w.threads[i], c, a));
    }
}

/// A world stays well-formed when an object in use becomes free in one place,
/// and free objects of its class and node move between one thread and the
/// node's stack.
#[verifier::spinoff_prover]
proof fn lemma_freed(w: World, w2: World, i: int, n: int, c: int, a: usize)
    requires
        w.wf(),
        w.live.dom().contains(a),
        w.live[a] == c,
        w.heap.node_of(a as int) == n,
        w2.live == w.live.remove(a),
        w2.threads.len() == w.threads.len(),
        forall|j: int|
            0 <= j < w.threads.len() && j != i ==> #[trigger] w2.threads[j] == w.threads[j],
        0 <= i < w.threads.len() ==> {
            &&& w2.threads[i].node == w.threads[i].node
            &&& w2.threads[i].heap == w.threads[i].heap
            &&& w2.threads[i].wf(w2.heap)
            &&& forall|d: int|
                0 <= d < NUM_SIZE_CLASSES && (d != c || w.threads[i].node != n) ==> (
                #[trigger] w2.threads[i].lists[d]) == w.threads[i].lists[d]
                    && w2.threads[i].parked[d] == w.threads[i].parked[d]
        },
        w2.heap.wf(),
        allocator::same_shape(w.heap, w2.heap),
        w2.heap.used == w.heap.used,
        w2.heap.owners == w.heap.owners,
        forall|k: int, d: int|
            0 <= k < w.heap.nodes && 0 <= d < NUM_SIZE_CLASSES && (k != n || d != c) ==> (
            #[trigger] w2.heap.stacks[k][d]) == w.heap.stacks[k][d],
        // What the thread and the stack hold afterwards is what they held
        // before, and `a`.
        forall|b: usize|
            (#[trigger] w2.heap.stacks[n][c].contains(b) || 0 <= i < w.threads.len()
                && w.threads[i].node == n && in_thread(w2.threads[i], c, b)) <==> (b == a
                || w.heap.stacks[n][c].contains(b) || 0 <= i < w.threads.len()
                && w.threads[i].node == n && in_thread(w.threads[i], c, b)),
    ensures
        w2.wf(),
{
    let h = w.heap;
    let h2 = w2.heap;
    assert(w.live_ok(a));
    assert forall|k: int, d: int, b: usize| #[trigger] h2.placed(k, d, b) == h.placed(
        k,
        d,
        b,
    ) by {}
    assert forall|j: int| 0 <= j < w.threads.len() && (#[trigger] w.threads[j]).node
        == n implies !in_thread(w.threads[j], c, a) by {}
    // Blocks of another thread are neither `a` nor blocks that moved.
    assert forall|j: int, b: usize|
        0 <= j < w.threads.len() && j != i && w.threads[j].node == n && #[trigger] in_thread(
            w.threads[j],
            c,
            b,
        ) implies !h2.stacks[n][c].contains(b) && !(0 <= i < w.threads.len() && w.threads[i].node
        == n && in_thread(w2.threads[i], c, b)) by {
        let u = w.threads[j];
        assert(u.wf(h));
        assert(u.class_ok(h, c));
        if 0 <= i < w.threads.len() {
            assert(threads_apart(u, w.threads[i]));
        }
        assert(!w.heap.stacks[n][c].contains(b));
        assert(!w2.heap.stacks[n][c].contains(b) || w2.heap.stacks[n][c].contains(b));
    }
    assert forall|j: int| 0 <= j < w2.threads.len() implies (#[trigger] w2.threads[j]).wf(h2) by {
        if j != i {
            let u = w.threads[j];
            assert(w2.threads[j] == u);
            assert(u.wf(h));
            assert forall|d: int| 0 <= d < NUM_SIZE_CLASSES implies #[trigger] u.class_ok(
                h2,
                d,
            ) by {
                assert(u.class_ok(h, d));
                if d == c && u.node == n {
                    assert forall|b: usize| u.lists[d].contains(b) implies !(
                    #[trigger] h2.stacks[n][d].contains(b)) by {
                        assert(in_thread(u, c, b));
                    }
                    assert forall|b: usize| u.parked[d].contains(b) implies !(
                    #[trigger] h2.stacks[n][d].contains(b)) by {
                        assert(in_thread(u, c, b));
                    }
                } else {
                    assert(h2.stacks[u.node][d] == h.stacks[u.node][d]);
                }
            }
        }
    }
    assert forall|j: int| 0 <= j < w.threads.len() && 0 <= i < w.threads.len() && j != i implies
        threads_apart(w2.threads[i], #[trigger] w.threads[j]) && threads_apart(
        w.threads[j],
        w2.threads[i],
    ) by {
        let u = w.threads[j];
        let t = w.threads[i];
        let t2 = w2.threads[i];
        assert(threads_apart(t, u) && threads_apart(u, t));
        if u.node == t.node {
            assert forall|d: int, b: usize|
                0 <= d < NUM_SIZE_CLASSES && in_thread(u, d, b) implies !#[trigger] in_thread(
                t2,
                d,
                b,
            ) by {
                if d == c && t.node == n {
                    assert(in_thread(w.threads[j], c, b));
                } else {
                    assert(w2.threads[i].lists[d] == w.threads[i].lists[d]);
                    assert(w2.threads[i].parked[d] == w.threads[i].parked[d]);
                    assert(!in_thread(t, d, b));
                }
            }
        }
    }
    assert forall|j: int, k: int|
        0 <= j < w2.threads.len() && 0 <= k < w2.threads.len() && j != k implies threads_apart(
        #[trigger] w2.threads[j],
        #[trigger] w2.threads[k],
    ) by {
        if j == i {
            assert(w2.threads[k] == w.threads[k]);
        } else if k == i {
            assert(w2.threads[j] == w.threads[j]);
        } else {
            assert(w2.threads[j] == w.threads[j] && w2.threads[k] == w.threads[k]);
            assert(threads_apart(w.threads[j], w.threads[k]));
        }
    }
    assert forall|k: int, d: int, b: usize|
        h.placed(k, d, b) implies #[trigger] w2.is_free(k, d, b) == (w.is_free(k, d, b) || b
        == a) by {
        if b == a {
            heap_view::lemma_placed_unique(h, n, c, k, d, b);
        }
        if k == n && d == c {
            assert(w2.heap.stacks[n][c].contains(b) || !w2.heap.stacks[n][c].contains(b));
            if 0 <= i < w.threads.len() {
                assert(w.threads[i] == w.threads[i]);
                assert(w2.threads[i] == w2.threads[i]);
            }
            if w.is_free(k, d, b) && !w.heap.stacks[k][d].contains(b) {
                let j = choose|j: int|
                    0 <= j < w.threads.len() && (#[trigger] w.threads[j]).node == k && in_thread(
                        w.threads[j],
                        d,
                        b,
                    );
                if j != i {
                    assert(w2.threads[j] == w.threads[j]);
                }
            }
            if w2.is_free(k, d, b) && !w2.heap.stacks[k][d].contains(b) {
                let j = choose|j: int|
                    0 <= j < w2.threads.len() && (#[trigger] w2.threads[j]).node == k && in_thread(
                        w2.threads[j],
                        d,
                        b,
                    );
                if j != i {
                    assert(w2.threads[j] == w.threads[j]);
                }
            }
        } else {
            assert(h2.stacks[k][d] == h.stacks[k][d]);
            if w.is_free(k, d, b) && !w.heap.stacks[k][d].contains(b) {
                let j = choose|j: int|
                    0 <= j < w.threads.len() && (#[trigger] w.threads[j]).node == k && in_thread(
                        w.threads[j],
                        d,
                        b,
                    );
                assert(w2.threads[j].node == k);
                if j == i {
                    assert(w2.threads[i].lists[d] == w.threads[i].lists[d]);
                }
                assert(in_thread(w2.threads[j], d, b));
            }
            if w2.is_free(k, d, b) && !w2.heap.stacks[k][d].contains(b) {
                let j = choose|j: int|
                    0 <= j < w2.threads.len() && (#[trigger] w2.threads[j]).node == k && in_thread(
                        w2.threads[j],
                        d,
                        b,
                    );
                if j == i {
                    assert(w2.threads[i].lists[d] == w.threads[i].lists[d]);
                }
                assert(in_thread(w.threads[j], d, b));
                assert(w.threads[j].node == k);
            }
        }
    }
    assert forall|b: usize| #[trigger] w2.live.dom().contains(b) implies w2.live_ok(b) by {
        assert(w.live.dom().contains(b));
        assert(w.live_ok(b));
        let k = h.node_of(b as int);
        let d = w.live[b];
        assert(h.placed(k, d, b));
        assert(w2.is_free(k, d, b) == (w.is_free(k, d, b) || b == a));
    }
    assert forall|k: int, d: int, b: usize| #[trigger] h2.placed(k, d, b) implies w2.is_free(
        k,
        d,
        b,
    ) || w2.live.contains_pair(b, d) by {
        assert(h.placed(k, d, b));
        assert(w2.is_free(k, d, b) == (w.is_free(k, d, b) || b == a));
    }
}

/// A joined list holds what its parts hold.
pub proof fn lemma_concat_contains(s: Seq<usize>, t: Seq<usize>)
    ensures
        forall|a: usize| #[trigger] (s + t).contains(a) <==> s.contains(a) || t.contains(a),
{
    let u = s + t;
    assert forall|a: usize| #[trigger] u.contains(a) <==> s.contains(a) || t.contains(a) by {
        if u.contains(a) {
            let i = choose|i: int| 0 <= i < u.len() && u[i] == a;
            if i < s.len() {
                assert(s[i] == a);
            } else {
                assert(t[i - s.len()] == a);
            }
        }
        if s.contains(a) {
            let i = choose|i: int| 0 <= i < s.len() && s[i] == a;
            assert(u[i] == a);
        }
        if t.contains(a) {
            let i = choose|i: int| 0 <= i < t.len() && t[i] == a;
            assert(u[i + s.len()] == a);
        }
    }
}

/// What a local deallocation moves: afterwards the thread's list and the
/// node's stack hold what they held before, and the object.
pub proof fn lemma_free_moves(h: HeapView, t: ThreadView, c: int, p: usize)
    requires
        h.wf(),
        t.wf(h),
        0 <= c < NUM_SIZE_CLASSES,
    ensures
        ({
            let (h2, t2) = thread_heap::free_outcome(h, t, c, p);
            let n = t.node;
            forall|b: usize|
                (#[trigger] h2.stacks[n][c].contains(b) || in_thread(t2, c, b)) <==> (b == p
                    || h.stacks[n][c].contains(b) || in_thread(t, c, b))
        }),
{
    let (h2, t2) = thread_heap::free_outcome(h, t, c, p);
    let n = t.node;
    let s = seq![p] + t.lists[c];
    lemma_concat_contains(seq![p], t.lists[c]);
    assert(seq![p][0] == p);
    assert forall|b: usize| seq![p].contains(b) <==> b == p by {}
    heap_view::lemma_bags(c);
    if s.len() > thread_heap::max_cache(c) {
        let keep = thread_heap::max_cache(c) / 2;
        lemma_concat_contains(s.take(keep), s.skip(keep));
        assert(s.take(keep) + s.skip(keep) =~= s);
        lemma_concat_contains(s.skip(keep), h.stacks[n][c]);
        assert forall|b: usize|
            (#[trigger] h2.stacks[n][c].contains(b) || in_thread(t2, c, b)) <==> (b == p
                || h.stacks[n][c].contains(b) || in_thread(t, c, b)) by {
            assert(h2.stacks[n][c] == s.skip(keep) + h.stacks[n][c]);
            assert(s.contains(b) <==> (s.take(keep) + s.skip(keep)).contains(b));
            assert(s.contains(b) <==> seq![p].contains(b) || t.lists[c].contains(b));
        }
    } else {
        assert forall|b: usize|
            (#[trigger] h2.stacks[n][c].contains(b) || in_thread(t2, c, b)) <==> (b == p
                || h.stacks[n][c].contains(b) || in_thread(t, c, b)) by {
            assert(s.contains(b) <==> seq![p].contains(b) || t.lists[c].contains(b));
        }
    }
}

/// A deallocation leads to a well-formed world: the object is free in one
/// place, nothing else is lost, and it can be allocated again.
pub proof fn law_dealloc(w: World, i: int, a: usize)
    requires
        w.wf(),
        0 <= i < w.threads.len(),
        w.live.dom().contains(a),
    ensures
        after_dealloc(w, i, a).wf(),
{
    let h = w.heap;
    let t = w.threads[i];
    let c = w.live[a];
    let n = h.node_of(a as int);
    let w2 = after_dealloc(w, i, a);
    assert(w.live_ok(a));
    law_live_can_be_freed(w, i, a);
    assert(t.wf(h));
    if t.node == n {
        thread_heap::lemma_free_outcome(h, t, c, a);
        lemma_free_moves(h, t, c, a);
        assert(w2.threads[i] == thread_heap::free_outcome(h, t, c, a).1);
        lemma_freed(w, w2, i, n, c, a);
    } else {
        lemma_pushed(h, n, c, a);
        thread_heap::lemma_remote_stack(h, t, n, c, seq![a] + h.stacks[n][c]);
        assert(w2.threads =~= w.threads);
        lemma_freed(w, w2, i, n, c, a);
    }
}

/// A deallocation by a thread without a heap leads to a well-formed world too.
pub proof fn law_bare_dealloc(w: World, a: usize)
    requires
        w.wf(),
        w.live.dom().contains(a),
    ensures
        after_bare_dealloc(w, a).wf(),
{
    let h = w.heap;
    let c = w.live[a];
    let n = h.node_of(a as int);
    let w2 = after_bare_dealloc(w, a);
    assert(w.live_ok(a));
    lemma_pushed(h, n, c, a);
    lemma_freed(w, w2, -1, n, c, a);
}

/// An object in use can be pushed onto its node's stack.
proof fn lemma_pushed(h: HeapView, n: int, c: int, a: usize)
    requires
        h.wf(),
        h.placed(n, c, a),
        !h.stacks[n][c].contains(a),
    ensures
        h.with_stack(n, c, seq![a] + h.stacks[n][c]).wf(),
        forall|b: usize| #[trigger]
            (seq![a] + h.stacks[n][c]).contains(b) <==> b == a || h.stacks[n][c].contains(b),
{
    let s = h.stacks[n][c];
    assert(seq![a][0] == a);
    assert(s.no_duplicates());
    lemma_concat_contains(seq![a], s);
    heap_view::lemma_all_placed_concat(h, n, c, seq![a], s);
    thread_heap::lemma_no_duplicates_concat(seq![a], s);
    heap_view::lemma_with_stack(h, n, c, seq![a] + s);
}

/// The world after thread `i` has exited and given its blocks back.
pub open spec fn after_exit(w: World, i: int) -> World {
    World {
        heap: thread_heap::drain_outcome(w.heap, w.threads[i]),
        threads: w.threads.remove(i),
        live: w.live,
    }
}

/// A thread that exits gives all its free objects back: the world stays
/// well-formed without it.
pub proof fn law_thread_exit(w: World, i: int)
    requires
        w.wf(),
        0 <= i < w.threads.len(),
    ensures
        after_exit(w, i).wf(),
{
    let h = w.heap;
    let t = w.threads[i];
    let n = t.node;
    let w2 = after_exit(w, i);
    let h2 = w2.heap;
    assert(t.wf(h));
    assert forall|k: int, d: int, b: usize| #[trigger] h2.placed(k, d, b) == h.placed(
        k,
        d,
        b,
    ) by {}
    // The stacks of the thread's node hold the thread's blocks too.
    assert forall|d: int, b: usize| 0 <= d < NUM_SIZE_CLASSES implies (
    #[trigger] h2.stacks[n][d].contains(b) <==> h.stacks[n][d].contains(b) || in_thread(
        t,
        d,
        b,
    )) by {
        lemma_concat_contains(t.lists[d], h.stacks[n][d]);
        lemma_concat_contains(t.parked[d], t.lists[d] + h.stacks[n][d]);
    }
    assert(h2.wf()) by {
        assert forall|k: int| 0 <= k < h2.nodes implies #[trigger] h2.node_ok(k) by {
            assert(h.node_ok(k));
            assert forall|g: int| #[trigger] h2.owners[k].dom().contains(g) implies h2.bag_owned(
                k,
                g,
                h2.owners[k][g],
            ) by {
                assert(h.bag_owned(k, g, h.owners[k][g]));
            }
        }
        assert forall|k: int, d: int, b: usize|
            0 <= k < h2.nodes && 0 <= d < NUM_SIZE_CLASSES && #[trigger] h2.stacks[k][d].contains(
                b,
            ) implies h2.placed(k, d, b) by {
            assert(t.class_ok(h, d));
            if k == n {
                assert(h.stacks[n][d].contains(b) || in_thread(t, d, b));
            } else {
                assert(h.stacks[k][d].contains(b));
            }
            assert(h.placed(k, d, b));
        }
        assert forall|k: int, d: int|
            0 <= k < h2.nodes && 0 <= d < NUM_SIZE_CLASSES implies (
            #[trigger] h2.stacks[k][d]).no_duplicates() by {
            assert(h.stacks[k][d].no_duplicates());
            if k == n {
                assert(t.class_ok(h, d));
                thread_heap::lemma_no_duplicates_concat(t.lists[d], h.stacks[n][d]);
                freelist::lemma_apart_concat(t.lists[d], h.stacks[n][d], t.parked[d]);
                thread_heap::lemma_no_duplicates_concat(
                    t.parked[d],
                    t.lists[d] + h.stacks[n][d],
                );
            }
        }
        assert forall|k: int, d: int|
            h2.nodes <= k < heap::MAX_NODES && 0 <= d < NUM_SIZE_CLASSES implies (
            #[trigger] h2.stacks[k][d]) == Seq::<usize>::empty() by {
            assert(h.stacks[k][d] == Seq::<usize>::empty());
        }
    }
    // The other threads keep their blocks.
    assert forall|j: int| 0 <= j < w2.threads.len() implies #[trigger] w2.threads[j] == w.threads[
        other(i, j)
    ] by {}
    assert forall|j: int| 0 <= j < w2.threads.len() implies (#[trigger] w2.threads[j]).wf(h2) by {
        let u = w.threads[other(i, j)];
        assert(u.wf(h));
        assert(threads_apart(u, t));
        assert forall|d: int| 0 <= d < NUM_SIZE_CLASSES implies #[trigger] u.class_ok(h2, d) by {
            assert(u.class_ok(h, d));
            if u.node == n {
                assert forall|b: usize| u.lists[d].contains(b) implies !(
                #[trigger] h2.stacks[n][d].contains(b)) by {
                    assert(in_thread(u, d, b));
                }
                assert forall|b: usize| u.parked[d].contains(b) implies !(
                #[trigger] h2.stacks[n][d].contains(b)) by {
                    assert(in_thread(u, d, b));
                }
            }
        }
    }
    assert forall|j: int, k: int|
        0 <= j < w2.threads.len() && 0 <= k < w2.threads.len() && j != k implies threads_apart(
        #[trigger] w2.threads[j],
        #[trigger] w2.threads[k],
    ) by {
        assert(threads_apart(w.threads[other(i, j)], w.threads[other(i, k)]));
    }
    // Exactly the same objects are free.
    assert forall|k: int, d: int, b: usize| h.placed(k, d, b) implies #[trigger] w2.is_free(
        k,
        d,
        b,
    ) == w.is_free(k, d, b) by {
        assert(k == n ==> (h2.stacks[n][d].contains(b) <==> h.stacks[n][d].contains(b)
            || in_thread(t, d, b)));
        if w.is_free(k, d, b) && !h.stacks[k][d].contains(b) {
            let j = choose|j: int|
                0 <= j < w.threads.len() && (#[trigger] w.threads[j]).node == k && in_thread(
                    w.threads[j],
                    d,
                    b,
                );
            if j != i {
                let l = if j < i {
                    j
                } else {
                    j - 1
                };
                assert(other(i, l) == j);
                assert(w2.threads[l] == w.threads[j]);
            }
        }
        if w2.is_free(k, d, b) && !h2.stacks[k][d].contains(b) {
            let l = choose|l: int|
                0 <= l < w2.threads.len() && (#[trigger] w2.threads[l]).node == k && in_thread(
                    w2.threads[l],
                    d,
                    b,
                );
            assert(w2.threads[l] == w.threads[other(i, l)]);
        }
        if w.threads[i].node == k && in_thread(w.threads[i], d, b) {
            assert(w.is_free(k, d, b));
        }
    }
    assert forall|b: usize| #[trigger] w2.live.dom().contains(b) implies w2.live_ok(b) by {
        assert(w.live_ok(b));
        assert(w2.is_free(h.node_of(b as int), w.live[b], b) == w.is_free(
            h.node_of(b as int),
            w.live[b],
            b,
        ));
    }
    assert forall|k: int, d: int, b: usize| #[trigger] h2.placed(k, d, b) implies w2.is_free(
        k,
        d,
        b,
    ) || w2.live.contains_pair(b, d) by {
        assert(h.placed(k, d, b));
        assert(w2.is_free(k, d, b) == w.is_free(k, d, b));
    }
}

/// Index before thread `i` was removed of what is now at `j`.
spec fn other(i: int, j: int) -> int {
    if j < i {
        j
    } else {
        j + 1
    }
}

/// A thread that enters with nothing cached leaves the world well-formed.
pub proof fn law_thread_enter(w: World, node: int)
    requires
        w.wf(),
        0 <= node < w.heap.nodes,
    ensures
        (World {
            threads: w.threads.push(thread_heap::empty_thread(node, w.heap.base)),
            ..w
        }).wf(),
{
    let t = thread_heap::empty_thread(node, w.heap.base);
    let w2 = World { threads: w.threads.push(t), ..w };
    let last = w.threads.len() as int;
    assert forall|c: int, a: usize| 0 <= c < NUM_SIZE_CLASSES implies !#[trigger] in_thread(
        t,
        c,
        a,
    ) by {}
    assert forall|j: int| 0 <= j < w2.threads.len() implies (#[trigger] w2.threads[j]).wf(
        w.heap,
    ) by {
        if j == last {
            assert forall|c: int| 0 <= c < NUM_SIZE_CLASSES implies #[trigger] t.class_ok(
                w.heap,
                c,
            ) by {
                heap_view::lemma_bags(c);
            }
        } else {
            assert(w2.threads[j] == w.threads[j]);
        }
    }
    assert forall|j: int, k: int|
        0 <= j < w2.threads.len() && 0 <= k < w2.threads.len() && j != k implies threads_apart(
        #[trigger] w2.threads[j],
        #[trigger] w2.threads[k],
    ) by {
        if j < last && k < last {
            assert(threads_apart(w.threads[j], w.threads[k]));
        }
    }
    assert forall|k: int, d: int, b: usize| w.heap.placed(k, d, b) implies #[trigger] w2.is_free(
        k,
        d,
        b,
    ) == w.is_free(k, d, b) by {
        if w.is_free(k, d, b) && !w.heap.stacks[k][d].contains(b) {
            let j = choose|j: int|
                0 <= j < w.threads.len() && (#[trigger] w.threads[j]).node == k && in_thread(
                    w.threads[j],
                    d,
                    b,
                );
            assert(w2.threads[j] == w.threads[j]);
        }
        if w2.is_free(k, d, b) && !w.heap.stacks[k][d].contains(b) {
            let j = choose|j: int|
                0 <= j < w2.threads.len() && (#[trigger] w2.threads[j]).node == k && in_thread(
                    w2.threads[j],
                    d,
                    b,
                );
            assert(j != last);
            assert(w2.threads[j] == w.threads[j]);
        }
    }
    assert forall|b: usize| #[trigger] w2.live.dom().contains(b) implies w2.live_ok(b) by {
        assert(w.live_ok(b));
        assert(w.heap.placed(w.heap.node_of(b as int), w.live[b], b));
        assert(w2.is_free(w.heap.node_of(b as int), w.live[b], b) == w.is_free(
            w.heap.node_of(b as int),
            w.live[b],
            b,
        ));
    }
    assert forall|k: int, d: int, b: usize| #[trigger] w2.heap.placed(k, d, b) implies w2.is_free(
        k,
        d,
        b,
    ) || w2.live.contains_pair(b, d) by {
        assert(w.heap.placed(k, d, b));
        assert(w2.is_free(k, d, b) == w.is_free(k, d, b));
    }
}

// ---------------------------------------------------------------------------
// What an allocation returns
// ---------------------------------------------------------------------------
/// One step of a world.
pub enum Event {
    /// A thread of a node starts to use the allocator.
    Enter { node: int },
    /// A thread exits.
    Exit { thread: int },
    /// A thread allocates an object of a class.
    Allocate { thread: int, class: int },
    /// A thread deallocates an object in use, whoever allocated it.
    Deallocate { thread: int, addr: usize },
    /// A thread whose heap is gone deallocates an object in use.
    BareDeallocate { addr: usize },
}

/// The step can take place.
pub open spec fn possible(w: World, e: Event) -> bool {
    match e {
        Event::Enter { node } => 0 <= node < w.heap.nodes,
        Event::Exit { thread } => 0 <= thread < w.threads.len(),
        Event::Allocate { thread, class } => 0 <= thread < w.threads.len() && 0 <= class
            < NUM_SIZE_CLASSES,
        Event::Deallocate { thread, addr } => 0 <= thread < w.threads.len()
            && w.live.dom().contains(addr),
        Event::BareDeallocate { addr } => w.live.dom().contains(addr),
    }
}

/// The world after the step.
pub open spec fn after(w: World, e: Event) -> World {
    match e {
        Event::Enter { node } => World {
            threads: w.threads.push(thread_heap::empty_thread(node, w.heap.base)),
            ..w
        },
        Event::Exit { thread } => after_exit(w, thread),
        Event::Allocate { thread, class } => after_alloc(w, thread, class),
        Event::Deallocate { thread, addr } => after_dealloc(w, thread, addr),
        Event::BareDeallocate { addr } => after_bare_dealloc(w, addr),
    }
}

/// The world after a sequence of steps.
pub open spec fn world_after(w: World, s: Seq<Event>) -> World
    decreases s.len(),
{
    if s.len() == 0 {
        w
    } else {
        after(world_after(w, s.drop_last()), s.last())
    }
}

/// Every step of the sequence can take place when its turn comes.
pub open spec fn all_possible(w: World, s: Seq<Event>) -> bool {
    forall|k: int|
        0 <= k < s.len() ==> possible(world_after(w, #[trigger] s.take(k)), s[k])
}

/// Whatever any number of threads do, in whatever order: the world stays
/// well-formed, so that every object is in use or free in exactly one place.
pub proof fn law_history(w: World, s: Seq<Event>)
    requires
        w.wf(),
        all_possible(w, s),
    ensures
        world_after(w, s).wf(),
    decreases s.len(),
{
    if s.len() > 0 {
        let before = s.drop_last();
        assert forall|k: int| 0 <= k < before.len() implies possible(
            world_after(w, #[trigger] before.take(k)),
            before[k],
        ) by {
            assert(before.take(k) =~= s.take(k));
        }
        law_history(w, before);
        let v = world_after(w, before);
        assert(s.take(s.len() - 1) =~= before);
        match s.last() {
            Event::Enter { node } => law_thread_enter(v, node),
            Event::Exit { thread } => law_thread_exit(v, thread),
            Event::Allocate { thread, class } => law_alloc(v, thread, class),
            Event::Deallocate { thread, addr } => law_dealloc(v, thread, addr),
            Event::BareDeallocate { addr } => law_bare_dealloc(v, addr),
        }
    }
}

/// Objects in use never overlap.
pub proof fn law_live_disjoint(w: World, a: usize, b: usize)
    requires
        w.wf(),
        w.live.dom().contains(a),
        w.live.dom().contains(b),
        a != b,
    ensures
        a + size_class::class_size(w.live[a]) <= b || b + size_class::class_size(w.live[b]) <= a,
{
    assert(w.live_ok(a) && w.live_ok(b));
    heap_view::lemma_placed_disjoint(
        w.heap,
        w.heap.node_of(a as int),
        w.live[a],
        a,
        w.heap.node_of(b as int),
        w.live[b],
        b,
    );
}

/// What a successful allocation returns is aligned as requested, not null, and
/// mapped for the requested size.
pub proof fn law_alloc_fits(
    h: HeapView,
    t: Option<ThreadView>,
    m: Map<int, u8>,
    layout: Layout,
    page_size: int,
)
    requires
        h.wf(),
        h.mapped(m),
        t matches Some(v) ==> v.wf(h) && thread_heap::mappings_ok(h, m, page_size, v.large),
        layout.wf(),
        0 < page_size <= isize::MAX,
    ensures
        allocator::alloc_step(h, t, layout, page_size).2 matches AllocStep::Done(Some(p)) ==> {
            &&& p != 0
            &&& p as int % layout.spec_align() == 0
            &&& memory::range_mapped(m, p as int, layout.spec_size())
            &&& layout.spec_size() > 0 || page_size % 8 == 0 ==> (h.owns(p as int)
                <==> allocator::served_small(h, t, layout))
        },
{
    layout.lemma_bounds();
    if allocator::served_small(h, t, layout) {
        let v = t->0;
        let c = size_class::class_of(layout.effective());
        let size = size_class::class_size(c);
        allocator::lemma_class_exists(layout.effective());
        thread_heap::lemma_alloc_outcome(h, v, c);
        lemma_alloc_moves(h, v, c);
        let (h2, t2, r) = thread_heap::alloc_outcome(h, v, c);
        let p = r->0;
        heap_view::lemma_bags(c);
        heap_view::lemma_placed_inside(h2, v.node, c, p);
        assert forall|i: int| p <= i < p + layout.spec_size() implies #[trigger] m.dom().contains(
            i,
        ) by {
            assert(h.base <= i < h.base + h.nodes * h.region);
        }
        lemma_class_pow2(c);
        layout::lemma_pow2_divides(layout.spec_align(), size);
        heap_view::lemma_divides(p as int, size, layout.spec_align());
    } else if allocator::alloc_step(h, t, layout, page_size).2 is Done
        && allocator::alloc_step(h, t, layout, page_size).2->Done_0 is Some {
        let v = t->0;
        let size = large_object::large_extent(layout, page_size);
        let i = large_cache::best(v.large, size)->0;
        assert(large_cache::best_fit(v.large, i, size));
        let e = v.large[i];
        assert(thread_heap::mapping_ok(h, m, page_size, e));
        large_object::lemma_payload(e.original_ptr as int, layout, e.alloc_size as int, page_size);
        if layout.spec_size() > 0 || page_size % 8 == 0 {
            large_object::lemma_payload_inside(
                e.original_ptr as int,
                layout,
                e.alloc_size as int,
                page_size,
            );
        }
        let p = large_object::payload_at(e.original_ptr as int, layout);
        heap_view::lemma_align_up(
            e.original_ptr + 16,
            large_object::payload_align(layout.spec_align()),
        );
        assert forall|k: int| p <= k < p + layout.spec_size() implies #[trigger] m.dom().contains(
            k,
        ) by {
            assert(e.original_ptr <= k < e.original_ptr + e.alloc_size);
        }
    }
}

/// Class sizes are powers of two.
pub proof fn lemma_class_pow2(c: int)
    requires
        0 <= c < NUM_SIZE_CLASSES,
    ensures
        vstd::arithmetic::power2::is_pow2(size_class::class_size(c)),
    decreases c,
{
    size_class::lemma_class_sizes();
    reveal(vstd::arithmetic::power2::is_pow2);
    if c == 0 {
        assert(vstd::arithmetic::power2::is_pow2(1));
        assert(vstd::arithmetic::power2::is_pow2(2));
        assert(vstd::arithmetic::power2::is_pow2(4));
        assert(vstd::arithmetic::power2::is_pow2(8));
    } else {
        lemma_class_pow2(c - 1);
        assert(size_class::class_size((c - 1) + 1) == 2 * size_class::class_size(c - 1));
    }
}

// ---------------------------------------------------------------------------
// What operations leave alone
// ---------------------------------------------------------------------------
/// `a` is the address of an object.
pub open spec fn is_object(h: HeapView, a: usize) -> bool {
    exists|n: int, c: int| h.placed(n, c, a)
}

/// Storing links of some objects leaves the bytes of all others alone.
proof fn lemma_other_objects(
    h: HeapView,
    m: Map<int, u8>,
    m2: Map<int, u8>,
    s: Seq<usize>,
    k: int,
    d: int,
    b: usize,
    x: int,
)
    requires
        h.wf(),
        freelist::links_only(m, m2, s),
        forall|a: usize| #[trigger] s.contains(a) ==> is_object(h, a),
        h.placed(k, d, b),
        !s.contains(b),
        b <= x < b + size_class::class_size(d),
        m.dom().contains(x),
    ensures
        m2[x] == m[x],
{
    if freelist::in_links(s, x) {
        let a = choose|a: usize| #[trigger] s.contains(a) && a <= x < a + 8;
        assert(is_object(h, a));
        let (n, c) = choose|n: int, c: int| h.placed(n, c, a);
        heap_view::lemma_bags(c);
        heap_view::lemma_placed_disjoint(h, n, c, a, k, d, b);
    }
}

/// An allocation leaves the contents of every object in use alone.
pub proof fn law_alloc_keeps_contents(
    w: World,
    i: int,
    c: int,
    m: Map<int, u8>,
    m2: Map<int, u8>,
    b: usize,
    x: int,
)
    requires
        w.wf(),
        0 <= i < w.threads.len(),
        0 <= c < NUM_SIZE_CLASSES,
        freelist::links_only(
            m,
            m2,
            thread_heap::alloc_touched(w.heap, w.threads[i], c),
        ),
        w.live.dom().contains(b),
        b <= x < b + size_class::class_size(w.live[b]),
        m.dom().contains(x),
    ensures
        m2[x] == m[x],
{
    let h = w.heap;
    let t = w.threads[i];
    let n = t.node;
    let k = h.node_of(b as int);
    let d = w.live[b];
    let s = thread_heap::alloc_touched(h, t, c);
    let h2 = thread_heap::alloc_outcome(h, t, c).0;
    assert(w.live_ok(b));
    thread_heap::lemma_alloc_outcome(h, t, c);
    lemma_alloc_moves(h, t, c);
    assert(!s.contains(b)) by {
        if s.contains(b) {
            heap_view::lemma_placed_unique(h2, n, c, k, d, b);
            assert(!in_thread(w.threads[i], c, b));
            if t.lists[c].len() == 0 && t.parked[c].len() == 0 && h.stacks[n][c].len() == 0 {
                heap_view::lemma_carved_blocks(h, n, c);
            }
        }
    }
    assert forall|a: usize| #[trigger] s.contains(a) implies is_object(h2, a) by {
        assert(h2.placed(n, c, a));
    }
    lemma_other_objects(h2, m, m2, s, k, d, b, x);
}

/// A deallocation leaves the contents of every other object in use alone.
pub proof fn law_dealloc_keeps_contents(
    w: World,
    t: Option<int>,
    a: usize,
    m: Map<int, u8>,
    m2: Map<int, u8>,
    b: usize,
    x: int,
)
    requires
        w.wf(),
        t matches Some(i) ==> 0 <= i < w.threads.len(),
        w.live.dom().contains(a),
        freelist::links_only(
            m,
            m2,
            allocator::dealloc_touched(
                w.heap,
                match t {
                    Some(i) => Some(w.threads[i]),
                    None => None,
                },
                w.live[a],
                a,
            ),
        ),
        w.live.dom().contains(b),
        b != a,
        b <= x < b + size_class::class_size(w.live[b]),
        m.dom().contains(x),
    ensures
        m2[x] == m[x],
{
    let h = w.heap;
    let n = h.node_of(a as int);
    let c = w.live[a];
    let k = h.node_of(b as int);
    let d = w.live[b];
    assert(w.live_ok(a) && w.live_ok(b));
    let v = match t {
        Some(i) => Some(w.threads[i]),
        None => None,
    };
    let s = allocator::dealloc_touched(h, v, c, a);
    assert(seq![a][0] == a);
    assert forall|y: usize| #[trigger] s.contains(y) implies is_object(h, y) && y != b by {
        if v is Some && v->0.node == n {
            lemma_concat_contains(seq![a], v->0.lists[c]);
            assert(v->0.wf(h));
            assert(v->0.class_ok(h, c));
            if y != a {
                assert(h.placed(n, c, y));
                if y == b {
                    heap_view::lemma_placed_unique(h, n, c, k, d, b);
                    assert(in_thread(w.threads[t->0], d, b));
                }
            }
        }
        assert(h.placed(n, c, y));
    }
    lemma_other_objects(h, m, m2, s, k, d, b, x);
}

/// A thread that gives its blocks back leaves the contents of every object in
/// use alone.
pub proof fn law_exit_keeps_contents(
    w: World,
    i: int,
    m: Map<int, u8>,
    m2: Map<int, u8>,
    b: usize,
    x: int,
)
    requires
        w.wf(),
        0 <= i < w.threads.len(),
        freelist::links_only(
            m,
            m2,
            thread_heap::thread_blocks(w.threads[i], NUM_SIZE_CLASSES as int),
        ),
        w.live.dom().contains(b),
        b <= x < b + size_class::class_size(w.live[b]),
        m.dom().contains(x),
    ensures
        m2[x] == m[x],
{
    let h = w.heap;
    let t = w.threads[i];
    let s = thread_heap::thread_blocks(t, 16);
    let k = h.node_of(b as int);
    let d = w.live[b];
    assert(w.live_ok(b));
    assert(t.wf(h));
    assert forall|y: usize| #[trigger] s.contains(y) implies is_object(h, y) && y != b by {
        lemma_thread_blocks(t, 16, y);
        let c = choose|c: int| 0 <= c < NUM_SIZE_CLASSES && #[trigger] in_thread(t, c, y);
        assert(t.class_ok(h, c));
        assert(h.placed(t.node, c, y));
        if y == b {
            heap_view::lemma_placed_unique(h, t.node, c, k, d, b);
            assert(in_thread(w.threads[i], d, b));
        }
    }
    lemma_other_objects(h, m, m2, s, k, d, b, x);
}

/// The blocks of a thread are those on its lists.
pub proof fn lemma_thread_blocks(t: ThreadView, k: int, a: usize)
    requires
        0 <= k <= NUM_SIZE_CLASSES,
        thread_heap::thread_blocks(t, k).contains(a),
    ensures
        exists|c: int| 0 <= c < k && #[trigger] in_thread(t, c, a),
    decreases k,
{
    if k > 0 {
        let s = thread_heap::thread_blocks(t, k - 1);
        let x = t.lists[k - 1] + t.parked[k - 1];
        lemma_concat_contains(s, x);
        lemma_concat_contains(t.lists[k - 1], t.parked[k - 1]);
        assert((s + x).contains(a));
        if s.contains(a) {
            lemma_thread_blocks(t, k - 1, a);
            let c = choose|c: int| 0 <= c < k - 1 && #[trigger] in_thread(t, c, a);
            assert(0 <= c < k && in_thread(t, c, a));
        } else {
            assert(in_thread(t, k - 1, a));
        }
    }
}

/// No operation of one thread disturbs the heap of another: a thread whose
/// lists hold none of the blocks whose links were stored stays well-formed in
/// memory.
pub proof fn law_other_thread_undisturbed(
    th: &PerThreadHeap,
    h: HeapView,
    m: Map<int, u8>,
    h2: HeapView,
    m2: Map<int, u8>,
    s: Seq<usize>,
)
    requires
        th.wf(h, m),
        h.wf(),
        h2.wf(),
        th@.wf(h2),
        h.mapped(m),
        h2.mapped(m2),
        freelist::links_only(m, m2, s),
        forall|a: usize| #[trigger] s.contains(a) ==> freelist::block_ok(m, a),
        forall|c: int, a: usize|
            0 <= c < NUM_SIZE_CLASSES && #[trigger] in_thread(th@, c, a) ==> !s.contains(a),
    ensures
        th.wf(h2, m2),
{
    let t = th@;
    assert forall|i: int| t.link_byte(i) implies #[trigger] m2[i] == m[i] by {
        let c = choose|c: int|
            0 <= c < NUM_SIZE_CLASSES && (freelist::in_links(#[trigger] t.lists[c], i)
                || freelist::in_links(t.parked[c], i));
        assert(t.class_ok(h, c));
        let l = if freelist::in_links(t.lists[c], i) {
            t.lists[c]
        } else {
            t.parked[c]
        };
        let b = choose|b: usize| #[trigger] l.contains(b) && b <= i < b + 8;
        assert(in_thread(t, c, b));
        assert(h.placed(t.node, c, b));
        heap_view::lemma_placed_block(h, m, t.node, c, b);
        assert(m.dom().contains(i));
        if freelist::in_links(s, i) {
            let a = choose|a: usize| #[trigger] s.contains(a) && a <= i < a + 8;
            assert(freelist::block_ok(m, a));
            assert(a == b);
        }
    }
    th.lemma_frame(h, m, h2, m2);
}

/// What an allocation by one thread stores concerns no other thread.
pub proof fn law_alloc_concerns_no_other(w: World, i: int, j: int, c: int, d: int, a: usize)
    requires
        w.wf(),
        0 <= i < w.threads.len(),
        0 <= j < w.threads.len(),
        i != j,
        0 <= c < NUM_SIZE_CLASSES,
        0 <= d < NUM_SIZE_CLASSES,
        in_thread(w.threads[j], d, a),
    ensures
        !thread_heap::alloc_touched(w.heap, w.threads[i], c).contains(a),
{
    let h = w.heap;
    let t = w.threads[i];
    let u = w.threads[j];
    let h2 = thread_heap::alloc_outcome(h, t, c).0;
    let s = thread_heap::alloc_touched(h, t, c);
    assert(u.wf(h) && u.class_ok(h, d));
    assert(t.wf(h) && t.class_ok(h, c));
    assert(threads_apart(u, t));
    thread_heap::lemma_alloc_outcome(h, t, c);
    lemma_alloc_moves(h, t, c);
    if s.contains(a) {
        assert(h.placed(u.node, d, a));
        heap_view::lemma_placed_unique(h2, t.node, c, u.node, d, a);
        if t.lists[c].len() == 0 && t.parked[c].len() == 0 && h.stacks[t.node][c].len() == 0 {
            heap_view::lemma_carved_blocks(h, t.node, c);
        }
        assert(!in_thread(t, d, a));
    }
}

/// What a deallocation stores concerns no other thread.
pub proof fn law_dealloc_concerns_no_other(w: World, t: Option<int>, p: usize, j: int, d: int, a: usize)
    requires
        w.wf(),
        t matches Some(i) ==> 0 <= i < w.threads.len() && i != j,
        w.live.dom().contains(p),
        0 <= j < w.threads.len(),
        0 <= d < NUM_SIZE_CLASSES,
        in_thread(w.threads[j], d, a),
    ensures
        !allocator::dealloc_touched(
            w.heap,
            match t {
                Some(i) => Some(w.threads[i]),
                None => None,
            },
            w.live[p],
            p,
        ).contains(a),
{
    let h = w.heap;
    let u = w.threads[j];
    let n = h.node_of(p as int);
    let c = w.live[p];
    let v = match t {
        Some(i) => Some(w.threads[i]),
        None => None,
    };
    let s = allocator::dealloc_touched(h, v, c, p);
    assert(w.live_ok(p));
    assert(u.wf(h) && u.class_ok(h, d));
    assert(h.placed(u.node, d, a));
    assert(seq![p][0] == p);
    if s.contains(a) {
        if a == p {
            heap_view::lemma_placed_unique(h, n, c, u.node, d, p);
            assert(in_thread(w.threads[j], c, p));
        } else {
            lemma_concat_contains(seq![p], v->0.lists[c]);
            assert(v->0.wf(h) && v->0.class_ok(h, c));
            assert(h.placed(v->0.node, c, a));
            heap_view::lemma_placed_unique(h, v->0.node, c, u.node, d, a);
            assert(threads_apart(w.threads[j], w.threads[t->0]));
            assert(in_thread(w.threads[t->0], d, a));
        }
    }
}

/// What a thread stores when it gives its blocks back concerns no other thread.
pub proof fn law_exit_concerns_no_other(w: World, i: int, j: int, d: int, a: usize)
    requires
        w.wf(),
        0 <= i < w.threads.len(),
        0 <= j < w.threads.len(),
        i != j,
        0 <= d < NUM_SIZE_CLASSES,
        in_thread(w.threads[j], d, a),
    ensures
        !thread_heap::thread_blocks(w.threads[i], NUM_SIZE_CLASSES as int).contains(a),
{
    let h = w.heap;
    let t = w.threads[i];
    let u = w.threads[j];
    assert(u.wf(h) && u.class_ok(h, d));
    assert(t.wf(h));
    if thread_heap::thread_blocks(t, 16).contains(a) {
        lemma_thread_blocks(t, 16, a);
        let c = choose|c: int| 0 <= c < NUM_SIZE_CLASSES && #[trigger] in_thread(t, c, a);
        assert(t.class_ok(h, c));
        assert(h.placed(t.node, c, a) && h.placed(u.node, d, a));
        heap_view::lemma_placed_unique(h, t.node, c, u.node, d, a);
        assert(threads_apart(u, t));
    }
}

/// An allocation leaves the contents of allocated memory alone.
pub proof fn law_alloc_keeps_bytes(
    h: HeapView,
    t: Option<ThreadView>,
    m: Map<int, u8>,
    m2: Map<int, u8>,
    layout: Layout,
    page_size: int,
    ptr: usize,
    old_layout: Layout,
    x: int,
)
    requires
        h.wf(),
        h.mapped(m),
        t matches Some(v) ==> v.wf(h) && thread_heap::mappings_ok(h, m, page_size, v.large),
        layout.wf(),
        old_layout.wf(),
        0 < page_size <= isize::MAX,
        allocator::allocated(h, t, m, ptr, old_layout),
        allocator::alloc_memory(h, t, layout, page_size, m, m2),
        ptr <= x < ptr + old_layout.spec_size(),
    ensures
        m.dom().contains(x),
        m2[x] == m[x],
{
    let n = h.node_of(ptr as int);
    let d = size_class::class_of(old_layout.effective());
    old_layout.lemma_bounds();
    layout.lemma_bounds();
    if allocator::frees_small(h, old_layout, ptr) {
        allocator::lemma_class_exists(old_layout.effective());
        heap_view::lemma_placed_inside(h, n, d, ptr);
        assert(h.base <= x < h.base + h.nodes * h.region);
        assert(m.dom().contains(x));
    } else {
        assert(m.dom().contains(x));
    }
    if allocator::served_small(h, t, layout) {
        let v = t->0;
        let c = size_class::class_of(layout.effective());
        allocator::lemma_class_exists(layout.effective());
        thread_heap::lemma_alloc_outcome(h, v, c);
        let h2 = thread_heap::alloc_outcome(h, v, c).0;
        let s = thread_heap::alloc_touched(h, v, c);
        if allocator::frees_small(h, old_layout, ptr) {
            lemma_alloc_moves(h, v, c);
            assert(!s.contains(ptr)) by {
                if s.contains(ptr) {
                    heap_view::lemma_placed_unique(h2, v.node, c, n, d, ptr);
                    if v.lists[c].len() == 0 && v.parked[c].len() == 0
                        && h.stacks[v.node][c].len() == 0 {
                        heap_view::lemma_carved_blocks(h, v.node, c);
                    }
                }
            }
            assert forall|a: usize| #[trigger] s.contains(a) implies is_object(h2, a) by {
                assert(h2.placed(v.node, c, a));
            }
            assert(h2.placed(n, d, ptr));
            lemma_other_objects(h2, m, m2, s, n, d, ptr, x);
        } else if freelist::in_links(s, x) {
            let a = choose|a: usize| #[trigger] s.contains(a) && a <= x < a + 8;
            assert(h2.placed(v.node, c, a));
            heap_view::lemma_bags(c);
            heap_view::lemma_placed_inside(h2, v.node, c, a);
        }
    } else if m2 != m {
        let v = t->0;
        let size = large_object::large_extent(layout, page_size);
        let i = large_cache::best(v.large, size)->0;
        assert(large_cache::best_fit(v.large, i, size));
        let e = v.large[i];
        assert(thread_heap::mapping_ok(h, m, page_size, e));
        large_object::lemma_payload(e.original_ptr as int, layout, e.alloc_size as int, page_size);
        let q = large_object::payload_at(e.original_ptr as int, layout);
        assert(memory::range_mapped(m, q - 16, 16));
        large_object::lemma_with_header(
            m,
            q,
            LargeHeader { original_ptr: e.original_ptr, alloc_size: e.alloc_size },
        );
    }
}

/// What a successful allocation returns is aligned as requested and mapped for
/// the requested size, overlaps no allocated memory, and leaves every allocated
/// byte alone; and if it lies in a region, then in that of the calling thread's
/// own node.
pub proof fn law_alloc_is_sound(
    h: HeapView,
    t: Option<ThreadView>,
    m: Map<int, u8>,
    m2: Map<int, u8>,
    layout: Layout,
    page_size: int,
)
    requires
        h.wf(),
        h.mapped(m),
        t matches Some(v) ==> v.wf(h) && thread_heap::mappings_ok(h, m, page_size, v.large),
        layout.wf(),
        0 < page_size <= isize::MAX,
        allocator::alloc_memory(h, t, layout, page_size, m, m2),
    ensures
        forall|ptr: usize, l: Layout, x: int|
            #![trigger allocator::allocated(h, t, m, ptr, l), m2[x]]
            allocator::allocated(h, t, m, ptr, l) && l.wf() && ptr <= x < ptr + l.spec_size()
                ==> m2[x] == m[x],
        allocator::alloc_step(h, t, layout, page_size).2 matches AllocStep::Done(Some(p)) ==> {
            &&& p != 0
            &&& p as int % layout.spec_align() == 0
            &&& memory::range_mapped(m, p as int, layout.spec_size())
            &&& forall|ptr: usize, l: Layout| #[trigger]
                allocator::allocated(h, t, m, ptr, l) && l.wf() ==> ptr + l.spec_size() <= p || p
                    + layout.spec_size() <= ptr
            &&& (layout.spec_size() > 0 || page_size % 8 == 0) && h.owns(p as int) ==> t is Some
                && h.lo(t->0.node) <= p && p + layout.spec_size() <= h.lo(t->0.node) + h.region
        },
{
    let (h2, t2, step) = allocator::alloc_step(h, t, layout, page_size);
    law_alloc_fits(h, t, m, layout, page_size);
    assert forall|ptr: usize, l: Layout, x: int|
        #![trigger allocator::allocated(h, t, m, ptr, l), m2[x]]
        allocator::allocated(h, t, m, ptr, l) && l.wf() && ptr <= x < ptr
            + l.spec_size() implies m2[x] == m[x] by {
        law_alloc_keeps_bytes(h, t, m, m2, layout, page_size, ptr, l, x);
    }
    if step is Done && step->Done_0 is Some {
        let p = step->Done_0->0;
        assert forall|ptr: usize, l: Layout| #[trigger]
            allocator::allocated(h, t, m, ptr, l) && l.wf() implies ptr + l.spec_size() <= p || p
            + layout.spec_size() <= ptr by {
            allocator::lemma_alloc_apart(h, t, m, m2, layout, page_size, ptr, l);
        }
        if allocator::served_small(h, t, layout) {
            let v = t->0;
            let c = size_class::class_of(layout.effective());
            layout.lemma_bounds();
            allocator::lemma_class_exists(layout.effective());
            thread_heap::lemma_alloc_outcome(h, v, c);
            assert(h2.placed(v.node, c, p));
            assert(h2.node_ok(v.node));
        }
    }
}

/// The payload in a fresh mapping overlaps no allocated memory, and storing its
/// header leaves every allocated byte alone.
pub proof fn law_fresh_mapping_is_apart(
    h: HeapView,
    t: Option<ThreadView>,
    m: Map<int, u8>,
    m2: Map<int, u8>,
    raw: usize,
    layout: Layout,
    page_size: int,
    ptr: usize,
    l: Layout,
    x: int,
)
    requires
        h.wf(),
        h.mapped(m),
        layout.wf(),
        l.wf(),
        0 < page_size,
        raw + large_object::large_extent(layout, page_size) <= usize::MAX,
        forall|i: int|
            raw <= i < raw + large_object::large_extent(layout, page_size)
                ==> !#[trigger] m.dom().contains(i) && m2.dom().contains(i),
        forall|i: int| #[trigger] m.dom().contains(i) ==> m2.dom().contains(i) && m2[i] == m[i],
        allocator::allocated(h, t, m, ptr, l),
        ptr <= x < ptr + l.spec_size(),
    ensures
        ({
            let p = large_object::payload_at(raw as int, layout);
            let header = LargeHeader {
                original_ptr: raw,
                alloc_size: large_object::large_extent(layout, page_size) as usize,
            };
            &&& !(p <= x < p + layout.spec_size())
            &&& large_object::with_header(m2, p, header)[x] == m[x]
        }),
{
    let p = large_object::payload_at(raw as int, layout);
    let size = large_object::large_extent(layout, page_size);
    law_large_payload(raw as int, layout, page_size);
    l.lemma_bounds();
    if allocator::frees_small(h, l, ptr) {
        let n = h.node_of(ptr as int);
        let d = size_class::class_of(l.effective());
        allocator::lemma_class_exists(l.effective());
        heap_view::lemma_placed_inside(h, n, d, ptr);
        assert(h.base <= x < h.base + h.nodes * h.region);
    }
    assert(m.dom().contains(x));
    assert(memory::range_mapped(m2, p - 16, 16)) by {
        assert forall|i: int| p - 16 <= i < p implies #[trigger] m2.dom().contains(i) by {
            assert(!m.dom().contains(i));
        }
    }
    large_object::lemma_with_header(
        m2,
        p,
        LargeHeader { original_ptr: raw, alloc_size: size as usize },
    );
    assert(m2.dom().contains(x));
}

/// The second half of a reallocation moves the contents: the new memory holds
/// what the old memory held, byte for byte, as far as both reach.
pub proof fn law_move_keeps_contents(
    h: HeapView,
    t: Option<ThreadView>,
    ptr: usize,
    old_layout: Layout,
    q: usize,
    new_size: usize,
    m: Map<int, u8>,
    m2: Map<int, u8>,
    k: int,
)
    requires
        h.wf(),
        t matches Some(v) ==> v.wf(h),
        old_layout.wf(),
        allocator::allocated(h, t, m, ptr, old_layout),
        allocator::moved_memory(h, t, ptr, old_layout, q, new_size, m, m2),
        memory::range_mapped(m, q as int, new_size as int),
        // The new memory is outside the regions, or another object in use.
        (q + new_size <= h.base || h.lo(h.nodes) <= q) || exists|n: int, c: int| #[trigger]
            h.placed(n, c, q) && new_size <= size_class::class_size(c) && (t matches Some(v) ==> (
            v.node == n ==> v.lacks(c, q))) && q != ptr,
        0 <= k < old_layout.spec_size(),
        k < new_size,
    ensures
        m2[q + k] == m[ptr + k],
{
    let copied = memory::put_copy(
        m,
        ptr as int,
        q as int,
        allocator::smaller(old_layout.spec_size(), new_size as int),
    );
    assert(m.dom().contains(q + k));
    assert(copied[q + k] == m[ptr + k]);
    old_layout.lemma_bounds();
    if allocator::frees_small(h, old_layout, ptr) {
        let n = h.node_of(ptr as int);
        let d = size_class::class_of(old_layout.effective());
        let s = allocator::dealloc_touched(h, t, d, ptr);
        assert(seq![ptr][0] == ptr);
        assert forall|y: usize| #[trigger] s.contains(y) implies h.placed(n, d, y) && (y == ptr
            || t is Some && t->0.node == n && t->0.lists[d].contains(y)) by {
            if t is Some && t->0.node == n {
                lemma_concat_contains(seq![ptr], t->0.lists[d]);
                assert(t->0.class_ok(h, d));
            }
        }
        assert(copied.dom() =~= m.dom());
        if q + new_size <= h.base || h.lo(h.nodes) <= q {
            if freelist::in_links(s, q + k) {
                let a = choose|a: usize| #[trigger] s.contains(a) && a <= q + k < a + 8;
                heap_view::lemma_bags(d);
                heap_view::lemma_placed_inside(h, n, d, a);
            }
        } else {
            let (n2, c2) = choose|n2: int, c2: int| #[trigger]
                h.placed(n2, c2, q) && new_size <= size_class::class_size(c2) && (t matches Some(
                    v,
                ) ==> (v.node == n2 ==> v.lacks(c2, q))) && q != ptr;
            assert(!s.contains(q)) by {
                if s.contains(q) {
                    heap_view::lemma_placed_unique(h, n, d, n2, c2, q);
                }
            }
            assert forall|y: usize| #[trigger] s.contains(y) implies is_object(h, y) by {
                assert(h.placed(n, d, y));
            }
            lemma_other_objects(h, copied, m2, s, n2, c2, q, q + k);
        }
    }
}

/// A reallocation keeps every byte that lies within the old and within the new
/// size: in the memory that it returns, or, where it returns none or needs a fresh mapping, in the old
/// memory.
pub proof fn law_realloc_keeps_contents(
    h: HeapView,
    t: Option<ThreadView>,
    ptr: usize,
    old_layout: Layout,
    new_size: usize,
    page_size: int,
    m: Map<int, u8>,
    m2: Map<int, u8>,
    k: int,
)
    requires
        h.wf(),
        h.mapped(m),
        t matches Some(v) ==> v.wf(h) && thread_heap::mappings_ok(h, m, page_size, v.large),
        old_layout.wf(),
        0 < page_size <= isize::MAX,
        allocator::allocated(h, t, m, ptr, old_layout),
        allocator::realloc_memory(h, t, ptr, old_layout, new_size, page_size, m, m2),
        0 <= k < old_layout.spec_size(),
        k < new_size,
    ensures
        match allocator::realloc_step(h, t, ptr, old_layout, new_size, page_size, m).2 {
            ReallocStep::Moved { ptr: q, .. } => m2[q + k] == m[ptr + k],
            ReallocStep::Done(Some(q)) => q == ptr && m2[q + k] == m[ptr + k],
            _ => m2[ptr + k] == m[ptr + k],
        },
{
    old_layout.lemma_bounds();
    if !allocator::fits_in_place(h, ptr, old_layout, new_size) && layout::valid_layout(
        new_size as int,
        old_layout.spec_align(),
    ) {
        let layout = Layout::of(new_size, old_layout.spec_align() as usize);
        Layout::lemma_of(new_size, old_layout.spec_align() as usize);
        layout.lemma_bounds();
        let (h1, t1, s1) = allocator::alloc_step(h, t, layout, page_size);
        match s1 {
            AllocStep::Done(Some(q)) => {
                let mid = choose|mid: Map<int, u8>| #[trigger]
                    allocator::alloc_memory(h, t, layout, page_size, m, mid)
                        && allocator::moved_memory(
                        h1,
                        t1,
                        ptr,
                        old_layout,
                        q,
                        new_size,
                        mid,
                        m2,
                    );
                law_alloc_keeps_bytes(h, t, m, mid, layout, page_size, ptr, old_layout, ptr + k);
                allocator::lemma_alloc_apart(
                    h,
                    t,
                    m,
                    mid,
                    layout,
                    page_size,
                    ptr,
                    old_layout,
                );
                allocator::lemma_alloc_memory_dom(h, t, layout, page_size, m, mid);
                law_alloc_fits(h, t, m, layout, page_size);
                if allocator::served_small(h, t, layout) {
                    let v = t->0;
                    let c = size_class::class_of(layout.effective());
                    allocator::lemma_class_exists(layout.effective());
                    thread_heap::lemma_alloc_outcome(h, v, c);
                    lemma_alloc_moves(h, v, c);
                    assert(h1.placed(v.node, c, q) && new_size <= size_class::class_size(c));
                } else {
                    let v = t->0;
                    let size = large_object::large_extent(layout, page_size);
                    let i = large_cache::best(v.large, size)->0;
                    assert(large_cache::best_fit(v.large, i, size));
                    let e = v.large[i];
                    assert(thread_heap::mapping_ok(h, m, page_size, e));
                    large_object::lemma_payload(
                        e.original_ptr as int,
                        layout,
                        e.alloc_size as int,
                        page_size,
                    );
                    thread_heap::lemma_other_large(
                        h,
                        v,
                        large_cache::after_take(v.large, size),
                    );
                }
                law_move_keeps_contents(
                    h1,
                    t1,
                    ptr,
                    old_layout,
                    q,
                    new_size,
                    mid,
                    m2,
                    k,
                );
            },
            _ => {
                law_alloc_keeps_bytes(h, t, m, m2, layout, page_size, ptr, old_layout, ptr + k);
            },
        }
    }
}

// ---------------------------------------------------------------------------
// Reuse, limits and capacity
// ---------------------------------------------------------------------------
/// What a thread frees locally it gets back with its next allocation of the
/// class; if nothing had to be drained, all is then as it was before.
pub proof fn law_reuse(h: HeapView, t: ThreadView, c: int, p: usize)
    requires
        h.wf(),
        t.wf(h),
        0 <= c < NUM_SIZE_CLASSES,
    ensures
        ({
            let (h1, t1) = thread_heap::free_outcome(h, t, c, p);
            let (h2, t2, r) = thread_heap::alloc_outcome(h1, t1, c);
            &&& r == Some(p)
            &&& t.lists[c].len() < thread_heap::max_cache(c) ==> h2 == h && t2 == t
        }),
{
    heap_view::lemma_bags(c);
    let s = seq![p] + t.lists[c];
    let (h1, t1) = thread_heap::free_outcome(h, t, c, p);
    let (h2, t2, r) = thread_heap::alloc_outcome(h1, t1, c);
    assert(t1.lists[c].len() > 0);
    assert(t1.lists[c][0] == p);
    if s.len() <= thread_heap::max_cache(c) {
        assert(s.skip(1) =~= t.lists[c]);
        assert(t2.lists =~= t.lists);
        assert(t2.parked =~= t.parked);
    }
}

/// A local deallocation leaves at most the cache limit on the thread's list;
/// what is more goes to the node's stack.
pub proof fn law_cache_limit(h: HeapView, t: ThreadView, c: int, p: usize)
    requires
        h.wf(),
        t.wf(h),
        0 <= c < NUM_SIZE_CLASSES,
    ensures
        thread_heap::free_outcome(h, t, c, p).1.lists[c].len() <= thread_heap::max_cache(c),
        64 <= thread_heap::max_cache(c) <= 2048,
{
    heap_view::lemma_bags(c);
}

/// An object freed by a thread of another node, or without a heap, is on top
/// of its own node's stack, and no other stack has it.
pub proof fn law_origin_aware(h: HeapView, t: Option<ThreadView>, c: int, p: usize)
    requires
        h.wf(),
        t matches Some(v) ==> v.wf(h) && v.node != h.node_of(p as int),
        0 <= c < NUM_SIZE_CLASSES,
        allocator::is_live(h, t, c, p),
    ensures
        ({
            let n = h.node_of(p as int);
            let (h2, t2) = allocator::dealloc_outcome(h, t, c, p);
            &&& t2 == t
            &&& h2.stacks[n][c][0] == p
            &&& forall|k: int, d: int|
                0 <= k < h.nodes && 0 <= d < NUM_SIZE_CLASSES && #[trigger] h2.stacks[k][d].contains(
                    p,
                ) ==> k == n && d == c
        }),
{
    let n = h.node_of(p as int);
    let (h2, t2) = allocator::dealloc_outcome(h, t, c, p);
    assert forall|k: int, d: int|
        0 <= k < h.nodes && 0 <= d < NUM_SIZE_CLASSES && #[trigger] h2.stacks[k][d].contains(
            p,
        ) implies k == n && d == c by {
        if k != n || d != c {
            assert(h2.stacks[k][d] == h.stacks[k][d]);
            assert(h.stacks[k][d].contains(p));
            heap_view::lemma_placed_unique(h, n, c, k, d, p);
        }
    }
}

/// A region from which `k` bags of class `c` and nothing else were carved has
/// room for another exactly if `k + 1` bags fit: its capacity is the region
/// size divided by the bag size, wherever the region lies.
pub proof fn law_region_capacity(h: HeapView, n: int, c: int, k: int)
    requires
        h.wf(),
        0 <= n < h.nodes,
        0 <= c < NUM_SIZE_CLASSES,
        0 <= k,
        h.used[n] == k * size_class::class_bag(c),
    ensures
        h.can_carve(n, c) <==> k < h.region / size_class::class_bag(c),
        h.can_carve(n, c) ==> h.with_bag(n, c).used[n] == (k + 1) * size_class::class_bag(c),
{
    let bag = size_class::class_bag(c);
    heap_view::lemma_bags(c);
    heap_view::lemma_bag_divides(c);
    heap_view::lemma_bag_at(h, n, c);
    heap_view::lemma_region_aligned(h, n);
    heap_view::lemma_divides(h.lo(n), 262144, bag);
    heap_view::lemma_quotient(k * bag, bag, k);
    heap_view::lemma_multiples(h.lo(n), k * bag, bag);
    // The next bag follows immediately: what was carved ends at a multiple.
    let x = h.lo(n) + k * bag;
    heap_view::lemma_align_up(x, bag);
    let y = heap_view::align_up(x, bag);
    heap_view::lemma_multiples(y, x, bag);
    if y != x {
        vstd::arithmetic::div_mod::lemma_small_mod((y - x) as nat, bag as nat);
    }
    assert(h.bag_at(n, c) == x);
    vstd::arithmetic::div_mod::lemma_fundamental_div_mod(h.region, bag);
    vstd::arithmetic::div_mod::lemma_mod_bound(h.region, bag);
    let q = h.region / bag;
    assert((k + 1) * bag == k * bag + bag) by (nonlinear_arith);
    assert((k + 1) * bag <= h.region <==> k < q) by (nonlinear_arith)
        requires
            bag > 0,
            h.region == bag * q + h.region % bag,
            0 <= h.region % bag < bag,
    ;
}

// ---------------------------------------------------------------------------
// Large objects
// ---------------------------------------------------------------------------
/// The payload of a mapping of the computed size is aligned as requested and
/// fits behind its header.
pub proof fn law_large_payload(raw: int, layout: Layout, page_size: int)
    requires
        layout.wf(),
        0 < page_size,
    ensures
        ({
            let size = large_object::large_extent(layout, page_size);
            let p = large_object::payload_at(raw, layout);
            &&& raw + 16 <= p
            &&& p + layout.spec_size() <= raw + size
            &&& p % layout.spec_align() == 0
            &&& size % page_size == 0
        }),
{
    large_object::lemma_payload(
        raw,
        layout,
        large_object::large_extent(layout, page_size),
        page_size,
    );
    heap_view::lemma_align_up(
        16 + (large_object::payload_align(layout.spec_align()) - 1) + layout.spec_size(),
        page_size,
    );
}

/// A large object in a fresh zero-filled mapping is zero-filled.
pub proof fn law_fresh_is_zero(
    m: Map<int, u8>,
    raw: usize,
    layout: Layout,
    page_size: int,
    x: int,
)
    requires
        layout.wf(),
        0 < page_size,
        memory::range_mapped(m, raw as int, large_object::large_extent(layout, page_size)),
        forall|i: int|
            raw <= i < raw + large_object::large_extent(layout, page_size) ==> #[trigger] m[i]
                == 0,
        large_object::payload_at(raw as int, layout) <= x < large_object::payload_at(
            raw as int,
            layout,
        ) + layout.spec_size(),
    ensures
        large_object::with_header(
            m,
            large_object::payload_at(raw as int, layout),
            LargeHeader {
                original_ptr: raw,
                alloc_size: large_object::large_extent(layout, page_size) as usize,
            },
        )[x] == 0,
{
    let p = large_object::payload_at(raw as int, layout);
    law_large_payload(raw as int, layout, page_size);
    assert(memory::range_mapped(m, p - 16, 16));
    large_object::lemma_with_header(
        m,
        p,
        LargeHeader {
            original_ptr: raw,
            alloc_size: large_object::large_extent(layout, page_size) as usize,
        },
    );
    assert(m.dom().contains(x));
}

/// A deallocation finds the whole mapping of a large object again, whatever
/// was done to the payload.
pub proof fn law_mapping_found_again(
    m: Map<int, u8>,
    payload: int,
    header: LargeHeader,
    m2: Map<int, u8>,
)
    requires
        memory::range_mapped(m, payload - 16, 16),
        forall|i: int|
            payload - 16 <= i < payload ==> #[trigger] m2[i] == large_object::with_header(
                m,
                payload,
                header,
            )[i],
    ensures
        large_object::header_at(m2, payload) == header,
{
    let n = large_object::with_header(m, payload, header);
    large_object::lemma_with_header(m, payload, header);
    memory::lemma_word_agree(n, m2, payload - 16);
    memory::lemma_word_agree(n, m2, payload - 8);
}

/// Releasing a mapping step by step: each eviction brings the cache closer to
/// what is left in the end, and at the end the mapping is stored behind that,
/// or refused because it alone is too large.
pub proof fn law_release_steps(large: Seq<LargeCacheEntry>, e: LargeCacheEntry)
    ensures
        ({
            let (next, step) = allocator::release_step(large, e);
            let rest = large_cache::after_evictions(large, e.alloc_size as int);
            match step {
                ReleaseStep::Evict(x) => {
                    &&& x == large[0]
                    &&& next.len() < large.len()
                    &&& large_cache::after_evictions(next, e.alloc_size as int) == rest
                },
                ReleaseStep::Unmap => next == rest && e.alloc_size
                    > large_cache::MAX_LARGE_CACHE_BYTES && rest.len() == 0,
                ReleaseStep::Advise => next == rest.push(e) && e.alloc_size
                    > large_cache::MADVISE_THRESHOLD,
                ReleaseStep::Kept => next == rest.push(e) && e.alloc_size
                    <= large_cache::MADVISE_THRESHOLD,
            }
        }),
{
    large_cache::lemma_total_nonneg(large);
}

/// Among the first `n` entries that can serve a request, if there are any, one
/// comes before all others.
proof fn lemma_best_among(s: Seq<LargeCacheEntry>, size: int, n: int) -> (b: int)
    requires
        0 <= n <= s.len(),
        exists|j: int| j < n && #[trigger] large_cache::serves(s, j, size),
    ensures
        b < n,
        large_cache::serves(s, b, size),
        forall|j: int| #[trigger]
            large_cache::serves(s, j, size) && j < n ==> s[b].alloc_size < s[j].alloc_size || (
            s[b].alloc_size == s[j].alloc_size && b <= j),
    decreases n,
{
    if exists|j: int| j < n - 1 && #[trigger] large_cache::serves(s, j, size) {
        let b = lemma_best_among(s, size, n - 1);
        if large_cache::serves(s, n - 1, size) && s[n - 1].alloc_size < s[b].alloc_size {
            n - 1
        } else {
            b
        }
    } else {
        n - 1
    }
}

/// A request is served from the cache if and only if a cached mapping is large
/// enough and wastes at most 8 KiB, and then by one that wastes least; so a
/// mapping of exactly the requested size is always preferred.
pub proof fn law_cache_reuse(s: Seq<LargeCacheEntry>, size: int)
    ensures
        large_cache::taken(s, size) is Some <==> exists|i: int|
            #[trigger] large_cache::serves(s, i, size),
        large_cache::taken(s, size) matches Some(e) ==> size <= e.alloc_size <= size
            + large_cache::CLOSE_SIZE_TOLERANCE && forall|i: int| #[trigger]
            large_cache::serves(s, i, size) ==> e.alloc_size <= s[i].alloc_size,
        (exists|i: int| 0 <= i < s.len() && (#[trigger] s[i]).alloc_size == size)
            ==> large_cache::taken(s, size) is Some && large_cache::taken(s, size)->0.alloc_size
            == size,
{
    if exists|i: int| #[trigger] large_cache::serves(s, i, size) {
        let b = lemma_best_among(s, size, s.len() as int);
        assert(large_cache::best_fit(s, b, size));
    }
    if exists|i: int| 0 <= i < s.len() && (#[trigger] s[i]).alloc_size == size {
        let i = choose|i: int| 0 <= i < s.len() && (#[trigger] s[i]).alloc_size == size;
        assert(large_cache::serves(s, i, size));
    }
}

/// Evictions take the oldest mappings, and no more than must go.
pub proof fn law_evicts_oldest(s: Seq<LargeCacheEntry>, size: int)
    requires
        size >= 0,
    ensures
        exists|k: int|
            #![trigger s.skip(k)]
            0 <= k <= s.len() && large_cache::after_evictions(s, size) == s.skip(k) && (k > 0
                ==> large_cache::must_evict(s.skip(k - 1), size)),
        !large_cache::must_evict(large_cache::after_evictions(s, size), size),
    decreases s.len(),
{
    if large_cache::must_evict(s, size) {
        let t = s.drop_first();
        law_evicts_oldest(t, size);
        let k = choose|k: int|
            #![trigger t.skip(k)]
            0 <= k <= t.len() && large_cache::after_evictions(t, size) == t.skip(k) && (k > 0
                ==> large_cache::must_evict(t.skip(k - 1), size));
        assert(t.skip(k) =~= s.skip(k + 1));
        if k > 0 {
            assert(t.skip(k - 1) =~= s.skip(k));
        } else {
            assert(s.skip(0) =~= s);
        }
    } else {
        assert(s.skip(0) =~= s);
    }
}

/// A bounded request never fails: whatever the state of the heap and of the
/// thread, one whose header, padding and payload fit into the address space
/// gets an object, a cached mapping, or a fresh one.
pub proof fn law_bounded_requests_succeed(
    h: HeapView,
    t: Option<ThreadView>,
    layout: Layout,
    page_size: int,
)
    requires
        layout.wf(),
        0 < page_size,
        layout.spec_size() + layout.spec_align() + page_size + 32 <= isize::MAX,
    ensures
        allocator::alloc_step(h, t, layout, page_size).2 != AllocStep::Done(None),
        allocator::alloc_step(h, t, layout, page_size).2 matches AllocStep::MapFresh { size, .. }
            ==> size == large_object::large_extent(layout, page_size) && size <= isize::MAX,
{
    layout.lemma_bounds();
    heap_view::lemma_align_up(
        large_object::HEADER_SIZE + (large_object::payload_align(layout.spec_align()) - 1)
            + layout.spec_size(),
        page_size,
    );
}

/// When a node's region has no room for another bag and nothing is free, a
/// small request is served like a large one, and the heap stays as it is.
pub proof fn law_exhaustion_falls_back(
    h: HeapView,
    t: ThreadView,
    layout: Layout,
    page_size: int,
)
    requires
        layout.wf(),
        layout.effective() <= size_class::SMALL_LIMIT,
        ({
            let c = size_class::class_of(layout.effective());
            &&& t.lists[c].len() == 0
            &&& t.parked[c].len() == 0
            &&& h.stacks[t.node][c].len() == 0
            &&& !h.can_carve(t.node, c)
        }),
    ensures
        ({
            let (h2, t2, step) = allocator::alloc_step(h, Some(t), layout, page_size);
            &&& h2 == h
            &&& (t2, step) == allocator::large_step(Some(t), layout, page_size)
        }),
{
}

} // verus!
