//! What every call does, in plain numbers.
//!
//! The laws here speak of addresses, sizes and lists directly: the class of a
//! request is a power of two, a bag is 32 KiB or one object, a region is a range
//! of addresses.
use crate::allocator::{self, AllocStep, NumaAlloc, ReallocStep, ReleaseStep};
use crate::cpulist;
use crate::freelist;
use crate::fuzz;
use crate::heap;
use crate::heap_view::{self, HeapView};
use crate::large_cache::{self, LargeCacheEntry};
use crate::large_object::{self, LargeHeader};
use crate::laws;
use crate::layout::{self, Layout};
use crate::memory;
use crate::ops;
use crate::size_class;
use crate::thread_heap::{self, ThreadView};
use vstd::arithmetic::power2::{self, pow2};
use vstd::prelude::*;

verus! {

// ---------------------------------------------------------------------------
// Size classes
// ---------------------------------------------------------------------------
/// Class `c` holds objects of `8 << c` bytes; its bags are one object, or 32 KiB
/// if that is more, and full of objects.
pub proof fn law_classes(c: int)
    requires
        0 <= c < 16,
    ensures
        size_class::class_size(c) == pow2((c + 3) as nat),
        size_class::class_bag(c) >= 32768,
        size_class::class_bag(c) >= pow2((c + 3) as nat),
        size_class::class_bag(c) == 32768 || size_class::class_bag(c) == pow2((c + 3) as nat),
        size_class::class_count(c) * pow2((c + 3) as nat) == size_class::class_bag(c),
{
    power2::lemma2_to64();
    size_class::lemma_class_sizes();
    heap_view::lemma_bags(c);
}

/// The class of a request is the smallest that holds it: twice as large as the
/// request at most.
pub proof fn law_class_of(size: int, c: int)
    requires
        size >= 1,
    ensures
        size_class::is_class_of(size, c) <==> 0 <= c < 16 && size <= pow2((c + 3) as nat) && (c
            == 0 || pow2((c + 2) as nat) < size),
        size_class::is_class_of(size, c) && size > 4 ==> pow2((c + 3) as nat) < 2 * size,
        size <= 262144 <==> exists|d: int| size_class::is_class_of(size, d),
{
    power2::lemma2_to64();
    size_class::lemma_class_sizes();
    if 0 <= c < 16 {
        law_classes(c);
        if c > 0 {
            law_classes(c - 1);
            power2::lemma_pow2_unfold((c + 3) as nat);
        }
    }
    if size <= 262144 {
        allocator::lemma_class_exists(size);
    }
}

/// The request is one of class `c`: size and alignment fit an object of it, and
/// not both fit one of the class below.
pub open spec fn asks_for(layout: Layout, c: int) -> bool {
    &&& 0 <= c < 16
    &&& layout.spec_size() <= pow2((c + 3) as nat)
    &&& layout.spec_align() <= pow2((c + 3) as nat)
    &&& c == 0 || pow2((c + 2) as nat) < layout.spec_size() || pow2((c + 2) as nat)
        < layout.spec_align()
}

/// Requests of up to 256 KiB have a class, and only one.
pub proof fn law_request_class(layout: Layout, c: int)
    requires
        layout.wf(),
        asks_for(layout, c),
    ensures
        layout.spec_size() <= 262144,
        layout.spec_align() <= 262144,
        size_class::class_of(layout.effective()) == c,
{
    power2::lemma2_to64();
    layout.lemma_bounds();
    law_classes(c);
    size_class::lemma_class_sizes();
    if c > 0 {
        law_classes(c - 1);
    }
    size_class::lemma_class_of(layout.effective(), c);
}

/// Every request of up to 256 KiB has a class.
pub proof fn law_small_requests(layout: Layout)
    requires
        layout.wf(),
        layout.spec_size() <= 262144,
        layout.spec_align() <= 262144,
    ensures
        exists|c: int| asks_for(layout, c),
{
    power2::lemma2_to64();
    layout.lemma_bounds();
    allocator::lemma_class_exists(layout.effective());
    let c = size_class::class_of(layout.effective());
    law_class_of(layout.effective(), c);
    assert(asks_for(layout, c));
}

// ---------------------------------------------------------------------------
// Regions
// ---------------------------------------------------------------------------
/// The regions follow each other from the base; an address belongs to the node
/// whose region it lies in.
pub proof fn law_regions(h: HeapView, addr: int, n: int)
    requires
        h.shape_ok(),
        0 <= n,
    ensures
        h.lo(n) == h.base + n * h.region,
        h.owns(addr) <==> h.base <= addr && addr < h.base + h.nodes * h.region,
        h.base + n * h.region <= addr < h.base + (n + 1) * h.region <==> h.node_of(addr) == n
            && h.base <= addr,
{
    let x = addr - h.base;
    let r = h.region;
    vstd::arithmetic::div_mod::lemma_fundamental_div_mod(x, r);
    vstd::arithmetic::div_mod::lemma_mod_bound(x, r);
    let q = x / r;
    assert((n + 1) * r == n * r + r) by (nonlinear_arith);
    assert(n * r >= 0) by (nonlinear_arith)
        requires
            n >= 0,
            r > 0,
    ;
    assert(n * r <= x < n * r + r <==> q == n) by (nonlinear_arith)
        requires
            x == r * q + x % r,
            0 <= x % r < r,
            r > 0,
    ;
}

/// There is room at node `n` for a bag of class `c` at `a`: behind all that was
/// carved, at a multiple of its size, inside the region.
pub open spec fn has_room(h: HeapView, n: int, c: int, a: int) -> bool {
    let bag = if pow2((c + 3) as nat) > 32768 {
        pow2((c + 3) as nat) as int
    } else {
        32768
    };
    &&& h.base + n * h.region + h.used[n] <= a
    &&& a % bag == 0
    &&& a + bag <= h.base + n * h.region + h.region
}

/// A bag can be carved whenever there is room for one, at the first place where
/// there is, and takes exactly its size.
pub proof fn law_carving(h: HeapView, n: int, c: int)
    requires
        h.wf(),
        0 <= n < h.nodes,
        0 <= c < 16,
    ensures
        ({
            let bag = if pow2((c + 3) as nat) > 32768 {
                pow2((c + 3) as nat) as int
            } else {
                32768
            };
            let at = h.bag_at(n, c);
            &&& h.can_carve(n, c) <==> exists|a: int| has_room(h, n, c, a)
            &&& h.can_carve(n, c) ==> has_room(h, n, c, at)
            &&& forall|a: int| #[trigger] has_room(h, n, c, a) ==> at <= a
            &&& h.with_bag(n, c).used == h.used.update(n, at + bag - (h.base + n * h.region))
            &&& h.with_bag(n, c).stacks == h.stacks
            &&& forall|k: int| k != n && 0 <= k < 8 ==> #[trigger] h.with_bag(n, c).owners[k]
                == h.owners[k]
        }),
{
    law_classes(c);
    power2::lemma2_to64();
    heap_view::lemma_bag_at(h, n, c);
    let bag = size_class::class_bag(c);
    let at = h.bag_at(n, c);
    heap_view::lemma_align_up(h.lo(n) + h.used[n], bag);
    assert forall|a: int| #[trigger] has_room(h, n, c, a) implies at <= a by {
        if a < at {
            heap_view::lemma_multiples(at, a, bag);
            vstd::arithmetic::div_mod::lemma_small_mod((at - a) as nat, bag as nat);
        }
    }
    if h.can_carve(n, c) {
        assert(has_room(h, n, c, at));
    }
    size_class::lemma_class_sizes();
}

/// The objects of a bag fill it, the last one first.
pub proof fn law_bag_blocks(bag: int, c: int, i: int)
    requires
        0 <= c < 16,
        0 <= bag,
        bag + size_class::class_bag(c) <= usize::MAX,
        0 <= i < heap_view::bag_blocks(bag, c).len(),
    ensures
        ({
            let s = heap_view::bag_blocks(bag, c);
            let size = pow2((c + 3) as nat) as int;
            &&& s.len() * size == (if size > 32768 {
                size
            } else {
                32768
            })
            &&& s[i] == bag + (s.len() - 1 - i) * size
            &&& s.last() == bag
        }),
{
    law_classes(c);
    power2::lemma2_to64();
    heap_view::lemma_bags(c);
    let n = size_class::class_count(c);
    let size = size_class::class_size(c);
    assert(0 <= (n - 1 - i) * size <= n * size) by (nonlinear_arith)
        requires
            0 <= i < n,
            size > 0,
    ;
    assert((n - 1 - (n - 1)) * size == 0) by (nonlinear_arith);
    size_class::lemma_class_sizes();
}

// ---------------------------------------------------------------------------
// Allocation
// ---------------------------------------------------------------------------
/// Small requests stay in the regions: as long as the thread's list, its spare
/// chain or its node's stack of the class has a block, or the node's region has
/// room for a bag, a request of up to 256 KiB gets memory in the region of the
/// thread's own node.
pub proof fn law_small_stays(h: HeapView, t: ThreadView, layout: Layout, page_size: int, c: int)
    requires
        h.wf(),
        t.wf(h),
        layout.wf(),
        asks_for(layout, c),
        0 < page_size <= isize::MAX,
        ({
            ||| t.lists[c].len() > 0
            ||| t.parked[c].len() > 0
            ||| h.stacks[t.node][c].len() > 0
            ||| exists|a: int| has_room(h, t.node, c, a)
        }),
    ensures
        allocator::alloc_step(h, Some(t), layout, page_size).2 matches AllocStep::Done(Some(p))
            && h.base + t.node * h.region <= p && p + pow2((c + 3) as nat) <= h.base + t.node
            * h.region + h.region && p as int % (pow2((c + 3) as nat) as int) == 0,
        allocator::alloc_step(h, Some(t), layout, page_size).1 matches Some(t2) && t2.node
            == t.node && t2.heap == t.heap && t2.large == t.large,
{
    law_request_class(layout, c);
    law_classes(c);
    law_carving(h, t.node, c);
    let (h2, t2, r) = thread_heap::alloc_outcome(h, t, c);
    thread_heap::lemma_alloc_outcome(h, t, c);
    laws::lemma_alloc_moves(h, t, c);
    assert(r is Some);
    heap_view::lemma_placed_inside(h2, t.node, c, r->0);
}

/// Requests that no free block and no room can serve, or that ask for more than
/// 256 KiB, leave the heap and the thread's lists alone and get a mapping.
pub proof fn law_others_get_mappings(
    h: HeapView,
    t: Option<ThreadView>,
    layout: Layout,
    page_size: int,
)
    requires
        h.wf(),
        t matches Some(v) ==> v.wf(h),
        layout.wf(),
        0 < page_size <= isize::MAX,
        layout.spec_size() > 262144 || layout.spec_align() > 262144 || t is None || forall|c: int|
            #[trigger]
            asks_for(layout, c) ==> {
                let v = t->0;
                &&& v.lists[c].len() == 0
                &&& v.parked[c].len() == 0
                &&& h.stacks[v.node][c].len() == 0
                &&& forall|a: int| !#[trigger] has_room(h, v.node, c, a)
            },
    ensures
        ({
            let (h2, t2, step) = allocator::alloc_step(h, t, layout, page_size);
            &&& h2 == h
            &&& (t2, step) == allocator::large_step(t, layout, page_size)
            &&& t is Some ==> t2 is Some && t2->0 == (ThreadView { large: t2->0.large, ..t->0 })
            &&& t is None ==> t2 is None && !(step matches AllocStep::Done(Some(_)))
        }),
{
    layout.lemma_bounds();
    if t is Some && layout.effective() <= 262144 {
        let v = t->0;
        law_small_requests(layout);
        let c = choose|c: int| asks_for(layout, c);
        law_request_class(layout, c);
        law_carving(h, v.node, c);
    }
}

/// What an allocation takes: the first block of the thread's list; else of its
/// spare chain, or of its node's stack, of which 64 blocks come onto the list
/// and the others are kept as the spare chain; else of a new bag.  Nothing else
/// moves.
pub proof fn law_allocation_order(h: HeapView, t: ThreadView, c: int)
    requires
        h.wf(),
        t.wf(h),
        0 <= c < 16,
    ensures
        ({
            let n = t.node;
            let (h2, t2, r) = thread_heap::alloc_outcome(h, t, c);
            let rest = t2.lists[c] + t2.parked[c];
            let stack = h.stacks[n][c];
            &&& t2 == (ThreadView { lists: t2.lists, parked: t2.parked, ..t })
            &&& h2 == (HeapView { used: h2.used, owners: h2.owners, stacks: h2.stacks, ..h })
            &&& forall|d: int|
                d != c && 0 <= d < 16 ==> #[trigger] t2.lists[d] == t.lists[d] && t2.parked[d]
                    == t.parked[d]
            &&& forall|k: int, d: int|
                (k != n || d != c) && 0 <= k < 8 && 0 <= d < 16 ==> #[trigger] h2.stacks[k][d]
                    == h.stacks[k][d]
            &&& forall|k: int| k != n && 0 <= k < 8 ==> #[trigger] h2.used[k] == h.used[k]
            &&& if t.lists[c].len() > 0 {
                &&& r == Some(t.lists[c][0])
                &&& t.lists[c] == seq![t.lists[c][0]] + t2.lists[c]
                &&& t2.parked[c] == t.parked[c]
                &&& h2 == h
            } else if t.parked[c].len() > 0 {
                &&& r == Some(t.parked[c][0])
                &&& t.parked[c] == seq![t.parked[c][0]] + rest
                &&& t2.lists[c].len() <= 63
                &&& t2.parked[c].len() > 0 ==> t2.lists[c].len() == 63
                &&& h2 == h
            } else if stack.len() > 0 {
                &&& r == Some(stack[0])
                &&& stack == seq![stack[0]] + rest
                &&& t2.lists[c].len() <= 63
                &&& t2.parked[c].len() > 0 ==> t2.lists[c].len() == 63
                &&& h2.stacks[n][c].len() == 0
                &&& h2.used == h.used
            } else {
                &&& t2.parked[c] == t.parked[c]
                &&& h2.stacks == h.stacks
                &&& r is None ==> h2 == h && t2 == t
                &&& r is Some ==> h2.used[n] > h.used[n] && seq![r->0] + t2.lists[c]
                    == heap_view::bag_blocks(
                    h2.used[n] + h.base + n * h.region - size_class::class_bag(c),
                    c,
                )
            }
        }),
{
    let n = t.node;
    let (h2, t2, r) = thread_heap::alloc_outcome(h, t, c);
    let rest = t2.lists[c] + t2.parked[c];
    let s = if t.lists[c].len() > 0 {
        t.lists[c]
    } else if t.parked[c].len() > 0 {
        t.parked[c]
    } else if h.stacks[n][c].len() > 0 {
        h.stacks[n][c]
    } else {
        heap_view::bag_blocks(h.bag_at(n, c), c)
    };
    heap_view::lemma_bags(c);
    heap_view::lemma_bag_at(h, n, c);
    if t.lists[c].len() > 0 {
        assert(s =~= seq![s[0]] + t2.lists[c]);
    } else if t.parked[c].len() > 0 || h.stacks[n][c].len() > 0 {
        assert(s =~= seq![s[0]] + rest);
    } else if r is Some {
        assert(s =~= seq![s[0]] + t2.lists[c]);
    }
}

/// What an allocation in a mapping asks for: whole pages, the fewest that hold a
/// header of 16 bytes, the padding to the alignment and the payload; on the
/// thread's own node, and on node 0 for a thread that has exited.
pub proof fn law_fresh_mapping(h: HeapView, t: Option<ThreadView>, layout: Layout, page_size: int)
    requires
        h.wf(),
        t matches Some(v) ==> v.wf(h),
        layout.wf(),
        0 < page_size <= isize::MAX,
    ensures
        allocator::alloc_step(h, t, layout, page_size).2 matches AllocStep::MapFresh { size, node }
            ==> {
            let align = if layout.spec_align() < 8 {
                8
            } else {
                layout.spec_align()
            };
            let needed = 16 + (align - 1) + layout.spec_size();
            &&& t matches Some(v) ==> node == v.node
            &&& t is None ==> node == 0
            &&& size as int % page_size == 0
            &&& needed <= size < needed + page_size
            &&& t matches Some(v) ==> forall|i: int|
                0 <= i < v.large.len() ==> !(size <= (#[trigger] v.large[i]).alloc_size <= size
                    + 8192)
            &&& allocator::alloc_step(h, t, layout, page_size).0 == h
            &&& allocator::alloc_step(h, t, layout, page_size).1 == t
        },
{
    layout.lemma_bounds();
    let align = if layout.spec_align() < 8 {
        8
    } else {
        layout.spec_align()
    };
    heap_view::lemma_align_up(16 + (align - 1) + layout.spec_size(), page_size);
    if t is Some {
        let v = t->0;
        let size = large_object::large_extent(layout, page_size);
        law_cached_mapping(v.large, size);
    }
}

/// A reallocation that needs a fresh mapping asks for it like an allocation of
/// the new size with the old alignment.
pub proof fn law_realloc_fresh_mapping(
    h: HeapView,
    t: Option<ThreadView>,
    ptr: usize,
    old_layout: Layout,
    new_size: usize,
    page_size: int,
    m: Map<int, u8>,
)
    requires
        h.wf(),
        t matches Some(v) ==> v.wf(h),
        old_layout.wf(),
        0 < page_size <= isize::MAX,
    ensures
        allocator::realloc_step(
            h,
            t,
            ptr,
            old_layout,
            new_size,
            page_size,
            m,
        ).2 matches ReallocStep::MapFresh { size, node, layout } ==> {
            let align = if old_layout.spec_align() < 8 {
                8
            } else {
                old_layout.spec_align()
            };
            let needed = 16 + (align - 1) + new_size;
            &&& t matches Some(v) ==> node == v.node
            &&& t is None ==> node == 0
            &&& size as int % page_size == 0
            &&& needed <= size < needed + page_size
            &&& layout.wf()
            &&& layout.spec_size() == new_size
            &&& layout.spec_align() == old_layout.spec_align()
        },
{
    old_layout.lemma_bounds();
    if !allocator::fits_in_place(h, ptr, old_layout, new_size) && layout::valid_layout(
        new_size as int,
        old_layout.spec_align(),
    ) {
        let layout = Layout::of(new_size, old_layout.spec_align() as usize);
        Layout::lemma_of(new_size, old_layout.spec_align() as usize);
        law_fresh_mapping(h, t, layout, page_size);
    }
}

/// The payload of a large object is the first address behind the header that is
/// aligned as requested, and to 8.
pub proof fn law_payload(raw: int, layout: Layout, a: int)
    requires
        layout.wf(),
    ensures
        ({
            let p = large_object::payload_at(raw, layout);
            &&& raw + 16 <= p
            &&& p % layout.spec_align() == 0
            &&& p % 8 == 0
            &&& raw + 16 <= a && a % layout.spec_align() == 0 && a % 8 == 0 ==> p <= a
        }),
{
    let p = large_object::payload_at(raw, layout);
    let align = if layout.spec_align() < 8 {
        8
    } else {
        layout.spec_align()
    };
    layout.lemma_bounds();
    large_object::lemma_payload(raw, layout, large_object::large_extent(layout, 1), 1);
    heap_view::lemma_align_up(raw + 16, align);
    if raw + 16 <= a && a < p && a % align == 0 {
        heap_view::lemma_multiples(p, a, align);
        vstd::arithmetic::div_mod::lemma_small_mod((p - a) as nat, align as nat);
    }
}

// ---------------------------------------------------------------------------
// The cache of large mappings
// ---------------------------------------------------------------------------
/// A request for `size` bytes takes a cached mapping whenever there is one that
/// is large enough and at most 8 KiB larger: the smallest such, and of those the
/// oldest.  All others stay, in their order.
pub proof fn law_cached_mapping(s: Seq<LargeCacheEntry>, size: int)
    ensures
        large_cache::taken(s, size) is Some <==> exists|i: int|
            0 <= i < s.len() && size <= (#[trigger] s[i]).alloc_size <= size + 8192,
        large_cache::taken(s, size) is None ==> large_cache::after_take(s, size) == s,
        large_cache::taken(s, size) matches Some(e) ==> exists|i: int|
            {
                &&& 0 <= i < s.len()
                &&& #[trigger] s[i] == e
                &&& size <= e.alloc_size <= size + 8192
                &&& large_cache::after_take(s, size) == s.remove(i)
                &&& forall|j: int|
                    0 <= j < s.len() && size <= (#[trigger] s[j]).alloc_size <= size + 8192
                        ==> e.alloc_size < s[j].alloc_size || e.alloc_size == s[j].alloc_size && i
                        <= j
            },
{
    laws::law_cache_reuse(s, size);
    if exists|i: int| 0 <= i < s.len() && size <= (#[trigger] s[i]).alloc_size <= size + 8192 {
        let i = choose|i: int|
            0 <= i < s.len() && size <= (#[trigger] s[i]).alloc_size <= size + 8192;
        assert(large_cache::serves(s, i, size));
    }
    if large_cache::best(s, size) is Some {
        let i = large_cache::best(s, size)->0;
        assert(large_cache::best_fit(s, i, size));
        assert(large_cache::serves(s, i, size));
        assert forall|j: int|
            0 <= j < s.len() && size <= (#[trigger] s[j]).alloc_size <= size + 8192 implies
            s[i].alloc_size < s[j].alloc_size || s[i].alloc_size == s[j].alloc_size && i <= j by {
            assert(large_cache::serves(s, j, size));
        }
        assert(s[i] == large_cache::taken(s, size)->0);
    }
}

/// The bytes of a cache are those of all its mappings.
pub proof fn law_cached_bytes(s: Seq<LargeCacheEntry>, e: LargeCacheEntry)
    ensures
        large_cache::total_bytes(Seq::empty()) == 0,
        large_cache::total_bytes(s.push(e)) == large_cache::total_bytes(s) + e.alloc_size,
{
    assert(s.push(e).drop_last() =~= s);
}

/// What becomes of a freed mapping: while the cache has 1024 mappings, or would
/// have more than 512 MiB with it, the oldest one is evicted; then it is stored,
/// unless it alone has more than 512 MiB; and its pages are given back if it has
/// more than 512 KiB.
pub proof fn law_released_mapping(large: Seq<LargeCacheEntry>, e: LargeCacheEntry)
    ensures
        ({
            let (next, step) = allocator::release_step(large, e);
            let full = large.len() >= 1024 || large_cache::total_bytes(large) + e.alloc_size
                > 536870912;
            if large.len() > 0 && full {
                step == ReleaseStep::Evict(large[0]) && large == seq![large[0]] + next
            } else if e.alloc_size > 536870912 {
                step == ReleaseStep::Unmap && next == large
            } else if e.alloc_size > 524288 {
                step == ReleaseStep::Advise && next == large.push(e)
            } else {
                step == ReleaseStep::Kept && next == large.push(e)
            }
        }),
{
    let (next, step) = allocator::release_step(large, e);
    if step is Evict {
        assert(large =~= seq![large[0]] + next);
    }
    large_cache::lemma_total_nonneg(large);
}

// ---------------------------------------------------------------------------
// Deallocation
// ---------------------------------------------------------------------------
/// Memory is freed as an object of a class exactly if it was requested with at
/// most 256 KiB, in size and alignment, and lies in the regions.
pub proof fn law_frees_small(h: HeapView, layout: Layout, p: usize)
    ensures
        allocator::frees_small(h, layout, p) <==> layout.spec_size() <= 262144
            && layout.spec_align() <= 262144 && h.base <= p && p < h.base + h.nodes * h.region,
{
}

/// A freed object goes to the thread's list if the thread is on the object's
/// node, and on top of the stack of the object's node otherwise.  A list that
/// grows beyond its limit, two bags of objects but at least 64 and at most 2048,
/// keeps the first half of the limit; the others go on top of the node's stack.
/// Nothing else moves.
pub proof fn law_deallocation(h: HeapView, t: Option<ThreadView>, c: int, p: usize)
    requires
        h.wf(),
        t matches Some(v) ==> v.wf(h),
        0 <= c < 16,
        allocator::is_live(h, t, c, p),
    ensures
        ({
            let n = (p - h.base) / h.region;
            let (h2, t2) = allocator::dealloc_outcome(h, t, c, p);
            let twice = 2 * size_class::class_count(c);
            let limit = if twice < 64 {
                64
            } else if twice > 2048 {
                2048
            } else {
                twice
            };
            &&& h2 == (HeapView { stacks: h2.stacks, ..h })
            &&& forall|k: int, d: int|
                (k != n || d != c) && 0 <= k < 8 && 0 <= d < 16 ==> #[trigger] h2.stacks[k][d]
                    == h.stacks[k][d]
            &&& if t is Some && t->0.node == n {
                let v = t->0;
                let w = t2->0;
                let all = seq![p] + v.lists[c];
                &&& t2 is Some
                &&& w == (ThreadView { lists: w.lists, ..v })
                &&& forall|d: int| d != c && 0 <= d < 16 ==> #[trigger] w.lists[d] == v.lists[d]
                &&& if all.len() <= limit {
                    w.lists[c] == all && h2 == h
                } else {
                    &&& w.lists[c].len() == limit / 2
                    &&& w.lists[c] + h2.stacks[n][c] == all + h.stacks[n][c]
                }
            } else {
                t2 == t && h2.stacks[n][c] == seq![p] + h.stacks[n][c]
            }
        }),
{
    let n = h.node_of(p as int);
    let (h2, t2) = allocator::dealloc_outcome(h, t, c, p);
    heap_view::lemma_bags(c);
    if t is Some && t->0.node == n {
        let v = t->0;
        let w = t2->0;
        let all = seq![p] + v.lists[c];
        assert(w.parked =~= v.parked);
        if all.len() > thread_heap::max_cache(c) {
            assert(w.lists[c] + h2.stacks[n][c] =~= all + h.stacks[n][c]);
        }
    }
}

/// A thread that exits gives everything back: the blocks of its lists and spare
/// chains are on the stacks of its node, above what was there.  Nothing else
/// moves.
pub proof fn law_draining(h: HeapView, t: ThreadView, c: int)
    requires
        h.wf(),
        t.wf(h),
        0 <= c < 16,
    ensures
        ({
            let h2 = thread_heap::drain_outcome(h, t);
            &&& h2.stacks[t.node][c] == t.parked[c] + t.lists[c] + h.stacks[t.node][c]
            &&& forall|k: int| k != t.node && 0 <= k < 8 ==> #[trigger] h2.stacks[k] == h.stacks[k]
            &&& h2 == (HeapView { stacks: h2.stacks, ..h })
        }),
{
    let h2 = thread_heap::drain_outcome(h, t);
    assert(h2.stacks[t.node][c] =~= t.parked[c] + t.lists[c] + h.stacks[t.node][c]);
}

// ---------------------------------------------------------------------------
// Reallocation
// ---------------------------------------------------------------------------
/// An object of a class stays where it is exactly if the new size, with the
/// alignment, is of the same class.
pub proof fn law_stays_in_place(
    h: HeapView,
    t: Option<ThreadView>,
    ptr: usize,
    old_layout: Layout,
    new_size: usize,
    page_size: int,
    m: Map<int, u8>,
    c: int,
)
    requires
        h.wf(),
        old_layout.wf(),
        asks_for(old_layout, c),
        ptr != 0,
    ensures
        ({
            let size = pow2((c + 3) as nat);
            let half = pow2((c + 2) as nat);
            let (h2, t2, step) = allocator::realloc_step(
                h,
                t,
                ptr,
                old_layout,
                new_size,
                page_size,
                m,
            );
            let stays = {
                &&& h.base <= ptr
                &&& ptr < h.base + h.nodes * h.region
                &&& new_size <= size
                &&& c == 0 || half < new_size || half < old_layout.spec_align()
            };
            &&& stays ==> step == ReallocStep::Done(Some(ptr)) && h2 == h && t2 == t
            &&& !stays ==> !(step matches ReallocStep::Done(Some(_)))
        }),
{
    power2::lemma2_to64();
    old_layout.lemma_bounds();
    law_request_class(old_layout, c);
    law_classes(c);
    let new_effective = if new_size < old_layout.spec_align() {
        old_layout.spec_align()
    } else {
        new_size as int
    };
    if new_effective <= 262144 {
        allocator::lemma_class_exists(new_effective);
        let d = size_class::class_of(new_effective);
        law_class_of(new_effective, d);
        law_class_of(new_effective, c);
        if size_class::is_class_of(new_effective, c) {
            size_class::lemma_class_of(new_effective, c);
        }
    }
}

/// A large object, or one of more than 256 KiB to come, always moves.
pub proof fn law_large_moves(
    h: HeapView,
    t: Option<ThreadView>,
    ptr: usize,
    old_layout: Layout,
    new_size: usize,
    page_size: int,
    m: Map<int, u8>,
)
    requires
        old_layout.wf(),
        old_layout.spec_size() > 262144 || old_layout.spec_align() > 262144 || new_size > 262144
            || ptr < h.base || h.base + h.nodes * h.region <= ptr,
    ensures
        !(allocator::realloc_step(
            h,
            t,
            ptr,
            old_layout,
            new_size,
            page_size,
            m,
        ).2 matches ReallocStep::Done(Some(_))),
{
}

/// A reallocation to a size that fits the address space does not fail.
pub proof fn law_bounded_reallocs_succeed(
    h: HeapView,
    t: Option<ThreadView>,
    ptr: usize,
    old_layout: Layout,
    new_size: usize,
    page_size: int,
    m: Map<int, u8>,
)
    requires
        old_layout.wf(),
        0 < page_size,
        new_size + old_layout.spec_align() + page_size + 32 <= isize::MAX,
    ensures
        allocator::realloc_step(h, t, ptr, old_layout, new_size, page_size, m).2
            != ReallocStep::Done(None),
{
    old_layout.lemma_bounds();
    let layout = Layout::of(new_size, old_layout.spec_align() as usize);
    Layout::lemma_of(new_size, old_layout.spec_align() as usize);
    laws::law_bounded_requests_succeed(h, t, layout, page_size);
}

/// After a move the old memory is freed: an object of a class goes where
/// [`law_deallocation`] says, in the state that the new allocation left; the
/// mapping of a large object is released.
pub proof fn law_moves_free_the_old(
    h: HeapView,
    t: Option<ThreadView>,
    ptr: usize,
    old_layout: Layout,
    m: Map<int, u8>,
)
    ensures
        ({
            let (h2, t2, step) = allocator::moved_step(h, t, ptr, old_layout, m);
            if old_layout.spec_size() <= 262144 && old_layout.spec_align() <= 262144 && h.base
                <= ptr && ptr < h.base + h.nodes * h.region {
                &&& step == allocator::DeallocStep::Done
                &&& (h2, t2) == allocator::dealloc_outcome(
                    h,
                    t,
                    size_class::class_of(old_layout.effective()),
                    ptr,
                )
            } else {
                &&& step == allocator::DeallocStep::Release(
                    large_object::header_at(m, ptr as int),
                )
                &&& h2 == h
                &&& t2 == t
            }
        }),
{
}

// ---------------------------------------------------------------------------
// Setting up a heap
// ---------------------------------------------------------------------------
/// The number of nodes is the requested one, from 1 to 8; a region is the first
/// multiple of 256 KiB that holds the requested size, or the last for which all
/// regions and 256 KiB more fit in the address space.
pub proof fn law_dimensions(num_nodes: int, region_size: int)
    requires
        0 <= region_size,
    ensures
        ({
            let n = heap::heap_nodes(num_nodes);
            let r = heap::heap_region(num_nodes, region_size);
            &&& 1 <= n <= 8
            &&& 1 <= num_nodes <= 8 ==> n == num_nodes
            &&& num_nodes < 1 ==> n == 1
            &&& num_nodes > 8 ==> n == 8
            &&& r % 262144 == 0
            &&& r >= 262144
            &&& r >= region_size || n * (r + 262144) + 262144 > isize::MAX
            &&& r == 262144 || r < region_size + 262144
            &&& heap::heap_reserve(num_nodes, region_size) == n * r + 262144
            &&& n * r + 262144 <= isize::MAX
        }),
{
    heap::lemma_heap_region(num_nodes, region_size);
    heap::lemma_largest_region(heap::heap_nodes(num_nodes));
    heap_view::lemma_align_up(
        if region_size < 262144 {
            262144
        } else {
            region_size
        },
        262144,
    );
}

/// A new heap begins at the first multiple of 256 KiB of its mapping, and nothing
/// is carved or free.
pub proof fn law_new_heap(raw: int, num_nodes: int, region_size: int)
    requires
        0 <= raw,
    ensures
        ({
            let h = heap::fresh_heap(raw, num_nodes, region_size);
            &&& raw <= h.base < raw + 262144
            &&& h.base % 262144 == 0
            &&& h.nodes == heap::heap_nodes(num_nodes)
            &&& h.region == heap::heap_region(num_nodes, region_size)
            &&& h.base + h.nodes * h.region <= raw + heap::heap_reserve(num_nodes, region_size)
            &&& forall|n: int| 0 <= n < 8 ==> #[trigger] h.used[n] == 0
            &&& forall|n: int, c: int|
                0 <= n < 8 && 0 <= c < 16 ==> (#[trigger] h.stacks[n][c]).len() == 0
        }),
{
    heap_view::lemma_align_up(raw, 262144);
}

// ---------------------------------------------------------------------------
// Mappings from the cache, and limits
// ---------------------------------------------------------------------------
/// An allocation in a cached mapping returns the payload of the mapping that the
/// cache gave, and stores where it begins and how long it is in front of it.
pub proof fn law_cached_allocation(
    h: HeapView,
    t: ThreadView,
    layout: Layout,
    page_size: int,
    m: Map<int, u8>,
    m2: Map<int, u8>,
)
    requires
        h.wf(),
        h.mapped(m),
        t.wf(h),
        thread_heap::mappings_ok(h, m, page_size, t.large),
        layout.wf(),
        0 < page_size <= isize::MAX,
        layout.spec_size() > 262144 || layout.spec_align() > 262144,
        allocator::alloc_memory(h, Some(t), layout, page_size, m, m2),
    ensures
        ({
            let (h2, t2, step) = allocator::alloc_step(h, Some(t), layout, page_size);
            let extent = large_object::large_extent(layout, page_size);
            let fits = exists|i: int|
                0 <= i < t.large.len() && extent <= (#[trigger] t.large[i]).alloc_size <= extent
                    + 8192;
            &&& fits && extent <= isize::MAX ==> {
                let e = large_cache::taken(t.large, extent)->0;
                &&& step matches AllocStep::Done(Some(p))
                &&& p == large_object::payload_at(e.original_ptr as int, layout)
                &&& t.large.contains(e)
                &&& t2 == Some(ThreadView { large: large_cache::after_take(t.large, extent), ..t })
                &&& large_object::header_at(m2, p as int).original_ptr == e.original_ptr
                &&& large_object::header_at(m2, p as int).alloc_size == e.alloc_size
            }
            &&& !fits || extent > isize::MAX ==> !(step matches AllocStep::Done(Some(_))) && m2
                == m
            &&& extent > isize::MAX ==> step == AllocStep::Done(None)
        }),
{
    layout.lemma_bounds();
    let extent = large_object::large_extent(layout, page_size);
    law_cached_mapping(t.large, extent);
    if large_cache::taken(t.large, extent) is Some && extent <= isize::MAX {
        let i = large_cache::best(t.large, extent)->0;
        assert(large_cache::best_fit(t.large, i, extent));
        let e = t.large[i];
        assert(thread_heap::mapping_ok(h, m, page_size, e));
        assert(t.large.contains(e));
        large_object::lemma_payload(e.original_ptr as int, layout, e.alloc_size as int, page_size);
        let p = large_object::payload_at(e.original_ptr as int, layout);
        assert(memory::range_mapped(m, p - 16, 16));
        large_object::lemma_with_header(
            m,
            p,
            LargeHeader { original_ptr: e.original_ptr, alloc_size: e.alloc_size },
        );
    }
}

/// A reallocation that moves does so to what an allocation of the new size with
/// the old alignment returns in the same state.
pub proof fn law_realloc_is_an_allocation(
    h: HeapView,
    t: Option<ThreadView>,
    ptr: usize,
    old_layout: Layout,
    new_size: usize,
    page_size: int,
    m: Map<int, u8>,
    layout: Layout,
)
    requires
        old_layout.wf(),
        layout.wf(),
        layout.spec_size() == new_size,
        layout.spec_align() == old_layout.spec_align(),
    ensures
        match allocator::realloc_step(h, t, ptr, old_layout, new_size, page_size, m).2 {
            ReallocStep::Done(Some(q)) => q == ptr,
            ReallocStep::Done(None) => allocator::alloc_step(h, t, layout, page_size).2
                == AllocStep::Done(None),
            ReallocStep::Moved { ptr: q, .. } => allocator::alloc_step(h, t, layout, page_size).2
                == AllocStep::Done(Some(q)),
            ReallocStep::MapFresh { size, node, .. } => allocator::alloc_step(
                h,
                t,
                layout,
                page_size,
            ).2 == (AllocStep::MapFresh { size, node }),
        },
{
    old_layout.lemma_bounds();
    layout.lemma_parts();
}

/// The cache must evict exactly if it is full: it has 1024 mappings, or with the
/// new one it would have more than 512 MiB.
pub proof fn law_must_evict(s: Seq<LargeCacheEntry>, size: int)
    ensures
        large_cache::must_evict(s, size) <==> s.len() > 0 && (s.len() >= 1024
            || large_cache::total_bytes(s) + size > 536870912),
{
}

/// Most objects on a thread's list: 64 KiB of them, but at least 64 and at most
/// 2048.
pub proof fn law_cache_limits(c: int)
    requires
        0 <= c < 16,
    ensures
        c <= 2 ==> thread_heap::max_cache(c) == 2048,
        3 <= c <= 7 ==> thread_heap::max_cache(c) * pow2((c + 3) as nat) == 65536,
        c >= 7 ==> thread_heap::max_cache(c) == 64,
{
    power2::lemma2_to64();
    heap_view::lemma_counts();
    let limit = thread_heap::max_cache(c);
    let size = pow2((c + 3) as nat) as int;
    assert(limit * size == 65536 || !(3 <= c <= 7)) by (nonlinear_arith)
        requires
            3 <= c <= 7 ==> limit == 1024 && size == 64 || limit == 512 && size == 128 || limit
                == 256 && size == 256 || limit == 128 && size == 512 || limit == 64 && size
                == 1024,
    ;
}

/// Threads are assigned to the nodes in turn: each to the one after that of the
/// thread before it, the first to node 0.
pub proof fn law_round_robin(counter: usize, nodes: int)
    requires
        1 <= nodes <= 8,
    ensures
        allocator::turn(0, nodes) == 0,
        0 <= allocator::turn(counter, nodes) < nodes,
        counter < usize::MAX ==> allocator::turn(allocator::next_counter(counter) as usize, nodes) == (
        allocator::turn(counter, nodes) + 1) % nodes,
        counter < usize::MAX ==> allocator::next_counter(counter) == counter + 1,
        counter < nodes ==> allocator::turn(counter, nodes) == counter,
{
    vstd::arithmetic::div_mod::lemma_mod_bound(counter as int, nodes);
    vstd::arithmetic::div_mod::lemma_small_mod(0, nodes as nat);
    vstd::arithmetic::div_mod::lemma_add_mod_noop_right(1, counter as int, nodes);
    if counter < nodes {
        vstd::arithmetic::div_mod::lemma_small_mod(counter as nat, nodes as nat);
    }
}

/// A size and an alignment make a layout exactly if the alignment is a power of
/// two and the size, rounded up to it, does not exceed `isize::MAX`.
pub proof fn law_layouts(size: int, align: int)
    requires
        0 <= size,
    ensures
        layout::valid_layout(size, align) ==> align >= 1,
        layout::valid_layout(size, align) <==> (exists|k: nat| align == #[trigger] pow2(k)) && size
            <= isize::MAX - (align - 1),
{
    reveal(power2::is_pow2);
    if layout::valid_layout(size, align) {
        lemma_is_pow2(align);
    }
    if exists|k: nat| align == #[trigger] pow2(k) {
        let k = choose|k: nat| align == #[trigger] pow2(k);
        lemma_pow2_is(k);
    }
}

proof fn lemma_is_pow2(x: int)
    requires
        power2::is_pow2(x),
    ensures
        x >= 1,
        exists|k: nat| x == #[trigger] pow2(k),
    decreases x,
{
    reveal(power2::is_pow2);
    power2::lemma2_to64();
    if x > 1 {
        lemma_is_pow2(x / 2);
        let k = choose|k: nat| x / 2 == #[trigger] pow2(k);
        power2::lemma_pow2_unfold(k + 1);
        assert(x == pow2(k + 1));
    } else {
        assert(x == pow2(0));
    }
}

proof fn lemma_pow2_is(k: nat)
    ensures
        power2::is_pow2(pow2(k) as int),
    decreases k,
{
    reveal(power2::is_pow2);
    power2::lemma2_to64();
    if k > 0 {
        lemma_pow2_is((k - 1) as nat);
        power2::lemma_pow2_unfold(k);
        power2::lemma_pow2_pos((k - 1) as nat);
    }
}

/// Heads of stacks carry 16 bits of the number of changes: of any 65536 successive
/// states no two have the same word.
pub proof fn law_tags(old: Seq<Seq<usize>>, new: Seq<Seq<usize>>)
    requires
        old.len() > 0,
        old.len() < new.len() < old.len() + 65536,
        freelist::head_of(old.last()) matches Some(a) ==> a < 281474976710656,
        freelist::head_of(new.last()) matches Some(a) ==> a < 281474976710656,
    ensures
        freelist::head_word(old) != freelist::head_word(new),
        freelist::head_word(new) / 281474976710656 == (new.len() - 1) % 65536,
        freelist::head_word(new) % 281474976710656 == (if new.last().len() == 0 {
            0
        } else {
            new.last()[0] as int
        }),
{
}

/// The ends of a list, and what follows a block on it.
pub proof fn law_ends(s: Seq<usize>, i: int)
    requires
        0 <= i < s.len(),
    ensures
        freelist::head_of(s) == Some(s[0]),
        freelist::last_of(s) == Some(s[s.len() - 1]),
        freelist::succ(s, i) == (if i == s.len() - 1 {
            None
        } else {
            Some(s[i + 1])
        }),
        freelist::head_of(Seq::empty()) is None,
        freelist::last_of(Seq::empty()) is None,
{
}

/// The next bag of a region is at the first multiple of its size behind what was
/// handed out.
pub proof fn law_next_bag(region: heap::NodeRegion, offset: int, bag: int, a: int)
    requires
        bag > 0,
    ensures
        ({
            let at = region.start() + region.bag_after(offset, bag);
            &&& at % bag == 0
            &&& region.start() + offset <= at
            &&& region.start() + offset <= a && a % bag == 0 ==> at <= a
        }),
{
    heap_view::lemma_align_up(region.start() + offset, bag);
    let at = region.start() + region.bag_after(offset, bag);
    if region.start() + offset <= a && a % bag == 0 && a < at {
        heap_view::lemma_multiples(at, a, bag);
        vstd::arithmetic::div_mod::lemma_small_mod((at - a) as nat, bag as nat);
    }
}

/// Without an explicit topology the allocator has a node for each of the
/// machine's, and 128 MiB for each.
pub proof fn law_request(numa: NumaAlloc, detected: usize)
    ensures
        numa.topology().0 == 0 ==> numa.request(detected) == (detected, 134217728usize),
        numa.topology().0 != 0 ==> numa.request(detected) == numa.topology(),
{
}

/// The limits that the other laws do not name.
pub proof fn law_limits()
    ensures
        freelist::REFILL_BATCH == 64,
        freelist::ADDRESS_LIMIT == 281474976710656,
        freelist::TAGS == 65536,
        heap::MAX_NODES == 8,
        heap::MIN_REGION_SIZE == 262144,
        heap::DEFAULT_REGION_SIZE == 134217728,
        size_class::SMALL_LIMIT == 262144,
        size_class::BAG_SIZE == 32768,
        large_cache::LARGE_CACHE_SLOTS == 1024,
        large_cache::MAX_LARGE_CACHE_BYTES == 536870912,
        large_cache::MADVISE_THRESHOLD == 524288,
        large_cache::CLOSE_SIZE_TOLERANCE == 8192,
        large_object::HEADER_SIZE == 16,
        large_object::HEADER_ALIGN == 8,
        fuzz::SLOTS == 64,
        fuzz::ALLOC_BUDGET == 20000,
        fuzz::VALIDATE_BUDGET == 64,
        fuzz::MAX_WORKERS == 4,
        ops::MAX_OPS == 4096,
        ops::MAX_OP_SIZE == 8388608,
        ops::MAX_CHURN == 64,
        ops::PAGE == 4096,
        cpulist::CPU_SETSIZE == 1024,
        cpulist::CPULIST_BUFFER == 8192,
{
}

/// What stays as it is when only the heap's state changes: where the heap is
/// mapped, how many threads got a heap, the topology, and the shares.
pub proof fn law_books(a: NumaAlloc, b: NumaAlloc)
    ensures
        a.same_books(&b) <==> a.global().mapping_spec() == b.global().mapping_spec() && a.counter()
            == b.counter() && a.topology() == b.topology() && a.shares() == b.shares()
            && a.holds_share() == b.holds_share(),
        allocator::same_shape(a.state(), b.state()) <==> a.state().base == b.state().base
            && a.state().region == b.state().region && a.state().nodes == b.state().nodes,
{
}

/// A new thread has nothing cached.
pub proof fn law_new_thread(node: int, heap: int, c: int)
    requires
        0 <= c < 16,
    ensures
        ({
            let t = thread_heap::empty_thread(node, heap);
            &&& t.node == node
            &&& t.heap == heap
            &&& t.lists.len() == 16
            &&& t.parked.len() == 16
            &&& t.lists[c].len() == 0
            &&& t.parked[c].len() == 0
            &&& t.large.len() == 0
        }),
{
}

/// A cache counts its mappings and their bytes exactly, and keeps to its limits.
pub proof fn law_cache_books(cache: large_cache::LargeCache)
    requires
        cache.wf(),
    ensures
        cache@.len() == cache.slots(),
        cache@.len() <= 1024,
        large_cache::total_bytes(cache@) == cache.accounted(),
        large_cache::total_bytes(cache@) <= 536870912,
{
    cache.lemma_view();
}

/// A slot that is settled has a heap of this allocator's, or can never have one
/// again.
pub proof fn law_settled(slot: allocator::ThreadHeapSlot, h: HeapView)
    ensures
        slot.settled(h) <==> (slot.thread() matches Some(th) && th@.heap == h.base || slot.thread()
            is None && slot.is_destroyed()),
        slot.state() is Some <==> slot.thread() is Some,
        slot.thread() matches Some(th) ==> slot.state() == Some(th@),
{
}

} // verus!
