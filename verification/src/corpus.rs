//! Seed corpora: readable operation lists that reach every path of the
//! allocator.
use crate::fuzz::SLOTS;
use crate::ops::{self, FreeOrder, Op, MAX_CHURN, POWERS};
use crate::size_class::{self, SIZE_CLASSES, SMALL_LIMIT};
use vstd::arithmetic::power2::pow2;
use vstd::prelude::*;

verus! {

/// Header byte of the sequential seeds: 2 nodes, 512 KiB regions.
pub const SEED_HEADER: u8 = 5;

/// A named list of operations.
pub struct Seed {
    pub name: &'static str,
    pub ops: Vec<Op>,
}

/// A plain allocation.
pub open spec fn alloc_of(slot: usize, size: usize, align: usize) -> Op {
    Op::Alloc { slot, size, align, zeroed: false }
}

/// A plain allocation.
pub fn alloc_op(slot: usize, size: usize, align: usize) -> (op: Op)
    ensures
        op == alloc_of(slot, size, align),
{
    Op::Alloc { slot, size, align, zeroed: false }
}

// ---------------------------------------------------------------------------
// Sequential seeds
// ---------------------------------------------------------------------------
/// One object, allocated and freed.
pub open spec fn basic_ops() -> Seq<Op> {
    seq![
        alloc_of(0, 64, 8),
        Op::Free { slot: 0 },
    ]
}

fn basic_seed() -> (v: Vec<Op>)
    ensures
        v@ == basic_ops(),
{
    let v: Vec<Op> = vec![
        alloc_op(0, 64, 8),
        Op::Free { slot: 0 },
    ];
    assert(v@ =~= basic_ops());
    v
}

/// Two objects at a time.
pub open spec fn two_live_ops() -> Seq<Op> {
    seq![
        alloc_of(0, 64, 8),
        alloc_of(1, 64, 8),
        Op::CheckAll,
        Op::Free { slot: 0 },
        Op::Free { slot: 1 },
    ]
}

fn two_live_seed() -> (v: Vec<Op>)
    ensures
        v@ == two_live_ops(),
{
    let v: Vec<Op> = vec![
        alloc_op(0, 64, 8),
        alloc_op(1, 64, 8),
        Op::CheckAll,
        Op::Free { slot: 0 },
        Op::Free { slot: 1 },
    ];
    assert(v@ =~= two_live_ops());
    v
}

/// The same object again.
pub open spec fn free_realloc_same_ops() -> Seq<Op> {
    seq![
        alloc_of(0, 128, 8),
        Op::Free { slot: 0 },
        alloc_of(0, 128, 8),
        Op::Validate,
        Op::Free { slot: 0 },
    ]
}

fn free_realloc_same_seed() -> (v: Vec<Op>)
    ensures
        v@ == free_realloc_same_ops(),
{
    let v: Vec<Op> = vec![
        alloc_op(0, 128, 8),
        Op::Free { slot: 0 },
        alloc_op(0, 128, 8),
        Op::Validate,
        Op::Free { slot: 0 },
    ];
    assert(v@ =~= free_realloc_same_ops());
    v
}

/// One object of each class.
pub open spec fn all_classes_ops() -> Seq<Op> {
    Seq::new(16, |i: int| alloc_of(i as usize, SIZE_CLASSES@[i], 8)) + seq![
        Op::CheckAll,
        Op::Validate,
        Op::FreeAll { order: FreeOrder::Fifo },
    ]
}

fn all_classes_seed() -> (v: Vec<Op>)
    ensures
        v@ == all_classes_ops(),
{
    let mut v: Vec<Op> = Vec::new();
    let mut i: usize = 0;
    while i < 16
        invariant
            i <= 16,
            v@ == Seq::new(i as nat, |k: int| alloc_of(k as usize, SIZE_CLASSES@[k], 8)),
        decreases 16 - i,
    {
        v.push(alloc_op(i, SIZE_CLASSES[i], 8));
        i += 1;
    }
    v.push(Op::CheckAll);
    v.push(Op::Validate);
    v.push(Op::FreeAll { order: FreeOrder::Fifo });
    assert(v@ =~= all_classes_ops());
    v
}

/// Sizes around each class size.
pub open spec fn class_edges_ops() -> Seq<Op> {
    Seq::new(
        48,
        |k: int| alloc_of(k as usize, (SIZE_CLASSES@[k / 3] + k % 3 - 1) as usize, 8),
    ) + seq![Op::Validate, Op::FreeAll { order: FreeOrder::EverySecond }]
}

fn class_edges_seed() -> (v: Vec<Op>)
    ensures
        v@ == class_edges_ops(),
{
    let mut v: Vec<Op> = Vec::new();
    let mut i: usize = 0;
    while i < 16
        invariant
            i <= 16,
            v@ == Seq::new(
                (3 * i) as nat,
                |k: int| alloc_of(k as usize, (SIZE_CLASSES@[k / 3] + k % 3 - 1) as usize, 8),
            ),
        decreases 16 - i,
    {
        proof {
            size_class::lemma_class_sizes();
            assert(8 <= size_class::class_size(i as int) <= SMALL_LIMIT);
        }
        let c: usize = SIZE_CLASSES[i];
        v.push(alloc_op(3 * i % SLOTS, c - 1, 8));
        v.push(alloc_op((3 * i + 1) % SLOTS, c, 8));
        v.push(alloc_op((3 * i + 2) % SLOTS, c + 1, 8));
        i += 1;
    }
    v.push(Op::Validate);
    v.push(Op::FreeAll { order: FreeOrder::EverySecond });
    assert(v@ =~= class_edges_ops());
    v
}

/// Every alignment up to 4 MiB.
pub open spec fn mixed_aligns_ops() -> Seq<Op> {
    Seq::new(23, |i: int| alloc_of(i as usize, 24, POWERS@[i])) + seq![
        Op::CheckAll,
        Op::FreeAll { order: FreeOrder::Lifo },
    ]
}

fn mixed_aligns_seed() -> (v: Vec<Op>)
    ensures
        v@ == mixed_aligns_ops(),
{
    let mut v: Vec<Op> = Vec::new();
    let mut i: usize = 0;
    while i < 23
        invariant
            i <= 23,
            v@ == Seq::new(i as nat, |k: int| alloc_of(k as usize, 24, POWERS@[k])),
        decreases 23 - i,
    {
        v.push(alloc_op(i, 24, POWERS[i]));
        i += 1;
    }
    v.push(Op::CheckAll);
    v.push(Op::FreeAll { order: FreeOrder::Lifo });
    assert(v@ =~= mixed_aligns_ops());
    v
}

/// Holes that are filled with larger objects.
pub open spec fn fragmentation_ops() -> Seq<Op> {
    seq![Op::FillEmpty { size: 48, align: 8 }] + Seq::new(
        32,
        |i: int| Op::Free { slot: (2 * i) as usize },
    ) + Seq::new(32, |i: int| alloc_of((2 * i) as usize, 4096, 4096)) + seq![
        Op::Validate,
        Op::FreeAll { order: FreeOrder::Fifo },
    ]
}

fn fragmentation_seed() -> (v: Vec<Op>)
    ensures
        v@ == fragmentation_ops(),
{
    let mut v: Vec<Op> = Vec::new();
    v.push(Op::FillEmpty { size: 48, align: 8 });
    let mut i: usize = 0;
    while i < 32
        invariant
            i <= 32,
            v@ == seq![Op::FillEmpty { size: 48, align: 8 }] + Seq::new(
                i as nat,
                |k: int| Op::Free { slot: (2 * k) as usize },
            ),
        decreases 32 - i,
    {
        v.push(Op::Free { slot: 2 * i });
        i += 1;
    }
    let mut j: usize = 0;
    while j < 32
        invariant
            j <= 32,
            v@ == seq![Op::FillEmpty { size: 48, align: 8 }] + Seq::new(
                32,
                |k: int| Op::Free { slot: (2 * k) as usize },
            ) + Seq::new(j as nat, |k: int| alloc_of((2 * k) as usize, 4096, 4096)),
        decreases 32 - j,
    {
        v.push(alloc_op(2 * j, 4096, 4096));
        j += 1;
    }
    v.push(Op::Validate);
    v.push(Op::FreeAll { order: FreeOrder::Fifo });
    assert(v@ =~= fragmentation_ops());
    v
}

/// One object through all size ranges.
pub open spec fn grow_shrink_ops() -> Seq<Op> {
    seq![
        alloc_of(0, 8, 8),
        Op::Realloc { slot: 0, new_size: 9 },
        Op::Realloc { slot: 0, new_size: 4097 },
        Op::Realloc { slot: 0, new_size: SMALL_LIMIT },
        Op::Realloc { slot: 0, new_size: 262145 },
        Op::Realloc { slot: 0, new_size: 1048576 },
        Op::Realloc { slot: 0, new_size: 4095 },
        Op::Realloc { slot: 0, new_size: 1 },
        Op::Free { slot: 0 },
    ]
}

fn grow_shrink_seed() -> (v: Vec<Op>)
    ensures
        v@ == grow_shrink_ops(),
{
    let v: Vec<Op> = vec![
        alloc_op(0, 8, 8),
        Op::Realloc { slot: 0, new_size: 9 },
        Op::Realloc { slot: 0, new_size: 4097 },
        Op::Realloc { slot: 0, new_size: SMALL_LIMIT },
        Op::Realloc { slot: 0, new_size: 262145 },
        Op::Realloc { slot: 0, new_size: 1048576 },
        Op::Realloc { slot: 0, new_size: 4095 },
        Op::Realloc { slot: 0, new_size: 1 },
        Op::Free { slot: 0 },
    ];
    assert(v@ =~= grow_shrink_ops());
    v
}

/// Zero-filled objects in memory used before.
pub open spec fn zeroed_ops() -> Seq<Op> {
    seq![
        alloc_of(0, 300, 8),
        Op::Free { slot: 0 },
        Op::Alloc { slot: 0, size: 300, align: 8, zeroed: true },
        Op::Alloc { slot: 1, size: 266240, align: 4096, zeroed: true },
        Op::Free { slot: 1 },
        Op::Alloc { slot: 1, size: 262145, align: 8, zeroed: true },
        Op::FreeAll { order: FreeOrder::Lifo },
    ]
}

fn zeroed_seed() -> (v: Vec<Op>)
    ensures
        v@ == zeroed_ops(),
{
    let v: Vec<Op> = vec![
        alloc_op(0, 300, 8),
        Op::Free { slot: 0 },
        Op::Alloc { slot: 0, size: 300, align: 8, zeroed: true },
        Op::Alloc { slot: 1, size: 266240, align: 4096, zeroed: true },
        Op::Free { slot: 1 },
        Op::Alloc { slot: 1, size: 262145, align: 8, zeroed: true },
        Op::FreeAll { order: FreeOrder::Lifo },
    ];
    assert(v@ =~= zeroed_ops());
    v
}

/// The same layouts over and over.
pub open spec fn churn_ops() -> Seq<Op> {
    seq![
        Op::Churn { slot: 0, size: 8, align: 8, cycles: 64 },
        Op::Churn { slot: 1, size: 32768, align: 8, cycles: 16 },
        Op::Churn { slot: 2, size: 262145, align: 8, cycles: 8 },
        Op::Validate,
    ]
}

fn churn_seed() -> (v: Vec<Op>)
    ensures
        v@ == churn_ops(),
{
    let v: Vec<Op> = vec![
        Op::Churn { slot: 0, size: 8, align: 8, cycles: 64 },
        Op::Churn { slot: 1, size: 32768, align: 8, cycles: 16 },
        Op::Churn { slot: 2, size: 262145, align: 8, cycles: 8 },
        Op::Validate,
    ];
    assert(v@ =~= churn_ops());
    v
}

/// More than a region holds.
pub open spec fn exhaust_region_ops() -> Seq<Op> {
    seq![
        Op::FillEmpty { size: 32768, align: 8 },
        Op::Validate,
        Op::FreeAll { order: FreeOrder::EverySecond },
        Op::FillEmpty { size: SMALL_LIMIT, align: 8 },
        Op::FreeAll { order: FreeOrder::Lifo },
        Op::Validate,
    ]
}

fn exhaust_region_seed() -> (v: Vec<Op>)
    ensures
        v@ == exhaust_region_ops(),
{
    let v: Vec<Op> = vec![
        Op::FillEmpty { size: 32768, align: 8 },
        Op::Validate,
        Op::FreeAll { order: FreeOrder::EverySecond },
        Op::FillEmpty { size: SMALL_LIMIT, align: 8 },
        Op::FreeAll { order: FreeOrder::Lifo },
        Op::Validate,
    ];
    assert(v@ =~= exhaust_region_ops());
    v
}

/// A cached mapping reused for a smaller request.
pub open spec fn large_cache_close_size_ops() -> Seq<Op> {
    seq![
        alloc_of(0, 278528, 8),
        Op::Free { slot: 0 },
        alloc_of(0, 266240, 8),
        Op::Touch { slot: 0 },
        Op::Free { slot: 0 },
        alloc_of(1, 278528, 8),
        Op::Free { slot: 1 },
    ]
}

fn large_cache_close_size_seed() -> (v: Vec<Op>)
    ensures
        v@ == large_cache_close_size_ops(),
{
    let v: Vec<Op> = vec![
        alloc_op(0, 278528, 8),
        Op::Free { slot: 0 },
        alloc_op(0, 266240, 8),
        Op::Touch { slot: 0 },
        Op::Free { slot: 0 },
        alloc_op(1, 278528, 8),
        Op::Free { slot: 1 },
    ];
    assert(v@ =~= large_cache_close_size_ops());
    v
}

/// Requests that must fail.
pub open spec fn huge_ops() -> Seq<Op> {
    seq![
        alloc_of(0, 100, 8),
        Op::Huge { size: ops::huge_value(0) as usize, align: 8 },
        Op::Huge { size: ops::huge_value(2) as usize, align: 4096 },
        Op::Huge { size: ops::huge_value(3) as usize, align: 4194304 },
        Op::CheckAll,
        Op::Free { slot: 0 },
    ]
}

fn huge_seed() -> (v: Vec<Op>)
    ensures
        v@ == huge_ops(),
{
    let v: Vec<Op> = vec![
        alloc_op(0, 100, 8),
        Op::Huge { size: ops::huge_size(0), align: 8 },
        Op::Huge { size: ops::huge_size(2), align: 4096 },
        Op::Huge { size: ops::huge_size(3), align: 4194304 },
        Op::CheckAll,
        Op::Free { slot: 0 },
    ];
    assert(v@ =~= huge_ops());
    v
}

/// Long-lived objects among short-lived ones.
pub open spec fn long_lived_mix_ops() -> Seq<Op> {
    seq![
        alloc_of(0, 1048576, 8),
        alloc_of(1, 16, 16),
        Op::Churn { slot: 2, size: 64, align: 8, cycles: 32 },
        Op::Churn { slot: 3, size: 8192, align: 8, cycles: 32 },
        Op::Touch { slot: 0 },
        Op::CheckAll,
        Op::Realloc { slot: 1, new_size: 17 },
        Op::FreeAll { order: FreeOrder::Fifo },
    ]
}

fn long_lived_mix_seed() -> (v: Vec<Op>)
    ensures
        v@ == long_lived_mix_ops(),
{
    let v: Vec<Op> = vec![
        alloc_op(0, 1048576, 8),
        alloc_op(1, 16, 16),
        Op::Churn { slot: 2, size: 64, align: 8, cycles: 32 },
        Op::Churn { slot: 3, size: 8192, align: 8, cycles: 32 },
        Op::Touch { slot: 0 },
        Op::CheckAll,
        Op::Realloc { slot: 1, new_size: 17 },
        Op::FreeAll { order: FreeOrder::Fifo },
    ];
    assert(v@ =~= long_lived_mix_ops());
    v
}

/// Names and operations of the sequential seeds.
pub open spec fn seed_list() -> Seq<(Seq<char>, Seq<Op>)> {
    seq![
        ("basic"@, basic_ops()),
        ("two_live"@, two_live_ops()),
        ("free_realloc_same"@, free_realloc_same_ops()),
        ("all_classes"@, all_classes_ops()),
        ("class_edges"@, class_edges_ops()),
        ("mixed_aligns"@, mixed_aligns_ops()),
        ("fragmentation"@, fragmentation_ops()),
        ("grow_shrink"@, grow_shrink_ops()),
        ("zeroed"@, zeroed_ops()),
        ("churn"@, churn_ops()),
        ("exhaust_region"@, exhaust_region_ops()),
        ("large_cache_close_size"@, large_cache_close_size_ops()),
        ("huge"@, huge_ops()),
        ("long_lived_mix"@, long_lived_mix_ops()),
    ]
}

/// The sequential seeds.
pub fn seeds() -> (v: Vec<Seed>)
    ensures
        v@.len() == seed_list().len(),
        forall|i: int|
            0 <= i < v@.len() ==> (#[trigger] v@[i]).name@ == seed_list()[i].0 && v@[i].ops@
                == seed_list()[i].1,
{
    let mut v: Vec<Seed> = Vec::new();
    v.push(Seed { name: "basic", ops: basic_seed() });
    v.push(Seed { name: "two_live", ops: two_live_seed() });
    v.push(Seed { name: "free_realloc_same", ops: free_realloc_same_seed() });
    v.push(Seed { name: "all_classes", ops: all_classes_seed() });
    v.push(Seed { name: "class_edges", ops: class_edges_seed() });
    v.push(Seed { name: "mixed_aligns", ops: mixed_aligns_seed() });
    v.push(Seed { name: "fragmentation", ops: fragmentation_seed() });
    v.push(Seed { name: "grow_shrink", ops: grow_shrink_seed() });
    v.push(Seed { name: "zeroed", ops: zeroed_seed() });
    v.push(Seed { name: "churn", ops: churn_seed() });
    v.push(Seed { name: "exhaust_region", ops: exhaust_region_seed() });
    v.push(Seed { name: "large_cache_close_size", ops: large_cache_close_size_seed() });
    v.push(Seed { name: "huge", ops: huge_seed() });
    v.push(Seed { name: "long_lived_mix", ops: long_lived_mix_seed() });
    v
}

// ---------------------------------------------------------------------------
// Multi-threaded seeds
// ---------------------------------------------------------------------------
/// A named list of operations with their threads, and the two header bytes.
pub struct ThreadSeed {
    pub name: &'static str,
    pub header: u8,
    pub threads: u8,
    pub ops: Vec<(u8, Op)>,
}

/// Two threads hand an object to each other.
pub open spec fn transfer_pair_ops() -> Seq<(u8, Op)> {
    seq![
        (0u8, alloc_of(0, 64, 8)),
        (0u8, Op::Transfer { slot: 0, to: 1 }),
        (1u8, alloc_of(1, 4096, 4096)),
        (1u8, Op::Transfer { slot: 1, to: 0 }),
        (0u8, Op::CheckAll),
        (1u8, Op::CheckAll),
    ]
}

fn transfer_pair_seed() -> (v: Vec<(u8, Op)>)
    ensures
        v@ == transfer_pair_ops(),
{
    let v: Vec<(u8, Op)> = vec![
        (0, alloc_op(0, 64, 8)),
        (0, Op::Transfer { slot: 0, to: 1 }),
        (1, alloc_op(1, 4096, 4096)),
        (1, Op::Transfer { slot: 1, to: 0 }),
        (0, Op::CheckAll),
        (1, Op::CheckAll),
    ];
    assert(v@ =~= transfer_pair_ops());
    v
}

/// Operation `j` of thread `t` in the ring.
pub open spec fn ring_op(t: int, j: int) -> Op {
    if j < 16 {
        alloc_of(j as usize, SIZE_CLASSES@[j], 8)
    } else if j < 32 {
        Op::Transfer { slot: (j - 16) as usize, to: ((t + 1) % 4) as usize }
    } else {
        Op::CheckAll
    }
}

/// Four threads allocate an object of each class and pass it on in a ring.
pub open spec fn ring_all_classes_ops() -> Seq<(u8, Op)> {
    Seq::new(132, |k: int| ((k / 33) as u8, ring_op(k / 33, k % 33)))
}

fn ring_all_classes_seed() -> (v: Vec<(u8, Op)>)
    ensures
        v@ == ring_all_classes_ops(),
{
    let mut v: Vec<(u8, Op)> = Vec::new();
    let mut t: u8 = 0;
    while t < 4
        invariant
            t <= 4,
            v@ == Seq::new((33 * t) as nat, |k: int| ((k / 33) as u8, ring_op(k / 33, k % 33))),
        decreases 4 - t,
    {
        let mut i: usize = 0;
        while i < 16
            invariant
                t < 4,
                i <= 16,
                v@ == Seq::new(
                    (33 * t + i) as nat,
                    |k: int| ((k / 33) as u8, ring_op(k / 33, k % 33)),
                ),
            decreases 16 - i,
        {
            v.push((t, alloc_op(i, SIZE_CLASSES[i], 8)));
            i += 1;
        }
        let mut j: usize = 0;
        while j < 16
            invariant
                t < 4,
                j <= 16,
                v@ == Seq::new(
                    (33 * t + 16 + j) as nat,
                    |k: int| ((k / 33) as u8, ring_op(k / 33, k % 33)),
                ),
            decreases 16 - j,
        {
            v.push((t, Op::Transfer { slot: j, to: (t as usize + 1) % 4 }));
            j += 1;
        }
        v.push((t, Op::CheckAll));
        t += 1;
    }
    assert(v@ =~= ring_all_classes_ops());
    v
}

/// Operation `j` of a thread that churns.
pub open spec fn shared_churn_op(j: int) -> Op {
    if j == 0 {
        Op::Churn { slot: 0, size: 64, align: 8, cycles: MAX_CHURN }
    } else if j == 1 {
        Op::FillEmpty { size: 64, align: 8 }
    } else if j == 2 {
        Op::Transfer { slot: 5, to: 1 }
    } else {
        Op::FreeAll { order: FreeOrder::Lifo }
    }
}

/// Three threads churn through one class.
pub open spec fn shared_class_churn_ops() -> Seq<(u8, Op)> {
    Seq::new(12, |k: int| ((k / 4) as u8, shared_churn_op(k % 4)))
}

fn shared_class_churn_seed() -> (v: Vec<(u8, Op)>)
    ensures
        v@ == shared_class_churn_ops(),
{
    let mut v: Vec<(u8, Op)> = Vec::new();
    let mut t: u8 = 0;
    while t < 3
        invariant
            t <= 3,
            v@ == Seq::new((4 * t) as nat, |k: int| ((k / 4) as u8, shared_churn_op(k % 4))),
        decreases 3 - t,
    {
        v.push((t, Op::Churn { slot: 0, size: 64, align: 8, cycles: MAX_CHURN }));
        v.push((t, Op::FillEmpty { size: 64, align: 8 }));
        v.push((t, Op::Transfer { slot: 5, to: 1 }));
        v.push((t, Op::FreeAll { order: FreeOrder::Lifo }));
        t += 1;
    }
    assert(v@ =~= shared_class_churn_ops());
    v
}

/// Operation `j` of one of two threads `t` that exhaust the region.
pub open spec fn exhaust_op(t: int, j: int) -> Op {
    if j == 0 {
        Op::FillEmpty { size: 32768, align: 8 }
    } else if j == 1 {
        Op::Transfer { slot: 3, to: (1 - t) as usize }
    } else if j == 2 {
        Op::FreeAll { order: FreeOrder::EverySecond }
    } else if j == 3 {
        Op::FillEmpty { size: 262145, align: 8 }
    } else {
        Op::FreeAll { order: FreeOrder::Fifo }
    }
}

/// Two threads exhaust the region together.
pub open spec fn exhaust_two_threads_ops() -> Seq<(u8, Op)> {
    Seq::new(10, |k: int| ((k / 5) as u8, exhaust_op(k / 5, k % 5)))
}

fn exhaust_two_threads_seed() -> (v: Vec<(u8, Op)>)
    ensures
        v@ == exhaust_two_threads_ops(),
{
    let mut v: Vec<(u8, Op)> = Vec::new();
    let mut t: u8 = 0;
    while t < 2
        invariant
            t <= 2,
            v@ == Seq::new((5 * t) as nat, |k: int| ((k / 5) as u8, exhaust_op(k / 5, k % 5))),
        decreases 2 - t,
    {
        v.push((t, Op::FillEmpty { size: 32768, align: 8 }));
        v.push((t, Op::Transfer { slot: 3, to: 1 - t as usize }));
        v.push((t, Op::FreeAll { order: FreeOrder::EverySecond }));
        v.push((t, Op::FillEmpty { size: SMALL_LIMIT + 1, align: 8 }));
        v.push((t, Op::FreeAll { order: FreeOrder::Fifo }));
        t += 1;
    }
    assert(v@ =~= exhaust_two_threads_ops());
    v
}

/// The multi-threaded seeds.
pub fn thread_seeds() -> (v: Vec<ThreadSeed>)
    ensures
        v@.len() == 4,
        v@[0].name@ == "transfer_pair"@,
        v@[0].header == 1 && v@[0].threads == 0 && v@[0].ops@ == transfer_pair_ops(),
        v@[1].name@ == "ring_all_classes"@,
        v@[1].header == 3 && v@[1].threads == 2 && v@[1].ops@ == ring_all_classes_ops(),
        v@[2].name@ == "shared_class_churn"@,
        v@[2].header == 0 && v@[2].threads == 1 && v@[2].ops@ == shared_class_churn_ops(),
        v@[3].name@ == "exhaust_two_threads"@,
        v@[3].header == 0 && v@[3].threads == 0 && v@[3].ops@ == exhaust_two_threads_ops(),
{
    let mut v: Vec<ThreadSeed> = Vec::new();
    v.push(
        ThreadSeed { name: "transfer_pair", header: 1, threads: 0, ops: transfer_pair_seed() },
    );
    v.push(
        ThreadSeed { name: "ring_all_classes", header: 3, threads: 2, ops: ring_all_classes_seed() },
    );
    v.push(
        ThreadSeed {
            name: "shared_class_churn",
            header: 0,
            threads: 1,
            ops: shared_class_churn_seed(),
        },
    );
    v.push(
        ThreadSeed {
            name: "exhaust_two_threads",
            header: 0,
            threads: 0,
            ops: exhaust_two_threads_seed(),
        },
    );
    v
}

// ---------------------------------------------------------------------------
// Corpus files
// ---------------------------------------------------------------------------
/// The file of a sequential seed: the header byte, then the operations.
pub fn seed_input(seed: &Seed) -> (bytes: Vec<u8>)
    ensures
        bytes@ == seq![SEED_HEADER] + ops::ops_bytes(
            seed.ops@,
            SLOTS as int,
            seed.ops@.len() as int,
        ),
{
    let mut bytes: Vec<u8> = Vec::new();
    bytes.push(SEED_HEADER);
    let mut rest = ops::encode(seed.ops.as_slice(), SLOTS);
    bytes.append(&mut rest);
    bytes
}

/// The bytes of the first `n` operations, each preceded by its thread.
pub open spec fn threaded_bytes(s: Seq<(u8, Op)>, n: int) -> Seq<u8>
    decreases n,
{
    if n <= 0 {
        Seq::empty()
    } else {
        threaded_bytes(s, n - 1) + seq![s[n - 1].0] + ops::op_bytes(s[n - 1].1, SLOTS as int)
    }
}

/// The file of a multi-threaded seed: two header bytes, then the operations,
/// each preceded by its thread.
pub fn thread_seed_input(seed: &ThreadSeed) -> (bytes: Vec<u8>)
    ensures
        bytes@ == seq![seed.header, seed.threads] + threaded_bytes(
            seed.ops@,
            seed.ops@.len() as int,
        ),
{
    let mut bytes: Vec<u8> = Vec::new();
    bytes.push(seed.header);
    bytes.push(seed.threads);
    let mut i: usize = 0;
    assert(bytes@ =~= seq![seed.header, seed.threads] + threaded_bytes(seed.ops@, 0));
    while i < seed.ops.len()
        invariant
            i <= seed.ops@.len(),
            bytes@ == seq![seed.header, seed.threads] + threaded_bytes(seed.ops@, i as int),
        decreases seed.ops@.len() - i,
    {
        let (t, op) = seed.ops[i];
        assert(seed.ops@[i as int].1 == op);
        bytes.push(t);
        let one: Vec<Op> = vec![op];
        let mut rest = ops::encode(one.as_slice(), SLOTS);
        proof {
            assert(one@ =~= seq![op]);
            reveal_with_fuel(ops::ops_bytes, 2);
            assert(rest@ =~= ops::op_bytes(op, SLOTS as int));
        }
        let ghost before = bytes@;
        bytes.append(&mut rest);
        assert(bytes@ =~= seq![seed.header, seed.threads] + threaded_bytes(seed.ops@, i + 1));
        i += 1;
    }
    bytes
}

// ---------------------------------------------------------------------------
// What the seeds reach
// ---------------------------------------------------------------------------
/// The seeds reach every size class, one byte to either side of each, and every
/// alignment up to 4 MiB.
pub proof fn law_seeds_reach(c: int, e: int, k: int)
    requires
        0 <= c < 16,
        -1 <= e <= 1,
        0 <= k < 23,
    ensures
        all_classes_ops().len() == 19,
        all_classes_ops()[c] == (Op::Alloc {
            slot: c as usize,
            size: pow2((c + 3) as nat) as usize,
            align: 8,
            zeroed: false,
        }),
        class_edges_ops().len() == 50,
        class_edges_ops()[3 * c + 1 + e] == (Op::Alloc {
            slot: (3 * c + 1 + e) as usize,
            size: (pow2((c + 3) as nat) + e) as usize,
            align: 8,
            zeroed: false,
        }),
        mixed_aligns_ops().len() == 25,
        mixed_aligns_ops()[k] == (Op::Alloc {
            slot: k as usize,
            size: 24,
            align: pow2(k as nat) as usize,
            zeroed: false,
        }),
{
    vstd::arithmetic::power2::lemma2_to64();
    size_class::lemma_class_sizes();
    ops::law_powers(k);
    let i = 3 * c + 1 + e;
    assert(i / 3 == c && i % 3 == 1 + e);
}

/// In the ring each of four threads allocates an object of every class, and then
/// hands each to the next thread; the threads that share a class and those that
/// exhaust the region all do the same.
pub proof fn law_thread_seeds_reach(t: int, c: int)
    requires
        0 <= t < 4,
        0 <= c < 16,
    ensures
        ring_all_classes_ops().len() == 132,
        ring_all_classes_ops()[33 * t + c] == (
            t as u8,
            Op::Alloc {
                slot: c as usize,
                size: pow2((c + 3) as nat) as usize,
                align: 8,
                zeroed: false,
            },
        ),
        ring_all_classes_ops()[33 * t + 16 + c] == (
            t as u8,
            Op::Transfer {
                slot: c as usize,
                to: if t == 3 {
                    0
                } else {
                    (t + 1) as usize
                },
            },
        ),
        ring_all_classes_ops()[33 * t + 32] == (t as u8, Op::CheckAll),
        shared_class_churn_ops().len() == 12,
        t < 3 && c < 4 ==> shared_class_churn_ops()[4 * t + c] == (
            t as u8,
            shared_class_churn_ops()[c].1,
        ),
        exhaust_two_threads_ops().len() == 10,
        t < 2 ==> exhaust_two_threads_ops()[5 * t + 1] == (
            t as u8,
            Op::Transfer { slot: 3, to: (1 - t) as usize },
        ),
{
    vstd::arithmetic::power2::lemma2_to64();
    size_class::lemma_class_sizes();
    assert((33 * t + c) / 33 == t && (33 * t + c) % 33 == c);
    assert((33 * t + 16 + c) / 33 == t && (33 * t + 16 + c) % 33 == 16 + c);
    assert((33 * t + 32) / 33 == t && (33 * t + 32) % 33 == 32);
    if c < 4 {
        assert((4 * t + c) / 4 == t && (4 * t + c) % 4 == c);
    }
    assert((5 * t + 1) / 5 == t && (5 * t + 1) % 5 == 1);
}

/// The file of a multi-threaded seed is decoded as it was written: in front of
/// each operation stands its thread.
pub proof fn law_threaded_bytes(s: Seq<(u8, Op)>, n: int)
    requires
        0 <= n < s.len(),
    ensures
        threaded_bytes(s, 0).len() == 0,
        threaded_bytes(s, n + 1) == threaded_bytes(s, n) + seq![s[n].0] + ops::op_bytes(s[n].1, 64),
{
}

/// What the short seeds are for: two objects at a time; one resized over the
/// limit of small objects and back; zero-filled memory where other was before;
/// churn within a class, over bags and over mappings; more objects than the
/// regions hold; cached mappings; and requests that must fail between checks.
pub proof fn law_short_seeds()
    ensures
        seed_list().len() == 14,
        basic_ops().len() == 2,
        basic_ops()[0] is Alloc && basic_ops()[1] == (Op::Free { slot: 0 }),
        two_live_ops().len() >= 3,
        two_live_ops()[0] == (Op::Alloc { slot: 0, size: 64, align: 8, zeroed: false }),
        two_live_ops()[1] == (Op::Alloc { slot: 1, size: 64, align: 8, zeroed: false }),
        two_live_ops()[2] is CheckAll,
        free_realloc_same_ops()[0] == free_realloc_same_ops()[2],
        free_realloc_same_ops()[1] == (Op::Free { slot: 0 }),
        grow_shrink_ops().len() == 9,
        forall|i: int|
            1 <= i < 8 ==> (#[trigger] grow_shrink_ops()[i] matches Op::Realloc { slot, .. } && slot
                == 0),
        grow_shrink_ops()[3] matches Op::Realloc { new_size, .. } && new_size == 262144,
        grow_shrink_ops()[4] matches Op::Realloc { new_size, .. } && new_size == 262145,
        grow_shrink_ops()[5] matches Op::Realloc { new_size, .. } && new_size == 1048576,
        grow_shrink_ops()[6] matches Op::Realloc { new_size, .. } && new_size == 4095,
        grow_shrink_ops()[7] matches Op::Realloc { new_size, .. } && new_size == 1,
        zeroed_ops()[1] == (Op::Free { slot: 0 }),
        zeroed_ops()[2] == (Op::Alloc { slot: 0, size: 300, align: 8, zeroed: true }),
        zeroed_ops()[4] == (Op::Free { slot: 1 }),
        zeroed_ops()[5] == (Op::Alloc { slot: 1, size: 262145, align: 8, zeroed: true }),
        churn_ops()[0] matches Op::Churn { size, cycles, .. } && size == 8 && cycles == 64,
        churn_ops()[1] matches Op::Churn { size, cycles, .. } && size == 32768 && cycles == 16,
        churn_ops()[2] matches Op::Churn { size, cycles, .. } && size == 262145 && cycles == 8,
        exhaust_region_ops()[0] == (Op::FillEmpty { size: 32768, align: 8 }),
        exhaust_region_ops()[3] == (Op::FillEmpty { size: 262144, align: 8 }),
        large_cache_close_size_ops()[0] == (Op::Alloc {
            slot: 0,
            size: 278528,
            align: 8,
            zeroed: false,
        }),
        large_cache_close_size_ops()[1] == (Op::Free { slot: 0 }),
        large_cache_close_size_ops()[2] == (Op::Alloc {
            slot: 0,
            size: 266240,
            align: 8,
            zeroed: false,
        }),
        huge_ops()[1] matches Op::Huge { size, .. } && size == isize::MAX,
        huge_ops()[3] matches Op::Huge { size, align } && size == usize::MAX - 4096 && align
            == 4194304,
        huge_ops()[4] is CheckAll,
        long_lived_mix_ops()[0] == (Op::Alloc { slot: 0, size: 1048576, align: 8, zeroed: false }),
        long_lived_mix_ops()[4] == (Op::Touch { slot: 0 }),
        fragmentation_ops().len() == 67,
        forall|i: int|
            0 <= i < 32 ==> #[trigger] fragmentation_ops()[1 + i] == (Op::Free {
                slot: (2 * i) as usize,
            }),
        forall|i: int|
            0 <= i < 32 ==> #[trigger] fragmentation_ops()[33 + i] == (Op::Alloc {
                slot: (2 * i) as usize,
                size: 4096,
                align: 4096,
                zeroed: false,
            }),
{
}

/// The files of the sequential seeds ask for two nodes with 512 KiB each.
pub proof fn law_seed_header()
    ensures
        1 + SEED_HEADER % 4 == 2,
        SEED_HEADER / 4 == 1,
        crate::fuzz::REGION_SIZES@[SEED_HEADER as int / 4 % 4] == 524288,
{
}

} // verus!
