//! Size classes of small objects and the bags that objects are carved from.
use vstd::prelude::*;
use vstd::std_specs::bits;

verus! {

/// Number of size classes for small object allocation.
pub const NUM_SIZE_CLASSES: usize = 16;

/// Size classes: powers of 2 from 8 to 262144 bytes.
pub const SIZE_CLASSES: [usize; 16] = [
    8,
    16,
    32,
    64,
    128,
    256,
    512,
    1024,
    2048,
    4096,
    8192,
    16384,
    32768,
    65536,
    131072,
    262144,
];

/// Minimum bag size (32 KB).  For size classes larger than this the bag size
/// equals the object size (one object per bag).
pub const BAG_SIZE: usize = 32768;

/// Maximum object size managed via bags (objects larger than this get a
/// mapping of their own).
pub const SMALL_LIMIT: usize = 262144;

/// Object size of class `c`.
pub open spec fn class_size(c: int) -> int {
    SIZE_CLASSES@[c] as int
}

/// Bag size of class `c`.
pub open spec fn class_bag(c: int) -> int {
    if class_size(c) > BAG_SIZE {
        class_size(c)
    } else {
        BAG_SIZE as int
    }
}

/// Objects in one bag of class `c`.
pub open spec fn class_count(c: int) -> int {
    class_bag(c) / class_size(c)
}

/// `c` is the smallest class whose objects hold `size` bytes.
pub open spec fn is_class_of(size: int, c: int) -> bool {
    &&& 0 <= c < NUM_SIZE_CLASSES
    &&& size <= class_size(c)
    &&& c == 0 || class_size(c - 1) < size
}

/// The smallest class whose objects hold `size` bytes.
pub open spec fn class_of(size: int) -> int {
    choose|c: int| is_class_of(size, c)
}

/// Only one class is the smallest that holds `size` bytes.
pub proof fn lemma_class_of(size: int, c: int)
    requires
        is_class_of(size, c),
    ensures
        class_of(size) == c,
{
    lemma_class_sizes();
    let d = class_of(size);
    assert(is_class_of(size, d));
}

/// The sizes of all classes, written out.
pub proof fn lemma_class_sizes()
    ensures
        class_size(0) == 8,
        class_size(1) == 16,
        class_size(2) == 32,
        class_size(3) == 64,
        class_size(4) == 128,
        class_size(5) == 256,
        class_size(6) == 512,
        class_size(7) == 1024,
        class_size(8) == 2048,
        class_size(9) == 4096,
        class_size(10) == 8192,
        class_size(11) == 16384,
        class_size(12) == 32768,
        class_size(13) == 65536,
        class_size(14) == 131072,
        class_size(15) == 262144,
        forall|c: int| 0 <= c < 16 ==> 8 <= #[trigger] class_size(c) <= SMALL_LIMIT,
        forall|c: int| 0 <= c < 15 ==> #[trigger] class_size(c + 1) == 2 * class_size(c),
{
}

/// Returns the index of the smallest size class that can hold `size` bytes.
/// Returns `None` if `size` is 0 or exceeds `SMALL_LIMIT`.
pub fn size_class_index(size: usize) -> (index: Option<usize>)
    ensures
        index is None <==> size == 0 || size > SMALL_LIMIT,
        index matches Some(c) ==> is_class_of(size as int, c as int),
{
    proof {
        lemma_class_sizes();
    }
    if size == 0 || size > SMALL_LIMIT {
        return None;
    }
    if size <= 8 {
        return Some(0);
    }
    // Size classes are powers of 2 starting at 8 = 2^3.
    // ceil(log2(size)) gives the power needed; subtract 3 for the index.
    let last: u64 = (size - 1) as u64;
    let width: u32 = 64 - last.leading_zeros();
    proof {
        bits::axiom_u64_leading_zeros(last);
        let b = width as u64;
        let t = (b - 1) as u64;
        assert(4 <= b <= 18 && last < (1u64 << b) && last >= (1u64 << t)) by (bit_vector)
            requires
                1 <= b <= 64,
                t == b - 1,
                last >> b == 0,
                (last >> t) & 1u64 != 0u64,
                8 <= last < 262144,
        ;
        assert(1u64 << 3 == 8 && 1u64 << 4 == 16 && 1u64 << 5 == 32 && 1u64 << 6 == 64 && 1u64 << 7
            == 128 && 1u64 << 8 == 256 && 1u64 << 9 == 512 && 1u64 << 10 == 1024 && 1u64 << 11
            == 2048 && 1u64 << 12 == 4096 && 1u64 << 13 == 8192 && 1u64 << 14 == 16384 && 1u64
            << 15 == 32768 && 1u64 << 16 == 65536 && 1u64 << 17 == 131072 && 1u64 << 18 == 262144)
            by (bit_vector);
    }
    let index: usize = (width as usize).saturating_sub(3);
    Some(index)
}

/// Returns the allocation size for a given size class index.
pub fn size_for_class(index: usize) -> (size: usize)
    requires
        index < NUM_SIZE_CLASSES,
    ensures
        size == class_size(index as int),
{
    SIZE_CLASSES[index]
}

/// Returns the bag size used for a given size class.
/// For classes whose object size exceeds `BAG_SIZE`, the bag is exactly one
/// object (i.e. the object size).  Otherwise `BAG_SIZE` (32 KB).
pub fn bag_size_for_class(class_index: usize) -> (size: usize)
    requires
        class_index < NUM_SIZE_CLASSES,
    ensures
        size == class_bag(class_index as int),
{
    let obj: usize = SIZE_CLASSES[class_index];
    if obj > BAG_SIZE {
        obj
    } else {
        BAG_SIZE
    }
}

/// Returns the number of objects that fit in one bag for a given size class.
pub fn objects_per_bag(class_index: usize) -> (count: usize)
    requires
        class_index < NUM_SIZE_CLASSES,
    ensures
        count == class_count(class_index as int),
{
    proof {
        lemma_class_sizes();
    }
    bag_size_for_class(class_index) / SIZE_CLASSES[class_index]
}

} // verus!
