use numalloc::size_class::{
    bag_size_for_class, objects_per_bag, size_class_index, size_for_class, BAG_SIZE, SMALL_LIMIT,
};

#[test]
fn test_size_class_index_boundaries() {
    assert_eq!(size_class_index(0), None);
    assert_eq!(size_class_index(1), Some(0)); // -> 8
    assert_eq!(size_class_index(8), Some(0)); // -> 8
    assert_eq!(size_class_index(9), Some(1)); // -> 16
    assert_eq!(size_class_index(16), Some(1)); // -> 16
    assert_eq!(size_class_index(17), Some(2)); // -> 32
    assert_eq!(size_class_index(32), Some(2)); // -> 32
    assert_eq!(size_class_index(33), Some(3)); // -> 64
    assert_eq!(size_class_index(64), Some(3));
    assert_eq!(size_class_index(128), Some(4));
    assert_eq!(size_class_index(256), Some(5));
    assert_eq!(size_class_index(512), Some(6));
    assert_eq!(size_class_index(1024), Some(7));
    assert_eq!(size_class_index(2048), Some(8));
    assert_eq!(size_class_index(4096), Some(9));
    assert_eq!(size_class_index(8192), Some(10));
    assert_eq!(size_class_index(16384), Some(11));
    assert_eq!(size_class_index(32768), Some(12));
    assert_eq!(size_class_index(65536), Some(13));
    assert_eq!(size_class_index(131072), Some(14));
    assert_eq!(size_class_index(262144), Some(15));
    assert_eq!(size_class_index(262145), None);
}

#[test]
fn test_size_class_covers_request() {
    for size in 1..=SMALL_LIMIT {
        let idx = size_class_index(size).unwrap();
        assert!(
            size_for_class(idx) >= size,
            "size_class {} ({}B) too small for {}B",
            idx,
            size_for_class(idx),
            size
        );
    }
}

#[test]
fn test_objects_per_bag() {
    assert_eq!(objects_per_bag(0), BAG_SIZE / 8); // 4096
    assert_eq!(objects_per_bag(11), BAG_SIZE / 16384); // 2
    // Classes larger than BAG_SIZE get 1 object per bag.
    assert_eq!(objects_per_bag(12), 1); // 32768
    assert_eq!(objects_per_bag(13), 1); // 65536
    assert_eq!(objects_per_bag(14), 1); // 131072
    assert_eq!(objects_per_bag(15), 1); // 262144
}

#[test]
fn bags_hold_at_least_one_object() {
    assert_eq!(bag_size_for_class(0), 32768);
    assert_eq!(bag_size_for_class(12), 32768);
    assert_eq!(bag_size_for_class(13), 65536);
    assert_eq!(bag_size_for_class(15), 262144);
}
