use numalloc::cpulist::affinity_from_cpulist;
use numalloc::fuzz_hooks::{getenv_usize, num_nodes_override, region_size_override};
use numalloc::heap::MAX_NODES;
use numalloc::layout::{is_power_of_two, Layout, LayoutError};
use numalloc::platform::{
    detect_topology, node_cpulist_path, node_mask, page_size_or_default, CPULIST_PATH_LEN,
};

#[test]
fn cpulist_path_places_digit_after_node_prefix() {
    for node in 0..MAX_NODES {
        let path = node_cpulist_path(node);
        let expected = format!("/sys/devices/system/node/node{node}/cpulist\0");
        assert_eq!(&path[..], expected.as_bytes(), "node {node}");
    }
    assert_eq!(CPULIST_PATH_LEN, 39);
}

#[test]
fn page_size_is_power_of_two() {
    for queried in [4096, 16384, 65536] {
        let ps = page_size_or_default(queried);
        assert!(ps.is_power_of_two() && ps >= 4096, "page size {ps}");
        assert_eq!(ps as i64, queried);
    }
    // A failed query or an odd answer gives the conventional page.
    assert_eq!(page_size_or_default(-1), 4096);
    assert_eq!(page_size_or_default(0), 4096);
    assert_eq!(page_size_or_default(12288), 4096);
}

#[test]
fn topology_reaches_the_highest_node() {
    let mut present = [false; 8];
    assert_eq!(detect_topology(present).num_nodes, 1);
    present[0] = true;
    assert_eq!(detect_topology(present).num_nodes, 1);
    present[5] = true;
    assert_eq!(detect_topology(present).num_nodes, 6);
    assert_eq!(detect_topology([true; 8]).num_nodes, 8);
}

#[test]
fn node_masks_are_single_bits() {
    assert_eq!(node_mask(0), 1);
    assert_eq!(node_mask(7), 128);
    assert_eq!(node_mask(63), 1 << 63);
}

fn cpus(text: &[u8]) -> Option<Vec<usize>> {
    affinity_from_cpulist(text).map(|mask| (0..1024).filter(|&c| mask[c]).collect())
}

#[test]
fn cpulist_ranges_become_masks() {
    assert_eq!(cpus(b"0-3,8,10-11\n"), Some(vec![0, 1, 2, 3, 8, 10, 11]));
    assert_eq!(cpus(b"  7 \n"), Some(vec![7]));
    assert_eq!(cpus(b"+2-+4"), Some(vec![2, 3, 4]));
    assert_eq!(cpus("\u{3000}1\u{a0}".as_bytes()), Some(vec![1]));
    // Clamped to what the mask holds.
    assert_eq!(cpus(b"1022-5000"), Some(vec![1022, 1023]));
    assert_eq!(cpus(b"5,2000"), Some(vec![5]));
}

#[test]
fn malformed_cpulists_are_ignored() {
    for text in ["", "\n", "a", "1,", ",1", "1 2", "3-1", "1-2-3", "-", "1-", "+", "0x1", "1, 2"] {
        assert_eq!(cpus(text.as_bytes()), None, "{text:?}");
    }
    assert_eq!(cpus(b"99999999999999999999"), None);
    assert_eq!(cpus(b"2000-3000"), None);
    assert_eq!(cpus(&[b'1', 0xff]), None);
    assert_eq!(cpus("1\u{e9}".as_bytes()), None);
    // A list that fills the buffer may have been cut off.
    let mut long = vec![b'1'; 2];
    long.resize(8192, b' ');
    assert_eq!(cpus(&long), None);
    long.truncate(8191);
    assert_eq!(cpus(&long), Some(vec![11]));
}

#[test]
fn environment_overrides() {
    assert_eq!(getenv_usize(None), None);
    assert_eq!(getenv_usize(Some(b"")), None);
    assert_eq!(getenv_usize(Some(b"12a")), None);
    assert_eq!(getenv_usize(Some(b"+1")), None);
    assert_eq!(getenv_usize(Some(b"000000000042")), Some(42));
    assert_eq!(getenv_usize(Some(b"0000000000042")), None);
    assert_eq!(num_nodes_override(Some(b"0")), None);
    assert_eq!(num_nodes_override(Some(b"8")), Some(8));
    assert_eq!(num_nodes_override(Some(b"9")), None);
    assert_eq!(region_size_override(Some(b"1")), Some(1 << 20));
    assert_eq!(region_size_override(Some(b"64")), Some(64 << 20));
    assert_eq!(region_size_override(Some(b"3")), None);
    assert_eq!(region_size_override(Some(b"0")), None);
    assert_eq!(region_size_override(None), None);
}

#[test]
fn layouts_are_checked() {
    assert!(is_power_of_two(1) && is_power_of_two(4096) && !is_power_of_two(0));
    assert!(!is_power_of_two(12));
    assert_eq!(Layout::from_size_align(8, 3), Err(LayoutError));
    assert_eq!(Layout::from_size_align(8, 0), Err(LayoutError));
    assert_eq!(Layout::from_size_align(isize::MAX as usize, 2), Err(LayoutError));
    let l = Layout::from_size_align(isize::MAX as usize - 1, 2).unwrap();
    assert_eq!((l.size(), l.align()), (isize::MAX as usize - 1, 2));
    assert_eq!(Layout::from_size_align(0, 1 << 63).unwrap().effective_size(), 1 << 63);
}
