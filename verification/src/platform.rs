//! What the system tells about the machine, and how it is understood: the
//! NUMA topology, the CPUs of a node, the page size.
use crate::heap::MAX_NODES;
use crate::layout;
use vstd::arithmetic::power2;
use vstd::prelude::*;

verus! {

/// NUMA topology information.
#[derive(Clone, Copy, PartialEq, Eq, Structural, Debug)]
pub struct NumaTopology {
    pub num_nodes: usize,
}

/// One more than the highest of the first `k` nodes that is present.
pub open spec fn nodes_up_to(present: Seq<bool>, k: int) -> int
    decreases k,
{
    if k <= 0 {
        0
    } else if present[k - 1] {
        k
    } else {
        nodes_up_to(present, k - 1)
    }
}

/// Number of nodes of a machine on which the given nodes are present.
pub open spec fn node_count(present: Seq<bool>) -> int {
    if nodes_up_to(present, 8) < 1 {
        1
    } else {
        nodes_up_to(present, 8)
    }
}

/// The count reaches exactly up to the highest node that is present, and is one
/// if none is.
pub proof fn law_node_count(present: Seq<bool>)
    requires
        present.len() == 8,
    ensures
        1 <= node_count(present) <= 8,
        forall|i: int| 0 <= i < 8 && #[trigger] present[i] ==> i < node_count(present),
        present.contains(true) ==> present[node_count(present) - 1],
        !present.contains(true) ==> node_count(present) == 1,
{
    lemma_nodes_up_to(present, 8);
    if present.contains(true) {
        let i = choose|i: int| 0 <= i < 8 && present[i] == true;
        assert(present[i]);
    }
    let n = nodes_up_to(present, 8);
    if n > 0 {
        assert(present[n - 1] == true);
    }
}

/// The highest of the first `k` nodes that is present.
proof fn lemma_nodes_up_to(present: Seq<bool>, k: int)
    requires
        0 <= k <= present.len(),
    ensures
        0 <= nodes_up_to(present, k) <= k,
        forall|i: int| 0 <= i < k && #[trigger] present[i] ==> i < nodes_up_to(present, k),
        nodes_up_to(present, k) > 0 ==> present[nodes_up_to(present, k) - 1],
    decreases k,
{
    if k > 0 {
        lemma_nodes_up_to(present, k - 1);
    }
}

/// The NUMA topology of a machine on which the given nodes are present.
///
/// Node numbers are physical, so sparse online node numbers are preserved: the
/// count reaches up to the highest present node.  There is always one.
pub fn detect_topology(present: [bool; 8]) -> (topology: NumaTopology)
    ensures
        topology.num_nodes == node_count(present@),
        1 <= topology.num_nodes <= MAX_NODES,
        forall|i: int| 0 <= i < 8 && #[trigger] present@[i] ==> i < topology.num_nodes,
        (exists|i: int| 0 <= i < 8 && #[trigger] present@[i]) ==> present@[topology.num_nodes - 1],
        (forall|i: int| 0 <= i < 8 ==> !#[trigger] present@[i]) ==> topology.num_nodes == 1,
{
    let mut highest: usize = 0;
    let mut node: usize = 0;
    while node < MAX_NODES
        invariant
            node <= MAX_NODES,
            highest == nodes_up_to(present@, node as int),
            highest <= node,
        decreases MAX_NODES - node,
    {
        if present[node] {
            highest = node + 1;
        }
        node += 1;
    }
    proof {
        law_node_count(present@);
        if exists|i: int| 0 <= i < 8 && #[trigger] present@[i] {
            let i = choose|i: int| 0 <= i < 8 && #[trigger] present@[i];
            assert(present@[i] == true);
            assert(present@.contains(true));
        }
    }
    NumaTopology {
        num_nodes: if highest < 1 {
            1
        } else {
            highest
        },
    }
}

/// Length of the NUL-terminated sysfs cpulist path for one node.
pub const CPULIST_PATH_LEN: usize = 39;

/// Index of the node number in the path.
pub const CPULIST_DIGIT: usize = 29;

/// The bytes of an ASCII text.
pub open spec fn ascii(text: Seq<char>) -> Seq<u8> {
    Seq::new(text.len(), |i: int| text[i] as u8)
}

/// The bytes of `/sys/devices/system/node/node<N>/cpulist` and a NUL.
pub open spec fn cpulist_path(node: int) -> Seq<u8> {
    ascii("/sys/devices/system/node/node"@) + seq![(48 + node) as u8] + ascii("/cpulist"@)
        + seq![0u8]
}

/// Build `/sys/devices/system/node/node<N>/cpulist` without allocating.
///
/// `node` must be a single decimal digit.
pub fn node_cpulist_path(node: usize) -> (path: [u8; 39])
    requires
        node < 10,
    ensures
        path@ == cpulist_path(node as int),
{
    let mut path: [u8; 39] = [
        47,
        115,
        121,
        115,
        47,
        100,
        101,
        118,
        105,
        99,
        101,
        115,
        47,
        115,
        121,
        115,
        116,
        101,
        109,
        47,
        110,
        111,
        100,
        101,
        47,
        110,
        111,
        100,
        101,
        48,
        47,
        99,
        112,
        117,
        108,
        105,
        115,
        116,
        0,
    ];
    // The digit sits right after the "node" prefix.
    path[CPULIST_DIGIT] = 48 + (node % 10) as u8;
    proof {
        reveal_strlit("/sys/devices/system/node/node");
        reveal_strlit("/cpulist");
        assert(path@ =~= cpulist_path(node as int));
    }
    path
}

/// Node mask that binds memory to a node.
pub fn node_mask(node: usize) -> (mask: u64)
    requires
        node < 64,
    ensures
        mask == power2::pow2(node as nat),
{
    let n: u64 = (node % 64) as u64;
    proof {
        power2::lemma_pow2_strictly_increases(n as nat, 64);
        power2::lemma2_to64();
        power2::lemma2_to64_rest();
        vstd::bits::lemma_u64_shl_is_mul(1, n);
    }
    1u64 << n
}

/// The page size to work with, given what the system says.  A failed query or
/// an answer that is no power of two would break the page rounding arithmetic;
/// fall back to the conventional 4 KiB page.
pub fn page_size_or_default(queried: i64) -> (size: usize)
    ensures
        size == (if 0 < queried <= usize::MAX && power2::is_pow2(queried as int) {
            queried as int
        } else {
            4096
        }),
        power2::is_pow2(size as int),
{
    proof {
        reveal_with_fuel(power2::is_pow2, 14);
        assert(power2::is_pow2(4096));
    }
    if queried <= 0 || queried as u64 > usize::MAX as u64 {
        return 4096;
    }
    let size: usize = queried as usize;
    if layout::is_power_of_two(size) {
        size
    } else {
        4096
    }
}

/// The paths of the nodes have 39 bytes, of which only the digit differs, and end
/// with their only NUL.
pub proof fn law_paths(node: int, other: int, i: int)
    requires
        0 <= node < 10,
        0 <= other < 10,
        0 <= i < 39,
    ensures
        cpulist_path(node).len() == 39,
        i != 29 ==> cpulist_path(node)[i] == cpulist_path(other)[i],
        cpulist_path(node)[29] == 48 + node,
        cpulist_path(node)[i] == 0 <==> i == 38,
        cpulist_path(node)[0] == 47,
        cpulist_path(node)[30] == 47,
{
    reveal_strlit("/sys/devices/system/node/node");
    reveal_strlit("/cpulist");
}

} // verus!
