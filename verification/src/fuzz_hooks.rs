//! Test seams for fuzzing and stress testing.
//!
//! Environment variables:
//!
//! * `NUMALLOC_FUZZ_NODES` — pretend the machine has this many NUMA nodes
//!   (1..=`MAX_NODES`).  Binding memory to a missing node fails silently, so
//!   the extra nodes act as independent virtual regions.
//! * `NUMALLOC_FUZZ_REGION_MB` — per-node region size in MiB; must be a power
//!   of two.
//!
//! The functions here take the value of the variable, or `None` if it is not
//! set.
use crate::heap::MAX_NODES;
use crate::layout;
use crate::size_class::SMALL_LIMIT;
use crate::text;
use vstd::arithmetic::power2;
use vstd::prelude::*;

verus! {

/// Most digits of a number in the environment.
pub const MAX_DIGITS: usize = 12;

/// Bytes in a mebibyte.
pub const MEBIBYTE: usize = 1048576;

/// The number that an environment variable holds: up to [`MAX_DIGITS`] decimal
/// digits and nothing else.
pub open spec fn env_number(value: Option<Seq<u8>>) -> Option<int> {
    match value {
        Some(s) => if s.len() <= MAX_DIGITS {
            text::digits(s)
        } else {
            None
        },
        None => None,
    }
}

/// A variable holds a number exactly if it is set to one to twelve digits and
/// nothing else.
pub proof fn law_env_number(s: Seq<u8>, v: int)
    ensures
        env_number(None) is None,
        env_number(Some(s)) == Some(v) <==> 1 <= s.len() <= 12 && (forall|k: int|
            0 <= k < s.len() ==> 48 <= #[trigger] s[k] <= 57) && text::decimal(s) == v && v
            <= usize::MAX,
{
    text::law_number(s, v);
}

/// The bytes of an optional slice.
pub open spec fn bytes_of(value: Option<&[u8]>) -> Option<Seq<u8>> {
    match value {
        Some(v) => Some(v@),
        None => None,
    }
}

/// The number that an environment variable holds.
pub fn getenv_usize(value: Option<&[u8]>) -> (n: Option<usize>)
    ensures
        n is Some <==> env_number(bytes_of(value)) is Some,
        n matches Some(v) ==> env_number(bytes_of(value)) == Some(v as int),
{
    match value {
        None => None,
        Some(bytes) => {
            let len: usize = bytes.len();
            if len == 0 || len > MAX_DIGITS {
                return None;
            }
            assert(bytes@.subrange(0, len as int) =~= bytes@);
            text::parse_digits(bytes, 0, len)
        },
    }
}

/// Override for the detected NUMA node count.
pub fn num_nodes_override(value: Option<&[u8]>) -> (n: Option<usize>)
    ensures
        n is Some <==> (env_number(bytes_of(value)) matches Some(v) && 1 <= v <= 8),
        n matches Some(v) ==> env_number(bytes_of(value)) == Some(v as int),
{
    match getenv_usize(value) {
        Some(n) => if 1 <= n && n <= MAX_NODES {
            Some(n)
        } else {
            None
        },
        None => None,
    }
}

/// Override for the per-node region size in bytes.
pub fn region_size_override(value: Option<&[u8]>) -> (size: Option<usize>)
    ensures
        size is Some <==> (env_number(bytes_of(value)) matches Some(mb) && mb * 1048576
            <= usize::MAX && power2::is_pow2(mb * 1048576) && mb * 1048576 >= 262144),
        size matches Some(n) ==> n == env_number(bytes_of(value))->0 * 1048576,
{
    match getenv_usize(value) {
        Some(mb) => match mb.checked_mul(MEBIBYTE) {
            Some(bytes) => if layout::is_power_of_two(bytes) && bytes >= SMALL_LIMIT {
                Some(bytes)
            } else {
                None
            },
            None => None,
        },
        None => None,
    }
}

} // verus!
