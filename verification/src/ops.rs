//! Operation sequences: what fuzz inputs and seed corpora are made of.
//!
//! An input is a string of bytes.  The decoder turns any string into a sequence
//! of operations, with sizes biased towards the boundaries at which the
//! allocator changes its behaviour; the encoder writes operations down so that
//! the decoder finds them again.
use vstd::prelude::*;

verus! {

/// Hard cap on a normal request; larger values are clamped.  Keeps mappings
/// and page-touching bounded per input.
pub const MAX_OP_SIZE: usize = 8388608;

/// Largest alignment used by the decoder is two to this power (4 MiB).
pub const MAX_ALIGN_SHIFT: u32 = 22;

/// Maximum number of operations decoded from one input.
pub const MAX_OPS: usize = 4096;

/// Maximum churn cycles per [`Op::Churn`].
pub const MAX_CHURN: usize = 64;

/// Bytes of a page.
pub const PAGE: usize = 4096;

/// Sizes at, just below and just above every boundary, in order: size classes,
/// bags, pages, the small-object limit, the large-cache and page-release
/// thresholds.
pub const BOUNDARY_SIZES: [usize; 69] = [
    1,
    2,
    3,
    7,
    8,
    9,
    15,
    16,
    17,
    31,
    32,
    33,
    63,
    64,
    65,
    127,
    128,
    129,
    255,
    256,
    257,
    511,
    512,
    513,
    1023,
    1024,
    1025,
    2047,
    2048,
    2049,
    4095,
    4096,
    4097,
    8191,
    8192,
    8193,
    12287,
    12288,
    12289,
    16383,
    16384,
    16385,
    32767,
    32768,
    32769,
    65535,
    65536,
    65537,
    131071,
    131072,
    131073,
    262143,
    262144,
    262145,
    266239,
    266240,
    266241,
    524287,
    524288,
    524289,
    532479,
    532480,
    532481,
    1048575,
    1048576,
    1048577,
    4194303,
    4194304,
    4194305,
];

/// Powers of two up to the largest alignment.
pub const POWERS: [usize; 23] = [
    1,
    2,
    4,
    8,
    16,
    32,
    64,
    128,
    256,
    512,
    1024,
    2048,
    4096,
    8192,
    16384,
    32768,
    65536,
    131072,
    262144,
    524288,
    1048576,
    2097152,
    4194304,
];

/// A size that no machine can serve (two to the power of 50), as far as
/// addresses reach.
pub const HUGE_SIZE: u64 = 1125899906842624;

/// Order used by bulk-free operations.
#[derive(Clone, Copy, PartialEq, Eq, Structural, Debug)]
pub enum FreeOrder {
    Fifo,
    Lifo,
    EverySecond,
}

/// One allocator-level operation.  All slot indices are taken modulo the slot
/// count; operations that are invalid for the current state (free of an empty
/// slot, realloc of an empty slot, ...) do nothing.
#[derive(Clone, Copy, PartialEq, Eq, Structural, Debug)]
pub enum Op {
    Alloc { slot: usize, size: usize, align: usize, zeroed: bool },
    Free { slot: usize },
    Realloc { slot: usize, new_size: usize },
    /// Free `slot` (if live) and allocate into it with the new parameters.
    Replace { slot: usize, size: usize, align: usize },
    /// Allocate `size`/`align` into every empty slot.
    FillEmpty { size: usize, align: usize },
    /// Free live slots in the given order.
    FreeAll { order: FreeOrder },
    /// `cycles` × (alloc, write, check, free) of the same layout in `slot`.
    Churn { slot: usize, size: usize, align: usize, cycles: usize },
    /// Rewrite `slot` with a fresh pattern.
    Touch { slot: usize },
    /// Verify the contents of every live slot.
    CheckAll,
    /// Run the allocator's internal invariant checker.
    Validate,
    /// A request that must fail (or, if it succeeds, be freed untouched):
    /// sizes at or beyond the address-space limit.
    Huge { size: usize, align: usize },
    /// Hand `slot` to another thread (`to` is taken modulo the thread count).
    /// Single-threaded runners treat it as [`Op::Touch`].
    Transfer { slot: usize, to: usize },
}

// ---------------------------------------------------------------------------
// What bytes mean
// ---------------------------------------------------------------------------
/// Boundary size for a byte.
pub open spec fn boundary(b: int) -> int {
    BOUNDARY_SIZES@[b % 69] as int
}

/// Two to the power of `k`.
pub open spec fn power(k: int) -> int {
    POWERS@[k] as int
}

/// `v`, but at least one and at most [`MAX_OP_SIZE`].
pub open spec fn clamp_size(v: int) -> int {
    if v < 1 {
        1
    } else if v > MAX_OP_SIZE {
        MAX_OP_SIZE as int
    } else {
        v
    }
}

/// Size for two bytes.  The two high bits of the first select the mode: a
/// boundary; a boundary with a small jitter; a small product; a power of two,
/// or close to one.
#[verifier::opaque]
pub open spec fn size_value(a: int, b: int) -> int {
    clamp_size(
        if a / 64 == 0 {
            boundary(b)
        } else if a / 64 == 1 {
            boundary(b) + a % 64 - 32
        } else if a / 64 == 2 {
            (b + 1) * (a % 64 + 1)
        } else {
            let p = power(b % 23);
            if a % 4 == 0 {
                p
            } else if a % 4 == 1 {
                p + 1
            } else if a % 4 == 2 {
                p - 1
            } else {
                p + p / 2
            }
        },
    )
}

/// Alignment for a byte: values below 128 give 1 to 128, the rest span the
/// full range.
#[verifier::opaque]
pub open spec fn align_value(b: int) -> int {
    if b < 128 {
        power(b % 8)
    } else {
        power((b - 128) % 23)
    }
}

/// Size of a request that must fail, for a byte.
pub open spec fn huge_value(b: int) -> int {
    if b % 4 == 0 {
        isize::MAX as int
    } else if b % 4 == 1 {
        isize::MAX - PAGE
    } else if b % 4 == 2 {
        if HUGE_SIZE <= usize::MAX {
            HUGE_SIZE as int
        } else {
            usize::MAX as int
        }
    } else {
        usize::MAX - PAGE
    }
}

/// Number of bytes of an operation, by its first byte.
pub open spec fn op_len(kind: int) -> int {
    let k = kind % 21;
    if k <= 5 || k == 11 {
        5
    } else if k <= 8 || k == 13 || k == 15 {
        2
    } else if k == 9 || k == 10 || k == 12 || k == 19 {
        4
    } else if k == 14 {
        6
    } else if k == 18 || k == 20 {
        3
    } else {
        1
    }
}

/// The operation that the bytes from `p` on stand for.
pub open spec fn op_at(d: Seq<u8>, p: int, nslots: int) -> Op {
    let k = d[p] as int % 21;
    let slot = (d[p + 1] as int % nslots) as usize;
    let size = size_value(d[p + 2] as int, d[p + 3] as int) as usize;
    let align = align_value(d[p + 4] as int) as usize;
    if k <= 5 {
        Op::Alloc { slot, size, align, zeroed: k == 5 }
    } else if k <= 8 {
        Op::Free { slot }
    } else if k <= 10 {
        Op::Realloc { slot, new_size: size }
    } else if k == 11 {
        Op::Replace { slot, size, align }
    } else if k == 12 {
        Op::FillEmpty {
            size: size_value(d[p + 1] as int, d[p + 2] as int) as usize,
            align: align_value(d[p + 3] as int) as usize,
        }
    } else if k == 13 {
        Op::FreeAll {
            order: if d[p + 1] % 3 == 0 {
                FreeOrder::Fifo
            } else if d[p + 1] % 3 == 1 {
                FreeOrder::Lifo
            } else {
                FreeOrder::EverySecond
            },
        }
    } else if k == 14 {
        Op::Churn { slot, size, align, cycles: (d[p + 5] as int % MAX_CHURN as int + 1) as usize }
    } else if k == 15 {
        Op::Touch { slot }
    } else if k == 16 {
        Op::CheckAll
    } else if k == 17 {
        Op::Validate
    } else if k == 18 {
        Op::Huge {
            size: huge_value(d[p + 1] as int) as usize,
            align: align_value(d[p + 2] as int) as usize,
        }
    } else if k == 20 {
        Op::Transfer { slot, to: d[p + 2] as usize }
    } else {
        // To the edge of a size class: one more or one less.
        Op::Realloc {
            slot,
            new_size: if d[p] / 32 % 2 == 1 {
                (size + 1) as usize
            } else if size < 2 {
                1
            } else {
                (size - 1) as usize
            },
        }
    }
}

/// The bytes from `p` on hold a whole operation.
pub open spec fn has_op(d: Seq<u8>, p: int) -> bool {
    0 <= p < d.len() && p + op_len(d[p] as int) <= d.len()
}

/// The operations, at most `n`, that the bytes from `p` on stand for.
pub open spec fn ops_from(d: Seq<u8>, p: int, nslots: int, n: nat) -> Seq<Op>
    decreases n,
{
    if n == 0 || !has_op(d, p) {
        Seq::empty()
    } else {
        seq![op_at(d, p, nslots)] + ops_from(
            d,
            p + op_len(d[p] as int),
            nslots,
            (n - 1) as nat,
        )
    }
}

// ---------------------------------------------------------------------------
// Decoder
// ---------------------------------------------------------------------------
/// Byte-stream cursor with boundary-biased value decoding.
pub struct Decoder<'a> {
    data: &'a [u8],
    pos: usize,
}

impl<'a> Decoder<'a> {
    /// The whole input.
    pub closed spec fn input(&self) -> Seq<u8> {
        self.data@
    }

    /// Number of bytes consumed.
    pub closed spec fn at(&self) -> int {
        self.pos as int
    }

    /// No more bytes were consumed than there are.
    pub open spec fn wf(&self) -> bool {
        self.at() <= self.input().len()
    }

    /// A cursor at the start of `data`.
    pub fn new(data: &'a [u8]) -> (d: Self)
        ensures
            d.input() == data@,
            d.at() == 0,
            d.wf(),
    {
        Decoder { data, pos: 0 }
    }

    /// Number of bytes left.
    pub fn remaining(&self) -> (n: usize)
        requires
            self.wf(),
        ensures
            n == self.input().len() - self.at(),
    {
        self.data.len() - self.pos
    }

    /// The next byte, or `None` when the input is exhausted.
    pub fn byte(&mut self) -> (b: Option<u8>)
        requires
            old(self).wf(),
        ensures
            final(self).wf(),
            final(self).input() == old(self).input(),
            b is Some <==> old(self).at() < old(self).input().len(),
            b matches Some(v) ==> v == old(self).input()[old(self).at()] && final(self).at()
                == old(self).at() + 1,
            b is None ==> final(self).at() == old(self).input().len(),
    {
        if self.pos < self.data.len() {
            let b: u8 = self.data[self.pos];
            self.pos += 1;
            Some(b)
        } else {
            None
        }
    }

    /// Two-byte size.
    pub fn size(&mut self) -> (size: Option<usize>)
        requires
            old(self).wf(),
        ensures
            final(self).wf(),
            final(self).input() == old(self).input(),
            size is Some <==> old(self).at() + 2 <= old(self).input().len(),
            size matches Some(v) ==> v == size_value(
                old(self).input()[old(self).at()] as int,
                old(self).input()[old(self).at() + 1] as int,
            ) && final(self).at() == old(self).at() + 2 && 1 <= v <= MAX_OP_SIZE,
            size is None ==> final(self).at() == old(self).input().len(),
    {
        let a: u8 = match self.byte() {
            Some(v) => v,
            None => return None,
        };
        let b: u8 = match self.byte() {
            Some(v) => v,
            None => return None,
        };
        Some(decode_size(a, b))
    }

    /// One-byte alignment.
    pub fn align(&mut self) -> (align: Option<usize>)
        requires
            old(self).wf(),
        ensures
            final(self).wf(),
            final(self).input() == old(self).input(),
            align is Some <==> old(self).at() < old(self).input().len(),
            align matches Some(v) ==> v == align_value(
                old(self).input()[old(self).at()] as int,
            ) && final(self).at() == old(self).at() + 1,
            align is None ==> final(self).at() == old(self).input().len(),
    {
        match self.byte() {
            Some(b) => Some(decode_align(b)),
            None => None,
        }
    }

    /// One-byte slot index.
    pub fn slot(&mut self, nslots: usize) -> (slot: Option<usize>)
        requires
            old(self).wf(),
            nslots > 0,
        ensures
            final(self).wf(),
            final(self).input() == old(self).input(),
            slot is Some <==> old(self).at() < old(self).input().len(),
            slot matches Some(v) ==> v == old(self).input()[old(self).at()] as int % nslots as int
                && final(self).at() == old(self).at() + 1,
            slot is None ==> final(self).at() == old(self).input().len(),
    {
        match self.byte() {
            Some(b) => Some(b as usize % nslots),
            None => None,
        }
    }

    /// Decode one operation, or `None` when the input is exhausted.
    pub fn op(&mut self, nslots: usize) -> (op: Option<Op>)
        requires
            old(self).wf(),
            nslots > 0,
        ensures
            final(self).wf(),
            final(self).input() == old(self).input(),
            op is Some <==> has_op(old(self).input(), old(self).at()),
            op matches Some(v) ==> v == op_at(old(self).input(), old(self).at(), nslots as int)
                && final(self).at() == old(self).at() + op_len(
                old(self).input()[old(self).at()] as int,
            ),
            op is None ==> final(self).at() == old(self).input().len(),
    {
        let kind: u8 = match self.byte() {
            Some(v) => v,
            None => return None,
        };
        let k: u8 = kind % 21;
        if k == 16 {
            return Some(Op::CheckAll);
        }
        if k == 17 {
            return Some(Op::Validate);
        }
        if k == 12 {
            let size: usize = match self.size() {
                Some(v) => v,
                None => return None,
            };
            return match self.align() {
                Some(align) => Some(Op::FillEmpty { size, align }),
                None => None,
            };
        }
        if k == 13 {
            return match self.byte() {
                Some(b) => Some(
                    Op::FreeAll {
                        order: if b % 3 == 0 {
                            FreeOrder::Fifo
                        } else if b % 3 == 1 {
                            FreeOrder::Lifo
                        } else {
                            FreeOrder::EverySecond
                        },
                    },
                ),
                None => None,
            };
        }
        if k == 18 {
            let size: usize = match self.byte() {
                Some(b) => huge_size(b),
                None => return None,
            };
            return match self.align() {
                Some(align) => Some(Op::Huge { size, align }),
                None => None,
            };
        }
        // All others start with a slot.
        let slot: usize = match self.slot(nslots) {
            Some(v) => v,
            None => return None,
        };
        if 6 <= k && k <= 8 {
            return Some(Op::Free { slot });
        }
        if k == 15 {
            return Some(Op::Touch { slot });
        }
        if k == 20 {
            return match self.byte() {
                Some(b) => Some(Op::Transfer { slot, to: b as usize }),
                None => None,
            };
        }
        let size: usize = match self.size() {
            Some(v) => v,
            None => return None,
        };
        if k == 9 || k == 10 {
            return Some(Op::Realloc { slot, new_size: size });
        }
        if k == 19 {
            return Some(
                Op::Realloc {
                    slot,
                    new_size: if kind / 32 % 2 == 1 {
                        size + 1
                    } else if size < 2 {
                        1
                    } else {
                        size - 1
                    },
                },
            );
        }
        let align: usize = match self.align() {
            Some(v) => v,
            None => return None,
        };
        if k <= 5 {
            return Some(Op::Alloc { slot, size, align, zeroed: k == 5 });
        }
        if k == 11 {
            return Some(Op::Replace { slot, size, align });
        }
        match self.byte() {
            Some(b) => Some(Op::Churn { slot, size, align, cycles: b as usize % MAX_CHURN + 1 }),
            None => None,
        }
    }

    /// Decode all operations, up to [`MAX_OPS`].
    pub fn ops(&mut self, nslots: usize) -> (ops: Vec<Op>)
        requires
            old(self).wf(),
            nslots > 0,
        ensures
            final(self).wf(),
            final(self).input() == old(self).input(),
            ops@ == ops_from(old(self).input(), old(self).at(), nslots as int, MAX_OPS as nat),
            ops@.len() <= MAX_OPS,
    {
        let ghost d = self.input();
        let ghost start = self.at();
        let mut v: Vec<Op> = Vec::new();
        assert(v@ + ops_from(d, start, nslots as int, MAX_OPS as nat) =~= ops_from(
            d,
            start,
            nslots as int,
            MAX_OPS as nat,
        ));
        while v.len() < MAX_OPS
            invariant_except_break
                v@ + ops_from(d, self.at(), nslots as int, (MAX_OPS - v@.len()) as nat)
                    == ops_from(d, start, nslots as int, MAX_OPS as nat),
            invariant
                self.wf(),
                self.input() == d,
                d == old(self).input(),
                start == old(self).at(),
                nslots > 0,
                v@.len() <= MAX_OPS,
            ensures
                v@ == ops_from(d, start, nslots as int, MAX_OPS as nat),
            decreases MAX_OPS - v@.len(),
        {
            let ghost p = self.at();
            let ghost n = (MAX_OPS - v@.len()) as nat;
            match self.op(nslots) {
                Some(op) => {
                    proof {
                        assert(v@.push(op) + ops_from(
                            d,
                            self.at(),
                            nslots as int,
                            (n - 1) as nat,
                        ) =~= v@ + ops_from(d, p, nslots as int, n));
                    }
                    v.push(op);
                },
                None => {
                    assert(v@ + ops_from(d, p, nslots as int, n) =~= v@);
                    break;
                },
            }
        }
        v
    }
}

/// Size for two bytes.
fn decode_size(a: u8, b: u8) -> (v: usize)
    ensures
        v == size_value(a as int, b as int),
        1 <= v <= MAX_OP_SIZE,
{
    reveal(size_value);
    let low: usize = (a % 64) as usize;
    let v: usize = if a / 64 == 0 {
        BOUNDARY_SIZES[(b % 69) as usize]
    } else if a / 64 == 1 {
        proof {
            lemma_boundary(b as int);
        }
        let t: usize = BOUNDARY_SIZES[(b % 69) as usize];
        if t + low < 33 {
            1
        } else {
            t + low - 32
        }
    } else if a / 64 == 2 {
        proof {
            assert((b + 1) * (low + 1) <= 256 * 64) by (nonlinear_arith)
                requires
                    0 <= b < 256,
                    0 <= low < 64,
            ;
            assert((b + 1) * (low + 1) >= 1) by (nonlinear_arith)
                requires
                    0 <= b < 256,
                    0 <= low < 64,
            ;
        }
        (b as usize + 1) * (low + 1)
    } else {
        proof {
            lemma_power(b as int % 23);
        }
        let p: usize = POWERS[(b % 23) as usize];
        if a % 4 == 0 {
            p
        } else if a % 4 == 1 {
            p + 1
        } else if a % 4 == 2 {
            p - 1
        } else {
            p + p / 2
        }
    };
    if v < 1 {
        1
    } else if v > MAX_OP_SIZE {
        MAX_OP_SIZE
    } else {
        v
    }
}

/// Alignment for a byte.
fn decode_align(b: u8) -> (v: usize)
    ensures
        v == align_value(b as int),
{
    reveal(align_value);
    if b < 128 {
        POWERS[(b % 8) as usize]
    } else {
        POWERS[((b - 128) % 23) as usize]
    }
}

/// Size of a request that must fail, for a byte.
pub fn huge_size(b: u8) -> (v: usize)
    ensures
        v == huge_value(b as int),
{
    if b % 4 == 0 {
        isize::MAX as usize
    } else if b % 4 == 1 {
        isize::MAX as usize - PAGE
    } else if b % 4 == 2 {
        if HUGE_SIZE <= usize::MAX as u64 {
            HUGE_SIZE as usize
        } else {
            usize::MAX
        }
    } else {
        usize::MAX - PAGE
    }
}

/// Boundary sizes are within the cap.
proof fn lemma_boundary(b: int)
    requires
        0 <= b < 256,
    ensures
        1 <= boundary(b) <= 4194305,
{
    assert forall|i: int| 0 <= i < 69 implies 1 <= #[trigger] BOUNDARY_SIZES@[i] <= 4194305 by {}
}

/// The listed powers are between one and 4 MiB.
proof fn lemma_power(k: int)
    requires
        0 <= k < 23,
    ensures
        1 <= POWERS@[k] <= 4194304,
{
}

// ---------------------------------------------------------------------------
// Encoder
// ---------------------------------------------------------------------------
/// The smallest number below `n` with property `f`, or `n` if there is none.
pub open spec fn first_with(f: spec_fn(int) -> bool, n: int) -> int
    decreases n,
{
    if n <= 0 {
        0
    } else if first_with(f, n - 1) < n - 1 {
        first_with(f, n - 1)
    } else if f(n - 1) {
        n - 1
    } else {
        n
    }
}

/// What [`first_with`] finds.
proof fn lemma_first_with(f: spec_fn(int) -> bool, n: int)
    requires
        n >= 0,
    ensures
        0 <= first_with(f, n) <= n,
        first_with(f, n) < n ==> f(first_with(f, n)),
        forall|i: int| 0 <= i < first_with(f, n) ==> !#[trigger] f(i),
    decreases n,
{
    if n > 0 {
        lemma_first_with(f, n - 1);
    }
}

/// A number with the property is the first if none before it has it.
proof fn lemma_first_with_is(f: spec_fn(int) -> bool, n: int, k: int)
    requires
        0 <= k <= n,
        k < n ==> f(k),
        forall|i: int| 0 <= i < k ==> !#[trigger] f(i),
    ensures
        first_with(f, n) == k,
{
    lemma_first_with(f, n);
    let j = first_with(f, n);
    if j < k {
        assert(!f(j));
    }
}

/// First byte that stands for exactly this boundary size.
pub open spec fn exact_index(size: int) -> int {
    first_with(|i: int| boundary(i) == size, 256)
}

/// Smallest factor up to 64, less one, whose cofactor is at most 256.
pub open spec fn factor_index(size: int) -> int {
    first_with(|i: int| size % (i + 1) == 0 && 1 <= size / (i + 1) <= 256, 64)
}

/// Exponent of a power of two up to 4 MiB.
pub open spec fn power_index(size: int) -> int {
    first_with(|i: int| power(i) == size, 23)
}

/// First byte that stands for a boundary within jitter of the size.
pub open spec fn close_index(size: int) -> int {
    first_with(|i: int| -32 <= size - boundary(i) <= 31, 256)
}

/// The sizes close to a power of two: 23 each of one more, one less and half
/// as much again.
pub open spec fn near_power(j: int) -> int {
    let p = power(j % 23);
    if j / 23 == 0 {
        p + 1
    } else if j / 23 == 1 {
        p - 1
    } else {
        p + p / 2
    }
}

/// First of the sizes close to a power of two that this one is.
pub open spec fn near_index(size: int) -> int {
    first_with(|j: int| near_power(j) == size, 69)
}

/// Distance between two sizes.
pub open spec fn distance(a: int, b: int) -> int {
    if a < b {
        b - a
    } else {
        a - b
    }
}

/// First byte whose boundary is nearest to the size.
pub open spec fn nearest_index(size: int) -> int {
    first_with(
        |i: int|
            forall|j: int| 0 <= j < 256 ==> distance(boundary(i), size) <= #[trigger] distance(
                boundary(j),
                size,
            ),
        256,
    )
}

/// The two bytes for a size: as a boundary, as a product, as a power of two,
/// as a boundary with jitter or as close to a power of two, whichever is
/// possible first; else the nearest boundary.
#[verifier::opaque]
pub open spec fn size_bytes(size: int) -> Seq<u8> {
    if exact_index(size) < 256 {
        seq![0u8, exact_index(size) as u8]
    } else if factor_index(size) < 64 {
        seq![
            (128 + factor_index(size)) as u8,
            (size / (factor_index(size) + 1) - 1) as u8,
        ]
    } else if power_index(size) < 23 {
        seq![192u8, power_index(size) as u8]
    } else if close_index(size) < 256 {
        seq![
            (64 + (size - boundary(close_index(size)) + 32)) as u8,
            close_index(size) as u8,
        ]
    } else if near_index(size) < 69 {
        seq![(193 + near_index(size) / 23) as u8, (near_index(size) % 23) as u8]
    } else {
        seq![0u8, nearest_index(size) as u8]
    }
}

/// The size can be written down exactly.
pub open spec fn representable(size: int) -> bool {
    &&& 1 <= size <= MAX_OP_SIZE
    &&& exact_index(size) < 256 || factor_index(size) < 64 || power_index(size) < 23
        || close_index(size) < 256 || near_index(size) < 69
}

/// Number of factors two of a number; zero has as many as an address has bits.
pub open spec fn twos(a: nat) -> int
    decreases a,
{
    if a == 0 {
        usize::BITS as int
    } else if a % 2 == 1 {
        0
    } else {
        1 + twos(a / 2)
    }
}

/// The byte for an alignment.
#[verifier::opaque]
pub open spec fn align_byte(align: int) -> u8 {
    if twos(align as nat) < 8 {
        twos(align as nat) as u8
    } else {
        (128 + twos(align as nat)) as u8
    }
}

/// The byte for a size that must fail.
pub open spec fn huge_byte(size: int) -> u8 {
    if size == huge_value(0) {
        0
    } else if size == huge_value(1) {
        1
    } else if size == huge_value(2) {
        2
    } else {
        3
    }
}

/// The byte for a slot.
pub open spec fn slot_byte(slot: int, nslots: int) -> u8 {
    (slot % nslots % 256) as u8
}

/// The bytes for an operation.
pub open spec fn op_bytes(op: Op, nslots: int) -> Seq<u8> {
    match op {
        Op::Alloc { slot, size, align, zeroed } => seq![
            if zeroed {
                5u8
            } else {
                0u8
            },
            slot_byte(slot as int, nslots),
        ] + size_bytes(size as int) + seq![align_byte(align as int)],
        Op::Free { slot } => seq![6u8, slot_byte(slot as int, nslots)],
        Op::Realloc { slot, new_size } => seq![9u8, slot_byte(slot as int, nslots)] + size_bytes(
            new_size as int,
        ),
        Op::Replace { slot, size, align } => seq![11u8, slot_byte(slot as int, nslots)] + size_bytes(
            size as int,
        ) + seq![align_byte(align as int)],
        Op::FillEmpty { size, align } => seq![12u8] + size_bytes(size as int) + seq![
            align_byte(align as int),
        ],
        Op::FreeAll { order } => seq![
            13u8,
            match order {
                FreeOrder::Fifo => 0u8,
                FreeOrder::Lifo => 1u8,
                FreeOrder::EverySecond => 2u8,
            },
        ],
        Op::Churn { slot, size, align, cycles } => seq![14u8, slot_byte(slot as int, nslots)]
            + size_bytes(size as int) + seq![
            align_byte(align as int),
            (if cycles < 1 {
                0
            } else if cycles > MAX_CHURN {
                MAX_CHURN - 1
            } else {
                cycles - 1
            }) as u8,
        ],
        Op::Touch { slot } => seq![15u8, slot_byte(slot as int, nslots)],
        Op::CheckAll => seq![16u8],
        Op::Validate => seq![17u8],
        Op::Huge { size, align } => seq![18u8, huge_byte(size as int), align_byte(align as int)],
        Op::Transfer { slot, to } => seq![20u8, slot_byte(slot as int, nslots), (to % 256) as u8],
    }
}

/// The alignment of an operation is a power of two up to 4 MiB.
pub open spec fn align_ok(op: Op) -> bool {
    match op {
        Op::Alloc { align, .. } => power_index(align as int) < 23,
        Op::Replace { align, .. } => power_index(align as int) < 23,
        Op::FillEmpty { align, .. } => power_index(align as int) < 23,
        Op::Churn { align, .. } => power_index(align as int) < 23,
        Op::Huge { align, .. } => power_index(align as int) < 23,
        _ => true,
    }
}

/// The bytes for the first `n` operations.
pub open spec fn ops_bytes(ops: Seq<Op>, nslots: int, n: int) -> Seq<u8>
    decreases n,
{
    if n <= 0 {
        Seq::empty()
    } else {
        ops_bytes(ops, nslots, n - 1) + op_bytes(ops[n - 1], nslots)
    }
}

/// Exponent of the power of two, or 23 if the number is none up to 4 MiB.
fn find_power(size: usize) -> (k: usize)
    ensures
        k == power_index(size as int),
{
    let ghost f = |i: int| power(i) == size as int;
    let mut k: usize = 0;
    while k < 23
        invariant
            k <= 23,
            f == (|i: int| power(i) == size as int),
            forall|i: int| 0 <= i < k ==> !#[trigger] f(i),
        decreases 23 - k,
    {
        if POWERS[k] == size {
            proof {
                assert(f(k as int));
                lemma_first_with_is(f, 23, k as int);
            }
            return k;
        }
        assert(!f(k as int));
        k += 1;
    }
    proof {
        lemma_first_with_is(f, 23, 23);
    }
    k
}

/// First byte that stands for exactly this boundary size, or 256.
fn find_exact(size: usize) -> (k: usize)
    ensures
        k == exact_index(size as int),
{
    let ghost f = |i: int| boundary(i) == size as int;
    let mut k: usize = 0;
    while k < 256
        invariant
            k <= 256,
            f == (|i: int| boundary(i) == size as int),
            forall|i: int| 0 <= i < k ==> !#[trigger] f(i),
        decreases 256 - k,
    {
        if BOUNDARY_SIZES[k % 69] == size {
            proof {
                assert(f(k as int));
                lemma_first_with_is(f, 256, k as int);
            }
            return k;
        }
        assert(!f(k as int));
        k += 1;
    }
    proof {
        lemma_first_with_is(f, 256, 256);
    }
    k
}

/// Smallest factor, less one, or 64.
fn find_factor(size: usize) -> (k: usize)
    ensures
        k == factor_index(size as int),
{
    let ghost f = |i: int| size as int % (i + 1) == 0 && 1 <= size as int / (i + 1) <= 256;
    let mut k: usize = 0;
    while k < 64
        invariant
            k <= 64,
            f == (|i: int| size as int % (i + 1) == 0 && 1 <= size as int / (i + 1) <= 256),
            forall|i: int| 0 <= i < k ==> !#[trigger] f(i),
        decreases 64 - k,
    {
        let a: usize = k + 1;
        if size % a == 0 && 1 <= size / a && size / a <= 256 {
            proof {
                assert(f(k as int));
                lemma_first_with_is(f, 64, k as int);
            }
            return k;
        }
        assert(!f(k as int));
        k += 1;
    }
    proof {
        lemma_first_with_is(f, 64, 64);
    }
    k
}

/// First byte that stands for a boundary within jitter, or 256.
fn find_close(size: usize) -> (k: usize)
    ensures
        k == close_index(size as int),
{
    let ghost f = |i: int| -32 <= size as int - boundary(i) <= 31;
    let mut k: usize = 0;
    while k < 256
        invariant
            k <= 256,
            f == (|i: int| -32 <= size as int - boundary(i) <= 31),
            forall|i: int| 0 <= i < k ==> !#[trigger] f(i),
        decreases 256 - k,
    {
        let t: usize = BOUNDARY_SIZES[k % 69];
        proof {
            lemma_boundary(k as int);
        }
        let close: bool = if size < t {
            t - size <= 32
        } else {
            size - t <= 31
        };
        if close {
            proof {
                assert(f(k as int));
                lemma_first_with_is(f, 256, k as int);
            }
            return k;
        }
        assert(!f(k as int));
        k += 1;
    }
    proof {
        lemma_first_with_is(f, 256, 256);
    }
    k
}

/// First of the sizes close to a power of two that this one is, or 69.
fn find_near(size: usize) -> (k: usize)
    ensures
        k == near_index(size as int),
{
    let ghost f = |j: int| near_power(j) == size as int;
    let mut k: usize = 0;
    while k < 69
        invariant
            k <= 69,
            f == (|j: int| near_power(j) == size as int),
            forall|j: int| 0 <= j < k ==> !#[trigger] f(j),
        decreases 69 - k,
    {
        let p: usize = POWERS[k % 23];
        proof {
            lemma_power(k as int % 23);
        }
        let near: usize = if k / 23 == 0 {
            p + 1
        } else if k / 23 == 1 {
            p - 1
        } else {
            p + p / 2
        };
        if near == size {
            proof {
                assert(f(k as int));
                lemma_first_with_is(f, 69, k as int);
            }
            return k;
        }
        assert(!f(k as int));
        k += 1;
    }
    proof {
        lemma_first_with_is(f, 69, 69);
    }
    k
}

/// First byte whose boundary is nearest.
fn find_nearest(size: usize) -> (k: usize)
    ensures
        k == nearest_index(size as int),
        k < 256,
{
    let ghost s = size as int;
    let ghost f = |i: int|
        forall|j: int|
            0 <= j < 256 ==> distance(boundary(i), s) <= #[trigger] distance(boundary(j), s);
    let mut best: usize = 0;
    let mut best_gap: usize = if size < BOUNDARY_SIZES[0] {
        BOUNDARY_SIZES[0] - size
    } else {
        size - BOUNDARY_SIZES[0]
    };
    let mut k: usize = 1;
    while k < 256
        invariant
            1 <= k <= 256,
            best < k,
            s == size,
            best_gap == distance(boundary(best as int), s),
            forall|j: int| 0 <= j < k ==> best_gap <= #[trigger] distance(boundary(j), s),
            forall|j: int| 0 <= j < best ==> best_gap < #[trigger] distance(boundary(j), s),
        decreases 256 - k,
    {
        let t: usize = BOUNDARY_SIZES[k % 69];
        let gap: usize = if size < t {
            t - size
        } else {
            size - t
        };
        assert(gap == distance(boundary(k as int), s));
        if gap < best_gap {
            best = k;
            best_gap = gap;
        }
        k += 1;
    }
    proof {
        assert(f(best as int));
        assert forall|i: int| 0 <= i < best implies !#[trigger] f(i) by {
            assert(distance(boundary(best as int), s) < distance(boundary(i), s));
        }
        lemma_first_with_is(f, 256, best as int);
    }
    best
}

/// Append the bytes for a size.
fn push_size(out: &mut Vec<u8>, size: usize)
    ensures
        final(out)@ == old(out)@ + size_bytes(size as int),
{
    reveal(size_bytes);
    let exact: usize = find_exact(size);
    let (a, b): (u8, u8) = if exact < 256 {
        (0, exact as u8)
    } else {
        let factor: usize = find_factor(size);
        if factor < 64 {
            proof {
                let f = |i: int| size as int % (i + 1) == 0 && 1 <= size as int / (i + 1) <= 256;
                lemma_first_with(f, 64);
                assert(f(factor as int));
            }
            (128 + factor as u8, (size / (factor + 1) - 1) as u8)
        } else {
            let power: usize = find_power(size);
            if power < 23 {
                (192, power as u8)
            } else {
                let close: usize = find_close(size);
                if close < 256 {
                    proof {
                        let f = |i: int| -32 <= size as int - boundary(i) <= 31;
                        lemma_first_with(f, 256);
                        assert(f(close as int));
                        lemma_boundary(close as int);
                    }
                    let t: usize = BOUNDARY_SIZES[close % 69];
                    let shifted: usize = if size < t {
                        32 - (t - size)
                    } else {
                        size - t + 32
                    };
                    (64 + shifted as u8, close as u8)
                } else {
                    let near: usize = find_near(size);
                    if near < 69 {
                        (193 + (near / 23) as u8, (near % 23) as u8)
                    } else {
                        (0, find_nearest(size) as u8)
                    }
                }
            }
        }
    };
    out.push(a);
    out.push(b);
    assert(out@ =~= old(out)@ + size_bytes(size as int));
}

/// Number of factors two.
fn count_twos(a: usize) -> (n: usize)
    ensures
        n == twos(a as nat),
        n <= 64,
{
    if a == 0 {
        return usize::BITS as usize;
    }
    let mut rest: usize = a;
    let mut n: usize = 0;
    proof {
        lemma_twos_bound(a as nat);
    }
    while rest % 2 == 0
        invariant
            rest > 0,
            a > 0,
            n + twos(rest as nat) == twos(a as nat),
            twos(a as nat) < 64,
            twos(rest as nat) >= 0,
        decreases rest,
    {
        proof {
            lemma_twos_bound((rest / 2) as nat);
        }
        rest = rest / 2;
        n += 1;
    }
    n
}

/// A number has fewer factors two than an address has bits.
proof fn lemma_twos_bound(a: nat)
    requires
        0 < a <= usize::MAX,
    ensures
        0 <= twos(a) < 64,
{
    vstd::arithmetic::power2::lemma2_to64();
    lemma_twos_pow(a, 64);
}

/// A number below a power of two has fewer factors two.
proof fn lemma_twos_pow(a: nat, k: nat)
    requires
        0 < a,
        a < vstd::arithmetic::power2::pow2(k),
    ensures
        0 <= twos(a) < k,
    decreases k,
{
    if k == 0 {
        vstd::arithmetic::power2::lemma2_to64();
    } else if a % 2 == 0 {
        vstd::arithmetic::power2::lemma_pow2_unfold(k);
        lemma_twos_pow(a / 2, (k - 1) as nat);
    }
}

/// A listed power has its exponent as number of factors two.
proof fn lemma_twos_power(k: int)
    requires
        0 <= k < 23,
    ensures
        twos(power(k) as nat) == k,
    decreases k,
{
    if k > 0 {
        lemma_twos_power(k - 1);
        lemma_power(k - 1);
        assert(power(k) == 2 * power(k - 1));
    }
}

/// Append the byte for an alignment.
fn push_align(out: &mut Vec<u8>, align: usize)
    ensures
        final(out)@ == old(out)@ + seq![align_byte(align as int)],
{
    reveal(align_byte);
    let shift: usize = count_twos(align);
    if shift < 8 {
        out.push(shift as u8);
    } else {
        out.push(128 + shift as u8);
    }
    assert(out@ =~= old(out)@ + seq![align_byte(align as int)]);
}

/// Append the bytes for an operation.
fn push_op(out: &mut Vec<u8>, op: Op, nslots: usize)
    requires
        0 < nslots,
    ensures
        final(out)@ == old(out)@ + op_bytes(op, nslots as int),
{
    match op {
        Op::Alloc { slot, size, align, zeroed } => {
            out.push(if zeroed {
                5
            } else {
                0
            });
            out.push((slot % nslots % 256) as u8);
            push_size(out, size);
            push_align(out, align);
        },
        Op::Free { slot } => {
            out.push(6);
            out.push((slot % nslots % 256) as u8);
        },
        Op::Transfer { slot, to } => {
            out.push(20);
            out.push((slot % nslots % 256) as u8);
            out.push((to % 256) as u8);
        },
        Op::Realloc { slot, new_size } => {
            out.push(9);
            out.push((slot % nslots % 256) as u8);
            push_size(out, new_size);
        },
        Op::Replace { slot, size, align } => {
            out.push(11);
            out.push((slot % nslots % 256) as u8);
            push_size(out, size);
            push_align(out, align);
        },
        Op::FillEmpty { size, align } => {
            out.push(12);
            push_size(out, size);
            push_align(out, align);
        },
        Op::FreeAll { order } => {
            out.push(13);
            out.push(
                match order {
                    FreeOrder::Fifo => 0,
                    FreeOrder::Lifo => 1,
                    FreeOrder::EverySecond => 2,
                },
            );
        },
        Op::Churn { slot, size, align, cycles } => {
            out.push(14);
            out.push((slot % nslots % 256) as u8);
            push_size(out, size);
            push_align(out, align);
            let n: usize = if cycles < 1 {
                1
            } else if cycles > MAX_CHURN {
                MAX_CHURN
            } else {
                cycles
            };
            out.push((n - 1) as u8);
        },
        Op::Touch { slot } => {
            out.push(15);
            out.push((slot % nslots % 256) as u8);
        },
        Op::CheckAll => {
            out.push(16);
        },
        Op::Validate => {
            out.push(17);
        },
        Op::Huge { size, align } => {
            out.push(18);
            out.push(
                if size == huge_size(0) {
                    0
                } else if size == huge_size(1) {
                    1
                } else if size == huge_size(2) {
                    2
                } else {
                    3
                },
            );
            push_align(out, align);
        },
    }
    assert(out@ =~= old(out)@ + op_bytes(op, nslots as int));
}

/// Encode operations into the byte format understood by [`Decoder`].  A size
/// that cannot be written down exactly becomes the nearest boundary.
pub fn encode(ops: &[Op], nslots: usize) -> (out: Vec<u8>)
    requires
        0 < nslots,
    ensures
        out@ == ops_bytes(ops@, nslots as int, ops@.len() as int),
{
    let mut out: Vec<u8> = Vec::new();
    let mut i: usize = 0;
    while i < ops.len()
        invariant
            i <= ops@.len(),
            0 < nslots,
            out@ == ops_bytes(ops@, nslots as int, i as int),
        decreases ops@.len() - i,
    {
        push_op(&mut out, ops[i], nslots);
        i += 1;
    }
    out
}

// ---------------------------------------------------------------------------
// The decoder finds what the encoder wrote
// ---------------------------------------------------------------------------
/// The operation can be written down exactly.
pub open spec fn encodable(op: Op, nslots: int) -> bool {
    &&& align_ok(op)
    &&& match op {
        Op::Alloc { slot, size, .. } => slot < nslots && representable(size as int),
        Op::Free { slot } => slot < nslots,
        Op::Realloc { slot, new_size } => slot < nslots && representable(new_size as int),
        Op::Replace { slot, size, .. } => slot < nslots && representable(size as int),
        Op::FillEmpty { size, .. } => representable(size as int),
        Op::FreeAll { .. } => true,
        Op::Churn { slot, size, cycles, .. } => slot < nslots && representable(size as int) && 1
            <= cycles <= MAX_CHURN,
        Op::Touch { slot } => slot < nslots,
        Op::CheckAll => true,
        Op::Validate => true,
        Op::Huge { size, .. } => size == huge_value(huge_byte(size as int) as int),
        Op::Transfer { slot, to } => slot < nslots && to < 256,
    }
}

/// A representable size is what its bytes stand for.
pub proof fn law_size_round_trip(size: int)
    requires
        representable(size),
    ensures
        size_bytes(size).len() == 2,
        size_value(size_bytes(size)[0] as int, size_bytes(size)[1] as int) == size,
{
    reveal(size_value);
    reveal(size_bytes);
    lemma_first_with(|i: int| boundary(i) == size, 256);
    lemma_first_with(|i: int| size % (i + 1) == 0 && 1 <= size / (i + 1) <= 256, 64);
    lemma_first_with(|i: int| power(i) == size, 23);
    lemma_first_with(|i: int| -32 <= size - boundary(i) <= 31, 256);
    if exact_index(size) < 256 {
    } else if factor_index(size) < 64 {
        let k = factor_index(size);
        vstd::arithmetic::div_mod::lemma_fundamental_div_mod(size, k + 1);
        assert((size / (k + 1)) * (k + 1) == (k + 1) * (size / (k + 1))) by (nonlinear_arith);
    } else if power_index(size) < 23 {
    } else if close_index(size) < 256 {
        lemma_boundary(close_index(size));
    } else {
        let j = near_index(size);
        lemma_first_with(|j: int| near_power(j) == size, 69);
        assert((193 + j / 23) % 4 == 1 + j / 23);
        assert(j % 23 % 23 == j % 23);
    }
}

/// Every size that two bytes can stand for is representable.
pub proof fn law_decoded_sizes_are_representable(a: int, b: int)
    requires
        0 <= a < 256,
        0 <= b < 256,
    ensures
        representable(size_value(a, b)),
{
    reveal(size_value);
    let size = size_value(a, b);
    let exact = |i: int| boundary(i) == size;
    let factor = |i: int| size % (i + 1) == 0 && 1 <= size / (i + 1) <= 256;
    let close = |i: int| -32 <= size - boundary(i) <= 31;
    lemma_first_with(exact, 256);
    lemma_first_with(factor, 64);
    lemma_first_with(close, 256);
    lemma_boundary(b);
    if a / 64 == 0 {
        assert(exact(b));
    } else if size == 1 {
        assert(factor(0));
    } else if a / 64 == 1 {
        assert(close(b));
    } else if a / 64 == 2 {
        let k = a % 64;
        assert((b + 1) * (k + 1) <= 256 * 64) by (nonlinear_arith)
            requires
                0 <= b < 256,
                0 <= k < 64,
        ;
        vstd::arithmetic::div_mod::lemma_div_multiples_vanish(b + 1, k + 1);
        vstd::arithmetic::div_mod::lemma_mod_multiples_basic(b + 1, k + 1);
        assert((b + 1) * (k + 1) == (k + 1) * (b + 1)) by (nonlinear_arith);
        assert((b + 1) * (k + 1) >= 1) by (nonlinear_arith)
            requires
                0 <= b,
                0 <= k,
        ;
        assert(factor(k));
    } else {
        let k = b % 23;
        lemma_power(k);
        if a % 4 == 0 {
            let whole = |i: int| power(i) == size;
            lemma_first_with(whole, 23);
            assert(whole(k));
        } else {
            let near = |j: int| near_power(j) == size;
            let j = (a % 4 - 1) * 23 + k;
            lemma_first_with(near, 69);
            assert(j % 23 == k && j / 23 == a % 4 - 1);
            assert(near(j));
        }
    }
}

/// An alignment is what its byte stands for.
pub proof fn law_align_round_trip(align: int)
    requires
        power_index(align) < 23,
    ensures
        align_value(align_byte(align) as int) == align,
{
    reveal(align_value);
    reveal(align_byte);
    lemma_first_with(|i: int| power(i) == align, 23);
    lemma_twos_power(power_index(align));
}

/// An operation that can be written down exactly is what its bytes stand for.
pub proof fn law_op_round_trip(op: Op, nslots: int)
    requires
        0 < nslots <= 256,
        encodable(op, nslots),
    ensures
        ({
            let d = op_bytes(op, nslots);
            &&& d.len() > 0
            &&& op_len(d[0] as int) == d.len()
            &&& op_at(d, 0, nslots) == op
        }),
{
    let d = op_bytes(op, nslots);
    match op {
        Op::Alloc { slot, size, align, zeroed } => {
            lemma_slot(slot as int, nslots);
            lemma_sized(d, 2, size as int, align as int);
        },
        Op::Free { slot } => {
            lemma_slot(slot as int, nslots);
        },
        Op::Realloc { slot, new_size } => {
            lemma_slot(slot as int, nslots);
            law_size_round_trip(new_size as int);
            assert(d[2] == size_bytes(new_size as int)[0]);
            assert(d[3] == size_bytes(new_size as int)[1]);
        },
        Op::Replace { slot, size, align } => {
            lemma_slot(slot as int, nslots);
            lemma_sized(d, 2, size as int, align as int);
        },
        Op::FillEmpty { size, align } => {
            lemma_sized(d, 1, size as int, align as int);
        },
        Op::Churn { slot, size, align, cycles } => {
            lemma_slot(slot as int, nslots);
            lemma_sized(d, 2, size as int, align as int);
        },
        Op::Touch { slot } => {
            lemma_slot(slot as int, nslots);
        },
        Op::Huge { size, align } => {
            law_align_round_trip(align as int);
        },
        Op::Transfer { slot, to } => {
            lemma_slot(slot as int, nslots);
        },
        _ => {},
    }
}

/// A slot index in range is what its byte stands for.
proof fn lemma_slot(slot: int, nslots: int)
    requires
        0 <= slot < nslots <= 256,
    ensures
        slot % nslots == slot,
        slot_byte(slot, nslots) == slot,
{
    vstd::arithmetic::div_mod::lemma_small_mod(slot as nat, nslots as nat);
}

/// Size and alignment bytes at `p` are what they stand for.
proof fn lemma_sized(d: Seq<u8>, p: int, size: int, align: int)
    requires
        representable(size),
        power_index(align) < 23,
        size_bytes(size).len() == 2 ==> d[p] == size_bytes(size)[0] && d[p + 1] == size_bytes(
            size,
        )[1] && d[p + 2] == align_byte(align),
    ensures
        size_bytes(size).len() == 2,
        size_value(d[p] as int, d[p + 1] as int) == size,
        align_value(d[p + 2] as int) == align,
{
    law_size_round_trip(size);
    law_align_round_trip(align);
}

/// What an operation's bytes stand for does not depend on where they are.
proof fn lemma_op_local(d: Seq<u8>, p: int, e: Seq<u8>, nslots: int)
    requires
        0 <= p,
        e.len() > 0,
        op_len(e[0] as int) == e.len(),
        p + e.len() <= d.len(),
        forall|i: int| 0 <= i < e.len() ==> #[trigger] e[i] == d[p + i],
    ensures
        has_op(d, p),
        op_len(d[p] as int) == e.len(),
        op_at(d, p, nslots) == op_at(e, 0, nslots),
{
    assert(e[0] == d[p + 0]);
    if e.len() > 1 {
        assert(e[1] == d[p + 1]);
    }
    if e.len() > 2 {
        assert(e[2] == d[p + 2]);
    }
    if e.len() > 3 {
        assert(e[3] == d[p + 3]);
    }
    if e.len() > 4 {
        assert(e[4] == d[p + 4]);
    }
    if e.len() > 5 {
        assert(e[5] == d[p + 5]);
    }
}

/// The bytes of the first operations are the first bytes of all.
proof fn lemma_ops_bytes_prefix(ops: Seq<Op>, nslots: int, k: int, n: int)
    requires
        0 <= k <= n <= ops.len(),
    ensures
        ops_bytes(ops, nslots, k).len() <= ops_bytes(ops, nslots, n).len(),
        forall|i: int|
            0 <= i < ops_bytes(ops, nslots, k).len() ==> #[trigger] ops_bytes(ops, nslots, n)[i]
                == ops_bytes(ops, nslots, k)[i],
    decreases n - k,
{
    if k < n {
        lemma_ops_bytes_prefix(ops, nslots, k, n - 1);
    }
}

/// The decoder finds exactly the operations that the encoder wrote, if all can
/// be written down exactly.
pub proof fn law_round_trip(ops: Seq<Op>, nslots: int)
    requires
        0 < nslots <= 256,
        ops.len() <= MAX_OPS,
        forall|i: int| 0 <= i < ops.len() ==> encodable(#[trigger] ops[i], nslots),
    ensures
        ops_from(ops_bytes(ops, nslots, ops.len() as int), 0, nslots, MAX_OPS as nat) == ops,
{
    lemma_round_trip_from(ops, nslots, 0, MAX_OPS as nat);
    assert(ops.skip(0) =~= ops);
}

proof fn lemma_round_trip_from(ops: Seq<Op>, nslots: int, k: int, n: nat)
    requires
        0 < nslots <= 256,
        0 <= k <= ops.len() <= k + n,
        forall|i: int| 0 <= i < ops.len() ==> encodable(#[trigger] ops[i], nslots),
    ensures
        ops_from(
            ops_bytes(ops, nslots, ops.len() as int),
            ops_bytes(ops, nslots, k).len() as int,
            nslots,
            n,
        ) == ops.skip(k),
    decreases ops.len() - k,
{
    let d = ops_bytes(ops, nslots, ops.len() as int);
    let p = ops_bytes(ops, nslots, k).len() as int;
    if k < ops.len() {
        let e = op_bytes(ops[k], nslots);
        law_op_round_trip(ops[k], nslots);
        lemma_ops_bytes_prefix(ops, nslots, k + 1, ops.len() as int);
        assert(ops_bytes(ops, nslots, k + 1) == ops_bytes(ops, nslots, k) + e);
        assert forall|i: int| 0 <= i < e.len() implies #[trigger] e[i] == d[p + i] by {
            assert(ops_bytes(ops, nslots, k + 1)[p + i] == e[i]);
        }
        lemma_op_local(d, p, e, nslots);
        lemma_round_trip_from(ops, nslots, k + 1, (n - 1) as nat);
        assert(seq![ops[k]] + ops.skip(k + 1) =~= ops.skip(k));
    } else {
        assert(ops.skip(k) =~= Seq::empty());
    }
}

/// What a decoded operation may ask for.
pub open spec fn bounded(op: Op, nslots: int) -> bool {
    match op {
        Op::Alloc { slot, size, align, .. } => slot < nslots && size_ok(size) && align_fits(align),
        Op::Free { slot } => slot < nslots,
        Op::Realloc { slot, new_size } => slot < nslots && 1 <= new_size <= MAX_OP_SIZE + 1,
        Op::Replace { slot, size, align } => slot < nslots && size_ok(size) && align_fits(align),
        Op::FillEmpty { size, align } => size_ok(size) && align_fits(align),
        Op::FreeAll { .. } => true,
        Op::Churn { slot, size, align, cycles } => slot < nslots && size_ok(size) && align_fits(
            align,
        ) && 1 <= cycles <= MAX_CHURN,
        Op::Touch { slot } => slot < nslots,
        Op::CheckAll => true,
        Op::Validate => true,
        Op::Huge { align, .. } => align_fits(align),
        Op::Transfer { slot, to } => slot < nslots && to < 256,
    }
}

/// A size that a request may have.
pub open spec fn size_ok(size: usize) -> bool {
    1 <= size <= MAX_OP_SIZE
}

/// An alignment that a request may have: a power of two up to 4 MiB.
pub open spec fn align_fits(align: usize) -> bool {
    &&& vstd::arithmetic::power2::is_pow2(align as int)
    &&& align <= 4194304
}

/// The listed powers are powers of two.
proof fn lemma_power_is_pow2(k: int)
    requires
        0 <= k < 23,
    ensures
        vstd::arithmetic::power2::is_pow2(power(k)),
    decreases k,
{
    reveal(vstd::arithmetic::power2::is_pow2);
    if k > 0 {
        lemma_power_is_pow2(k - 1);
        assert(POWERS@[k] == 2 * POWERS@[k - 1]);
    }
}

/// Alignments are powers of two up to 4 MiB.
proof fn lemma_align_fits(b: int)
    requires
        0 <= b < 256,
    ensures
        align_fits(align_value(b) as usize),
{
    reveal(align_value);
    let k = if b < 128 {
        b % 8
    } else {
        (b - 128) % 23
    };
    lemma_power(k);
    lemma_power_is_pow2(k);
}

/// Whatever the bytes, what is decoded from them is bounded: slots exist, sizes
/// lie between one byte and [`MAX_OP_SIZE`] (one more for a resize to the edge
/// of a class), and alignments are powers of two up to 4 MiB.
pub proof fn law_decoded_ops_are_bounded(d: Seq<u8>, p: int, nslots: int)
    requires
        0 < nslots <= usize::MAX,
        has_op(d, p),
    ensures
        bounded(op_at(d, p, nslots), nslots),
{
    let k = d[p] as int % 21;
    if k <= 5 || k == 11 || k == 14 {
        lemma_align_fits(d[p + 4] as int);
    } else if k == 12 {
        lemma_align_fits(d[p + 3] as int);
    } else if k == 18 {
        lemma_align_fits(d[p + 2] as int);
    }
    reveal(size_value);
    if p + 1 < d.len() {
        assert(0 <= d[p + 1] as int % nslots < nslots) by {
            vstd::arithmetic::div_mod::lemma_mod_bound(d[p + 1] as int, nslots);
        }
    }
}

/// At most [`MAX_OPS`] operations are decoded from one input.
pub proof fn law_op_count(d: Seq<u8>, p: int, nslots: int, n: nat)
    ensures
        ops_from(d, p, nslots, n).len() <= n,
    decreases n,
{
    if n > 0 && has_op(d, p) {
        law_op_count(d, p + op_len(d[p] as int), nslots, (n - 1) as nat);
    }
}

// ---------------------------------------------------------------------------
// The format, number by number
// ---------------------------------------------------------------------------
/// Powers of two up to 4 MiB.
pub proof fn law_powers(k: int)
    requires
        0 <= k < 23,
    ensures
        power(k) == vstd::arithmetic::power2::pow2(k as nat),
{
    vstd::arithmetic::power2::lemma2_to64();
}

/// Sizes that a pair of bytes stands for, relative to each other: a first byte
/// from 64 on moves the boundary of the second by up to 32 down and 31 up; one
/// from 128 on multiplies; one from 192 on gives a power of two, one more, one
/// less, or half as much again.  No size is below one.
pub proof fn law_sizes(k: int, b: int)
    requires
        0 <= k < 64,
        0 <= b < 256,
    ensures
        ({
            let plain = size_value(0, b);
            let moved = plain + k - 32;
            let p = vstd::arithmetic::power2::pow2((b % 23) as nat) as int;
            &&& size_value(k, b) == plain
            &&& size_value(64 + k, b) == (if moved < 1 {
                1
            } else {
                moved
            })
            &&& size_value(128 + k, b) == (k + 1) * (b + 1)
            &&& size_value(192 + k, b) == (if k % 4 == 0 {
                p
            } else if k % 4 == 1 {
                p + 1
            } else if k % 4 == 2 {
                if p == 1 {
                    1
                } else {
                    p - 1
                }
            } else {
                p + p / 2
            })
            &&& b >= 69 ==> plain == size_value(0, b - 69)
        }),
{
    reveal(size_value);
    law_powers(b % 23);
    lemma_power(b % 23);
    lemma_boundary(b);
    assert((b + 1) * (k + 1) == (k + 1) * (b + 1)) by (nonlinear_arith);
    assert(1 <= (b + 1) * (k + 1) <= 256 * 64) by (nonlinear_arith)
        requires
            0 <= b < 256,
            0 <= k < 64,
    ;
    assert((192 + k) % 4 == k % 4);
}

/// The boundary sizes: one, two and three; each power of two from 8 to 1 MiB, and
/// 4 MiB, and one less and one more; the same around three pages, and around one
/// page behind 256 KiB and two pages behind 512 KiB; in increasing order.
pub proof fn law_boundaries(k: int)
    requires
        0 <= k < 69,
    ensures
        ({
            let group = (k - 3) / 3;
            let middle = if group < 11 {
                vstd::arithmetic::power2::pow2((group + 3) as nat) as int
            } else if group == 11 {
                12288
            } else if group < 17 {
                vstd::arithmetic::power2::pow2((group + 2) as nat) as int
            } else if group == 17 {
                266240
            } else if group == 18 {
                524288
            } else if group == 19 {
                532480
            } else if group == 20 {
                1048576
            } else {
                4194304
            };
            size_value(0, k) == (if k < 3 {
                k + 1
            } else {
                middle + (k - 3) % 3 - 1
            })
        }),
{
    reveal(size_value);
    vstd::arithmetic::power2::lemma2_to64();
    lemma_boundary(k);
}

/// Alignments: a byte below 128 stands for 1 to 128, the others for up to 4 MiB.
pub proof fn law_alignments(b: int)
    requires
        0 <= b < 256,
    ensures
        b < 128 ==> align_value(b) == vstd::arithmetic::power2::pow2((b % 8) as nat),
        b >= 128 ==> align_value(b) == vstd::arithmetic::power2::pow2(((b - 128) % 23) as nat),
{
    reveal(align_value);
    law_powers(if b < 128 {
        b % 8
    } else {
        (b - 128) % 23
    });
}

/// Sizes that must fail: at the end of what a layout can have, a page before it,
/// a pebibyte, and a page before the end of the address space.
pub proof fn law_huge_sizes(b: int)
    requires
        0 <= b < 256,
    ensures
        b % 4 == 0 ==> huge_value(b) == isize::MAX,
        b % 4 == 1 ==> huge_value(b) == isize::MAX - 4096,
        b % 4 == 2 ==> huge_value(b) == (if 1125899906842624 <= usize::MAX {
            1125899906842624
        } else {
            usize::MAX as int
        }),
        b % 4 == 3 ==> huge_value(b) == usize::MAX - 4096,
{
}

/// The kinds of operations, by the remainder of their first byte by 21, and what
/// their other bytes stand for.
pub proof fn law_kinds(d: Seq<u8>, p: int, nslots: int)
    requires
        0 < nslots <= usize::MAX,
        has_op(d, p),
    ensures
        ({
            let kind = d[p] as int % 21;
            let here = d[p + 1] as int % nslots;
            let sized = size_value(d[p + 2] as int, d[p + 3] as int);
            let aligned = align_value(d[p + 4] as int);
            match op_at(d, p, nslots) {
                Op::Alloc { slot, size, align, zeroed } => kind <= 5 && (zeroed <==> kind == 5)
                    && slot == here && size == sized && align == aligned,
                Op::Free { slot } => 6 <= kind <= 8 && slot == here,
                Op::Realloc { slot, new_size } => slot == here && if kind == 19 {
                    new_size == (if d[p] / 32 % 2 == 1 {
                        sized + 1
                    } else if sized == 1 {
                        1
                    } else {
                        sized - 1
                    })
                } else {
                    9 <= kind <= 10 && new_size == sized
                },
                Op::Replace { slot, size, align } => kind == 11 && slot == here && size == sized
                    && align == aligned,
                Op::FillEmpty { size, align } => kind == 12 && size == size_value(
                    d[p + 1] as int,
                    d[p + 2] as int,
                ) && align == align_value(d[p + 3] as int),
                Op::FreeAll { order } => kind == 13 && match order {
                    FreeOrder::Fifo => d[p + 1] % 3 == 0,
                    FreeOrder::Lifo => d[p + 1] % 3 == 1,
                    FreeOrder::EverySecond => d[p + 1] % 3 == 2,
                },
                Op::Churn { slot, size, align, cycles } => kind == 14 && slot == here && size
                    == sized && align == aligned && cycles == 1 + d[p + 5] % 64,
                Op::Touch { slot } => kind == 15 && slot == here,
                Op::CheckAll => kind == 16,
                Op::Validate => kind == 17,
                Op::Huge { size, align } => kind == 18 && size == huge_value(d[p + 1] as int)
                    && align == align_value(d[p + 2] as int),
                Op::Transfer { slot, to } => kind == 20 && slot == here && to == d[p + 2],
            }
        }),
{
    let kind = d[p] as int % 21;
    law_decoded_ops_are_bounded(d, p, nslots);
    reveal(size_value);
    reveal(align_value);
    if p + 1 < d.len() {
        vstd::arithmetic::div_mod::lemma_mod_bound(d[p + 1] as int, nslots);
    }
    if kind <= 5 || kind == 11 || kind == 14 {
        let b = d[p + 4] as int;
        lemma_power(if b < 128 {
            b % 8
        } else {
            (b - 128) % 23
        });
    } else if kind == 12 {
        let b = d[p + 3] as int;
        lemma_power(if b < 128 {
            b % 8
        } else {
            (b - 128) % 23
        });
    } else if kind == 18 {
        let b = d[p + 2] as int;
        lemma_power(if b < 128 {
            b % 8
        } else {
            (b - 128) % 23
        });
    }
}

/// How many bytes an operation has: its kind, and one for a slot, two for a size
/// and one each for an alignment, an order, a number of cycles, a size that must
/// fail or a worker.
pub proof fn law_lengths(d: Seq<u8>, p: int, nslots: int)
    requires
        has_op(d, p),
    ensures
        op_len(d[p] as int) == match op_at(d, p, nslots) {
            Op::Alloc { .. } => 1 + 1 + 2 + 1int,
            Op::Free { .. } => 1 + 1int,
            Op::Realloc { .. } => 1 + 1 + 2int,
            Op::Replace { .. } => 1 + 1 + 2 + 1int,
            Op::FillEmpty { .. } => 1 + 2 + 1int,
            Op::FreeAll { .. } => 1 + 1int,
            Op::Churn { .. } => 1 + 1 + 2 + 1 + 1int,
            Op::Touch { .. } => 1 + 1int,
            Op::CheckAll => 1int,
            Op::Validate => 1int,
            Op::Huge { .. } => 1 + 1 + 1int,
            Op::Transfer { .. } => 1 + 1 + 1int,
        },
{
}

/// Operations are decoded one after the other: the first at the first byte, each
/// following one behind the last byte of the one before it, up to the limit or
/// the end of the bytes.
pub proof fn law_decoding(d: Seq<u8>, p: int, nslots: int, n: nat)
    requires
        0 <= p,
    ensures
        ops_from(d, p, nslots, n).len() == 0 <==> n == 0 || p >= d.len() || p + op_len(d[p] as int)
            > d.len(),
        ops_from(d, p, nslots, n).len() > 0 ==> {
            let s = ops_from(d, p, nslots, n);
            &&& s[0] == op_at(d, p, nslots)
            &&& s.skip(1) == ops_from(d, p + op_len(d[p] as int), nslots, (n - 1) as nat)
        },
{
    if n > 0 && has_op(d, p) {
        let s = ops_from(d, p, nslots, n);
        assert(s.skip(1) =~= ops_from(d, p + op_len(d[p] as int), nslots, (n - 1) as nat));
    }
}

/// A size that no bytes stand for is written as the boundary that is nearest to
/// it.
pub proof fn law_nearest(size: int, b: int)
    requires
        0 <= size,
        !representable(size),
        size <= 8388608,
        size > 0,
        0 <= b < 256,
    ensures
        ({
            let v = size_value(size_bytes(size)[0] as int, size_bytes(size)[1] as int);
            let w = size_value(0, b);
            let gap = if v < size {
                size - v
            } else {
                v - size
            };
            let other = if w < size {
                size - w
            } else {
                w - size
            };
            gap <= other
        }),
{
    reveal(size_value);
    reveal(size_bytes);
    let f = |i: int|
        forall|j: int|
            0 <= j < 256 ==> distance(boundary(i), size) <= #[trigger] distance(boundary(j), size);
    lemma_first_with(f, 256);
    lemma_some_nearest(size, 256);
    let k = nearest_index(size);
    if k == 256 {
        let i = choose|i: int|
            0 <= i < 256 && forall|j: int|
                0 <= j < 256 ==> distance(#[trigger] boundary(i), size) <= #[trigger] distance(
                    boundary(j),
                    size,
                );
        assert(f(i));
    }
    assert(f(k));
    lemma_boundary(k);
    lemma_boundary(b);
    assert(distance(boundary(k), size) <= distance(boundary(b), size));
}

/// Among the first `n` boundaries one is nearest.
proof fn lemma_some_nearest(size: int, n: int)
    requires
        0 < n,
    ensures
        exists|i: int|
            0 <= i < n && forall|j: int|
                0 <= j < n ==> distance(#[trigger] boundary(i), size) <= #[trigger] distance(
                    boundary(j),
                    size,
                ),
    decreases n,
{
    if n == 1 {
        assert(forall|j: int|
            0 <= j < 1 ==> distance(boundary(0), size) <= #[trigger] distance(boundary(j), size));
    } else {
        lemma_some_nearest(size, n - 1);
        let i = choose|i: int|
            0 <= i < n - 1 && forall|j: int|
                0 <= j < n - 1 ==> distance(#[trigger] boundary(i), size) <= #[trigger] distance(
                    boundary(j),
                    size,
                );
        let k = if distance(boundary(n - 1), size) < distance(boundary(i), size) {
            n - 1
        } else {
            i
        };
        assert forall|j: int| 0 <= j < n implies distance(boundary(k), size)
            <= #[trigger] distance(boundary(j), size) by {}
    }
}

/// What cannot be written is brought into range first: slots start over behind
/// the last, cycles are at least one and at most 64, and any other size that must
/// fail counts as the largest.
pub proof fn law_brought_into_range(slot: usize, cycles: usize, size: int, align: int, nslots: int)
    requires
        0 < nslots <= 256,
    ensures
        slot_byte(slot as int, nslots) == slot as int % nslots,
        op_bytes(Op::Churn { slot, size: 8, align: 8, cycles }, nslots).last() == (if cycles < 1 {
            0
        } else if cycles > 64 {
            63
        } else {
            cycles - 1
        }),
        size != isize::MAX && size != isize::MAX - 4096 && size != huge_value(2) ==> huge_byte(size)
            == 3,
        size == isize::MAX ==> huge_byte(size) == 0,
        size == isize::MAX - 4096 ==> huge_byte(size) == 1,
{
    vstd::arithmetic::div_mod::lemma_mod_bound(slot as int, nslots);
    vstd::arithmetic::div_mod::lemma_small_mod((slot as int % nslots) as nat, 256);
}

} // verus!
