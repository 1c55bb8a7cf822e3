//! A small deterministic random number generator (xorshift64*).
use vstd::prelude::*;

verus! {

/// The state after `x`.
pub open spec fn next_state(x: u64) -> u64 {
    let a = x ^ (x >> 12);
    let b = a ^ (a << 25);
    b ^ (b >> 27)
}

/// The number drawn when the state becomes `x`.
pub open spec fn drawn(x: u64) -> u64 {
    ((x * 0x2545F4914F6CDD1D) % 0x10000000000000000) as u64
}

/// The number below `n` (or zero) drawn when the state becomes `x`.
pub open spec fn drawn_below(x: u64, n: int) -> int {
    if n == 0 {
        0
    } else {
        drawn(x) as int % n
    }
}

/// A generator.
#[derive(Clone, Copy, PartialEq, Eq, Structural, Debug)]
pub struct Rng {
    state: u64,
}

impl Rng {
    /// The current state.
    pub closed spec fn at(&self) -> u64 {
        self.state
    }

    /// A generator that starts from `seed`, which counts as one if it is zero.
    pub fn new(seed: u64) -> (rng: Self)
        ensures
            rng.at() == (if seed == 0 {
                1
            } else {
                seed
            }),
    {
        Rng {
            state: if seed == 0 {
                1
            } else {
                seed
            },
        }
    }

    /// Draw a number.
    pub fn next_u64(&mut self) -> (r: u64)
        ensures
            final(self).at() == next_state(old(self).at()),
            r == drawn(final(self).at()),
    {
        let x: u64 = self.state;
        let a: u64 = x ^ (x >> 12);
        let b: u64 = a ^ (a << 25);
        self.state = b ^ (b >> 27);
        self.state.wrapping_mul(0x2545F4914F6CDD1D)
    }

    /// Draw a number below `n`; zero if `n` is.
    pub fn below(&mut self, n: usize) -> (r: usize)
        ensures
            final(self).at() == next_state(old(self).at()),
            r == drawn_below(final(self).at(), n as int),
            n > 0 ==> r < n,
    {
        let x: u64 = self.next_u64();
        if n == 0 {
            0
        } else {
            (x % n as u64) as usize
        }
    }
}

/// The three shifts that lead to the next state can be undone: different states
/// have different successors, and only zero leads to zero.
pub proof fn law_states(x: u64, y: u64)
    ensures
        next_state(x) == next_state(y) ==> x == y,
        next_state(x) == 0 <==> x == 0,
{
    let a = x ^ (x >> 12);
    let b = a ^ (a << 25);
    let c = y ^ (y >> 12);
    let d = c ^ (c << 25);
    assert(b ^ (b >> 27) == d ^ (d >> 27) ==> b == d) by (bit_vector);
    assert(a ^ (a << 25) == c ^ (c << 25) ==> a == c) by (bit_vector);
    assert(x ^ (x >> 12) == y ^ (y >> 12) ==> x == y) by (bit_vector);
    assert(b ^ (b >> 27) == 0 <==> b == 0) by (bit_vector);
    assert(a ^ (a << 25) == 0 <==> a == 0) by (bit_vector);
    assert(x ^ (x >> 12) == 0 <==> x == 0) by (bit_vector);
}

/// The successor of a combination is the combination of the successors; that of
/// a single bit has the bits that the shifts by 12, 25 and 27 carry it to.
pub proof fn law_linear(x: u64, y: u64)
    ensures
        next_state(x ^ y) == next_state(x) ^ next_state(y),
        next_state(1) == 0x2000001,
        next_state(0x1000) == 0x2002001401,
{
    assert(({
        let z = x ^ y;
        let a = z ^ (z >> 12);
        let b = a ^ (a << 25);
        let c = x ^ (x >> 12);
        let d = c ^ (c << 25);
        let e = y ^ (y >> 12);
        let f = e ^ (e << 25);
        b ^ (b >> 27) == (d ^ (d >> 27)) ^ (f ^ (f >> 27))
    })) by (bit_vector);
    assert(({
        let a = 1u64 ^ (1u64 >> 12);
        let b = a ^ (a << 25);
        b ^ (b >> 27) == 0x2000001
    })) by (bit_vector);
    assert(({
        let a = 0x1000u64 ^ (0x1000u64 >> 12);
        let b = a ^ (a << 25);
        b ^ (b >> 27) == 0x2002001401
    })) by (bit_vector);
}

/// The number drawn is the state times an odd constant, as far as 64 bits go; one
/// below `n` is its remainder.
pub proof fn law_drawn(x: u64, n: int)
    ensures
        exists|q: int| #[trigger] (q * 0x10000000000000000) + drawn(x) == x * 2685821657736338717,
        n > 0 ==> 0 <= drawn_below(x, n) < n && exists|q: int| #[trigger] (q * n) + drawn_below(
            x,
            n,
        ) == drawn(x),
        n == 0 ==> drawn_below(x, n) == 0,
{
    let z = x * 2685821657736338717;
    let w = 0x10000000000000000int;
    vstd::arithmetic::div_mod::lemma_fundamental_div_mod(z, w);
    vstd::arithmetic::div_mod::lemma_mod_bound(z, w);
    assert((z / w) * w + drawn(x) == z);
    if n > 0 {
        let d = drawn(x) as int;
        vstd::arithmetic::div_mod::lemma_fundamental_div_mod(d, n);
        vstd::arithmetic::div_mod::lemma_mod_bound(d, n);
        assert((d / n) * n == n * (d / n)) by (nonlinear_arith);
        assert((d / n) * n + drawn_below(x, n) == d);
    }
}

} // verus!
