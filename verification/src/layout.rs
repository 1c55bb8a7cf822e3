//! Layout of a block of memory: a size and an alignment.
use vstd::arithmetic::power2;
use vstd::prelude::*;

verus! {

/// The size and alignment pair is a layout: the alignment is a power of two
/// and the size, rounded up to it, does not exceed `isize::MAX`.
pub open spec fn valid_layout(size: int, align: int) -> bool {
    &&& power2::is_pow2(align)
    &&& size + align - 1 <= isize::MAX
}

/// Whether `x` is a power of two.
pub fn is_power_of_two(x: usize) -> (yes: bool)
    ensures
        yes == power2::is_pow2(x as int),
    decreases x,
{
    proof {
        reveal(power2::is_pow2);
    }
    if x == 0 {
        false
    } else if x == 1 {
        true
    } else {
        x % 2 == 0 && is_power_of_two(x / 2)
    }
}

/// Of two powers of two the smaller divides the larger.
pub proof fn lemma_pow2_divides(a: int, b: int)
    requires
        power2::is_pow2(a),
        power2::is_pow2(b),
        a <= b,
    ensures
        a > 0,
        b % a == 0,
    decreases b,
{
    reveal(power2::is_pow2);
    if a > 1 {
        lemma_pow2_divides(a / 2, b / 2);
        let p = a / 2;
        let q = (b / 2) / p;
        vstd::arithmetic::div_mod::lemma_fundamental_div_mod(b / 2, p);
        assert(b == q * a) by (nonlinear_arith)
            requires
                b == 2 * (p * q),
                a == 2 * p,
        ;
        vstd::arithmetic::div_mod::lemma_fundamental_div_mod_converse(b, a, q, 0);
    } else {
        assert(a == 1);
    }
}

/// Error of [`Layout::from_size_align`].
#[derive(Clone, Copy, PartialEq, Eq, Structural, Debug)]
pub struct LayoutError;

/// Layout of a block of memory.
#[derive(Clone, Copy, PartialEq, Eq, Structural, Debug)]
pub struct Layout {
    size: usize,
    align: usize,
}

impl Layout {
    /// Size in bytes.
    pub closed spec fn spec_size(&self) -> int {
        self.size as int
    }

    /// Alignment in bytes.
    pub closed spec fn spec_align(&self) -> int {
        self.align as int
    }

    /// The pair of a size and an alignment.
    pub closed spec fn of(size: usize, align: usize) -> Layout {
        Layout { size, align }
    }

    /// Size and alignment make a layout.
    pub open spec fn wf(&self) -> bool {
        &&& 0 <= self.spec_size()
        &&& valid_layout(self.spec_size(), self.spec_align())
    }

    /// The larger of size and alignment: an object of that size is also
    /// aligned well enough.
    pub open spec fn effective(&self) -> int {
        if self.spec_size() < self.spec_align() {
            self.spec_align()
        } else {
            self.spec_size()
        }
    }

    /// The layout of `size` bytes aligned to `align`.
    pub fn from_size_align(size: usize, align: usize) -> (r: Result<Layout, LayoutError>)
        ensures
            r is Ok <==> valid_layout(size as int, align as int),
            r matches Ok(l) ==> l == Layout::of(size, align) && l.spec_size() == size
                && l.spec_align() == align && l.wf(),
    {
        if !is_power_of_two(align) {
            return Err(LayoutError);
        }
        proof {
            reveal(power2::is_pow2);
        }
        if align - 1 > isize::MAX as usize || size > isize::MAX as usize - (align - 1) {
            return Err(LayoutError);
        }
        Ok(Layout { size, align })
    }

    /// Size in bytes.
    pub fn size(&self) -> (n: usize)
        ensures
            n == self.spec_size(),
    {
        self.size
    }

    /// Alignment in bytes.
    pub fn align(&self) -> (n: usize)
        ensures
            n == self.spec_align(),
    {
        self.align
    }

    /// The larger of size and alignment.
    pub fn effective_size(&self) -> (n: usize)
        ensures
            n == self.effective(),
    {
        if self.size < self.align {
            self.align
        } else {
            self.size
        }
    }

    /// Size and alignment of a pair.
    pub proof fn lemma_of(size: usize, align: usize)
        ensures
            Layout::of(size, align).spec_size() == size,
            Layout::of(size, align).spec_align() == align,
            valid_layout(size as int, align as int) ==> Layout::of(size, align).wf(),
    {
    }

    /// A layout is the pair of its size and its alignment.
    pub proof fn lemma_parts(&self)
        ensures
            *self == Layout::of(self.spec_size() as usize, self.spec_align() as usize),
    {
    }

    /// A layout has a positive alignment that fits an address.
    pub proof fn lemma_bounds(&self)
        requires
            self.wf(),
        ensures
            1 <= self.spec_align() <= isize::MAX + 1,
            0 <= self.spec_size() <= isize::MAX,
            1 <= self.effective() <= isize::MAX + 1,
    {
        reveal(power2::is_pow2);
    }
}

} // verus!
