//! Decimal numbers and lists in text, byte by byte.
use vstd::arithmetic::power::{lemma_pow0, lemma_pow1, lemma_pow_adds, lemma_pow_positive, pow};
use vstd::prelude::*;

verus! {

/// Byte of the digit `0`.
pub const ZERO: u8 = 48;

/// Byte of the digit `9`.
pub const NINE: u8 = 57;

/// Byte of `+`.
pub const PLUS: u8 = 43;

/// Every byte is a decimal digit.
pub open spec fn all_digits(s: Seq<u8>) -> bool {
    forall|i: int| 0 <= i < s.len() ==> ZERO <= #[trigger] s[i] <= NINE
}

/// Value of a sequence of decimal digits.
pub open spec fn decimal(s: Seq<u8>) -> int
    decreases s.len(),
{
    if s.len() == 0 {
        0
    } else {
        decimal(s.drop_last()) * 10 + (s.last() - ZERO)
    }
}

/// Value of digits, if there are any, all are, and the value fits a `usize`.
pub open spec fn digits(s: Seq<u8>) -> Option<int> {
    if s.len() > 0 && all_digits(s) && decimal(s) <= usize::MAX {
        Some(decimal(s))
    } else {
        None
    }
}

/// An unsigned number: digits, with or without a leading `+`.
pub open spec fn number(s: Seq<u8>) -> Option<int> {
    if s.len() > 0 && s[0] == PLUS {
        digits(s.skip(1))
    } else {
        digits(s)
    }
}

/// The value of digits has them as its decimal digits, the last one lowest, and
/// no others.
pub proof fn law_decimal(s: Seq<u8>, i: int)
    requires
        forall|k: int| 0 <= k < s.len() ==> 48 <= #[trigger] s[k] <= 57,
        0 <= i < s.len(),
    ensures
        0 <= decimal(s) < pow(10, s.len()),
        decimal(s) / pow(10, i as nat) % 10 == s[s.len() - 1 - i] - 48,
    decreases s.len(),
{
    let t = s.drop_last();
    let d = decimal(t);
    let e = s.last() - 48;
    assert forall|k: int| 0 <= k < t.len() implies 48 <= #[trigger] t[k] <= 57 by {
        assert(t[k] == s[k]);
    }
    assert(48 <= s[s.len() - 1] <= 57);
    lemma_pow1(10);
    lemma_pow0(10);
    lemma_pow_positive(10, t.len());
    assert(pow(10, s.len()) == 10 * pow(10, t.len())) by {
        lemma_pow_adds(10, 1, t.len());
    }
    if t.len() > 0 {
        law_decimal(t, if i > 0 {
            i - 1
        } else {
            0
        });
    } else {
        assert(t =~= Seq::empty());
    }
    if i > 0 {
        let q = pow(10, (i - 1) as nat);
        lemma_pow_positive(10, (i - 1) as nat);
        lemma_pow_adds(10, 1, (i - 1) as nat);
        vstd::arithmetic::div_mod::lemma_div_denominator(decimal(s), 10, q);
        assert(decimal(s) / 10 == d);
        assert(s[s.len() - 1 - i] == t[t.len() - 1 - (i - 1)]);
    } else {
        assert(decimal(s) / 1 == decimal(s));
    }
}

/// A text is a number exactly if it consists of digits, at least one, behind an
/// optional plus sign, whose value fits a `usize`.
pub proof fn law_number(s: Seq<u8>, v: int)
    ensures
        digits(s) == Some(v) <==> s.len() > 0 && (forall|k: int|
            0 <= k < s.len() ==> 48 <= #[trigger] s[k] <= 57) && decimal(s) == v && v
            <= usize::MAX,
        number(seq![43u8] + s) == digits(s),
        s.len() == 0 || s[0] != 43 ==> number(s) == digits(s),
{
    assert((seq![43u8] + s).skip(1) =~= s);
}

/// More digits make no smaller value.
proof fn lemma_decimal_prefix(s: Seq<u8>, k: int)
    requires
        all_digits(s),
        0 <= k <= s.len(),
    ensures
        0 <= decimal(s.take(k)) <= decimal(s),
    decreases s.len(),
{
    if s.len() == 0 {
        assert(s.take(k) =~= s);
    } else if k < s.len() {
        let t = s.drop_last();
        assert(all_digits(t));
        lemma_decimal_prefix(t, k);
        assert(t.take(k) =~= s.take(k));
        assert(s.last() == s[s.len() - 1]);
    } else {
        assert(s.take(k) =~= s);
        let t = s.drop_last();
        assert(all_digits(t));
        lemma_decimal_prefix(t, t.len() as int);
        assert(t.take(t.len() as int) =~= t);
        assert(s.last() == s[s.len() - 1]);
    }
}

/// Value of the digits in `text[from..to]`.
pub fn parse_digits(text: &[u8], from: usize, to: usize) -> (value: Option<usize>)
    requires
        from <= to <= text@.len(),
    ensures
        value is Some <==> digits(text@.subrange(from as int, to as int)) is Some,
        value matches Some(v) ==> digits(text@.subrange(from as int, to as int)) == Some(v as int),
{
    let ghost s = text@.subrange(from as int, to as int);
    if from == to {
        return None;
    }
    let mut value: usize = 0;
    let mut i: usize = from;
    assert(s.take(0) =~= Seq::empty());
    while i < to
        invariant
            from <= i <= to <= text@.len(),
            s == text@.subrange(from as int, to as int),
            all_digits(s.take(i - from)),
            value == decimal(s.take(i - from)),
        decreases to - i,
    {
        let b: u8 = text[i];
        let ghost k = i - from;
        assert(b == s[k]);
        if b < ZERO || b > NINE {
            return None;
        }
        proof {
            assert(s.take(k + 1).drop_last() =~= s.take(k));
            assert(s.take(k + 1).last() == b);
            assert(all_digits(s.take(k + 1)));
            if all_digits(s) {
                lemma_decimal_prefix(s, k + 1);
            }
        }
        let digit: usize = (b - ZERO) as usize;
        value =
        match value.checked_mul(10) {
            None => return None,
            Some(v) => match v.checked_add(digit) {
                None => return None,
                Some(v) => v,
            },
        };
        i += 1;
    }
    assert(s.take(to - from) =~= s);
    Some(value)
}

/// The number in `text[from..to]`.
pub fn parse_number(text: &[u8], from: usize, to: usize) -> (value: Option<usize>)
    requires
        from <= to <= text@.len(),
    ensures
        value is Some <==> number(text@.subrange(from as int, to as int)) is Some,
        value matches Some(v) ==> number(text@.subrange(from as int, to as int)) == Some(v as int),
{
    let ghost s = text@.subrange(from as int, to as int);
    if from < to && text[from] == PLUS {
        assert(s.skip(1) =~= text@.subrange(from + 1, to as int));
        parse_digits(text, from + 1, to)
    } else {
        parse_digits(text, from, to)
    }
}

/// Index of the first byte `b` of `s`, or the length if there is none.
pub open spec fn first_at(s: Seq<u8>, b: u8) -> int
    decreases s.len(),
{
    if s.len() == 0 || s[0] == b {
        0
    } else {
        1 + first_at(s.skip(1), b)
    }
}

/// The first byte `b` is where it is found and not before.
pub proof fn lemma_first_at(s: Seq<u8>, b: u8)
    ensures
        0 <= first_at(s, b) <= s.len(),
        first_at(s, b) < s.len() ==> s[first_at(s, b)] == b,
        forall|i: int| 0 <= i < first_at(s, b) ==> #[trigger] s[i] != b,
    decreases s.len(),
{
    if s.len() > 0 && s[0] != b {
        let t = s.skip(1);
        lemma_first_at(t, b);
        assert forall|i: int| 0 <= i < first_at(s, b) implies #[trigger] s[i] != b by {
            if i > 0 {
                assert(t[i - 1] == s[i]);
            }
        }
    }
}

/// Where the first byte `b` is, if nothing before it is `b`.
pub proof fn lemma_first_at_is(s: Seq<u8>, b: u8, k: int)
    requires
        0 <= k <= s.len(),
        k < s.len() ==> s[k] == b,
        forall|i: int| 0 <= i < k ==> #[trigger] s[i] != b,
    ensures
        first_at(s, b) == k,
{
    lemma_first_at(s, b);
    let j = first_at(s, b);
    if j < k {
        assert(s[j] != b);
    }
}

/// Index of the first byte `b` of `text[from..to]`, or `to` if there is none.
pub fn find(text: &[u8], from: usize, to: usize, b: u8) -> (at: usize)
    requires
        from <= to <= text@.len(),
    ensures
        from <= at <= to,
        at - from == first_at(text@.subrange(from as int, to as int), b),
{
    let ghost s = text@.subrange(from as int, to as int);
    let mut at: usize = from;
    while at < to
        invariant
            from <= at <= to <= text@.len(),
            s == text@.subrange(from as int, to as int),
            forall|i: int| 0 <= i < at - from ==> #[trigger] s[i] != b,
        decreases to - at,
    {
        if text[at] == b {
            assert(s[at - from] == b);
            proof {
                lemma_first_at_is(s, b, at - from);
            }
            return at;
        }
        assert(s[at - from] != b);
        at += 1;
    }
    proof {
        lemma_first_at_is(s, b, at - from);
    }
    at
}

} // verus!
