//! The CPUs of a NUMA node, from the node's sysfs `cpulist` file.
//!
//! The file holds a comma-separated list of CPU numbers and ranges, such as
//! `0-3,8,10-11`, surrounded by white space.
use crate::text;
use vstd::prelude::*;

verus! {

/// Number of CPUs in an affinity mask.
pub const CPU_SETSIZE: usize = 1024;

/// Size of the buffer that the file is read into.
pub const CPULIST_BUFFER: usize = 8192;

/// Byte of `,`.
pub const COMMA: u8 = 44;

/// Byte of `-`.
pub const DASH: u8 = 45;

// ---------------------------------------------------------------------------
// White space
// ---------------------------------------------------------------------------
/// The byte is an ASCII white-space character.
pub open spec fn white1(a: u8) -> bool {
    9 <= a <= 13 || a == 32
}

/// The bytes are the UTF-8 encoding of a white-space character: NEL or the
/// no-break space.
pub open spec fn white2(a: u8, b: u8) -> bool {
    a == 0xc2 && (b == 0x85 || b == 0xa0)
}

/// The bytes are the UTF-8 encoding of a white-space character: the Ogham
/// space mark, the general-punctuation spaces and separators, or the
/// ideographic space.
pub open spec fn white3(a: u8, b: u8, c: u8) -> bool {
    ||| a == 0xe1 && b == 0x9a && c == 0x80
    ||| a == 0xe2 && b == 0x80 && (0x80 <= c <= 0x8a || c == 0xa8 || c == 0xa9 || c == 0xaf)
    ||| a == 0xe2 && b == 0x81 && c == 0x9f
    ||| a == 0xe3 && b == 0x80 && c == 0x80
}

/// Number of bytes of the white-space character that `s` starts with.
pub open spec fn white_front(s: Seq<u8>) -> int {
    if s.len() >= 1 && white1(s[0]) {
        1
    } else if s.len() >= 2 && white2(s[0], s[1]) {
        2
    } else if s.len() >= 3 && white3(s[0], s[1], s[2]) {
        3
    } else {
        0
    }
}

/// Number of bytes of the white-space character that `s` ends with.
pub open spec fn white_back(s: Seq<u8>) -> int {
    let n = s.len() as int;
    if n >= 1 && white1(s[n - 1]) {
        1
    } else if n >= 2 && white2(s[n - 2], s[n - 1]) {
        2
    } else if n >= 3 && white3(s[n - 3], s[n - 2], s[n - 1]) {
        3
    } else {
        0
    }
}

/// `s` without white space at the start.
pub open spec fn trim_front(s: Seq<u8>) -> Seq<u8>
    decreases s.len(),
{
    if white_front(s) > 0 {
        trim_front(s.skip(white_front(s)))
    } else {
        s
    }
}

/// `s` without white space at the end.
pub open spec fn trim_back(s: Seq<u8>) -> Seq<u8>
    decreases s.len(),
{
    if white_back(s) > 0 {
        trim_back(s.take(s.len() - white_back(s)))
    } else {
        s
    }
}

/// `s` without white space around it.
pub open spec fn trim(s: Seq<u8>) -> Seq<u8> {
    trim_back(trim_front(s))
}

// ---------------------------------------------------------------------------
// The list
// ---------------------------------------------------------------------------
/// The parts of `s` between commas.
pub open spec fn pieces(s: Seq<u8>) -> Seq<Seq<u8>>
    decreases s.len(),
    via pieces_decreases
{
    let i = text::first_at(s, COMMA);
    if i < s.len() {
        seq![s.take(i)] + pieces(s.skip(i + 1))
    } else {
        seq![s]
    }
}

#[via_fn]
proof fn pieces_decreases(s: Seq<u8>) {
    text::lemma_first_at(s, COMMA);
}

/// First and last CPU of a part: two numbers around a dash, or one number.
pub open spec fn range_of(p: Seq<u8>) -> Option<(int, int)> {
    let i = text::first_at(p, DASH);
    let (a, b) = if i < p.len() {
        (text::number(p.take(i)), text::number(p.skip(i + 1)))
    } else {
        (text::number(p), text::number(p))
    };
    match (a, b) {
        (Some(x), Some(y)) => if x <= y {
            Some((x, y))
        } else {
            None
        },
        _ => None,
    }
}

/// Every part of the list is a CPU number or a range of them.
pub open spec fn is_list(ps: Seq<Seq<u8>>) -> bool {
    forall|i: int| 0 <= i < ps.len() ==> range_of(#[trigger] ps[i]) is Some
}

/// The part of a list is the CPU or a range with it.
pub open spec fn has_cpu(p: Seq<u8>, cpu: int) -> bool {
    match range_of(p) {
        Some((a, b)) => a <= cpu <= b,
        None => false,
    }
}

/// The list names the CPU.
pub open spec fn names(ps: Seq<Seq<u8>>, cpu: int) -> bool {
    exists|i: int| 0 <= i < ps.len() && has_cpu(#[trigger] ps[i], cpu)
}

/// The list that a cpulist file holds.
pub open spec fn list_of(content: Seq<u8>) -> Seq<Seq<u8>> {
    pieces(trim(content))
}

/// A part of a list names a CPU as a number, or as one between two numbers around
/// a dash, which it may be equal to.
pub open spec fn part_names(p: Seq<u8>, cpu: int) -> bool {
    ||| text::number(p) == Some(cpu)
    ||| exists|d: int, x: int, y: int| #[trigger] is_range(p, d, x, y) && x <= cpu <= y
}

/// The part consists of the numbers `x` and `y`, the second no smaller, around
/// the dash at `d`.
pub open spec fn is_range(p: Seq<u8>, d: int, x: int, y: int) -> bool {
    &&& 0 <= d < p.len()
    &&& p[d] == 45
    &&& text::number(p.take(d)) == Some(x)
    &&& text::number(p.skip(d + 1)) == Some(y)
    &&& x <= y
}

/// A number has no byte but digits and a plus sign.
proof fn lemma_number_bytes(s: Seq<u8>, i: int)
    requires
        text::number(s) is Some,
        0 <= i < s.len(),
    ensures
        48 <= s[i] <= 57 || s[i] == 43,
{
    if s[0] == text::PLUS {
        if i > 0 {
            assert(s.skip(1)[i - 1] == s[i]);
        }
    }
}

/// What a part stands for: itself if it is a number, and all from the first to
/// the second of two numbers around a dash; anything else is no part.
pub proof fn law_part(p: Seq<u8>, cpu: int)
    ensures
        has_cpu(p, cpu) <==> part_names(p, cpu),
        range_of(p) is Some <==> text::number(p) is Some || exists|d: int, x: int, y: int|
            is_range(p, d, x, y),
{
    let i = text::first_at(p, DASH);
    text::lemma_first_at(p, DASH);
    if text::number(p) is Some && i < p.len() {
        lemma_number_bytes(p, i);
    }
    assert forall|d: int, x: int, y: int| #[trigger] is_range(p, d, x, y) implies d == i by {
        let a = p.take(d);
        if i < d {
            assert(a[i] == p[i]);
            lemma_number_bytes(a, i);
        }
    }
    match range_of(p) {
        Some((x, y)) => {
            if i < p.len() {
                assert(is_range(p, i, x, y));
            }
        },
        None => {},
    }
}

/// The mask of a list has exactly the CPUs that one of its parts names, and a
/// text is a list exactly if every part is a number or a range.
pub proof fn law_list(content: Seq<u8>, cpu: int)
    ensures
        names(list_of(content), cpu) <==> exists|i: int|
            0 <= i < list_of(content).len() && part_names(#[trigger] list_of(content)[i], cpu),
        is_list(list_of(content)) <==> forall|i: int|
            0 <= i < list_of(content).len() ==> {
                let p = #[trigger] list_of(content)[i];
                text::number(p) is Some || exists|d: int, x: int, y: int| is_range(p, d, x, y)
            },
{
    let ps = list_of(content);
    assert forall|i: int| 0 <= i < ps.len() implies {
        let p = #[trigger] ps[i];
        &&& has_cpu(p, cpu) <==> part_names(p, cpu)
        &&& range_of(p) is Some <==> text::number(p) is Some || exists|d: int, x: int, y: int|
            is_range(p, d, x, y)
    } by {
        law_part(ps[i], cpu);
    }
}

/// The parts, with commas between them.
pub open spec fn joined(ps: Seq<Seq<u8>>) -> Seq<u8>
    decreases ps.len(),
{
    if ps.len() == 0 {
        Seq::empty()
    } else if ps.len() == 1 {
        ps[0]
    } else {
        ps[0] + seq![44u8] + joined(ps.skip(1))
    }
}

/// The parts of a text have no commas, and are the text when they are joined with
/// commas.
pub proof fn law_pieces(s: Seq<u8>)
    ensures
        pieces(s).len() > 0,
        joined(pieces(s)) == s,
        forall|i: int, k: int|
            0 <= i < pieces(s).len() && 0 <= k < pieces(s)[i].len() ==> #[trigger] pieces(s)[i][k]
                != 44,
    decreases s.len(),
{
    let i = text::first_at(s, COMMA);
    text::lemma_first_at(s, COMMA);
    if i < s.len() {
        let rest = s.skip(i + 1);
        law_pieces(rest);
        let ps = pieces(s);
        assert(ps.skip(1) =~= pieces(rest));
        assert(s =~= s.take(i) + seq![44u8] + rest);
        assert forall|j: int, k: int|
            0 <= j < ps.len() && 0 <= k < ps[j].len() implies #[trigger] ps[j][k] != 44 by {
            if j > 0 {
                assert(ps[j] == pieces(rest)[j - 1]);
            }
        }
    }
}

/// The byte is an ASCII white-space character: tab, line feed, vertical tab, form
/// feed, carriage return or space.
pub open spec fn blank(b: u8) -> bool {
    b == 9 || b == 10 || b == 11 || b == 12 || b == 13 || b == 32
}

/// Of an ASCII text exactly the white space around it is trimmed.
pub proof fn law_trim(s: Seq<u8>) -> (r: (int, int))
    requires
        forall|k: int| 0 <= k < s.len() ==> #[trigger] s[k] < 128,
    ensures
        0 <= r.0 <= r.1 <= s.len(),
        trim(s) == s.subrange(r.0, r.1),
        forall|k: int| 0 <= k < r.0 || r.1 <= k < s.len() ==> blank(#[trigger] s[k]),
        r.0 < r.1 ==> !blank(s[r.0]) && !blank(s[r.1 - 1]),
{
    let a = lemma_trim_front(s);
    let t = s.skip(a);
    let n = lemma_trim_back(t);
    assert(t.take(n) =~= s.subrange(a, a + n));
    assert forall|k: int| a + n <= k < s.len() implies blank(#[trigger] s[k]) by {
        assert(t[k - a] == s[k]);
    }
    (a, a + n)
}

/// What is trimmed at the start of an ASCII text.
proof fn lemma_trim_front(s: Seq<u8>) -> (a: int)
    requires
        forall|k: int| 0 <= k < s.len() ==> #[trigger] s[k] < 128,
    ensures
        0 <= a <= s.len(),
        trim_front(s) == s.skip(a),
        forall|k: int| 0 <= k < a ==> blank(#[trigger] s[k]),
        a < s.len() ==> !blank(s[a]),
    decreases s.len(),
{
    if s.len() > 0 && white1(s[0]) {
        let t = s.skip(1);
        let b = lemma_trim_front(t);
        assert(t.skip(b) =~= s.skip(b + 1));
        assert forall|k: int| 0 <= k < b + 1 implies blank(#[trigger] s[k]) by {
            if k > 0 {
                assert(t[k - 1] == s[k]);
            }
        }
        b + 1
    } else {
        assert(white_front(s) == 0);
        assert(s.skip(0) =~= s);
        0
    }
}

/// What is trimmed at the end of an ASCII text.
proof fn lemma_trim_back(s: Seq<u8>) -> (n: int)
    requires
        forall|k: int| 0 <= k < s.len() ==> #[trigger] s[k] < 128,
    ensures
        0 <= n <= s.len(),
        trim_back(s) == s.take(n),
        forall|k: int| n <= k < s.len() ==> blank(#[trigger] s[k]),
        0 < n ==> !blank(s[n - 1]),
    decreases s.len(),
{
    if s.len() > 0 && white1(s[s.len() - 1]) {
        let t = s.take(s.len() - 1);
        let n = lemma_trim_back(t);
        assert(t.take(n) =~= s.take(n));
        assert forall|k: int| n <= k < s.len() implies blank(#[trigger] s[k]) by {
            if k < s.len() - 1 {
                assert(t[k] == s[k]);
            }
        }
        n
    } else {
        assert(white_back(s) == 0);
        assert(s.take(s.len() as int) =~= s);
        s.len() as int
    }
}

/// The longer white-space characters: the UTF-8 encodings of U+0085, U+00A0,
/// U+1680, U+2000 to U+200A, U+2028, U+2029, U+202F, U+205F and U+3000.
pub proof fn law_white_space(a: u8, b: u8, c: u8)
    ensures
        ({
            let two = (a - 192) * 64 + (b - 128);
            let three = (a - 224) * 4096 + (b - 128) * 64 + (c - 128);
            &&& white2(a, b) <==> 194 <= a < 224 && 128 <= b < 192 && (two == 0x85 || two == 0xa0)
            &&& white3(a, b, c) <==> 224 <= a < 240 && 128 <= b < 192 && 128 <= c < 192 && (three
                == 0x1680 || 0x2000 <= three <= 0x200a || three == 0x2028 || three == 0x2029
                || three == 0x202f || three == 0x205f || three == 0x3000)
        }),
{
}

fn is_white1(a: u8) -> (yes: bool)
    ensures
        yes == white1(a),
{
    9 <= a && a <= 13 || a == 32
}

fn is_white2(a: u8, b: u8) -> (yes: bool)
    ensures
        yes == white2(a, b),
{
    a == 0xc2 && (b == 0x85 || b == 0xa0)
}

fn is_white3(a: u8, b: u8, c: u8) -> (yes: bool)
    ensures
        yes == white3(a, b, c),
{
    a == 0xe1 && b == 0x9a && c == 0x80 || a == 0xe2 && b == 0x80 && (0x80 <= c && c <= 0x8a || c
        == 0xa8 || c == 0xa9 || c == 0xaf) || a == 0xe2 && b == 0x81 && c == 0x9f || a == 0xe3 && b
        == 0x80 && c == 0x80
}

/// Bounds of the content without white space around it.
fn trim_bounds(content: &[u8]) -> (r: (usize, usize))
    ensures
        r.0 <= r.1 <= content@.len(),
        content@.subrange(r.0 as int, r.1 as int) == trim(content@),
{
    let total: usize = content.len();
    let mut from: usize = 0;
    assert(content@.subrange(0, total as int) =~= content@);
    loop
        invariant
            from <= total,
            total == content@.len(),
            trim_front(content@.subrange(from as int, total as int)) == trim_front(content@),
        ensures
            content@.subrange(from as int, total as int) == trim_front(content@),
        decreases total - from,
    {
        let ghost s = content@.subrange(from as int, total as int);
        let n: usize = if total - from >= 1 && is_white1(content[from]) {
            1
        } else if total - from >= 2 && is_white2(content[from], content[from + 1]) {
            2
        } else if total - from >= 3 && is_white3(
            content[from],
            content[from + 1],
            content[from + 2],
        ) {
            3
        } else {
            0
        };
        assert(n == white_front(s));
        if n == 0 {
            break;
        }
        assert(s.skip(n as int) =~= content@.subrange(from + n, total as int));
        from += n;
    }
    let mut to: usize = total;
    loop
        invariant
            from <= to <= total,
            total == content@.len(),
            trim_back(content@.subrange(from as int, to as int)) == trim(content@),
        ensures
            content@.subrange(from as int, to as int) == trim(content@),
        decreases to - from,
    {
        let ghost s = content@.subrange(from as int, to as int);
        let n: usize = if to - from >= 1 && is_white1(content[to - 1]) {
            1
        } else if to - from >= 2 && is_white2(content[to - 2], content[to - 1]) {
            2
        } else if to - from >= 3 && is_white3(
            content[to - 3],
            content[to - 2],
            content[to - 1],
        ) {
            3
        } else {
            0
        };
        assert(n == white_back(s));
        if n == 0 {
            break;
        }
        assert(s.take(s.len() - n) =~= content@.subrange(from as int, to - n));
        to -= n;
    }
    (from, to)
}

/// First and last CPU of the part `content[from..to]`.
fn parse_range(content: &[u8], from: usize, to: usize) -> (r: Option<(usize, usize)>)
    requires
        from <= to <= content@.len(),
    ensures
        r is Some <==> range_of(content@.subrange(from as int, to as int)) is Some,
        r matches Some((a, b)) ==> range_of(content@.subrange(from as int, to as int)) == Some(
            (a as int, b as int),
        ),
{
    let ghost p = content@.subrange(from as int, to as int);
    let dash: usize = text::find(content, from, to, DASH);
    let (start, end) = if dash < to {
        assert(p.take(dash - from) =~= content@.subrange(from as int, dash as int));
        assert(p.skip(dash - from + 1) =~= content@.subrange(dash + 1, to as int));
        (text::parse_number(content, from, dash), text::parse_number(content, dash + 1, to))
    } else {
        let n = text::parse_number(content, from, to);
        (n, n)
    };
    match (start, end) {
        (Some(a), Some(b)) => if a <= b {
            Some((a, b))
        } else {
            None
        },
        _ => None,
    }
}

/// Add the CPUs from `start` through `end` to a mask, as far as it reaches.
/// Returns whether there were any.
fn add_cpus(mask: &mut [bool; 1024], start: usize, end: usize) -> (any: bool)
    ensures
        forall|cpu: int|
            0 <= cpu < CPU_SETSIZE ==> #[trigger] final(mask)@[cpu] == (old(mask)@[cpu] || start
                <= cpu <= end),
        any == (start <= end && start < CPU_SETSIZE),
{
    let mut cpu: usize = start;
    let mut any: bool = false;
    while cpu <= end && cpu < CPU_SETSIZE
        invariant
            start <= cpu,
            start <= end && start < CPU_SETSIZE ==> cpu <= end + 1 && cpu <= CPU_SETSIZE,
            !(start <= end && start < CPU_SETSIZE) ==> cpu == start,
            any == (cpu > start),
            forall|c: int|
                0 <= c < CPU_SETSIZE ==> #[trigger] mask@[c] == (old(mask)@[c] || start <= c
                    < cpu),
        decreases CPU_SETSIZE - cpu,
    {
        mask[cpu] = true;
        any = true;
        cpu += 1;
    }
    any
}

/// The CPUs that a node's cpulist file names, as an affinity mask.
///
/// `None` if the file may have been cut off at the end of the buffer, if it is
/// not a list of CPUs, or if no CPU of it fits the mask.
pub fn affinity_from_cpulist(content: &[u8]) -> (mask: Option<[bool; 1024]>)
    ensures
        mask is Some <==> content@.len() < 8192 && is_list(list_of(content@)) && exists|
            cpu: int,
        |
            0 <= cpu < 1024 && #[trigger] names(list_of(content@), cpu),
        mask matches Some(m) ==> forall|cpu: int|
            0 <= cpu < 1024 ==> (#[trigger] m@[cpu] <==> names(list_of(content@), cpu)),
{
    // A truncated list may end in the middle of a CPU number.
    if content.len() >= CPULIST_BUFFER {
        return None;
    }
    let ghost all = list_of(content@);
    let (first, to) = trim_bounds(content);
    let mut from: usize = first;
    let mut mask: [bool; 1024] = [false;1024];
    let mut any: bool = false;
    let ghost mut done: int = 0;
    assert(all.skip(0) =~= all);
    loop
        invariant_except_break
            pieces(content@.subrange(from as int, to as int)) == all.skip(done),
        invariant
            from <= to <= content@.len(),
            all == list_of(content@),
            0 <= done <= all.len(),
            forall|i: int| 0 <= i < done ==> range_of(#[trigger] all[i]) is Some,
            forall|cpu: int|
                0 <= cpu < CPU_SETSIZE ==> (#[trigger] mask@[cpu] <==> names(
                    all.take(done),
                    cpu,
                )),
            any <==> exists|cpu: int| 0 <= cpu < CPU_SETSIZE && #[trigger] mask@[cpu],
        ensures
            done == all.len(),
        decreases to - from + 1,
    {
        let ghost s = content@.subrange(from as int, to as int);
        let comma: usize = text::find(content, from, to, COMMA);
        let ghost p = content@.subrange(from as int, comma as int);
        proof {
            assert(s.take(comma - from) =~= p);
            assert(pieces(s)[0] == p);
            assert(pieces(s).len() >= 1);
            assert(all.skip(done).len() == all.len() - done);
            assert(all.skip(done)[0] == all[done]);
        }
        match parse_range(content, from, comma) {
            None => {
                assert(range_of(all[done]) is None);
                return None;
            },
            Some((start, end)) => {
                let ghost before = mask@;
                let added: bool = add_cpus(&mut mask, start, end);
                proof {
                    assert forall|cpu: int| 0 <= cpu < CPU_SETSIZE implies (
                    #[trigger] mask@[cpu] <==> names(all.take(done + 1), cpu)) by {
                        let x = all.take(done);
                        let y = all.take(done + 1);
                        assert(before[cpu] <==> names(x, cpu));
                        assert(y[done] == all[done]);
                        if names(x, cpu) {
                            let i = choose|i: int|
                                0 <= i < x.len() && has_cpu(#[trigger] x[i], cpu);
                            assert(y[i] == x[i]);
                        }
                        if names(y, cpu) {
                            let i = choose|i: int|
                                0 <= i < y.len() && has_cpu(#[trigger] y[i], cpu);
                            if i < done {
                                assert(x[i] == y[i]);
                            }
                        }
                    }
                    if added {
                        assert(mask@[start as int]);
                    }
                    if any {
                        let cpu = choose|cpu: int| 0 <= cpu < CPU_SETSIZE && #[trigger] before[cpu];
                        assert(mask@[cpu]);
                    }
                    if exists|cpu: int| 0 <= cpu < CPU_SETSIZE && #[trigger] mask@[cpu] {
                        let cpu = choose|cpu: int| 0 <= cpu < CPU_SETSIZE && #[trigger] mask@[cpu];
                        assert(before[cpu] || start <= cpu <= end);
                    }
                }
                any = any || added;
                if comma == to {
                    proof {
                        assert(pieces(s).len() == 1);
                        done = done + 1;
                    }
                    break;
                }
                proof {
                    let rest = content@.subrange(comma + 1, to as int);
                    assert(s.skip(comma - from + 1) =~= rest);
                    assert(pieces(s) == seq![p] + pieces(rest));
                    assert(pieces(rest) =~= pieces(s).skip(1));
                    assert(all.skip(done).skip(1) =~= all.skip(done + 1));
                    done = done + 1;
                }
                from = comma + 1;
            },
        }
    }
    proof {
        assert(all.take(all.len() as int) =~= all);
        if any {
            let cpu = choose|cpu: int| 0 <= cpu < CPU_SETSIZE && #[trigger] mask@[cpu];
            assert(names(all, cpu));
        }
        if exists|cpu: int| 0 <= cpu < CPU_SETSIZE && #[trigger] names(all, cpu) {
            let cpu = choose|cpu: int| 0 <= cpu < CPU_SETSIZE && #[trigger] names(all, cpu);
            assert(mask@[cpu]);
        }
    }
    // An empty mask would be refused by the system anyway.
    if !any {
        return None;
    }
    Some(mask)
}

/// A text begins with a white-space character exactly if its first bytes are one,
/// and such characters are trimmed one after the other, until none is left; the
/// same holds of its end.
pub proof fn law_trimming(s: Seq<u8>)
    ensures
        ({
            let n = s.len() as int;
            let k = white_front(s);
            let l = white_back(s);
            &&& k == 0 || k == 1 || k == 2 || k == 3
            &&& k > 0 <==> n >= 1 && white1(s[0]) || n >= 2 && white2(s[0], s[1]) || n >= 3
                && white3(s[0], s[1], s[2])
            &&& k == 1 ==> white1(s[0])
            &&& k == 2 ==> white2(s[0], s[1])
            &&& k == 3 ==> white3(s[0], s[1], s[2])
            &&& l > 0 <==> n >= 1 && white1(s[n - 1]) || n >= 2 && white2(s[n - 2], s[n - 1]) || n
                >= 3 && white3(s[n - 3], s[n - 2], s[n - 1])
            &&& l == 1 ==> white1(s[n - 1])
            &&& l == 2 ==> white2(s[n - 2], s[n - 1])
            &&& l == 3 ==> white3(s[n - 3], s[n - 2], s[n - 1])
            &&& trim_front(s) == (if k > 0 {
                trim_front(s.skip(k))
            } else {
                s
            })
            &&& trim_back(s) == (if l > 0 {
                trim_back(s.take(n - l))
            } else {
                s
            })
            &&& white_front(trim_front(s)) == 0
            &&& white_back(trim_back(s)) == 0
        }),
    decreases s.len(),
{
    if white_front(s) > 0 {
        law_trimming(s.skip(white_front(s)));
    }
    if white_back(s) > 0 {
        law_trimming(s.take(s.len() - white_back(s)));
    }
}

/// The ASCII white-space characters are those that [`blank`] names.
pub proof fn law_blanks(a: u8)
    ensures
        white1(a) <==> blank(a),
{
}

} // verus!
