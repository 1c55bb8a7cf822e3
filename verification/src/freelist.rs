//! Intrusive free lists: the per-node stack and the per-thread list.
//!
//! A free block holds the address of the next free block in its first word
//! (zero at the end), so a list costs nothing beyond the memory it manages.
use crate::memory::{self, Memory};
use vstd::prelude::*;

verus! {

// ---------------------------------------------------------------------------
// Chains of free blocks
// ---------------------------------------------------------------------------
/// Block addresses fit in this many distinct values (48 bits).
pub const ADDRESS_LIMIT: u64 = 0x1_0000_0000_0000;

/// `a` can be a free block: a non-null 48-bit address, aligned to the link
/// word, whose link word is mapped.
pub open spec fn block_ok(m: Map<int, u8>, a: usize) -> bool {
    &&& 0 < a < ADDRESS_LIMIT
    &&& a % 8 == 0
    &&& memory::range_mapped(m, a as int, 8)
}

/// The link stored in block `a`: the next block, or `None` for a zero word.
pub open spec fn link(m: Map<int, u8>, a: usize) -> Option<usize> {
    let w = memory::word_at(m, a as int);
    if w == 0 {
        None
    } else {
        Some(w as usize)
    }
}

/// The word that stores the link `next`.
pub open spec fn link_word(next: Option<usize>) -> u64 {
    match next {
        Some(a) => a as u64,
        None => 0,
    }
}

/// First block of a list.
pub open spec fn head_of(s: Seq<usize>) -> Option<usize> {
    if s.len() == 0 {
        None
    } else {
        Some(s[0])
    }
}

/// Last block of a list.
pub open spec fn last_of(s: Seq<usize>) -> Option<usize> {
    if s.len() == 0 {
        None
    } else {
        Some(s[s.len() - 1])
    }
}

/// Block after position `i` of a list.
pub open spec fn succ(s: Seq<usize>, i: int) -> Option<usize> {
    if i + 1 < s.len() {
        Some(s[i + 1])
    } else {
        None
    }
}

/// Starting at `first` and following links visits exactly the distinct blocks
/// `s` and ends.
pub open spec fn chain(m: Map<int, u8>, first: Option<usize>, s: Seq<usize>) -> bool {
    &&& first == head_of(s)
    &&& s.no_duplicates()
    &&& forall|i: int| 0 <= i < s.len() ==> #[trigger] block_ok(m, s[i])
    &&& forall|i: int| 0 <= i < s.len() ==> #[trigger] link(m, s[i]) == succ(s, i)
}

/// Following links from `first` visits exactly the distinct blocks `s`, the
/// last of which is `last`; what `last` links to is left open.
pub open spec fn segment(m: Map<int, u8>, s: Seq<usize>, first: usize, last: usize) -> bool {
    &&& s.len() > 0
    &&& s[0] == first
    &&& s[s.len() - 1] == last
    &&& s.no_duplicates()
    &&& forall|i: int| 0 <= i < s.len() ==> #[trigger] block_ok(m, s[i])
    &&& forall|i: int| 0 <= i < s.len() - 1 ==> #[trigger] link(m, s[i]) == succ(s, i)
}

/// No block is in both lists.
pub open spec fn apart(s: Seq<usize>, t: Seq<usize>) -> bool {
    forall|a: usize| !(s.contains(a) && #[trigger] t.contains(a))
}

/// Storing the link of one block leaves the links of all other blocks alone.
pub proof fn lemma_put_link(m: Map<int, u8>, a: usize, next: Option<usize>)
    requires
        block_ok(m, a),
    ensures
        memory::put_word(m, a as int, link_word(next)).dom() == m.dom(),
        next != Some(0usize) ==> link(memory::put_word(m, a as int, link_word(next)), a) == next,
        forall|b: usize|
            block_ok(m, b) && b != a ==> #[trigger] link(
                memory::put_word(m, a as int, link_word(next)),
                b,
            ) == link(m, b),
        forall|b: usize|
            block_ok(m, b) ==> #[trigger] block_ok(memory::put_word(m, a as int, link_word(next)), b),
{
    memory::lemma_put_word(m, a as int, link_word(next));
}

/// Storing the link of a block outside a chain keeps the chain.
pub proof fn lemma_chain_put(
    m: Map<int, u8>,
    a: usize,
    next: Option<usize>,
    first: Option<usize>,
    s: Seq<usize>,
)
    requires
        block_ok(m, a),
        chain(m, first, s),
        !s.contains(a),
    ensures
        chain(memory::put_word(m, a as int, link_word(next)), first, s),
{
    lemma_put_link(m, a, next);
    let n = memory::put_word(m, a as int, link_word(next));
    assert forall|i: int| 0 <= i < s.len() implies block_ok(n, #[trigger] s[i]) && link(n, s[i])
        == succ(s, i) by {
        assert(s.contains(s[i]));
        assert(block_ok(m, s[i]));
    }
}

/// There is only one segment between two given blocks.
pub proof fn lemma_segment_unique(
    m: Map<int, u8>,
    s: Seq<usize>,
    t: Seq<usize>,
    first: usize,
    last: usize,
)
    requires
        segment(m, s, first, last),
        segment(m, t, first, last),
    ensures
        s == t,
{
    if s.len() <= t.len() {
        lemma_segment_prefix(m, s, t, first, last, (s.len() - 1) as nat);
    } else {
        lemma_segment_prefix(m, t, s, first, last, (t.len() - 1) as nat);
    }
    assert forall|i: int| 0 <= i < s.len() && i < t.len() implies s[i] == t[i] by {
        if s.len() <= t.len() {
            lemma_segment_prefix(m, s, t, first, last, i as nat);
        } else {
            lemma_segment_prefix(m, t, s, first, last, i as nat);
        }
    }
    assert(s =~= t);
}

proof fn lemma_segment_prefix(
    m: Map<int, u8>,
    s: Seq<usize>,
    t: Seq<usize>,
    first: usize,
    last: usize,
    i: nat,
)
    requires
        segment(m, s, first, last),
        segment(m, t, first, last),
        i < s.len() <= t.len(),
    ensures
        s[i as int] == t[i as int],
    decreases i,
{
    if i > 0 {
        lemma_segment_prefix(m, s, t, first, last, (i - 1) as nat);
        assert(link(m, s[i - 1]) == succ(s, i - 1));
        assert(link(m, t[i - 1]) == succ(t, i - 1));
    }
}

/// Links determine the chain that starts at a block.
pub proof fn lemma_chain_unique(m: Map<int, u8>, s: Seq<usize>, t: Seq<usize>)
    requires
        chain(m, head_of(s), s),
        chain(m, head_of(t), t),
        head_of(s) == head_of(t),
    ensures
        s == t,
{
    assert forall|i: int| 0 <= i < s.len() && i < t.len() implies s[i] == t[i] by {
        lemma_chain_prefix(m, s, t, i as nat);
    }
    if s.len() > 0 {
        let a = s.len() - 1;
        let b = t.len() - 1;
        assert(link(m, s[a]) == succ(s, a));
        assert(link(m, t[b]) == succ(t, b));
        if s.len() < t.len() {
            assert(link(m, t[a]) == succ(t, a));
        }
        if t.len() < s.len() {
            assert(link(m, s[b]) == succ(s, b));
        }
    }
    assert(s =~= t);
}

proof fn lemma_chain_prefix(m: Map<int, u8>, s: Seq<usize>, t: Seq<usize>, i: nat)
    requires
        chain(m, head_of(s), s),
        chain(m, head_of(t), t),
        head_of(s) == head_of(t),
        i < s.len(),
        i < t.len(),
    ensures
        s[i as int] == t[i as int],
    decreases i,
{
    if i > 0 {
        lemma_chain_prefix(m, s, t, (i - 1) as nat);
        assert(link(m, s[i - 1]) == succ(s, i - 1));
        assert(link(m, t[i - 1]) == succ(t, i - 1));
    }
}

/// Lists that are both apart from a third stay apart from it when joined.
pub proof fn lemma_apart_concat(s: Seq<usize>, t: Seq<usize>, u: Seq<usize>)
    requires
        apart(s, u),
        apart(t, u),
    ensures
        apart(s + t, u),
{
    assert forall|a: usize| (s + t).contains(a) implies !(#[trigger] u.contains(a)) by {
        let i = choose|i: int| 0 <= i < (s + t).len() && (s + t)[i] == a;
        if i < s.len() {
            assert(s.contains(s[i]));
        } else {
            assert(t.contains(t[i - s.len()]));
        }
    }
}

/// A chain is a segment from its first to its last block.
pub proof fn lemma_chain_is_segment(m: Map<int, u8>, s: Seq<usize>)
    requires
        chain(m, head_of(s), s),
        s.len() > 0,
    ensures
        segment(m, s, s[0], s[s.len() - 1]),
{
}

/// The rest of a chain is a chain.
pub proof fn lemma_chain_skip(m: Map<int, u8>, s: Seq<usize>, k: int)
    requires
        chain(m, head_of(s), s),
        0 <= k <= s.len(),
    ensures
        chain(m, head_of(s.skip(k)), s.skip(k)),
{
    let t = s.skip(k);
    assert forall|i: int| 0 <= i < t.len() implies block_ok(m, #[trigger] t[i]) && link(m, t[i])
        == succ(t, i) by {
        assert(block_ok(m, s[i + k]));
        assert(link(m, s[i + k]) == succ(s, i + k));
    }
}

/// Linking the end of a segment to the first block of a chain makes one chain
/// of both.
pub proof fn lemma_chain_concat(
    m: Map<int, u8>,
    s: Seq<usize>,
    first: usize,
    last: usize,
    t: Seq<usize>,
)
    requires
        segment(m, s, first, last),
        chain(m, head_of(t), t),
        apart(s, t),
    ensures
        chain(memory::put_word(m, last as int, link_word(head_of(t))), Some(first), s + t),
{
    let n = memory::put_word(m, last as int, link_word(head_of(t)));
    let u = s + t;
    assert(block_ok(m, s[s.len() - 1]));
    if t.len() > 0 {
        assert(block_ok(m, t[0]));
    }
    lemma_put_link(m, last, head_of(t));
    assert(u.no_duplicates()) by {
        assert forall|i: int, j: int| 0 <= i < u.len() && 0 <= j < u.len() && i != j implies u[i]
            != u[j] by {
            if i < s.len() && j >= s.len() {
                assert(s.contains(s[i]) && t.contains(t[j - s.len()]));
            }
            if j < s.len() && i >= s.len() {
                assert(s.contains(s[j]) && t.contains(t[i - s.len()]));
            }
        }
    }
    assert forall|i: int| 0 <= i < u.len() implies block_ok(n, #[trigger] u[i]) && link(n, u[i])
        == succ(u, i) by {
        if i < s.len() {
            assert(block_ok(m, s[i]));
            if i == s.len() - 1 {
                assert(u[i] == last);
            } else {
                assert(s[i] != s[s.len() - 1]);
                assert(link(m, s[i]) == succ(s, i));
            }
        } else {
            let j = i - s.len();
            assert(block_ok(m, t[j]));
            assert(link(m, t[j]) == succ(t, j));
            assert(s.contains(s[s.len() - 1]) && t.contains(t[j]));
        }
    }
}

/// A chain is kept by memory that agrees on its link words.
pub proof fn lemma_chain_agree(m: Map<int, u8>, n: Map<int, u8>, s: Seq<usize>)
    requires
        chain(m, head_of(s), s),
        forall|a: usize| #[trigger]
            s.contains(a) ==> memory::agree(m, n, a as int, 8) && memory::range_mapped(
                n,
                a as int,
                8,
            ),
    ensures
        chain(n, head_of(s), s),
{
    assert forall|i: int| 0 <= i < s.len() implies block_ok(n, #[trigger] s[i]) && link(n, s[i])
        == succ(s, i) by {
        assert(s.contains(s[i]));
        assert(block_ok(m, s[i]));
        assert(link(m, s[i]) == succ(s, i));
        memory::lemma_word_agree(m, n, s[i] as int);
    }
}

/// The byte at `i` belongs to the link word of one of the blocks `s`.
pub open spec fn in_links(s: Seq<usize>, i: int) -> bool {
    exists|a: usize| #[trigger] s.contains(a) && a <= i < a + 8
}

/// From memory `m` to memory `n` nothing changed but link words of the blocks
/// `s`.
pub open spec fn links_only(m: Map<int, u8>, n: Map<int, u8>, s: Seq<usize>) -> bool {
    &&& n.dom() == m.dom()
    &&& forall|i: int| m.dom().contains(i) && !in_links(s, i) ==> #[trigger] n[i] == m[i]
}

/// Storing a link changes nothing else.
pub proof fn lemma_links_put(m: Map<int, u8>, a: usize, w: u64, s: Seq<usize>)
    requires
        memory::range_mapped(m, a as int, 8),
        s.contains(a),
    ensures
        links_only(m, memory::put_word(m, a as int, w), s),
{
    memory::lemma_put_word(m, a as int, w);
    let n = memory::put_word(m, a as int, w);
    assert forall|i: int| m.dom().contains(i) && !in_links(s, i) implies #[trigger] n[i]
        == m[i] by {
        assert(!(a <= i < a + 8));
    }
}

/// Changes of link words add up to changes of link words.
pub proof fn lemma_links_trans(
    m: Map<int, u8>,
    n: Map<int, u8>,
    o: Map<int, u8>,
    s: Seq<usize>,
)
    requires
        links_only(m, n, s),
        links_only(n, o, s),
    ensures
        links_only(m, o, s),
{
    assert forall|i: int| m.dom().contains(i) && !in_links(s, i) implies #[trigger] o[i]
        == m[i] by {
        assert(n.dom().contains(i));
        assert(n[i] == m[i]);
    }
}

/// A change of link words of some blocks is one of more blocks.
pub proof fn lemma_links_widen(m: Map<int, u8>, n: Map<int, u8>, s: Seq<usize>, t: Seq<usize>)
    requires
        links_only(m, n, s),
        forall|a: usize| #[trigger] s.contains(a) ==> t.contains(a),
    ensures
        links_only(m, n, t),
{
    assert forall|i: int| m.dom().contains(i) && !in_links(t, i) implies #[trigger] n[i]
        == m[i] by {
        if in_links(s, i) {
            let a = choose|a: usize| #[trigger] s.contains(a) && a <= i < a + 8;
            assert(t.contains(a));
        }
    }
}

/// A change of link words of some blocks keeps every chain of other blocks.
pub proof fn lemma_links_chain(m: Map<int, u8>, n: Map<int, u8>, s: Seq<usize>, t: Seq<usize>)
    requires
        links_only(m, n, s),
        forall|a: usize| #[trigger] s.contains(a) ==> block_ok(m, a),
        chain(m, head_of(t), t),
        apart(s, t),
    ensures
        chain(n, head_of(t), t),
{
    assert forall|i: int| 0 <= i < t.len() implies block_ok(n, #[trigger] t[i]) && link(n, t[i])
        == succ(t, i) by {
        let b = t[i];
        assert(t.contains(b));
        assert(block_ok(m, b));
        assert(link(m, t[i]) == succ(t, i));
        assert forall|k: int| b <= k < b + 8 implies #[trigger] n[k] == m[k] by {
            assert(m.dom().contains(k));
            if in_links(s, k) {
                let a = choose|a: usize| #[trigger] s.contains(a) && a <= k < a + 8;
                assert(block_ok(m, a));
                assert(a == b);
            }
        }
        memory::lemma_word_agree(m, n, b as int);
    }
}

// ---------------------------------------------------------------------------
// FreeBlock — intrusive node stored inside freed memory
// ---------------------------------------------------------------------------
/// Handle to the intrusive list node stored in the free block at `addr`.
#[derive(Clone, Copy, PartialEq, Eq, Structural, Debug)]
pub struct FreeBlock {
    pub addr: usize,
}

impl FreeBlock {
    /// Read the address of the next block.
    pub fn read_next<M: Memory>(&self, mem: &M) -> (next: Option<usize>)
        requires
            block_ok(mem@, self.addr),
        ensures
            next == link(mem@, self.addr),
    {
        let w: u64 = mem.read_word(self.addr);
        if w == 0 {
            None
        } else {
            Some(w as usize)
        }
    }

    /// Store the address of the next block.
    pub fn write_next<M: Memory>(&self, mem: &mut M, next: Option<usize>)
        requires
            block_ok(old(mem)@, self.addr),
        ensures
            final(mem)@ == memory::put_word(old(mem)@, self.addr as int, link_word(next)),
    {
        let w: u64 = match next {
            Some(a) => a as u64,
            None => 0,
        };
        mem.write_word(self.addr, w);
    }
}

// ---------------------------------------------------------------------------
// TreiberStack — shared stack with a generation tag against ABA
// ---------------------------------------------------------------------------
/// Number of generation tags.
pub const TAGS: u64 = 0x1_0000;

/// The block address in a head word.
pub open spec fn word_ptr(w: u64) -> Option<usize> {
    let raw = w % ADDRESS_LIMIT;
    if raw == 0 {
        None
    } else {
        Some(raw as usize)
    }
}

/// The generation tag in a head word.
pub open spec fn word_tag(w: u64) -> int {
    w as int / ADDRESS_LIMIT as int
}

/// The head word for an address and a generation tag.
pub open spec fn packed(ptr: Option<usize>, tag: int) -> int {
    tag * ADDRESS_LIMIT + link_word(ptr)
}

/// Address and tag never disturb each other in a head word: what was packed
/// comes back, and so does every word whose address part fits an address.
pub proof fn law_pack_round_trip(ptr: Option<usize>, tag: u16, v: u64)
    requires
        ptr matches Some(a) ==> 0 < a < ADDRESS_LIMIT,
        v % ADDRESS_LIMIT <= usize::MAX,
    ensures
        0 <= packed(ptr, tag as int) <= u64::MAX,
        word_ptr(packed(ptr, tag as int) as u64) == ptr,
        word_tag(packed(ptr, tag as int) as u64) == tag,
        0 <= word_tag(v) < TAGS,
        packed(word_ptr(v), word_tag(v)) == v,
{
}

/// The head word of a stack with the given history: the address of the top
/// block, tagged with the number of changes.
pub open spec fn head_word(history: Seq<Seq<usize>>) -> int {
    ((history.len() - 1) % TAGS as int) * ADDRESS_LIMIT + link_word(
        head_of(history[history.len() - 1]),
    )
}

/// A stack of free blocks whose head is a 48-bit address and a 16-bit
/// generation tag packed into one word.
///
/// Each method that changes the stack replaces the head word in one
/// compare-and-swap on the word that was read before, and the tag counts those
/// replacements.  The `try_` methods and [`PopAttempt`] are the single steps of
/// the retry loops: between reading the head and swapping it any number of
/// other operations may take place.
///
/// The stack remembers, for its contracts only, what it held after each
/// change: `history()`.
#[derive(Clone, Copy)]
pub struct TreiberStack {
    head: u64,
    history: Ghost<Seq<Seq<usize>>>,
}

impl View for TreiberStack {
    type V = Seq<usize>;

    /// The blocks on the stack, top first.
    open spec fn view(&self) -> Seq<usize> {
        self.history()[self.history().len() - 1]
    }
}

impl TreiberStack {
    /// The head word.
    pub closed spec fn word(&self) -> u64 {
        self.head
    }

    /// What the stack held after each change, oldest first.
    pub closed spec fn history(&self) -> Seq<Seq<usize>> {
        self.history@
    }

    /// The head word names the top block and counts the changes.
    pub open spec fn coherent(&self) -> bool {
        &&& self.history().len() > 0
        &&& self.word() == head_word(self.history())
        &&& head_of(self@) matches Some(a) ==> 0 < a < ADDRESS_LIMIT
    }

    /// The head word names the top block.
    pub proof fn lemma_top(&self)
        requires
            self.coherent(),
        ensures
            word_ptr(self.word()) == head_of(self@),
    {
    }

    /// The head word is right and the blocks are linked in memory.
    pub open spec fn wf(&self, m: Map<int, u8>) -> bool {
        &&& self.coherent()
        &&& chain(m, head_of(self@), self@)
    }

    /// An empty stack.
    pub fn new() -> (stack: Self)
        ensures
            stack.word() == 0,
            stack.history() == seq![Seq::<usize>::empty()],
            stack@ == Seq::<usize>::empty(),
            forall|m: Map<int, u8>| stack.wf(m),
    {
        TreiberStack { head: 0, history: Ghost(Seq::empty().push(Seq::empty())) }
    }

    /// Pack a 48-bit address and a tag into a head word.
    pub fn pack(ptr: Option<usize>, tag: u16) -> (w: u64)
        requires
            ptr matches Some(a) ==> a < ADDRESS_LIMIT,
        ensures
            w == packed(ptr, tag as int),
    {
        let raw: u64 = match ptr {
            Some(a) => a as u64,
            None => 0,
        };
        let t: u64 = tag as u64;
        assert((t << 48) | (raw & 0x0000_FFFF_FFFF_FFFF) == t * 0x1_0000_0000_0000 + raw) by (
        bit_vector)
            requires
                t < 0x1_0000,
                raw < 0x1_0000_0000_0000,
        ;
        (t << 48) | (raw & 0x0000_FFFF_FFFF_FFFF)
    }

    /// Split a head word into its address and its tag.
    pub fn unpack(val: u64) -> (r: (Option<usize>, u16))
        ensures
            r.0 == word_ptr(val),
            r.1 == word_tag(val),
    {
        assert(val & 0x0000_FFFF_FFFF_FFFF == val % 0x1_0000_0000_0000 && val >> 48 == val
            / 0x1_0000_0000_0000 && val >> 48 < 0x1_0000) by (bit_vector);
        let raw: u64 = val & 0x0000_FFFF_FFFF_FFFF;
        let ptr = if raw == 0 {
            None
        } else {
            Some(raw as usize)
        };
        (ptr, (val >> 48) as u16)
    }

    /// Read the head word.
    pub fn load(&self) -> (w: u64)
        ensures
            w == self.word(),
    {
        self.head
    }

    /// Replace the head word by the next generation of `ptr` if it still is
    /// `current`.
    fn swap(&mut self, current: u64, ptr: Option<usize>, Ghost(after): Ghost<Seq<usize>>) -> (done:
        bool)
        requires
            old(self).coherent(),
            current == old(self).word() ==> ptr == head_of(after),
            ptr matches Some(a) ==> 0 < a < ADDRESS_LIMIT,
        ensures
            done == (old(self).word() == current),
            done ==> final(self).history() == old(self).history().push(after),
            !done ==> *final(self) == *old(self),
            final(self).coherent(),
    {
        let (_, tag) = Self::unpack(current);
        let new: u64 = Self::pack(ptr, tag.wrapping_add(1));
        if self.head == current {
            self.head = new;
            self.history = Ghost(self.history@.push(after));
            true
        } else {
            false
        }
    }

    /// One attempt to push `block`, given the head word `current` that was
    /// read before.  Succeeds if the head still is that word.
    pub fn try_push<M: Memory>(&mut self, mem: &mut M, current: u64, block: usize) -> (done: bool)
        requires
            old(self).wf(old(mem)@),
            block_ok(old(mem)@, block),
            !old(self)@.contains(block),
        ensures
            done == (old(self).word() == current),
            done ==> final(self).history() == old(self).history().push(seq![block] + old(self)@),
            !done ==> *final(self) == *old(self),
            final(mem)@ == memory::put_word(
                old(mem)@,
                block as int,
                link_word(word_ptr(current)),
            ),
            final(self).wf(final(mem)@),
    {
        let ghost pushed = seq![block] + self@;
        let (head, _) = Self::unpack(current);
        FreeBlock { addr: block }.write_next(mem, head);
        proof {
            lemma_chain_put(old(mem)@, block, head, head_of(self@), self@);
            if self.head == current {
                assert(segment(old(mem)@, seq![block], block, block));
                lemma_chain_concat(old(mem)@, seq![block], block, block, self@);
            }
        }
        self.swap(current, Some(block), Ghost(pushed))
    }

    /// Push a single block onto the stack.
    pub fn push<M: Memory>(&mut self, mem: &mut M, block: usize)
        requires
            old(self).wf(old(mem)@),
            block_ok(old(mem)@, block),
            !old(self)@.contains(block),
        ensures
            final(self).history() == old(self).history().push(seq![block] + old(self)@),
            final(mem)@ == memory::put_word(
                old(mem)@,
                block as int,
                link_word(head_of(old(self)@)),
            ),
            final(self).wf(final(mem)@),
    {
        let current: u64 = self.load();
        let _ = self.try_push(mem, current, block);
    }

    /// One attempt to push the blocks from `first` through `last`, given the
    /// head word `current` that was read before.
    pub fn try_push_chain<M: Memory>(
        &mut self,
        mem: &mut M,
        current: u64,
        first: usize,
        last: usize,
    ) -> (done: bool)
        requires
            old(self).wf(old(mem)@),
            exists|s: Seq<usize>|
                segment(old(mem)@, s, first, last) && #[trigger] apart(s, old(self)@),
        ensures
            done == (old(self).word() == current),
            done ==> forall|s: Seq<usize>|
                #[trigger] segment(old(mem)@, s, first, last) ==> final(self).history() == old(
                    self,
                ).history().push(s + old(self)@),
            !done ==> *final(self) == *old(self),
            final(mem)@ == memory::put_word(old(mem)@, last as int, link_word(word_ptr(current))),
            final(self).wf(final(mem)@),
    {
        let ghost s = choose|s: Seq<usize>|
            segment(old(mem)@, s, first, last) && #[trigger] apart(s, old(self)@);
        let ghost pushed = s + self@;
        let (head, _) = Self::unpack(current);
        proof {
            assert(block_ok(mem@, s[s.len() - 1]));
            assert(block_ok(mem@, s[0]));
            assert(s.contains(s[s.len() - 1]));
            assert(!self@.contains(last));
        }
        FreeBlock { addr: last }.write_next(mem, head);
        proof {
            lemma_chain_put(old(mem)@, last, head, head_of(self@), self@);
            if self.head == current {
                lemma_chain_concat(old(mem)@, s, first, last, self@);
            }
            assert forall|t: Seq<usize>| #[trigger]
                segment(old(mem)@, t, first, last) implies t == s by {
                lemma_segment_unique(old(mem)@, s, t, first, last);
            }
        }
        self.swap(current, Some(first), Ghost(pushed))
    }

    /// Push a chain of blocks from `first` through `last` in one swap.
    /// The link of `last` is overwritten to point to the previous top.
    pub fn push_chain<M: Memory>(&mut self, mem: &mut M, first: usize, last: usize)
        requires
            old(self).wf(old(mem)@),
            exists|s: Seq<usize>|
                segment(old(mem)@, s, first, last) && #[trigger] apart(s, old(self)@),
        ensures
            forall|s: Seq<usize>|
                #[trigger] segment(old(mem)@, s, first, last) ==> final(self).history() == old(
                    self,
                ).history().push(s + old(self)@),
            final(mem)@ == memory::put_word(
                old(mem)@,
                last as int,
                link_word(head_of(old(self)@)),
            ),
            final(self).wf(final(mem)@),
    {
        let current: u64 = self.load();
        let _ = self.try_push_chain(mem, current, first, last);
    }

    /// First step of a pop: read the head word.  `None` when the stack is
    /// empty.
    pub fn begin_pop(&self) -> (attempt: Option<PopAttempt>)
        requires
            self.coherent(),
        ensures
            attempt is None <==> self@.len() == 0,
            attempt matches Some(a) ==> {
                &&& a.wf()
                &&& a.block() == self@[0]
                &&& a.seen() == self.history()
                &&& a.read() is None
            },
    {
        let current: u64 = self.head;
        let (head, _) = Self::unpack(current);
        match head {
            None => None,
            Some(block) => Some(
                PopAttempt {
                    current,
                    block,
                    next: None,
                    seen: Ghost(self.history@),
                    read: Ghost(None),
                },
            ),
        }
    }

    /// Last step of a pop: swap the head for the link that was read.  Succeeds
    /// exactly if the stack has not changed since the head was read, as long as
    /// fewer than 2^16 changes took place in between.
    pub fn finish_pop(&mut self, attempt: &PopAttempt) -> (done: bool)
        requires
            old(self).coherent(),
            attempt.wf(),
            attempt.read() matches Some(h) && attempt.seen().is_prefix_of(h) && h.is_prefix_of(
                old(self).history(),
            ),
            old(self).history().len() - attempt.seen().len() < TAGS,
            forall|i: int|
                0 <= i < old(self)@.len() ==> 0 < #[trigger] old(self)@[i] < ADDRESS_LIMIT,
        ensures
            done == (old(self).history() == attempt.seen()),
            done ==> old(self)@.len() > 0 && attempt.block() == old(self)@[0]
                && final(self).history() == old(self).history().push(old(self)@.skip(1)),
            !done ==> *final(self) == *old(self),
            final(self).coherent(),
    {
        let ghost popped = self@.skip(1);
        proof {
            let h = attempt.read()->0;
            if self.head == attempt.current {
                // Equal tags fewer than 2^16 changes apart are the same change.
                let d = self.history().len() - attempt.seen().len();
                let n = attempt.seen().len() - 1;
                assert(d == 0) by {
                    assert((n + d) % 0x1_0000 == n % 0x1_0000);
                }
                assert(self.history() =~= attempt.seen());
                assert(h =~= attempt.seen());
                assert(attempt.next == succ(self@, 0));
                assert(head_of(popped) == succ(self@, 0));
                if self@.len() > 1 {
                    assert(0 < self@[1]);
                }
            }
        }
        if self.head == attempt.current {
            self.swap(attempt.current, attempt.next, Ghost(popped))
        } else {
            false
        }
    }

    /// Pop a single block from the stack.
    pub fn pop<M: Memory>(&mut self, mem: &M) -> (block: Option<usize>)
        requires
            old(self).wf(mem@),
        ensures
            block == head_of(old(self)@),
            block is Some ==> final(self).history() == old(self).history().push(
                old(self)@.skip(1),
            ),
            block is None ==> *final(self) == *old(self),
            final(self).wf(mem@),
    {
        match self.begin_pop() {
            None => None,
            Some(mut attempt) => {
                proof {
                    assert(block_ok(mem@, self@[0]));
                    assert forall|i: int| 0 <= i < self@.len() implies 0 < #[trigger] self@[i]
                        < ADDRESS_LIMIT by {
                        assert(block_ok(mem@, self@[i]));
                    }
                }
                attempt.read_next(self, mem);
                let _ = self.finish_pop(&attempt);
                proof {
                    let s = old(self)@;
                    lemma_chain_skip(mem@, s, 1);
                }
                Some(attempt.block)
            },
        }
    }

    /// One attempt to detach every block, given the head word `current` that
    /// was read before.
    pub fn try_take_all(&mut self, current: u64) -> (done: bool)
        requires
            old(self).coherent(),
        ensures
            done == (old(self).word() == current),
            done ==> final(self).history() == old(self).history().push(Seq::empty()),
            !done ==> *final(self) == *old(self),
            final(self).coherent(),
    {
        self.swap(current, None, Ghost(Seq::empty()))
    }

    /// Detach the whole stack in one swap.  Returns its first block; the
    /// detached blocks stay linked to each other.
    pub fn take_all(&mut self) -> (first: Option<usize>)
        requires
            old(self).coherent(),
        ensures
            first == head_of(old(self)@),
            first is Some ==> final(self).history() == old(self).history().push(Seq::empty()),
            first is None ==> *final(self) == *old(self),
            final(self)@ == Seq::<usize>::empty(),
            final(self).coherent(),
    {
        let current: u64 = self.load();
        let (first, _) = Self::unpack(current);
        if first.is_some() {
            let _ = self.try_take_all(current);
        } else {
            assert(self@ =~= Seq::empty());
        }
        first
    }

    /// The top block, left in place.
    pub fn peek_head(&self) -> (top: Option<usize>)
        ensures
            top == word_ptr(self.word()),
            self.coherent() ==> top == head_of(self@),
    {
        let (head, _) = Self::unpack(self.head);
        head
    }

    /// Returns `true` when the stack is empty.
    pub fn is_empty(&self) -> (empty: bool)
        requires
            self.coherent(),
        ensures
            empty == (self@.len() == 0),
    {
        let (head, _) = Self::unpack(self.head);
        head.is_none()
    }
}

/// A pop in progress: the head word that was read, and the link of the top
/// block once that was read too.
///
/// Other threads may change the stack after either read.  The link is then
/// worthless, and [`TreiberStack::finish_pop`] fails.
pub struct PopAttempt {
    current: u64,
    block: usize,
    next: Option<usize>,
    seen: Ghost<Seq<Seq<usize>>>,
    read: Ghost<Option<Seq<Seq<usize>>>>,
}

impl PopAttempt {
    /// The block that is to be popped.
    pub closed spec fn block(&self) -> usize {
        self.block
    }

    /// History of the stack when the head was read.
    pub closed spec fn seen(&self) -> Seq<Seq<usize>> {
        self.seen@
    }

    /// History of the stack when the link was read, if it was.
    pub closed spec fn read(&self) -> Option<Seq<Seq<usize>>> {
        self.read@
    }

    /// The attempt remembers the head word of a non-empty stack, and the link
    /// of its top block if the stack was still the same when that was read.
    pub closed spec fn wf(&self) -> bool {
        let n = self.seen@.len();
        &&& n > 0
        &&& self.seen@[n - 1].len() > 0
        &&& self.seen@[n - 1][0] == self.block
        &&& 0 < self.block < ADDRESS_LIMIT
        &&& self.current == head_word(self.seen@)
        &&& self.read@ == Some(self.seen@) ==> self.next == succ(self.seen@[n - 1], 0)
    }

    /// Second step of a pop: read the link of the block.
    pub fn read_next<M: Memory>(&mut self, stack: &TreiberStack, mem: &M)
        requires
            old(self).wf(),
            stack.wf(mem@),
            old(self).seen().is_prefix_of(stack.history()),
            block_ok(mem@, old(self).block()),
        ensures
            final(self).wf(),
            final(self).block() == old(self).block(),
            final(self).seen() == old(self).seen(),
            final(self).read() == Some(stack.history()),
    {
        self.next = FreeBlock { addr: self.block }.read_next(mem);
        self.read = Ghost(Some(stack.history()));
        proof {
            if stack.history() == self.seen@ {
                assert(link(mem@, stack@[0]) == succ(stack@, 0));
            }
        }
    }
}

// ---------------------------------------------------------------------------
// ThreadFreelist — single-owner intrusive list with bulk drain
// ---------------------------------------------------------------------------
/// Number of blocks moved from a detached chain into the counted list per
/// refill; the rest is parked as the spare chain.  Bounds the cost of a refill
/// whatever the length of the chain.
pub const REFILL_BATCH: usize = 64;

/// Per-thread list of free blocks, with a spare chain that a refill left over.
#[derive(Clone, Copy)]
pub struct ThreadFreelist {
    head: Option<usize>,
    tail: Option<usize>,
    count: usize,
    spare: Option<usize>,
    blocks: Ghost<Seq<usize>>,
    spare_blocks: Ghost<Seq<usize>>,
}

impl View for ThreadFreelist {
    type V = Seq<usize>;

    /// The blocks on the counted list, most recently freed first.
    closed spec fn view(&self) -> Seq<usize> {
        self.blocks@
    }
}

impl ThreadFreelist {
    /// The blocks on the spare chain.
    pub closed spec fn parked(&self) -> Seq<usize> {
        self.spare_blocks@
    }

    /// The stored first block.
    pub closed spec fn first(&self) -> Option<usize> {
        self.head
    }

    /// The stored last block.
    pub closed spec fn last(&self) -> Option<usize> {
        self.tail
    }

    /// The stored number of blocks.
    pub closed spec fn counted(&self) -> usize {
        self.count
    }

    /// The stored first block of the spare chain.
    pub closed spec fn first_parked(&self) -> Option<usize> {
        self.spare
    }

    /// Head, tail, count and spare agree with the blocks.
    pub open spec fn coherent(&self) -> bool {
        &&& self.first() == head_of(self@)
        &&& self.last() == last_of(self@)
        &&& self.counted() == self@.len()
        &&& self.first_parked() == head_of(self.parked())
    }

    /// The list is coherent and its blocks are linked in memory.
    pub open spec fn wf(&self, m: Map<int, u8>) -> bool {
        &&& self.coherent()
        &&& chain(m, head_of(self@), self@)
        &&& chain(m, head_of(self.parked()), self.parked())
        &&& apart(self@, self.parked())
    }

    /// An empty list without a spare chain.
    pub fn new() -> (list: Self)
        ensures
            list@ == Seq::<usize>::empty(),
            list.parked() == Seq::<usize>::empty(),
            forall|m: Map<int, u8>| list.wf(m),
    {
        ThreadFreelist {
            head: None,
            tail: None,
            count: 0,
            spare: None,
            blocks: Ghost(Seq::empty()),
            spare_blocks: Ghost(Seq::empty()),
        }
    }

    /// Push a freed block to the head (most-recently-freed end).
    pub fn push<M: Memory>(&mut self, mem: &mut M, block: usize)
        requires
            old(self).wf(old(mem)@),
            block_ok(old(mem)@, block),
            !old(self)@.contains(block),
            !old(self).parked().contains(block),
            old(self)@.len() < usize::MAX,
        ensures
            final(self)@ == seq![block] + old(self)@,
            final(self).parked() == old(self).parked(),
            final(mem)@ == memory::put_word(
                old(mem)@,
                block as int,
                link_word(head_of(old(self)@)),
            ),
            final(self).wf(final(mem)@),
    {
        let ghost pushed = seq![block] + self@;
        FreeBlock { addr: block }.write_next(mem, self.head);
        if self.head.is_none() {
            self.tail = Some(block);
        }
        self.head = Some(block);
        self.count += 1;
        self.blocks = Ghost(pushed);
        proof {
            assert(segment(old(mem)@, seq![block], block, block));
            lemma_chain_concat(old(mem)@, seq![block], block, block, old(self)@);
            lemma_chain_put(
                old(mem)@,
                block,
                head_of(old(self)@),
                head_of(self.parked()),
                self.parked(),
            );
        }
    }

    /// Pop one block from the head.
    pub fn pop<M: Memory>(&mut self, mem: &M) -> (block: Option<usize>)
        requires
            old(self).wf(mem@),
        ensures
            block == head_of(old(self)@),
            final(self)@ == (if old(self)@.len() > 0 {
                old(self)@.skip(1)
            } else {
                old(self)@
            }),
            final(self).parked() == old(self).parked(),
            final(self).wf(mem@),
    {
        match self.head {
            None => None,
            Some(block) => {
                let ghost popped = self@.skip(1);
                proof {
                    assert(block_ok(mem@, self@[0]));
                    assert(link(mem@, self@[0]) == succ(self@, 0));
                    lemma_chain_skip(mem@, self@, 1);
                    assert(apart(popped, self.parked()));
                }
                self.head = FreeBlock { addr: block }.read_next(mem);
                self.count -= 1;
                if self.head.is_none() {
                    self.tail = None;
                }
                self.blocks = Ghost(popped);
                Some(block)
            },
        }
    }

    /// Push a chain of `chain_count` blocks (from `first` through `last`) to
    /// the head of the list.
    pub fn push_chain<M: Memory>(
        &mut self,
        mem: &mut M,
        first: usize,
        last: usize,
        chain_count: usize,
    )
        requires
            old(self).wf(old(mem)@),
            exists|s: Seq<usize>|
                segment(old(mem)@, s, first, last) && s.len() == chain_count && #[trigger] apart(
                    s,
                    old(self)@,
                ) && apart(s, old(self).parked()),
            old(self)@.len() + chain_count <= usize::MAX,
        ensures
            forall|s: Seq<usize>|
                #[trigger] segment(old(mem)@, s, first, last) ==> final(self)@ == s + old(self)@,
            final(self).parked() == old(self).parked(),
            final(mem)@ == memory::put_word(
                old(mem)@,
                last as int,
                link_word(head_of(old(self)@)),
            ),
            final(self).wf(final(mem)@),
    {
        let ghost s = choose|s: Seq<usize>|
            segment(old(mem)@, s, first, last) && s.len() == chain_count && #[trigger] apart(
                s,
                old(self)@,
            ) && apart(s, old(self).parked());
        let ghost pushed = s + self@;
        proof {
            assert(block_ok(mem@, s[s.len() - 1]));
            assert(s.contains(s[s.len() - 1]));
        }
        FreeBlock { addr: last }.write_next(mem, self.head);
        if self.head.is_none() {
            self.tail = Some(last);
        }
        self.head = Some(first);
        self.count += chain_count;
        self.blocks = Ghost(pushed);
        proof {
            lemma_chain_concat(old(mem)@, s, first, last, old(self)@);
            lemma_chain_put(
                old(mem)@,
                last,
                head_of(old(self)@),
                head_of(self.parked()),
                self.parked(),
            );
            lemma_apart_concat(s, old(self)@, self.parked());
            assert forall|t: Seq<usize>| #[trigger]
                segment(old(mem)@, t, first, last) implies t == s by {
                lemma_segment_unique(old(mem)@, s, t, first, last);
            }
        }
    }

    /// Number of blocks on the counted list.
    pub fn count(&self) -> (n: usize)
        ensures
            n == self.counted(),
            self.coherent() ==> n == self@.len(),
    {
        self.count
    }

    /// Whether the counted list is empty.
    pub fn is_empty(&self) -> (empty: bool)
        requires
            self.coherent(),
        ensures
            empty == (self@.len() == 0),
    {
        self.head.is_none()
    }

    /// First block of the counted list.
    pub fn head(&self) -> (head: Option<usize>)
        ensures
            head == self.first(),
            self.coherent() ==> head == head_of(self@),
    {
        self.head
    }

    /// Last block of the counted list.
    pub fn tail(&self) -> (tail: Option<usize>)
        ensures
            tail == self.last(),
            self.coherent() ==> tail == last_of(self@),
    {
        self.tail
    }

    /// First block of the spare chain.
    pub fn spare(&self) -> (spare: Option<usize>)
        ensures
            spare == self.first_parked(),
            self.coherent() ==> spare == head_of(self.parked()),
    {
        self.spare
    }

    /// Detach the spare chain; its blocks stay linked to each other.
    pub fn take_spare(&mut self) -> (spare: Option<usize>)
        requires
            old(self).coherent(),
        ensures
            spare == head_of(old(self).parked()),
            final(self)@ == old(self)@,
            final(self).parked() == Seq::<usize>::empty(),
            final(self).coherent(),
            forall|m: Map<int, u8>| #[trigger] old(self).wf(m) ==> final(self).wf(m),
    {
        let spare = self.spare;
        self.spare = None;
        self.spare_blocks = Ghost(Seq::empty());
        spare
    }

    /// Move the chain that starts at `first` into the empty list: the first
    /// [`REFILL_BATCH`] blocks are counted, the rest is parked as the spare
    /// chain.
    pub fn refill<M: Memory>(&mut self, mem: &mut M, first: usize)
        requires
            old(self).wf(old(mem)@),
            old(self)@.len() == 0,
            old(self).parked().len() == 0,
            exists|s: Seq<usize>| #[trigger] chain(old(mem)@, Some(first), s),
        ensures
            forall|s: Seq<usize>| #[trigger]
                chain(old(mem)@, Some(first), s) ==> {
                    let k = if s.len() < REFILL_BATCH {
                        s.len() as int
                    } else {
                        REFILL_BATCH as int
                    };
                    &&& final(self)@ == s.take(k)
                    &&& final(self).parked() == s.skip(k)
                    &&& final(mem)@ == memory::put_word(old(mem)@, s[k - 1] as int, 0)
                },
            final(self).wf(final(mem)@),
    {
        let ghost s = choose|s: Seq<usize>| #[trigger] chain(old(mem)@, Some(first), s);
        let ghost m0 = mem@;
        let mut tail: usize = first;
        let mut count: usize = 1;
        let mut spare: Option<usize> = None;
        proof {
            assert(s.len() > 0);
        }
        loop
            invariant_except_break
                mem@ == m0,
                spare is None,
            invariant
                chain(m0, Some(first), s),
                1 <= count <= REFILL_BATCH,
                count <= s.len(),
                tail == s[count - 1],
            ensures
                mem@ == m0 || mem@ == memory::put_word(m0, tail as int, 0),
                spare == head_of(s.skip(count as int)),
                count < s.len() ==> count == REFILL_BATCH && mem@ == memory::put_word(
                    m0,
                    tail as int,
                    0,
                ),
                count < REFILL_BATCH ==> count == s.len(),
            decreases REFILL_BATCH - count,
        {
            proof {
                assert(block_ok(m0, s[count - 1]));
                assert(link(m0, s[count - 1]) == succ(s, count - 1));
            }
            let next = FreeBlock { addr: tail }.read_next(mem);
            if count >= REFILL_BATCH {
                spare = next;
                FreeBlock { addr: tail }.write_next(mem, None);
                break;
            }
            match next {
                Some(n) => {
                    tail = n;
                    count += 1;
                },
                None => {
                    break;
                },
            }
        }
        let ghost counted = s.take(count as int);
        let ghost parked = s.skip(count as int);
        self.spare = spare;
        self.spare_blocks = Ghost(parked);
        proof {
            assert(block_ok(m0, s[count - 1]));
            lemma_put_link(m0, tail, None);
            lemma_chain_skip(m0, s, count as int);
            assert(!parked.contains(tail)) by {
                if parked.contains(tail) {
                    let i = choose|i: int| 0 <= i < parked.len() && parked[i] == tail;
                    assert(s[i + count] == s[count - 1]);
                }
            }
            lemma_chain_put(m0, tail, None, head_of(parked), parked);
            assert(apart(counted, parked)) by {
                assert forall|a: usize| counted.contains(a) implies !(#[trigger] parked.contains(
                    a,
                )) by {
                    let i = choose|i: int| 0 <= i < counted.len() && counted[i] == a;
                    if parked.contains(a) {
                        let j = choose|j: int| 0 <= j < parked.len() && parked[j] == a;
                        assert(s[i] == s[j + count]);
                    }
                }
            }
            assert(segment(mem@, counted, first, tail)) by {
                assert forall|i: int| 0 <= i < counted.len() implies block_ok(
                    mem@,
                    #[trigger] counted[i],
                ) by {
                    assert(block_ok(m0, s[i]));
                }
                assert forall|i: int| 0 <= i < counted.len() - 1 implies #[trigger] link(
                    mem@,
                    counted[i],
                ) == succ(counted, i) by {
                    assert(block_ok(m0, s[i]));
                    assert(s[i] != s[count - 1]);
                    assert(link(m0, s[i]) == succ(s, i));
                }
            }
            assert(apart(counted, self@));
        }
        let ghost m1 = mem@;
        self.push_chain(mem, first, tail, count);
        proof {
            assert(self@ =~= counted);
            assert(memory::put_word(memory::put_word(m0, tail as int, 0), tail as int, 0)
                =~= memory::put_word(m0, tail as int, 0));
            assert forall|t: Seq<usize>| #[trigger] chain(m0, Some(first), t) implies t == s by {
                lemma_chain_unique(m0, s, t);
            }
        }
    }

    /// Drain **all** counted blocks, returning the full chain.
    pub fn drain_all(&mut self) -> (r: Option<(usize, usize, usize)>)
        requires
            old(self).coherent(),
        ensures
            r is None <==> old(self)@.len() == 0,
            r matches Some((first, last, n)) ==> {
                &&& Some(first) == head_of(old(self)@)
                &&& Some(last) == last_of(old(self)@)
                &&& n == old(self)@.len()
            },
            final(self)@ == Seq::<usize>::empty(),
            final(self).parked() == old(self).parked(),
            final(self).coherent(),
            forall|m: Map<int, u8>| #[trigger] old(self).wf(m) ==> final(self).wf(m),
    {
        if self.count == 0 {
            assert(self@ =~= Seq::empty());
            return None;
        }
        let head = self.head.unwrap();
        let tail = self.tail.unwrap();
        let count: usize = self.count;
        self.head = None;
        self.tail = None;
        self.count = 0;
        self.blocks = Ghost(Seq::empty());
        Some((head, tail, count))
    }

    /// Drain the **coldest** (tail-side) blocks, keeping `keep` hot blocks at
    /// the head.  Returns `(chain_head, chain_tail, drained_count)`; the
    /// drained blocks form a chain of their own.
    pub fn drain<M: Memory>(&mut self, mem: &mut M, keep: usize) -> (r: Option<
        (usize, usize, usize),
    >)
        requires
            old(self).wf(old(mem)@),
        ensures
            r is None <==> old(self)@.len() <= keep,
            r matches Some((first, last, n)) ==> {
                let cold = old(self)@.skip(keep as int);
                &&& first == cold[0]
                &&& last == cold[cold.len() - 1]
                &&& n == cold.len()
                &&& chain(final(mem)@, Some(first), cold)
                &&& final(self)@ == old(self)@.take(keep as int)
                &&& final(mem)@ == if keep > 0 {
                    memory::put_word(old(mem)@, old(self)@[keep - 1] as int, 0)
                } else {
                    old(mem)@
                }
            },
            r is None ==> *final(self) == *old(self) && final(mem)@ == old(mem)@,
            final(self).parked() == old(self).parked(),
            final(self).wf(final(mem)@),
    {
        if self.count <= keep {
            return None;
        }
        let ghost s = self@;
        let ghost m0 = mem@;
        proof {
            lemma_chain_skip(m0, s, keep as int);
        }
        if keep == 0 {
            assert(s.skip(0) =~= s);
            assert(s.take(0) =~= Seq::empty());
            return self.drain_all();
        }
        let drain_count: usize = self.count - keep;
        // Walk `keep - 1` hops from `head` to reach the split point.
        let mut split: usize = self.head.unwrap();
        let mut hops: usize = 1;
        while hops < keep
            invariant
                1 <= hops <= keep < s.len(),
                chain(m0, head_of(s), s),
                mem@ == m0,
                split == s[hops - 1],
            decreases keep - hops,
        {
            proof {
                assert(block_ok(m0, s[hops - 1]));
                assert(link(m0, s[hops - 1]) == succ(s, hops - 1));
            }
            split = FreeBlock { addr: split }.read_next(mem).unwrap();
            hops += 1;
        }
        proof {
            assert(block_ok(m0, s[keep - 1]));
            assert(link(m0, s[keep - 1]) == succ(s, keep - 1));
        }
        let chain_head = FreeBlock { addr: split }.read_next(mem).unwrap();
        let chain_tail = self.tail.unwrap();
        FreeBlock { addr: split }.write_next(mem, None);
        self.tail = Some(split);
        self.count = keep;
        let ghost hot = s.take(keep as int);
        let ghost cold = s.skip(keep as int);
        self.blocks = Ghost(hot);
        proof {
            lemma_put_link(m0, split, None);
            assert(!cold.contains(split)) by {
                if cold.contains(split) {
                    let i = choose|i: int| 0 <= i < cold.len() && cold[i] == split;
                    assert(s[i + keep] == s[keep - 1]);
                }
            }
            lemma_chain_put(m0, split, None, head_of(cold), cold);
            assert(s.contains(s[keep - 1]));
            lemma_chain_put(m0, split, None, head_of(self.parked()), self.parked());
            assert forall|i: int| 0 <= i < hot.len() implies block_ok(mem@, #[trigger] hot[i])
                && link(mem@, hot[i]) == succ(hot, i) by {
                assert(block_ok(m0, s[i]));
                assert(link(m0, s[i]) == succ(s, i));
                if i < keep - 1 {
                    assert(s[i] != s[keep - 1]);
                }
            }
            assert(apart(hot, self.parked())) by {
                assert forall|a: usize| hot.contains(a) implies !(
                #[trigger] self.parked().contains(a)) by {
                    let i = choose|i: int| 0 <= i < hot.len() && hot[i] == a;
                    assert(s.contains(s[i]));
                }
            }
        }
        Some((chain_head, chain_tail, drain_count))
    }
}

} // verus!
