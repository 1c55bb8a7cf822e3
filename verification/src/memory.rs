//! Byte-addressed memory.
//!
//! The allocator keeps its free lists *inside* the memory that it manages: a
//! free block stores the address of the next free block in its first word, and
//! a large object is preceded by a two-word header.  Everything here reads and
//! writes such words through the [`Memory`] trait, whose contracts describe
//! memory as a map from mapped addresses to bytes.  [`ByteMemory`] is an
//! implementation over an owned buffer.
use vstd::bytes::*;
use vstd::prelude::*;
use vstd::slice::slice_subrange;

verus! {

/// Every byte of `[a, a + len)` is mapped.
pub open spec fn range_mapped(m: Map<int, u8>, a: int, len: int) -> bool {
    forall|i: int| a <= i < a + len ==> #[trigger] m.dom().contains(i)
}

/// The little-endian word stored at `a`.
pub open spec fn word_at(m: Map<int, u8>, a: int) -> u64 {
    spec_u64_from_le_bytes(Seq::new(8, |k: int| m[a + k]))
}

/// Memory after the word `w` is stored at `a`.
pub open spec fn put_word(m: Map<int, u8>, a: int, w: u64) -> Map<int, u8> {
    Map::new(
        |i: int| m.dom().contains(i),
        |i: int|
            if a <= i < a + 8 {
                spec_u64_to_le_bytes(w)[i - a]
            } else {
                m[i]
            },
    )
}

/// Memory after `len` zero bytes are stored at `a`.
pub open spec fn put_zeros(m: Map<int, u8>, a: int, len: int) -> Map<int, u8> {
    Map::new(
        |i: int| m.dom().contains(i),
        |i: int|
            if a <= i < a + len {
                0u8
            } else {
                m[i]
            },
    )
}

/// Memory after `len` bytes are copied from `src` to `dst`.
pub open spec fn put_copy(m: Map<int, u8>, src: int, dst: int, len: int) -> Map<int, u8> {
    Map::new(
        |i: int| m.dom().contains(i),
        |i: int|
            if dst <= i < dst + len {
                m[src + (i - dst)]
            } else {
                m[i]
            },
    )
}

/// The two memories hold the same bytes over `[a, a + len)`.
pub open spec fn agree(m: Map<int, u8>, n: Map<int, u8>, a: int, len: int) -> bool {
    forall|i: int| a <= i < a + len ==> #[trigger] n[i] == m[i]
}

/// From memory `m` to memory `n` nothing changed outside `[a, a + len)`.
pub open spec fn changed_within(m: Map<int, u8>, n: Map<int, u8>, a: int, len: int) -> bool {
    &&& n.dom() == m.dom()
    &&& forall|i: int| m.dom().contains(i) && !(a <= i < a + len) ==> #[trigger] n[i] == m[i]
}

/// Memories that agree on the bytes of a word agree on the word.
pub proof fn lemma_word_agree(m: Map<int, u8>, n: Map<int, u8>, a: int)
    requires
        agree(m, n, a, 8),
    ensures
        word_at(n, a) == word_at(m, a),
{
    assert(Seq::new(8, |k: int| n[a + k]) =~= Seq::new(8, |k: int| m[a + k]));
}

/// Storing a word changes that word and no byte outside it, so a mapped word
/// that does not overlap it keeps its value.
pub proof fn lemma_put_word(m: Map<int, u8>, a: int, w: u64)
    requires
        range_mapped(m, a, 8),
    ensures
        put_word(m, a, w).dom() == m.dom(),
        word_at(put_word(m, a, w), a) == w,
        forall|b: int|
            range_mapped(m, b, 8) && (b + 8 <= a || a + 8 <= b) ==> #[trigger] word_at(
                put_word(m, a, w),
                b,
            ) == word_at(m, b),
        forall|i: int|
            m.dom().contains(i) && !(a <= i < a + 8) ==> #[trigger] put_word(m, a, w)[i] == m[i],
{
    let n = put_word(m, a, w);
    assert(n.dom() =~= m.dom());
    lemma_auto_spec_u64_to_from_le_bytes();
    assert(spec_u64_to_le_bytes(w).len() == 8);
    assert forall|k: int| 0 <= k < 8 implies #[trigger] n[a + k] == spec_u64_to_le_bytes(w)[k] by {
        assert(m.dom().contains(a + k));
    }
    assert(Seq::new(8, |k: int| n[a + k]) =~= spec_u64_to_le_bytes(w));
    assert forall|b: int|
        range_mapped(m, b, 8) && (b + 8 <= a || a + 8 <= b) implies #[trigger] word_at(n, b)
        == word_at(m, b) by {
        assert forall|i: int| b <= i < b + 8 implies #[trigger] n[i] == m[i] by {
            assert(m.dom().contains(i));
        }
        lemma_word_agree(m, n, b);
    }
}

/// Memory that can be read and written a word or a range at a time.
///
/// The view maps each mapped address to the byte stored there.  Only mapped
/// addresses may be touched.
pub trait Memory {
    /// The mapped addresses and their contents.  A memory outside this library
    /// may leave it undefined: it then shows nothing mapped, and nothing is
    /// proved of the calls that it serves.
    open spec fn view(&self) -> Map<int, u8> {
        Map::empty()
    }

    /// Read the word at `addr`.
    fn read_word(&self, addr: usize) -> (w: u64)
        requires
            addr % 8 == 0,
            range_mapped(self@, addr as int, 8),
        ensures
            w == word_at(self@, addr as int),
    ;

    /// Store the word `w` at `addr`.
    fn write_word(&mut self, addr: usize, w: u64)
        requires
            addr % 8 == 0,
            range_mapped(old(self)@, addr as int, 8),
        ensures
            final(self)@ == put_word(old(self)@, addr as int, w),
    ;

    /// Store `len` zero bytes at `addr`.
    fn fill_zero(&mut self, addr: usize, len: usize)
        requires
            range_mapped(old(self)@, addr as int, len as int),
        ensures
            final(self)@ == put_zeros(old(self)@, addr as int, len as int),
    ;

    /// Copy `len` bytes from `src` to `dst`; the two ranges do not overlap.
    fn copy(&mut self, src: usize, dst: usize, len: usize)
        requires
            range_mapped(old(self)@, src as int, len as int),
            range_mapped(old(self)@, dst as int, len as int),
            src + len <= dst || dst + len <= src,
        ensures
            final(self)@ == put_copy(old(self)@, src as int, dst as int, len as int),
    ;
}

/// Memory held in one growing buffer that starts at a fixed address.
///
/// [`ByteMemory::map`] hands out fresh zero-filled ranges one after the other,
/// up to a fixed number of bytes, the way an operating system maps pages.
pub struct ByteMemory {
    base: usize,
    limit: usize,
    data: Vec<u8>,
}

impl ByteMemory {
    /// First address of the buffer.
    pub closed spec fn base(&self) -> int {
        self.base as int
    }

    /// Most bytes that can ever be mapped.
    pub closed spec fn limit(&self) -> int {
        self.limit as int
    }

    /// First address that is not mapped yet.
    pub closed spec fn end(&self) -> int {
        self.base + self.data@.len()
    }

    /// Memory with nothing mapped, starting at `base` and growing to at most
    /// `limit` bytes.
    pub fn new(base: usize, limit: usize) -> (mem: Self)
        ensures
            mem.base() == base,
            mem.limit() == limit,
            mem.end() == base,
            mem@ == Map::<int, u8>::empty(),
    {
        let mem = ByteMemory { base, limit, data: Vec::new() };
        assert(mem@ =~= Map::<int, u8>::empty());
        mem
    }

    /// Map `size` fresh zero bytes; `None` when they do not fit into the limit or
    /// the address space.
    pub fn map(&mut self, size: usize) -> (addr: Option<usize>)
        ensures
            final(self).base() == old(self).base(),
            final(self).limit() == old(self).limit(),
            addr is Some <==> old(self).end() - old(self).base() + size <= old(self).limit()
                && old(self).end() + size <= usize::MAX,
            addr matches Some(a) ==> {
                &&& a == old(self).end()
                &&& final(self).end() == a + size
                &&& final(self)@ == old(self)@.union_prefer_right(
                    Map::new(|i: int| a <= i < a + size, |i: int| 0u8),
                )
                &&& forall|i: int| a <= i < a + size ==> !old(self)@.dom().contains(i)
            },
            addr is None ==> *final(self) == *old(self),
    {
        let used: usize = self.data.len();
        if used > self.limit || size > self.limit - used {
            return None;
        }
        if used + size > usize::MAX - self.base {
            return None;
        }
        let addr: usize = self.base + used;
        self.data.resize(used + size, 0u8);
        assert(self@ =~= old(self)@.union_prefer_right(
            Map::new(|i: int| addr <= i < addr + size, |i: int| 0u8),
        ));
        Some(addr)
    }

    /// Read one byte.
    pub fn read_byte(&self, addr: usize) -> (b: u8)
        requires
            self@.dom().contains(addr as int),
        ensures
            b == self@[addr as int],
    {
        self.data[addr - self.base]
    }

    /// Store one byte.
    pub fn write_byte(&mut self, addr: usize, b: u8)
        requires
            old(self)@.dom().contains(addr as int),
        ensures
            final(self)@ == old(self)@.insert(addr as int, b),
            final(self).base() == old(self).base(),
            final(self).limit() == old(self).limit(),
            final(self).end() == old(self).end(),
    {
        let i: usize = addr - self.base;
        self.data[i] = b;
        assert(self@ =~= old(self)@.insert(addr as int, b));
    }
}

impl Memory for ByteMemory {
    closed spec fn view(&self) -> Map<int, u8> {
        Map::new(
            |a: int| self.base <= a < self.base + self.data@.len(),
            |a: int| self.data@[a - self.base],
        )
    }

    fn read_word(&self, addr: usize) -> (w: u64) {
        assert(self@.dom().contains(addr as int));
        assert(self@.dom().contains(addr + 7));
        let i: usize = addr - self.base;
        let total: usize = self.data.len();
        assert(i + 8 <= total);
        let bytes = slice_subrange(self.data.as_slice(), i, i + 8);
        assert(bytes@ =~= Seq::new(8, |k: int| self@[addr + k]));
        u64_from_le_bytes(bytes)
    }

    fn write_word(&mut self, addr: usize, w: u64) {
        assert(self@.dom().contains(addr as int));
        assert(self@.dom().contains(addr + 7));
        let i: usize = addr - self.base;
        let bytes = u64_to_le_bytes(w);
        proof {
            lemma_auto_spec_u64_to_from_le_bytes();
        }
        let total: usize = self.data.len();
        let ghost before = self.data@;
        let mut k: usize = 0;
        while k < 8
            invariant
                k <= 8,
                bytes@ == spec_u64_to_le_bytes(w),
                bytes@.len() == 8,
                self.base == old(self).base,
                self.limit == old(self).limit,
                old(self).data@ == before,
                before.len() == total,
                i == addr - self.base,
                i + 8 <= before.len(),
                self.data@.len() == before.len(),
                forall|j: int|
                    0 <= j < before.len() ==> #[trigger] self.data@[j] == (if i <= j < i + k {
                        bytes@[j - i]
                    } else {
                        before[j]
                    }),
            decreases 8 - k,
        {
            self.data[i + k] = bytes[k];
            k += 1;
        }
        assert(self@ =~= put_word(old(self)@, addr as int, w));
    }

    fn fill_zero(&mut self, addr: usize, len: usize) {
        if len == 0 {
            assert(self@ =~= put_zeros(old(self)@, addr as int, len as int));
            return;
        }
        assert(self@.dom().contains(addr as int));
        assert(self@.dom().contains(addr + len - 1));
        let i: usize = addr - self.base;
        let total: usize = self.data.len();
        let ghost before = self.data@;
        let mut k: usize = 0;
        while k < len
            invariant
                k <= len,
                self.base == old(self).base,
                self.limit == old(self).limit,
                old(self).data@ == before,
                before.len() == total,
                i == addr - self.base,
                i + len <= before.len(),
                self.data@.len() == before.len(),
                forall|j: int|
                    0 <= j < before.len() ==> #[trigger] self.data@[j] == (if i <= j < i + k {
                        0u8
                    } else {
                        before[j]
                    }),
            decreases len - k,
        {
            self.data[i + k] = 0u8;
            k += 1;
        }
        assert(self@ =~= put_zeros(old(self)@, addr as int, len as int));
    }

    fn copy(&mut self, src: usize, dst: usize, len: usize) {
        if len == 0 {
            assert(self@ =~= put_copy(old(self)@, src as int, dst as int, len as int));
            return;
        }
        assert(self@.dom().contains(src as int));
        assert(self@.dom().contains(src + len - 1));
        assert(self@.dom().contains(dst as int));
        assert(self@.dom().contains(dst + len - 1));
        let i: usize = src - self.base;
        let o: usize = dst - self.base;
        let total: usize = self.data.len();
        let ghost before = self.data@;
        let mut k: usize = 0;
        while k < len
            invariant
                k <= len,
                self.base == old(self).base,
                self.limit == old(self).limit,
                old(self).data@ == before,
                before.len() == total,
                i == src - self.base,
                o == dst - self.base,
                i + len <= before.len(),
                o + len <= before.len(),
                i + len <= o || o + len <= i,
                self.data@.len() == before.len(),
                forall|j: int|
                    0 <= j < before.len() ==> #[trigger] self.data@[j] == (if o <= j < o + k {
                        before[i + (j - o)]
                    } else {
                        before[j]
                    }),
            decreases len - k,
        {
            let b = self.data[i + k];
            self.data[o + k] = b;
            k += 1;
        }
        assert(self@ =~= put_copy(old(self)@, src as int, dst as int, len as int));
    }
}

/// What is stored is read back byte by byte, and nothing else changes: a word,
/// zeros, or a copy.
pub proof fn law_stores(m: Map<int, u8>, src: int, dst: int, len: int, w: u64, i: int)
    requires
        m.dom().contains(i),
    ensures
        put_word(m, dst, w).dom() == m.dom(),
        put_zeros(m, dst, len).dom() == m.dom(),
        put_copy(m, src, dst, len).dom() == m.dom(),
        dst <= i < dst + len ==> put_zeros(m, dst, len)[i] == 0 && put_copy(m, src, dst, len)[i]
            == m[i - dst + src],
        i < dst || dst + len <= i ==> put_zeros(m, dst, len)[i] == m[i] && put_copy(
            m,
            src,
            dst,
            len,
        )[i] == m[i],
        i < dst || dst + 8 <= i ==> put_word(m, dst, w)[i] == m[i],
        range_mapped(m, dst, 8) ==> word_at(put_word(m, dst, w), dst) == w,
{
    assert(put_word(m, dst, w).dom() =~= m.dom());
    assert(put_zeros(m, dst, len).dom() =~= m.dom());
    assert(put_copy(m, src, dst, len).dom() =~= m.dom());
    if range_mapped(m, dst, 8) {
        lemma_put_word(m, dst, w);
    }
}

} // verus!
