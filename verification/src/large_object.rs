//! Large objects: each has a mapping of its own, and a header just before the
//! payload that tells where the mapping starts and how long it is.
use crate::heap_view;
use crate::layout::{self, Layout};
use crate::memory::{self, Memory};
use vstd::arithmetic::power2;
use vstd::prelude::*;

verus! {

/// Bytes of the header in front of a payload.
pub const HEADER_SIZE: usize = 16;

/// Alignment of the header.
pub const HEADER_ALIGN: usize = 8;

/// Header of a large object.
#[derive(Clone, Copy, PartialEq, Eq, Structural, Debug)]
pub struct LargeHeader {
    /// First address of the mapping.
    pub original_ptr: usize,
    /// Total size of the mapping.
    pub alloc_size: usize,
}

/// Alignment of a payload, which the header in front of it needs too.
pub open spec fn payload_align(align: int) -> int {
    if align < HEADER_ALIGN {
        HEADER_ALIGN as int
    } else {
        align
    }
}

/// Bytes to map for a large object: header, padding and payload, rounded up to
/// whole pages.
pub open spec fn large_extent(layout: Layout, page_size: int) -> int {
    heap_view::align_up(
        HEADER_SIZE + (payload_align(layout.spec_align()) - 1) + layout.spec_size(),
        page_size,
    )
}

/// Address of the payload in a mapping at `raw`.
pub open spec fn payload_at(raw: int, layout: Layout) -> int {
    heap_view::align_up(raw + HEADER_SIZE, payload_align(layout.spec_align()))
}

/// Memory after a header was stored in front of `payload`.
pub open spec fn with_header(m: Map<int, u8>, payload: int, header: LargeHeader) -> Map<int, u8> {
    memory::put_word(
        memory::put_word(m, payload - 16, header.original_ptr as u64),
        payload - 8,
        header.alloc_size as u64,
    )
}

/// The header in front of `payload`.
pub open spec fn header_at(m: Map<int, u8>, payload: int) -> LargeHeader {
    LargeHeader {
        original_ptr: memory::word_at(m, payload - 16) as usize,
        alloc_size: memory::word_at(m, payload - 8) as usize,
    }
}

/// Compute the total mapping size needed for a large allocation.  `None` if it
/// exceeds `isize::MAX`.
pub fn large_alloc_size(layout: &Layout, page_size: usize) -> (size: Option<usize>)
    requires
        layout.wf(),
        0 < page_size <= isize::MAX,
    ensures
        size is Some <==> large_extent(*layout, page_size as int) <= isize::MAX,
        size matches Some(n) ==> n == large_extent(*layout, page_size as int),
{
    proof {
        layout.lemma_bounds();
        heap_view::lemma_align_up(
            HEADER_SIZE + (payload_align(layout.spec_align()) - 1) + layout.spec_size(),
            page_size as int,
        );
    }
    let align: usize = if layout.align() < HEADER_ALIGN {
        HEADER_ALIGN
    } else {
        layout.align()
    };
    let padded: usize = match HEADER_SIZE.checked_add(align - 1) {
        Some(v) => v,
        None => return None,
    };
    let alloc_size: usize = match padded.checked_add(layout.size()) {
        Some(v) => v,
        None => return None,
    };
    let rounded: usize = match alloc_size.checked_add(page_size - 1) {
        Some(v) => v - v % page_size,
        None => return None,
    };
    if rounded <= isize::MAX as usize {
        Some(rounded)
    } else {
        None
    }
}

/// Where the payload lies in its mapping.
pub proof fn lemma_payload(raw: int, layout: Layout, alloc_size: int, page_size: int)
    requires
        layout.wf(),
        0 < page_size,
        large_extent(layout, page_size) <= alloc_size,
    ensures
        raw + 16 <= payload_at(raw, layout),
        payload_at(raw, layout) + layout.spec_size() <= raw + alloc_size,
        payload_at(raw, layout) % 8 == 0,
        payload_at(raw, layout) % layout.spec_align() == 0,
{
    let align = payload_align(layout.spec_align());
    layout.lemma_bounds();
    heap_view::lemma_align_up(raw + HEADER_SIZE, align);
    heap_view::lemma_align_up(HEADER_SIZE + (align - 1) + layout.spec_size(), page_size);
    assert(power2::is_pow2(8)) by {
        reveal_with_fuel(power2::is_pow2, 5);
    }
    layout::lemma_pow2_divides(8, align);
    layout::lemma_pow2_divides(layout.spec_align(), align);
    heap_view::lemma_divides(payload_at(raw, layout), align, 8);
    heap_view::lemma_divides(payload_at(raw, layout), align, layout.spec_align());
}

/// The payload begins inside its mapping, even one of no bytes: pages that are
/// whole words leave it room.
pub proof fn lemma_payload_inside(raw: int, layout: Layout, alloc_size: int, page_size: int)
    requires
        layout.wf(),
        0 < page_size,
        large_extent(layout, page_size) <= alloc_size,
        raw % page_size == 0,
        layout.spec_size() > 0 || page_size % 8 == 0,
    ensures
        payload_at(raw, layout) < raw + alloc_size,
{
    lemma_payload(raw, layout, alloc_size, page_size);
    if layout.spec_size() == 0 {
        let align = payload_align(layout.spec_align());
        layout.lemma_bounds();
        heap_view::lemma_align_up(raw + HEADER_SIZE, align);
        heap_view::lemma_align_up(HEADER_SIZE + (align - 1) + layout.spec_size(), page_size);
        assert(power2::is_pow2(8)) by {
            reveal_with_fuel(power2::is_pow2, 5);
        }
        layout::lemma_pow2_divides(8, align);
        heap_view::lemma_divides(raw, page_size, 8);
    }
}

/// A stored header is found again, and storing it changes nothing but its own
/// sixteen bytes.
pub proof fn lemma_with_header(m: Map<int, u8>, payload: int, header: LargeHeader)
    requires
        memory::range_mapped(m, payload - 16, 16),
    ensures
        with_header(m, payload, header).dom() == m.dom(),
        header_at(with_header(m, payload, header), payload) == header,
        forall|i: int|
            m.dom().contains(i) && !(payload - 16 <= i < payload) ==> #[trigger] with_header(
                m,
                payload,
                header,
            )[i] == m[i],
{
    let n = memory::put_word(m, payload - 16, header.original_ptr as u64);
    memory::lemma_put_word(m, payload - 16, header.original_ptr as u64);
    assert(memory::range_mapped(n, payload - 8, 8));
    assert(memory::range_mapped(n, payload - 16, 8));
    memory::lemma_put_word(n, payload - 8, header.alloc_size as u64);
    assert forall|i: int|
        m.dom().contains(i) && !(payload - 16 <= i < payload) implies #[trigger] with_header(
        m,
        payload,
        header,
    )[i] == m[i] by {
        assert(n.dom().contains(i));
        assert(n[i] == m[i]);
    }
}

/// Place the header and return the payload address for a mapping of
/// `alloc_size` bytes at `raw`.
pub fn prepare_large_payload<M: Memory>(
    mem: &mut M,
    raw: usize,
    alloc_size: usize,
    layout: &Layout,
    page_size: usize,
) -> (payload: usize)
    requires
        layout.wf(),
        0 < page_size <= isize::MAX,
        large_extent(*layout, page_size as int) <= alloc_size,
        raw + alloc_size <= usize::MAX,
        memory::range_mapped(old(mem)@, raw as int, alloc_size as int),
    ensures
        payload == payload_at(raw as int, *layout),
        final(mem)@ == with_header(
            old(mem)@,
            payload as int,
            (LargeHeader { original_ptr: raw, alloc_size }),
        ),
        header_at(final(mem)@, payload as int) == (LargeHeader { original_ptr: raw, alloc_size }),
{
    proof {
        layout.lemma_bounds();
        lemma_payload(raw as int, *layout, alloc_size as int, page_size as int);
        heap_view::lemma_align_up(
            HEADER_SIZE + (payload_align(layout.spec_align()) - 1) + layout.spec_size(),
            page_size as int,
        );
    }
    let align: usize = if layout.align() < HEADER_ALIGN {
        HEADER_ALIGN
    } else {
        layout.align()
    };
    let padded: usize = raw + HEADER_SIZE + (align - 1);
    let payload: usize = padded - padded % align;
    proof {
        lemma_with_header(
            mem@,
            payload as int,
            LargeHeader { original_ptr: raw, alloc_size },
        );
    }
    mem.write_word(payload - 16, raw as u64);
    mem.write_word(payload - 8, alloc_size as u64);
    payload
}

/// Read the header of the large object at `ptr`.
pub fn read_header<M: Memory>(mem: &M, ptr: usize) -> (header: LargeHeader)
    requires
        ptr >= 16,
        ptr % 8 == 0,
        memory::range_mapped(mem@, ptr - 16, 16),
    ensures
        header == header_at(mem@, ptr as int),
{
    let original_ptr: usize = mem.read_word(ptr - 16) as usize;
    let alloc_size: usize = mem.read_word(ptr - 8) as usize;
    LargeHeader { original_ptr, alloc_size }
}

} // verus!
