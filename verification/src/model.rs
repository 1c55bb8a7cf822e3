//! A model of the objects that a user of an allocator holds.
//!
//! The model keeps a table of *slots*.  Each slot either is empty or owns one
//! live object together with its requested size, alignment and a generation
//! counter.  Every byte written into a live object is derived from its slot,
//! its generation and the byte's offset, so that corruption caused by unrelated
//! operations shows.  The runner makes the calls, and writes and compares the
//! bytes; the model says which slot, which bytes, and whether what came back
//! may stand beside the objects that are live.
use crate::layout::{self, Layout};
use crate::ops::{FreeOrder, MAX_OP_SIZE, PAGE};
use vstd::prelude::*;

verus! {

// ---------------------------------------------------------------------------
// Bytes
// ---------------------------------------------------------------------------
/// The byte at `offset` of an object: a hash of slot, generation and offset.
pub open spec fn pattern(slot: int, generation: int, offset: int) -> u8 {
    let x = ((slot * 0x9E3779B1 + generation * 0x85EBCA6B) % 0x100000000) as u32 ^ ((offset
        * 0xC2B2AE35) % 0x100000000) as u32;
    let y = x ^ (x >> 15);
    ((y * 0x2C1B3C6D) % 0x100000000 / 0x1000000) as u8
}

/// The low 32 bits of a product.
fn scaled(x: usize, k: u32) -> (r: u32)
    ensures
        r == x * k % 0x100000000,
{
    let low: u32 = (x as u64 % 0x100000000) as u32;
    proof {
        vstd::arithmetic::div_mod::lemma_mul_mod_noop_left(x as int, k as int, 0x100000000);
    }
    low.wrapping_mul(k)
}

/// Deterministic byte for a slot, a generation and an offset.
pub fn pattern_byte(slot: usize, generation: u32, offset: usize) -> (b: u8)
    ensures
        b == pattern(slot as int, generation as int, offset as int),
{
    let s: u32 = scaled(slot, 0x9E3779B1);
    let g: u32 = scaled(generation as usize, 0x85EBCA6B);
    let o: u32 = scaled(offset, 0xC2B2AE35);
    let sum: u32 = s.wrapping_add(g);
    proof {
        vstd::arithmetic::div_mod::lemma_add_mod_noop(
            slot * 0x9E3779B1,
            generation * 0x85EBCA6B,
            0x100000000,
        );
    }
    let x: u32 = sum ^ o;
    let y: u32 = x ^ (x >> 15);
    let z: u32 = scaled(y as usize, 0x2C1B3C6D);
    (z / 0x1000000) as u8
}

/// How much of each object is written and compared.
#[derive(Clone, Copy, PartialEq, Eq, Structural, Debug)]
pub enum FillMode {
    /// Every byte.
    Full,
    /// Head, tail and one byte per page.
    Sparse,
}

/// Bytes at either end that a sparse fill covers.
pub const EDGE: usize = 64;

/// The numbers of `[from, to)` that are `step` apart, starting with `from`.
pub open spec fn stepped(from: int, to: int, step: int) -> Seq<usize>
    decreases
        if from < to {
            to - from
        } else {
            0
        },
{
    if from < to && step > 0 {
        seq![from as usize] + stepped(from + step, to, step)
    } else {
        Seq::empty()
    }
}

/// Where the middle part of an object ends: [`EDGE`] bytes before its end.
pub open spec fn middle_end(size: int) -> int {
    if size >= EDGE {
        size - EDGE
    } else {
        0
    }
}

/// Where the first part of an object ends.
pub open spec fn head_end(size: int) -> int {
    if size >= EDGE {
        EDGE as int
    } else {
        size
    }
}

/// Offsets that are written and compared for an object of `size` bytes.
pub open spec fn probes(size: int, mode: FillMode) -> Seq<usize> {
    match mode {
        FillMode::Full => stepped(0, size, 1),
        FillMode::Sparse => {
            let head = head_end(size);
            let tail = if middle_end(size) > head {
                middle_end(size)
            } else {
                head
            };
            stepped(0, head, 1) + stepped(tail, size, 1) + stepped(
                head,
                middle_end(size),
                PAGE as int,
            )
        },
    }
}

/// Append the numbers of `[from, to)` that are `step` apart.
fn push_stepped(v: &mut Vec<usize>, from: usize, to: usize, step: usize)
    requires
        step > 0,
    ensures
        final(v)@ == old(v)@ + stepped(from as int, to as int, step as int),
{
    let mut at: usize = from;
    while at < to
        invariant_except_break
            v@ + stepped(at as int, to as int, step as int) == old(v)@ + stepped(
                from as int,
                to as int,
                step as int,
            ),
        invariant
            step > 0,
        ensures
            v@ == old(v)@ + stepped(from as int, to as int, step as int),
        decreases to - at,
    {
        let ghost before = v@;
        v.push(at);
        assert(v@ + stepped(at + step, to as int, step as int) =~= before + stepped(
            at as int,
            to as int,
            step as int,
        ));
        if step >= to - at {
            assert(v@ + stepped(at + step, to as int, step as int) =~= v@);
            break;
        }
        at += step;
    }
    proof {
        if at >= to {
            assert(v@ + stepped(at as int, to as int, step as int) =~= v@);
        }
    }
}

/// Offsets that are written and compared for an object of `size` bytes.
pub fn probe_offsets(size: usize, mode: FillMode) -> (v: Vec<usize>)
    ensures
        v@ == probes(size as int, mode),
{
    let mut v: Vec<usize> = Vec::new();
    match mode {
        FillMode::Full => {
            push_stepped(&mut v, 0, size, 1);
            assert(v@ =~= probes(size as int, mode));
        },
        FillMode::Sparse => {
            let head: usize = if size >= EDGE {
                EDGE
            } else {
                size
            };
            let end: usize = if size >= EDGE {
                size - EDGE
            } else {
                0
            };
            let tail: usize = if end > head {
                end
            } else {
                head
            };
            push_stepped(&mut v, 0, head, 1);
            push_stepped(&mut v, tail, size, 1);
            push_stepped(&mut v, head, end, PAGE);
            assert(v@ =~= probes(size as int, mode));
        },
    }
    v
}

// ---------------------------------------------------------------------------
// Objects
// ---------------------------------------------------------------------------
/// A live object.
#[derive(Clone, Copy, PartialEq, Eq, Structural, Debug)]
pub struct Owned {
    pub ptr: usize,
    pub size: usize,
    pub align: usize,
    /// Generation that its bytes were derived from.
    pub generation: u32,
    /// Slot that its bytes were derived from.
    pub pattern_slot: usize,
}

impl Owned {
    /// First address after the object; an empty one counts as one byte.
    pub open spec fn end(self) -> int {
        self.ptr + if self.size == 0 {
            1
        } else {
            self.size as int
        }
    }

    /// The object lies in memory, where its layout says.
    pub open spec fn sound(self) -> bool {
        &&& self.end() <= usize::MAX
        &&& layout::valid_layout(self.size as int, self.align as int)
        &&& self.ptr as int % self.align as int == 0
    }
}

/// The objects share no byte.
pub open spec fn apart(a: Owned, b: Owned) -> bool {
    a.end() <= b.ptr || b.end() <= a.ptr
}

/// What is wrong with an object that came from the allocator.
#[derive(Clone, Copy, PartialEq, Eq, Structural, Debug)]
pub enum Fault {
    /// Its address violates the alignment.
    Misaligned,
    /// It overlaps the live object in a slot.
    Overlap { slot: usize },
}

/// Number of calls that were made.
#[derive(Clone, Copy, PartialEq, Eq, Structural, Debug)]
pub struct Stats {
    pub allocs: usize,
    pub frees: usize,
    pub reallocs: usize,
}

/// The generation after `g`; zero is left out.
pub open spec fn next_generation(g: u32) -> u32 {
    if g == u32::MAX {
        1
    } else {
        (g + 1) as u32
    }
}

/// The live slots among the first `n`, in order.
pub open spec fn live_slots(s: Seq<Option<Owned>>, n: int) -> Seq<usize>
    decreases n,
{
    if n <= 0 {
        Seq::empty()
    } else if s[n - 1] is Some {
        live_slots(s, n - 1).push((n - 1) as usize)
    } else {
        live_slots(s, n - 1)
    }
}

/// The empty slots among the first `n`, in order.
pub open spec fn empty_slots(s: Seq<Option<Owned>>, n: int) -> Seq<usize>
    decreases n,
{
    if n <= 0 {
        Seq::empty()
    } else if s[n - 1] is None {
        empty_slots(s, n - 1).push((n - 1) as usize)
    } else {
        empty_slots(s, n - 1)
    }
}

/// Every second of `v`, starting with number `k`.
pub open spec fn every_second(v: Seq<usize>, k: int) -> Seq<usize> {
    Seq::new(((v.len() + 1 - k) / 2) as nat, |i: int| v[2 * i + k])
}

/// The order in which the slots `v` are freed.
pub open spec fn ordered(v: Seq<usize>, order: FreeOrder) -> Seq<usize> {
    match order {
        FreeOrder::Fifo => v,
        FreeOrder::Lifo => v.reverse(),
        FreeOrder::EverySecond => every_second(v, 0) + every_second(v, 1),
    }
}

// ---------------------------------------------------------------------------
// Table of slots
// ---------------------------------------------------------------------------
/// The objects that one user of an allocator holds.
pub struct Model {
    slots: Vec<Option<Owned>>,
    next: u32,
    mode: FillMode,
    must_succeed: Option<usize>,
    stats: Stats,
}

impl View for Model {
    type V = Seq<Option<Owned>>;

    closed spec fn view(&self) -> Seq<Option<Owned>> {
        self.slots@
    }
}

impl Model {
    /// Generation of the next object.
    pub closed spec fn generation(&self) -> u32 {
        self.next
    }

    /// How objects are filled.
    pub closed spec fn fills(&self) -> FillMode {
        self.mode
    }

    /// Requests up to this size must succeed.
    pub closed spec fn bound(&self) -> Option<usize> {
        self.must_succeed
    }

    /// Calls made so far.
    pub closed spec fn calls(&self) -> Stats {
        self.stats
    }

    /// The slot that an index stands for.
    pub open spec fn index(&self, slot: int) -> int {
        slot % self@.len() as int
    }

    /// The live objects are sound, carry the pattern of their slot, and share
    /// no byte.
    pub open spec fn wf(&self) -> bool {
        &&& 0 < self@.len() <= usize::MAX
        &&& self.generation() > 0
        &&& forall|i: int|
            0 <= i < self@.len() ==> ((#[trigger] self@[i]) matches Some(o) ==> o.sound()
                && o.pattern_slot == i)
        &&& forall|i: int, j: int|
            0 <= i < self@.len() && 0 <= j < self@.len() && i != j && (#[trigger] self@[i]) is Some
                && (#[trigger] self@[j]) is Some ==> apart(self@[i]->Some_0, self@[j]->Some_0)
    }

    /// What else the model keeps is unchanged.
    pub open spec fn same_settings(&self, other: &Self) -> bool {
        &&& self.fills() == other.fills()
        &&& self.bound() == other.bound()
    }

    /// A model with empty slots.
    pub fn new(nslots: usize, mode: FillMode) -> (model: Self)
        requires
            nslots > 0,
        ensures
            model.wf(),
            model@ == Seq::new(nslots as nat, |i: int| None::<Owned>),
            model.fills() == mode,
            model.bound() == Some(MAX_OP_SIZE),
            model.generation() == 1,
            model.calls() == (Stats { allocs: 0, frees: 0, reallocs: 0 }),
    {
        let mut slots: Vec<Option<Owned>> = Vec::new();
        let mut i: usize = 0;
        while i < nslots
            invariant
                i <= nslots,
                slots@ == Seq::new(i as nat, |j: int| None::<Owned>),
            decreases nslots - i,
        {
            slots.push(None);
            i += 1;
            assert(slots@ =~= Seq::new(i as nat, |j: int| None::<Owned>));
        }
        let stats = Stats { allocs: 0, frees: 0, reallocs: 0 };
        Model { slots, next: 1, mode, must_succeed: Some(MAX_OP_SIZE), stats }
    }

    /// Requests up to `limit` must succeed; larger ones may fail.
    pub fn set_must_succeed_below(&mut self, limit: Option<usize>)
        ensures
            final(self).bound() == limit,
            final(self)@ == old(self)@,
            final(self).fills() == old(self).fills(),
            final(self).generation() == old(self).generation(),
            final(self).calls() == old(self).calls(),
    {
        self.must_succeed = limit;
    }

    /// Whether a request for `size` bytes may fail.
    pub fn may_fail(&self, size: usize) -> (yes: bool)
        ensures
            yes <==> (self.bound() matches Some(limit) ==> size > limit),
    {
        match self.must_succeed {
            Some(limit) => size > limit,
            None => true,
        }
    }

    /// Number of slots.
    pub fn nslots(&self) -> (n: usize)
        ensures
            n == self@.len(),
    {
        self.slots.len()
    }

    /// How objects are filled.
    pub fn mode(&self) -> (mode: FillMode)
        ensures
            mode == self.fills(),
    {
        self.mode
    }

    /// Calls made so far.
    pub fn stats(&self) -> (stats: Stats)
        ensures
            stats == self.calls(),
    {
        self.stats
    }

    /// The object in a slot.
    pub fn object(&self, slot: usize) -> (o: Option<Owned>)
        requires
            self.wf(),
        ensures
            o == self@[self.index(slot as int)],
    {
        self.slots[slot % self.slots.len()]
    }

    /// The layout to request for an allocation.  `None` for what the model
    /// never issues: an empty request, or one that is no layout.
    pub fn request(size: usize, align: usize) -> (l: Option<Layout>)
        ensures
            l is Some <==> size > 0 && layout::valid_layout(size as int, align as int),
            l matches Some(l) ==> l.spec_size() == size && l.spec_align() == align && l.wf(),
    {
        if size == 0 {
            return None;
        }
        match Layout::from_size_align(size, align) {
            Ok(l) => Some(l),
            Err(_) => None,
        }
    }

    /// The first live slot other than `except` whose object shares a byte with
    /// `o`.
    fn overlapping(&self, o: Owned, except: usize) -> (r: Option<usize>)
        requires
            self.wf(),
            o.end() <= usize::MAX,
        ensures
            r is None <==> forall|i: int|
                0 <= i < self@.len() && i != except && (#[trigger] self@[i]) is Some ==> apart(
                    self@[i]->Some_0,
                    o,
                ),
            r matches Some(i) ==> self.first_overlap(except as int, o, i as int),
    {
        let end: usize = o.ptr + if o.size == 0 {
            1
        } else {
            o.size
        };
        let mut i: usize = 0;
        while i < self.slots.len()
            invariant
                self.wf(),
                i <= self@.len(),
                self@ == self.slots@,
                end == o.end(),
                forall|j: int|
                    0 <= j < i && j != except && (#[trigger] self@[j]) is Some ==> apart(
                        self@[j]->Some_0,
                        o,
                    ),
            decreases self@.len() - i,
        {
            if i != except {
                if let Some(q) = self.slots[i] {
                    assert(self@[i as int] == Some(q));
                    let last: usize = q.ptr + if q.size == 0 {
                        1
                    } else {
                        q.size
                    };
                    if end > q.ptr && last > o.ptr {
                        return Some(i);
                    }
                }
            }
            i += 1;
        }
        None
    }

    /// Where an object at `ptr` would be if slot `i` took it.
    pub open spec fn candidate(&self, i: int, ptr: usize, size: usize, align: usize) -> Owned {
        Owned { ptr, size, align, generation: self.generation(), pattern_slot: i as usize }
    }

    /// The object shares no byte with those in slots other than `i`.
    pub open spec fn fits_beside(&self, i: int, o: Owned) -> bool {
        forall|j: int|
            0 <= j < self@.len() && j != i && (#[trigger] self@[j]) is Some ==> apart(
                self@[j]->Some_0,
                o,
            )
    }

    /// Of the slots other than `i` whose objects share a byte with `o`, the
    /// first is `slot`.
    pub open spec fn first_overlap(&self, i: int, o: Owned, slot: int) -> bool {
        &&& 0 <= slot < self@.len()
        &&& slot != i
        &&& self@[slot] matches Some(q) && !apart(q, o)
        &&& forall|j: int|
            0 <= j < slot && j != i && (#[trigger] self@[j]) is Some ==> apart(
                self@[j]->Some_0,
                o,
            )
    }

    /// Outcome of storing an object in slot `i` of the model `before`.
    pub open spec fn settled(
        &self,
        before: &Self,
        i: int,
        ptr: usize,
        size: usize,
        align: usize,
        r: Result<Owned, Fault>,
    ) -> bool {
        let o = before.candidate(i, ptr, size, align);
        let aligned = ptr as int % align as int == 0;
        &&& r is Ok <==> aligned && before.fits_beside(i, o)
        &&& r matches Ok(q) ==> q == o && self@ == before@.update(i, Some(o)) && self.generation()
            == next_generation(before.generation())
        &&& r matches Err(e) ==> {
            &&& self@ == before@
            &&& self.generation() == before.generation()
            &&& e is Misaligned <==> !aligned
            &&& e matches Fault::Overlap { slot } ==> before.first_overlap(i, o, slot as int)
        }
    }

    /// Store an object in slot `i`, with a new generation.
    fn settle(&mut self, i: usize, ptr: usize, size: usize, align: usize) -> (r: Result<
        Owned,
        Fault,
    >)
        requires
            old(self).wf(),
            i < old(self)@.len(),
            layout::valid_layout(size as int, align as int),
            old(self).candidate(i as int, ptr, size, align).end() <= usize::MAX,
        ensures
            final(self).wf(),
            final(self).settled(old(self), i as int, ptr, size, align, r),
            final(self).same_settings(old(self)),
            final(self).calls() == old(self).calls(),
    {
        proof {
            reveal(vstd::arithmetic::power2::is_pow2);
        }
        if ptr % align != 0 {
            return Err(Fault::Misaligned);
        }
        let o = Owned { ptr, size, align, generation: self.next, pattern_slot: i };
        if let Some(slot) = self.overlapping(o, i) {
            return Err(Fault::Overlap { slot });
        }
        self.next = if self.next == u32::MAX {
            1
        } else {
            self.next + 1
        };
        self.slots.set(i, Some(o));
        Ok(o)
    }

    /// Store a new object that the allocator returned for an empty slot.
    pub fn place(&mut self, slot: usize, ptr: usize, l: &Layout) -> (r: Result<Owned, Fault>)
        requires
            old(self).wf(),
            old(self)@[old(self).index(slot as int)] is None,
            l.wf(),
            ptr + l.spec_size() < usize::MAX,
            old(self).calls().allocs < usize::MAX,
        ensures
            final(self).wf(),
            final(self).settled(
                old(self),
                old(self).index(slot as int),
                ptr,
                l.spec_size() as usize,
                l.spec_align() as usize,
                r,
            ),
            final(self).same_settings(old(self)),
            final(self).calls() == (Stats {
                allocs: if r is Ok {
                    (old(self).calls().allocs + 1) as usize
                } else {
                    old(self).calls().allocs
                },
                ..old(self).calls()
            }),
    {
        let i: usize = slot % self.slots.len();
        let size: usize = l.size();
        let align: usize = l.align();
        let r = self.settle(i, ptr, size, align);
        if r.is_ok() {
            self.stats.allocs += 1;
        }
        r
    }

    /// Store the object that the allocator returned when asked to resize the
    /// one in a slot.  The old object is gone, so the new one may overlap it.
    pub fn resize(&mut self, slot: usize, ptr: usize, new_size: usize) -> (r: Result<Owned, Fault>)
        requires
            old(self).wf(),
            old(self)@[old(self).index(slot as int)] matches Some(o) && layout::valid_layout(
                new_size as int,
                o.align as int,
            ),
            ptr + new_size < usize::MAX,
            old(self).calls().reallocs < usize::MAX,
        ensures
            final(self).wf(),
            final(self).settled(
                old(self),
                old(self).index(slot as int),
                ptr,
                new_size,
                old(self)@[old(self).index(slot as int)]->Some_0.align,
                r,
            ),
            final(self).same_settings(old(self)),
            final(self).calls() == (Stats {
                reallocs: if r is Ok {
                    (old(self).calls().reallocs + 1) as usize
                } else {
                    old(self).calls().reallocs
                },
                ..old(self).calls()
            }),
    {
        let i: usize = slot % self.slots.len();
        let align: usize = match self.slots[i] {
            Some(o) => o.align,
            None => 1,
        };
        let r = self.settle(i, ptr, new_size, align);
        if r.is_ok() {
            self.stats.reallocs += 1;
        }
        r
    }

    /// Adopt an object of another model into an empty slot; its bytes are to be
    /// rewritten with the pattern of that slot.
    pub fn adopt(&mut self, slot: usize, owned: Owned) -> (r: Result<Owned, Fault>)
        requires
            old(self).wf(),
            old(self)@[old(self).index(slot as int)] is None,
            owned.sound(),
        ensures
            final(self).wf(),
            final(self).settled(
                old(self),
                old(self).index(slot as int),
                owned.ptr,
                owned.size,
                owned.align,
                r,
            ),
            final(self).same_settings(old(self)),
            final(self).calls() == old(self).calls(),
    {
        let i: usize = slot % self.slots.len();
        self.settle(i, owned.ptr, owned.size, owned.align)
    }

    /// Give the object in a slot a new generation; its bytes are to be
    /// rewritten.  `None` if the slot is empty.
    pub fn touch(&mut self, slot: usize) -> (r: Option<Owned>)
        requires
            old(self).wf(),
        ensures
            final(self).wf(),
            ({
                let i = old(self).index(slot as int);
                match old(self)@[i] {
                    Some(o) => {
                        let q = Owned { generation: old(self).generation(), ..o };
                        &&& r == Some(q)
                        &&& final(self)@ == old(self)@.update(i, Some(q))
                        &&& final(self).generation() == next_generation(old(self).generation())
                    },
                    None => r is None && *final(self) == *old(self),
                }
            }),
            final(self).same_settings(old(self)),
            final(self).calls() == old(self).calls(),
    {
        let i: usize = slot % self.slots.len();
        match self.slots[i] {
            Some(o) => {
                let q = Owned { generation: self.next, ..o };
                self.next = if self.next == u32::MAX {
                    1
                } else {
                    self.next + 1
                };
                self.slots.set(i, Some(q));
                Some(q)
            },
            None => None,
        }
    }

    /// Detach the object in a slot.
    pub fn take(&mut self, slot: usize) -> (r: Option<Owned>)
        requires
            old(self).wf(),
        ensures
            final(self).wf(),
            r == old(self)@[old(self).index(slot as int)],
            r matches Some(o) ==> o.sound(),
            final(self)@ == old(self)@.update(old(self).index(slot as int), None),
            final(self).generation() == old(self).generation(),
            final(self).same_settings(old(self)),
            final(self).calls() == old(self).calls(),
    {
        let i: usize = slot % self.slots.len();
        let r = self.slots[i];
        self.slots.set(i, None);
        r
    }

    /// Count an object that was freed.
    pub fn count_free(&mut self)
        requires
            old(self).calls().frees < usize::MAX,
        ensures
            final(self)@ == old(self)@,
            final(self).generation() == old(self).generation(),
            final(self).same_settings(old(self)),
            final(self).calls() == (Stats {
                frees: (old(self).calls().frees + 1) as usize,
                ..old(self).calls()
            }),
    {
        self.stats.frees += 1;
    }

    /// The live slots in the order in which they are to be freed.
    pub fn free_order(&self, order: FreeOrder) -> (v: Vec<usize>)
        requires
            self.wf(),
        ensures
            v@ == ordered(live_slots(self@, self@.len() as int), order),
    {
        let mut live: Vec<usize> = Vec::new();
        let mut i: usize = 0;
        while i < self.slots.len()
            invariant
                self@ == self.slots@,
                i <= self@.len(),
                live@ == live_slots(self@, i as int),
            decreases self@.len() - i,
        {
            if self.slots[i].is_some() {
                live.push(i);
            }
            i += 1;
        }
        let n: usize = live.len();
        let ghost s = live@;
        match order {
            FreeOrder::Fifo => live,
            FreeOrder::Lifo => {
                let mut v: Vec<usize> = Vec::new();
                let mut k: usize = n;
                while k > 0
                    invariant
                        k <= n,
                        n == live@.len(),
                        v@ == Seq::new((n - k) as nat, |j: int| live@[n - 1 - j]),
                    decreases k,
                {
                    k -= 1;
                    v.push(live[k]);
                    assert(v@ =~= Seq::new((n - k) as nat, |j: int| live@[n - 1 - j]));
                }
                assert(v@ =~= s.reverse());
                v
            },
            FreeOrder::EverySecond => {
                let mut v: Vec<usize> = Vec::new();
                push_every_second(&mut v, &live, 0);
                push_every_second(&mut v, &live, 1);
                assert(v@ =~= ordered(s, order));
                v
            },
        }
    }

    /// The empty slots in order.
    pub fn empty_slots(&self) -> (v: Vec<usize>)
        requires
            self.wf(),
        ensures
            v@ == empty_slots(self@, self@.len() as int),
    {
        let mut v: Vec<usize> = Vec::new();
        let mut i: usize = 0;
        while i < self.slots.len()
            invariant
                self@ == self.slots@,
                i <= self@.len(),
                v@ == empty_slots(self@, i as int),
            decreases self@.len() - i,
        {
            if self.slots[i].is_none() {
                v.push(i);
            }
            i += 1;
        }
        v
    }

    /// Number of live objects.
    pub fn live_count(&self) -> (n: usize)
        requires
            self.wf(),
        ensures
            n == live_slots(self@, self@.len() as int).len(),
    {
        let v = self.free_order(FreeOrder::Fifo);
        v.len()
    }
}

/// Append every second of `v`, starting with number `k`.
fn push_every_second(out: &mut Vec<usize>, v: &Vec<usize>, k: usize)
    requires
        k <= 1,
    ensures
        final(out)@ == old(out)@ + every_second(v@, k as int),
{
    let len: usize = v.len();
    let count: usize = if k == 0 {
        len / 2 + len % 2
    } else {
        len / 2
    };
    let ghost e = every_second(v@, k as int);
    assert(out@ =~= old(out)@ + e.take(0));
    let mut n: usize = 0;
    while n < count
        invariant
            k <= 1,
            len == v@.len(),
            count == e.len(),
            e == every_second(v@, k as int),
            n <= count,
            out@ == old(out)@ + e.take(n as int),
        decreases count - n,
    {
        out.push(v[2 * n + k]);
        assert(e.take(n + 1) =~= e.take(n as int).push(e[n as int]));
        n += 1;
        assert(out@ =~= old(out)@ + e.take(n as int));
    }
    assert(e.take(n as int) =~= e);
}

// ---------------------------------------------------------------------------
// Laws
// ---------------------------------------------------------------------------
/// The numbers of `[from, to)` that are `step` apart lie in it, and each of its
/// windows of `step` numbers that starts inside holds one of them.
proof fn lemma_stepped(from: int, to: int, step: int)
    requires
        0 <= from,
        to <= usize::MAX,
        step > 0,
    ensures
        forall|o: usize| #[trigger]
            stepped(from, to, step).contains(o) ==> from <= o < to,
        forall|a: int| #![trigger window(from, to, step, a)]
            from <= a && a + step <= to ==> window(from, to, step, a),
    decreases
        if from < to {
            to - from
        } else {
            0
        },
{
    let s = stepped(from, to, step);
    if from < to {
        let rest = stepped(from + step, to, step);
        lemma_stepped(from + step, to, step);
        assert(s[0] == from);
        assert forall|o: usize| #[trigger] s.contains(o) implies from <= o < to by {
            let i = choose|i: int| 0 <= i < s.len() && s[i] == o;
            if i > 0 {
                assert(rest[i - 1] == o);
                assert(rest.contains(o));
            }
        }
        assert forall|a: int| #![trigger window(from, to, step, a)]
            from <= a && a + step <= to implies window(from, to, step, a) by {
            if a == from {
                assert(s.contains(from as usize));
            } else if a < from + step {
                assert(from + step < to) by {
                    assert(a + step <= to && a > from);
                }
                assert(s[1] == rest[0] && rest[0] == from + step);
                assert(s.contains((from + step) as usize));
            } else {
                assert(window(from + step, to, step, a));
                let o = choose|o: usize| #[trigger] rest.contains(o) && a <= o < a + step;
                let i = choose|i: int| 0 <= i < rest.len() && rest[i] == o;
                assert(s[i + 1] == o);
                assert(s.contains(o));
            }
        }
    }
}

/// One of the numbers of `[from, to)` that are `step` apart is among the `step`
/// numbers that start with `a`.
spec fn window(from: int, to: int, step: int, a: int) -> bool {
    exists|o: usize| #[trigger] stepped(from, to, step).contains(o) && a <= o < a + step
}

/// Every number of `[from, to)` is stepped on when the step is one.
proof fn lemma_each(from: int, to: int, o: usize)
    requires
        0 <= from <= o < to,
        to <= usize::MAX,
    ensures
        stepped(from, to, 1).contains(o),
{
    lemma_stepped(from, to, 1);
    assert(window(from, to, 1, o as int));
}

/// Probes lie inside the object; the whole of a full fill, and of a sparse one
/// the first and the last bytes and at least one in every page's worth of
/// consecutive bytes are among them.
pub proof fn law_probes(size: usize, mode: FillMode)
    ensures
        forall|o: usize| #[trigger] probes(size as int, mode).contains(o) ==> o < size,
        forall|o: usize|
            o < size && (mode is Full || o < EDGE || size - EDGE <= o) ==> #[trigger] probes(
                size as int,
                mode,
            ).contains(o),
        forall|a: int| #![trigger probed(size, mode, a)]
            0 <= a && a + PAGE <= size ==> probed(size, mode, a),
{
    let n = size as int;
    let s = probes(n, mode);
    let head = head_end(n);
    let end = middle_end(n);
    let tail = if end > head {
        end
    } else {
        head
    };
    let p1 = stepped(0, head, 1);
    let p2 = stepped(tail, n, 1);
    let p3 = stepped(head, end, PAGE as int);
    lemma_stepped(0, n, 1);
    lemma_stepped(0, head, 1);
    lemma_stepped(tail, n, 1);
    lemma_stepped(head, end, PAGE as int);
    if mode is Sparse {
        assert forall|o: usize| #[trigger] s.contains(o) <==> p1.contains(o) || p2.contains(o)
            || p3.contains(o) by {
            lemma_contains_either(p1 + p2, p3, o);
            lemma_contains_either(p1, p2, o);
        }
    }
    assert forall|o: usize|
        o < size && (mode is Full || o < EDGE || size - EDGE <= o) implies #[trigger] s.contains(
        o,
    ) by {
        if mode is Full {
            lemma_each(0, n, o);
        } else if o < head {
            lemma_each(0, head, o);
        } else {
            lemma_each(tail, n, o);
        }
    }
    assert forall|a: int| #![trigger probed(size, mode, a)]
        0 <= a && a + PAGE <= size implies probed(size, mode, a) by {
        if mode is Full || a < EDGE || a >= end {
            assert(s.contains(a as usize));
        } else if a + PAGE <= end {
            assert(window(head, end, PAGE as int, a));
            let o = choose|o: usize| #[trigger] p3.contains(o) && a <= o < a + PAGE;
            assert(s.contains(o));
        } else {
            assert(s.contains(end as usize));
        }
    }
}

/// One of the page's worth of bytes that starts at `a` is a probe.
pub open spec fn probed(size: usize, mode: FillMode, a: int) -> bool {
    exists|o: usize| #[trigger] probes(size as int, mode).contains(o) && a <= o < a + PAGE
}

/// What a concatenation holds.
proof fn lemma_contains_either(a: Seq<usize>, b: Seq<usize>, x: usize)
    ensures
        (a + b).contains(x) <==> a.contains(x) || b.contains(x),
{
    let c = a + b;
    if a.contains(x) {
        let i = choose|i: int| 0 <= i < a.len() && a[i] == x;
        assert(c[i] == x);
    }
    if b.contains(x) {
        let i = choose|i: int| 0 <= i < b.len() && b[i] == x;
        assert(c[a.len() + i] == x);
    }
    if c.contains(x) {
        let i = choose|i: int| 0 <= i < c.len() && c[i] == x;
        if i < a.len() {
            assert(a[i] == x);
        } else {
            assert(b[i - a.len()] == x);
        }
    }
}

/// The live slots are listed in increasing order, each once.
proof fn lemma_live_slots(s: Seq<Option<Owned>>, n: int)
    requires
        0 <= n <= s.len(),
        s.len() <= usize::MAX,
    ensures
        forall|i: int, j: int|
            0 <= i < j < live_slots(s, n).len() ==> (#[trigger] live_slots(s, n)[i])
                < #[trigger] live_slots(s, n)[j],
        forall|x: usize| #[trigger]
            live_slots(s, n).contains(x) <==> x < n && s[x as int] is Some,
    decreases n,
{
    if n > 0 {
        lemma_live_slots(s, n - 1);
        let before = live_slots(s, n - 1);
        let v = live_slots(s, n);
        if s[n - 1] is Some {
            assert forall|i: int, j: int| 0 <= i < j < v.len() implies (#[trigger] v[i])
                < #[trigger] v[j] by {
                assert(before.contains(before[i]));
                if j < before.len() {
                    assert(before[i] < before[j]);
                }
            }
            assert forall|x: usize| #[trigger] v.contains(x) <==> x < n && s[x as int] is Some by {
                if v.contains(x) {
                    let i = choose|i: int| 0 <= i < v.len() && v[i] == x;
                    if i < before.len() {
                        assert(before.contains(x));
                    }
                }
                if x < n && s[x as int] is Some {
                    if x == n - 1 {
                        assert(v[v.len() - 1] == x);
                    } else {
                        assert(before.contains(x));
                        let i = choose|i: int| 0 <= i < before.len() && before[i] == x;
                        assert(v[i] == x);
                    }
                }
            }
        }
    }
}

/// Whatever the order, freeing all slots frees every live slot once and no
/// other.
pub proof fn law_free_order(s: Seq<Option<Owned>>, order: FreeOrder)
    requires
        s.len() <= usize::MAX,
    ensures
        ordered(live_slots(s, s.len() as int), order).no_duplicates(),
        forall|x: usize| #[trigger]
            ordered(live_slots(s, s.len() as int), order).contains(x) <==> x < s.len()
                && s[x as int] is Some,
{
    let v = live_slots(s, s.len() as int);
    let w = ordered(v, order);
    lemma_live_slots(s, s.len() as int);
    let half = (v.len() + 1) / 2;
    assert forall|i: int, j: int| 0 <= i < w.len() && 0 <= j < w.len() && i != j implies w[i]
        != w[j] by {
        if order is EverySecond {
            let p = if i < half {
                2 * i
            } else {
                2 * (i - half) + 1
            };
            let q = if j < half {
                2 * j
            } else {
                2 * (j - half) + 1
            };
            assert(w[i] == v[p] && w[j] == v[q]);
            assert(p != q);
            if p < q {
                assert(v[p] < v[q]);
            } else {
                assert(v[q] < v[p]);
            }
        } else {
            let p = if order is Lifo {
                v.len() - 1 - i
            } else {
                i
            };
            let q = if order is Lifo {
                v.len() - 1 - j
            } else {
                j
            };
            if p < q {
                assert(v[p] < v[q]);
            } else {
                assert(v[q] < v[p]);
            }
        }
    }
    assert forall|x: usize| #[trigger] w.contains(x) <==> v.contains(x) by {
        if w.contains(x) {
            let i = choose|i: int| 0 <= i < w.len() && w[i] == x;
            let p = match order {
                FreeOrder::Fifo => i,
                FreeOrder::Lifo => v.len() - 1 - i,
                FreeOrder::EverySecond => if i < half {
                    2 * i
                } else {
                    2 * (i - half) + 1
                },
            };
            assert(v[p] == x);
        }
        if v.contains(x) {
            let p = choose|p: int| 0 <= p < v.len() && v[p] == x;
            let i = match order {
                FreeOrder::Fifo => p,
                FreeOrder::Lifo => v.len() - 1 - p,
                FreeOrder::EverySecond => if p % 2 == 0 {
                    p / 2
                } else {
                    half + p / 2
                },
            };
            assert(w[i] == x);
        }
    }
}

/// Offsets that are compared, one by one: in a full fill all of them; in a sparse
/// one the first 64, the last 64, and between those one every 4096 bytes.
pub proof fn law_probe_offsets(size: usize, o: usize)
    ensures
        probes(size as int, FillMode::Full).contains(o) <==> o < size,
        o < size ==> (probes(size as int, FillMode::Sparse).contains(o) <==> o < 64 || o + 64
            >= size || (o - 64) % 4096 == 0),
        o >= size ==> !probes(size as int, FillMode::Sparse).contains(o),
{
    let s = size as int;
    let head = head_end(s);
    let end = middle_end(s);
    let tail = if end > head {
        end
    } else {
        head
    };
    lemma_stepped_has(0, s, 1, o);
    lemma_stepped_has(0, head, 1, o);
    lemma_stepped_has(tail, s, 1, o);
    lemma_stepped_has(head, end, 4096, o);
    let a = stepped(0, head, 1);
    let b = stepped(tail, s, 1);
    let c = stepped(head, end, 4096);
    lemma_contains_either(a + b, c, o);
    lemma_contains_either(a, b, o);
}

/// What a sequence of steps has.
proof fn lemma_stepped_has(from: int, to: int, step: int, o: usize)
    requires
        0 <= from,
        to <= usize::MAX,
        step > 0,
    ensures
        stepped(from, to, step).contains(o) <==> from <= o < to && (o - from) % step == 0,
    decreases
        if from < to {
            to - from
        } else {
            0
        },
{
    if from < to {
        lemma_stepped_has(from + step, to, step, o);
        let first = seq![from as usize];
        let rest = stepped(from + step, to, step);
        lemma_contains_either(first, rest, o);
        assert(first.contains(o) <==> o == from) by {
            assert(first[0] == from);
        }
        if o >= from + step {
            vstd::arithmetic::div_mod::lemma_mod_sub_multiples_vanish(o - from, step);
        } else if from <= o {
            vstd::arithmetic::div_mod::lemma_small_mod((o - from) as nat, step as nat);
        }
        vstd::arithmetic::div_mod::lemma_small_mod(0, step as nat);
    }
}

/// The order in which slots are freed: as they come, or backwards, or first the
/// even ones and then the odd ones.
pub proof fn law_orders(v: Seq<usize>, i: int)
    requires
        0 <= i < v.len(),
    ensures
        forall|order: FreeOrder| (#[trigger] ordered(v, order)).len() == v.len(),
        ordered(v, FreeOrder::Fifo)[i] == v[i],
        ordered(v, FreeOrder::Lifo)[i] == v[v.len() - 1 - i],
        2 * i < v.len() ==> ordered(v, FreeOrder::EverySecond)[i] == v[2 * i],
        2 * i >= v.len() ==> ordered(v, FreeOrder::EverySecond)[i] == v[2 * (i - (v.len() + 1) / 2)
            + 1],
{
}

/// The live slots and the empty slots, in increasing order.
pub proof fn law_slots(s: Seq<Option<Owned>>, x: usize)
    requires
        s.len() <= usize::MAX,
    ensures
        live_slots(s, s.len() as int).contains(x) <==> x < s.len() && s[x as int] is Some,
        empty_slots(s, s.len() as int).contains(x) <==> x < s.len() && s[x as int] is None,
        forall|i: int, j: int|
            0 <= i < j < live_slots(s, s.len() as int).len() ==> (#[trigger] live_slots(
                s,
                s.len() as int,
            )[i]) < #[trigger] live_slots(s, s.len() as int)[j],
        forall|i: int, j: int|
            0 <= i < j < empty_slots(s, s.len() as int).len() ==> (#[trigger] empty_slots(
                s,
                s.len() as int,
            )[i]) < #[trigger] empty_slots(s, s.len() as int)[j],
{
    lemma_live_slots(s, s.len() as int);
    let t = Seq::new(
        s.len(),
        |i: int|
            if s[i] is None {
                Some(
                    Owned { ptr: 0, size: 0, align: 0, generation: 0, pattern_slot: 0 },
                )
            } else {
                None
            },
    );
    lemma_live_slots(t, t.len() as int);
    lemma_empty_is_live(s, t, s.len() as int);
}

/// The empty slots are the live ones of a table in which they are swapped.
proof fn lemma_empty_is_live(s: Seq<Option<Owned>>, t: Seq<Option<Owned>>, n: int)
    requires
        0 <= n <= s.len(),
        t.len() == s.len(),
        forall|i: int| 0 <= i < s.len() ==> ((#[trigger] t[i]) is Some <==> s[i] is None),
    ensures
        empty_slots(s, n) == live_slots(t, n),
    decreases n,
{
    if n > 0 {
        lemma_empty_is_live(s, t, n - 1);
        assert(t[n - 1] is Some <==> s[n - 1] is None);
    }
}

/// Generations count up, and leave zero out.
pub proof fn law_generations(g: u32)
    ensures
        next_generation(g) != 0,
        g < u32::MAX ==> next_generation(g) == g + 1,
        g == u32::MAX ==> next_generation(g) == 1,
{
}

/// Objects are apart exactly if no byte belongs to both; one of no bytes takes
/// its first address.
pub proof fn law_apart(a: Owned, b: Owned)
    ensures
        apart(a, b) <==> forall|x: int|
            !(#[trigger] covered(a, x) && covered(b, x)),
{
    assert(covered(a, a.ptr as int) && covered(b, b.ptr as int));
    if !apart(a, b) {
        let x = if a.ptr < b.ptr {
            b.ptr as int
        } else {
            a.ptr as int
        };
        assert(covered(a, x) && covered(b, x));
    }
}

/// Address `x` belongs to the object.
pub open spec fn covered(o: Owned, x: int) -> bool {
    o.ptr <= x < o.ptr + o.size || o.size == 0 && x == o.ptr
}

/// What storing an object means: it is refused exactly if it is not aligned or
/// shares an address with one in another slot, and then nothing changes;
/// otherwise its slot, and no other, holds it with the next generation.
pub proof fn law_settled(
    before: &Model,
    after: &Model,
    i: int,
    ptr: usize,
    size: usize,
    align: usize,
    r: Result<Owned, Fault>,
)
    requires
        before.wf(),
        0 <= i < before@.len(),
        align > 0,
        after.settled(before, i, ptr, size, align, r),
    ensures
        ({
            let o = Owned {
                ptr,
                size,
                align,
                generation: before.generation(),
                pattern_slot: i as usize,
            };
            let clash = |j: int|
                0 <= j < before@.len() && j != i && (before@[j] matches Some(q) && exists|x: int| #[trigger]
                    covered(q, x) && covered(o, x));
            &&& r is Ok <==> ptr as int % align as int == 0 && forall|j: int| !#[trigger] clash(j)
            &&& r is Ok ==> r == Ok::<Owned, Fault>(o) && after@.len() == before@.len()
                && after@[i] == Some(o) && after.generation() != before.generation()
            &&& forall|j: int|
                0 <= j < before@.len() && (j != i || r is Err) ==> #[trigger] after@[j]
                    == before@[j]
            &&& r matches Err(Fault::Misaligned) ==> ptr as int % align as int != 0
            &&& r matches Err(Fault::Overlap { slot }) ==> clash(slot as int) && forall|j: int|
                j < slot ==> !#[trigger] clash(j)
        }),
{
    let o = before.candidate(i, ptr, size, align);
    let clash = |j: int|
        0 <= j < before@.len() && j != i && (before@[j] matches Some(q) && exists|x: int| #[trigger]
            covered(q, x) && covered(o, x));
    assert forall|j: int| 0 <= j < before@.len() && j != i && before@[j] is Some implies (
    #[trigger] clash(j) <==> !apart(before@[j]->Some_0, o)) by {
        law_apart(before@[j]->Some_0, o);
    }
    if r is Ok {
        assert forall|j: int| !#[trigger] clash(j) by {
            if clash(j) {
                assert(before@[j] is Some);
            }
        }
    } else {
        if forall|j: int| !#[trigger] clash(j) {
            assert forall|j: int|
                0 <= j < before@.len() && j != i && (#[trigger] before@[j]) is Some implies apart(
                before@[j]->Some_0,
                o,
            ) by {
                assert(!clash(j));
            }
        }
        if let Err(Fault::Overlap { slot }) = r {
            assert(clash(slot as int));
            assert forall|j: int| j < slot implies !#[trigger] clash(j) by {
                if clash(j) {
                    assert(before@[j] is Some);
                }
            }
        }
    }
}

/// An index stands for the slot of that number, and starts over behind the last.
pub proof fn law_index(model: &Model, slot: int)
    requires
        model.wf(),
        0 <= slot,
    ensures
        0 <= model.index(slot) < model@.len(),
        slot < model@.len() ==> model.index(slot) == slot,
        model.index(slot + model@.len()) == model.index(slot),
{
    let n = model@.len() as int;
    vstd::arithmetic::div_mod::lemma_mod_bound(slot, n);
    if slot < n {
        vstd::arithmetic::div_mod::lemma_small_mod(slot as nat, n as nat);
    }
    vstd::arithmetic::div_mod::lemma_mod_add_multiples_vanish(slot, n);
}

} // verus!
