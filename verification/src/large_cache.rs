//! Per-thread cache of large mappings, so that hot paths need no system calls.
use vstd::prelude::*;

verus! {

/// Maximum number of cached large-object mappings per thread.
pub const LARGE_CACHE_SLOTS: usize = 1024;

/// Maximum total bytes held in the large cache before we start evicting
/// (512 MiB).
pub const MAX_LARGE_CACHE_BYTES: usize = 536870912;

/// Only release the pages of cached regions larger than this (512 KiB).
/// Below this, the system call costs more than the memory is worth.
pub const MADVISE_THRESHOLD: usize = 524288;

/// Maximum extra bytes we tolerate when reusing a cached region (8 KiB).
pub const CLOSE_SIZE_TOLERANCE: usize = 8192;

/// A cached large-object mapping ready for reuse.
#[derive(Clone, Copy, PartialEq, Eq, Structural, Debug)]
pub struct LargeCacheEntry {
    /// First address of the mapping.
    pub original_ptr: usize,
    /// Total size of the mapping.
    pub alloc_size: usize,
}

/// Bytes of all mappings in `s`.
pub open spec fn total_bytes(s: Seq<LargeCacheEntry>) -> int
    decreases s.len(),
{
    if s.len() == 0 {
        0
    } else {
        total_bytes(s.drop_last()) + s.last().alloc_size
    }
}

/// Entry `i` can serve a request for `size` bytes: it is large enough and
/// wastes at most [`CLOSE_SIZE_TOLERANCE`] bytes.
pub open spec fn serves(s: Seq<LargeCacheEntry>, i: int, size: int) -> bool {
    &&& 0 <= i < s.len()
    &&& size <= s[i].alloc_size <= size + CLOSE_SIZE_TOLERANCE
}

/// Entry `i` is the one that a request for `size` bytes gets: the first of
/// those that waste least.
pub open spec fn best_fit(s: Seq<LargeCacheEntry>, i: int, size: int) -> bool {
    &&& serves(s, i, size)
    &&& forall|j: int| #[trigger]
        serves(s, j, size) ==> s[i].alloc_size < s[j].alloc_size || (s[i].alloc_size
            == s[j].alloc_size && i <= j)
}

/// The entry that a request for `size` bytes gets, if any can serve it.
pub open spec fn best(s: Seq<LargeCacheEntry>, size: int) -> Option<int> {
    if exists|i: int| best_fit(s, i, size) {
        Some(choose|i: int| best_fit(s, i, size))
    } else {
        None
    }
}

/// The cached mapping that a request for `size` bytes gets.
pub open spec fn taken(s: Seq<LargeCacheEntry>, size: int) -> Option<LargeCacheEntry> {
    match best(s, size) {
        Some(i) => Some(s[i]),
        None => None,
    }
}

/// What a request for `size` bytes leaves in the cache.
pub open spec fn after_take(s: Seq<LargeCacheEntry>, size: int) -> Seq<LargeCacheEntry> {
    match best(s, size) {
        Some(i) => s.remove(i),
        None => s,
    }
}

/// The cache must give up its oldest entry before a mapping of `size` bytes can
/// be stored.
pub open spec fn must_evict(s: Seq<LargeCacheEntry>, size: int) -> bool {
    &&& s.len() > 0
    &&& s.len() >= LARGE_CACHE_SLOTS || total_bytes(s) + size > MAX_LARGE_CACHE_BYTES
}

/// What is left when a mapping of `size` bytes is about to be stored.
pub open spec fn after_evictions(s: Seq<LargeCacheEntry>, size: int) -> Seq<LargeCacheEntry>
    decreases s.len(),
{
    if must_evict(s, size) {
        after_evictions(s.drop_first(), size)
    } else {
        s
    }
}

/// Removing an entry takes its bytes off the total.
pub proof fn lemma_remove_total(s: Seq<LargeCacheEntry>, i: int)
    requires
        0 <= i < s.len(),
    ensures
        total_bytes(s.remove(i)) == total_bytes(s) - s[i].alloc_size,
    decreases s.len(),
{
    if i == s.len() - 1 {
        assert(s.remove(i) =~= s.drop_last());
    } else {
        lemma_remove_total(s.drop_last(), i);
        assert(s.remove(i).drop_last() =~= s.drop_last().remove(i));
        assert(s.remove(i).last() == s.last());
    }
}

/// No entry is larger than the total.
pub proof fn lemma_entry_bound(s: Seq<LargeCacheEntry>, i: int)
    requires
        0 <= i < s.len(),
    ensures
        0 <= s[i].alloc_size <= total_bytes(s),
    decreases s.len(),
{
    lemma_total_nonneg(s.drop_last());
    if i < s.len() - 1 {
        lemma_entry_bound(s.drop_last(), i);
    }
}

/// Totals are not negative.
pub proof fn lemma_total_nonneg(s: Seq<LargeCacheEntry>)
    ensures
        total_bytes(s) >= 0,
    decreases s.len(),
{
    if s.len() > 0 {
        lemma_total_nonneg(s.drop_last());
    }
}

/// What to do next to store a mapping.
#[derive(Clone, Copy, PartialEq, Eq, Structural, Debug)]
pub enum PutStep {
    /// This mapping left the cache: unmap it and try again.
    Evicted(LargeCacheEntry),
    /// The mapping is in the cache.
    Stored,
    /// The mapping is too large for the cache.
    Refused,
}

/// Large object cache.
pub struct LargeCache {
    entries: [LargeCacheEntry; 1024],
    count: usize,
    bytes: usize,
}

impl View for LargeCache {
    type V = Seq<LargeCacheEntry>;

    /// The cached mappings, oldest first.
    closed spec fn view(&self) -> Seq<LargeCacheEntry> {
        self.entries@.take(self.count as int)
    }
}

impl LargeCache {
    /// The stored number of entries.
    pub closed spec fn slots(&self) -> usize {
        self.count
    }

    /// The stored number of bytes.
    pub closed spec fn accounted(&self) -> usize {
        self.bytes
    }

    /// The counters are exact and within their limits.
    pub open spec fn wf(&self) -> bool {
        &&& self.slots() <= LARGE_CACHE_SLOTS
        &&& self.accounted() == total_bytes(self@)
        &&& self.accounted() <= MAX_LARGE_CACHE_BYTES
    }

    /// The view has as many entries as are stored.
    pub proof fn lemma_view(&self)
        ensures
            self.slots() <= LARGE_CACHE_SLOTS ==> self@.len() == self.slots(),
    {
    }

    /// An empty cache.
    pub fn new() -> (cache: Self)
        ensures
            cache@ == Seq::<LargeCacheEntry>::empty(),
            cache.wf(),
    {
        LargeCache {
            entries: [LargeCacheEntry { original_ptr: 0, alloc_size: 0 };1024],
            count: 0,
            bytes: 0,
        }
    }

    /// Number of cached mappings.
    pub fn count(&self) -> (n: usize)
        ensures
            n == self.slots(),
            n <= LARGE_CACHE_SLOTS ==> n == self@.len(),
    {
        self.count
    }

    /// Bytes of all cached mappings.
    pub fn bytes(&self) -> (n: usize)
        ensures
            n == self.accounted(),
    {
        self.bytes
    }

    /// Cached mapping in slot `i`.
    pub fn entry(&self, i: usize) -> (e: LargeCacheEntry)
        requires
            self.slots() <= LARGE_CACHE_SLOTS,
            i < self.slots(),
        ensures
            e == self@[i as int],
    {
        self.entries[i]
    }

    /// Take entry `i` out of the cache; later entries close the gap, so that
    /// the entries stay in the order in which they were stored.
    fn remove(&mut self, i: usize) -> (e: LargeCacheEntry)
        requires
            old(self).wf(),
            i < old(self)@.len(),
        ensures
            e == old(self)@[i as int],
            final(self)@ == old(self)@.remove(i as int),
            final(self).wf(),
    {
        let e = self.entries[i];
        let ghost before = self.entries@;
        proof {
            lemma_remove_total(self@, i as int);
            lemma_entry_bound(self@, i as int);
        }
        self.count -= 1;
        self.bytes -= e.alloc_size;
        let mut j: usize = i;
        while j < self.count
            invariant
                i <= j <= self.count,
                self.count < LARGE_CACHE_SLOTS,
                self.count == old(self).count - 1,
                self.bytes == old(self).bytes - e.alloc_size,
                before.len() == 1024,
                forall|k: int|
                    0 <= k < 1024 ==> #[trigger] self.entries@[k] == (if i <= k < j {
                        before[k + 1]
                    } else {
                        before[k]
                    }),
            decreases self.count - j,
        {
            self.entries[j] = self.entries[j + 1];
            j += 1;
        }
        assert(self@ =~= old(self)@.remove(i as int));
        e
    }

    /// Take a cached mapping for a request of `alloc_size` bytes: one of
    /// exactly that size, else the one that wastes least, up to
    /// [`CLOSE_SIZE_TOLERANCE`] bytes.
    pub fn take(&mut self, alloc_size: usize) -> (r: Option<LargeCacheEntry>)
        requires
            old(self).wf(),
        ensures
            r is None <==> forall|i: int| !#[trigger] serves(old(self)@, i, alloc_size as int),
            r == taken(old(self)@, alloc_size as int),
            final(self)@ == after_take(old(self)@, alloc_size as int),
            final(self).wf(),
    {
        let ghost s = self@;
        let count: usize = self.count;
        let mut best_idx: usize = usize::MAX;
        let mut best_waste: usize = usize::MAX;
        let mut i: usize = 0;
        while i < count
            invariant
                i <= count <= LARGE_CACHE_SLOTS,
                self@ == s,
                self.wf(),
                s == old(self)@,
                old(self).wf(),
                count == s.len(),
                count == self.count,
                best_idx < count ==> {
                    &&& best_idx < i
                    &&& serves(s, best_idx as int, alloc_size as int)
                    &&& best_waste == s[best_idx as int].alloc_size - alloc_size
                    &&& best_waste > 0
                },
                best_idx >= count ==> best_idx == usize::MAX && best_waste == usize::MAX,
                forall|j: int|
                    0 <= j < i && #[trigger] serves(s, j, alloc_size as int) ==> best_idx < count
                        && (s[best_idx as int].alloc_size < s[j].alloc_size || (
                    s[best_idx as int].alloc_size == s[j].alloc_size && best_idx <= j)),
            decreases count - i,
        {
            let entry = self.entries[i];
            assert(entry == s[i as int]);
            if entry.alloc_size == alloc_size {
                // Exact match — take immediately.
                proof {
                    assert(serves(s, i as int, alloc_size as int));
                    assert(best_fit(s, i as int, alloc_size as int)) by {
                        assert forall|j: int| #[trigger]
                            serves(s, j, alloc_size as int) implies s[i as int].alloc_size
                            < s[j].alloc_size || (s[i as int].alloc_size == s[j].alloc_size && i
                            <= j) by {
                            if j < i && s[j].alloc_size == alloc_size {
                                assert(s[best_idx as int].alloc_size <= s[j].alloc_size);
                            }
                        }
                    }
                    lemma_best_unique(s, i as int, alloc_size as int);
                }
                let e = self.remove(i);
                return Some(e);
            }
            if entry.alloc_size >= alloc_size {
                let waste: usize = entry.alloc_size - alloc_size;
                if waste <= CLOSE_SIZE_TOLERANCE && waste < best_waste {
                    best_waste = waste;
                    best_idx = i;
                }
            }
            i += 1;
        }
        if best_idx < count {
            proof {
                assert(best_fit(s, best_idx as int, alloc_size as int));
                lemma_best_unique(s, best_idx as int, alloc_size as int);
            }
            let e = self.remove(best_idx);
            return Some(e);
        }
        proof {
            if exists|j: int| best_fit(s, j, alloc_size as int) {
                let j = choose|j: int| best_fit(s, j, alloc_size as int);
                assert(serves(s, j, alloc_size as int));
            }
        }
        None
    }

    /// One step towards storing a mapping: evict the oldest entry while the
    /// cache is full or its byte limit would be exceeded, then store.
    pub fn put(&mut self, original_ptr: usize, alloc_size: usize) -> (step: PutStep)
        requires
            old(self).wf(),
        ensures
            step is Evicted <==> must_evict(old(self)@, alloc_size as int),
            step matches PutStep::Evicted(e) ==> e == old(self)@[0] && final(self)@ == old(
                self,
            )@.drop_first(),
            step is Refused <==> old(self)@.len() == 0 && alloc_size > MAX_LARGE_CACHE_BYTES,
            step is Refused ==> final(self)@ == old(self)@,
            step is Stored ==> final(self)@ == old(self)@.push(
                LargeCacheEntry { original_ptr, alloc_size },
            ),
            final(self).wf(),
    {
        if self.count > 0 && (self.count >= LARGE_CACHE_SLOTS || self.bytes.saturating_add(
            alloc_size,
        ) > MAX_LARGE_CACHE_BYTES) {
            let e = self.remove(0);
            assert(old(self)@.remove(0) =~= old(self)@.drop_first());
            return PutStep::Evicted(e);
        }
        if self.bytes.saturating_add(alloc_size) > MAX_LARGE_CACHE_BYTES {
            return PutStep::Refused;
        }
        let e = LargeCacheEntry { original_ptr, alloc_size };
        self.entries[self.count] = e;
        self.count += 1;
        self.bytes += alloc_size;
        proof {
            assert(self@ =~= old(self)@.push(e));
            assert(self@.drop_last() =~= old(self)@);
        }
        PutStep::Stored
    }

    /// Take the oldest cached mapping out, to be unmapped.  `None` when the
    /// cache is empty.
    pub fn flush(&mut self) -> (r: Option<LargeCacheEntry>)
        requires
            old(self).wf(),
        ensures
            r is None <==> old(self)@.len() == 0,
            r matches Some(e) ==> e == old(self)@[0] && final(self)@ == old(self)@.drop_first(),
            r is None ==> final(self)@ == old(self)@,
            final(self).wf(),
    {
        if self.count == 0 {
            return None;
        }
        let e = self.remove(0);
        assert(old(self)@.remove(0) =~= old(self)@.drop_first());
        Some(e)
    }
}

/// There is only one best fit.
pub proof fn lemma_best_unique(s: Seq<LargeCacheEntry>, i: int, size: int)
    requires
        best_fit(s, i, size),
    ensures
        forall|j: int| #[trigger] best_fit(s, j, size) ==> j == i,
{
    assert forall|j: int| #[trigger] best_fit(s, j, size) implies j == i by {
        assert(serves(s, i, size));
        assert(serves(s, j, size));
    }
}

} // verus!
