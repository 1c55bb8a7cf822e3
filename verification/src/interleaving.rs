//! What holds of a stack that several threads use at the same time.
//!
//! An [`Arena`] is a [`crate::freelist::TreiberStack`], the memory of its
//! blocks, and the threads that use it.  A thread works in the single steps
//! that are atomic: it reads the head, it reads a link, it tries to swap the
//! head.  Between any two steps of one thread any number of steps of others may
//! take place, and a thread may do what it likes with a block that it holds.
use crate::freelist::{self, TreiberStack, TAGS};
use crate::memory;
use vstd::prelude::*;

verus! {

/// A pop in progress: the history of the stack when the head was read, and when
/// the link was read.
pub struct Attempt {
    pub seen: Seq<Seq<usize>>,
    pub read: Option<Seq<Seq<usize>>>,
}

/// A thread.
pub struct Worker {
    /// The blocks that belong to the thread.
    pub held: Set<usize>,
    pub attempt: Option<Attempt>,
    /// Number of blocks that it has pushed.
    pub pushed: int,
    /// Number of blocks that it has popped.
    pub popped: int,
}

/// A stack, the memory of its blocks, and the threads that use it.
pub struct Arena {
    pub memory: Map<int, u8>,
    /// What the stack held after each change.
    pub history: Seq<Seq<usize>>,
    pub workers: Seq<Worker>,
}

/// Blocks that the first `n` threads have pushed and not popped, counted.
pub open spec fn outstanding(workers: Seq<Worker>, n: int) -> int
    decreases n,
{
    if n <= 0 {
        0
    } else {
        outstanding(workers, n - 1) + workers[n - 1].pushed - workers[n - 1].popped
    }
}

impl Arena {
    /// The blocks on the stack, top first.
    pub open spec fn stack(self) -> Seq<usize> {
        self.history[self.history.len() - 1]
    }

    /// Thread `i` holds the block `a`.
    pub open spec fn holds(self, i: int, a: usize) -> bool {
        0 <= i < self.workers.len() && self.workers[i].held.contains(a)
    }

    /// What an attempt remembers are earlier states of the stack.
    pub open spec fn attempt_ok(self, blocks: Set<usize>, t: Attempt) -> bool {
        &&& t.seen.len() > 0
        &&& t.seen[t.seen.len() - 1].len() > 0
        &&& blocks.contains(t.seen[t.seen.len() - 1][0])
        &&& t.seen.is_prefix_of(self.history)
        &&& t.read matches Some(h) ==> t.seen.is_prefix_of(h) && h.is_prefix_of(self.history)
    }

    /// Each of `blocks` is in exactly one place, on the stack or with one
    /// thread; the stack is linked in memory and holds what was pushed and not
    /// popped.
    pub open spec fn wf(self, blocks: Set<usize>) -> bool {
        &&& self.history.len() > 0
        &&& freelist::chain(self.memory, freelist::head_of(self.stack()), self.stack())
        &&& forall|a: usize| #[trigger]
            blocks.contains(a) ==> freelist::block_ok(self.memory, a)
        &&& forall|a: usize| #[trigger] self.stack().contains(a) ==> blocks.contains(a)
        &&& forall|i: int, a: usize| #[trigger]
            self.holds(i, a) ==> blocks.contains(a) && !self.stack().contains(a)
        &&& forall|i: int, j: int, a: usize| #[trigger]
            self.holds(i, a) && #[trigger] self.holds(j, a) ==> i == j
        &&& forall|a: usize| #[trigger]
            blocks.contains(a) ==> self.stack().contains(a) || exists|i: int| self.holds(i, a)
        &&& self.stack().len() == outstanding(self.workers, self.workers.len() as int)
        &&& forall|i: int|
            0 <= i < self.workers.len() ==> ((#[trigger] self.workers[i]).attempt matches Some(t)
                ==> self.attempt_ok(blocks, t))
    }
}

/// A single step of a thread.
pub enum Step {
    /// [`TreiberStack::try_push`] with the head word `current` that was read at
    /// some time.
    TryPush { worker: int, block: usize, current: u64 },
    /// [`TreiberStack::try_push_chain`] of the linked `blocks`.
    TryPushChain { worker: int, first: usize, last: usize, blocks: Seq<usize>, current: u64 },
    /// [`TreiberStack::begin_pop`].
    BeginPop { worker: int },
    /// [`crate::freelist::PopAttempt::read_next`].
    ReadNext { worker: int },
    /// [`TreiberStack::finish_pop`].
    FinishPop { worker: int },
    /// [`TreiberStack::try_take_all`].
    TryTakeAll { worker: int, current: u64 },
    /// Any other use of memory; the links of blocks on the stack are left alone.
    Write { memory: Map<int, u8> },
}

/// The step can take place: a thread pushes only blocks that it holds, finishes
/// only what it began, and fewer than 2^16 changes happen while it pops.
pub open spec fn possible(a: Arena, e: Step) -> bool {
    match e {
        Step::TryPush { worker, block, .. } => a.holds(worker, block),
        Step::TryPushChain { worker, first, last, blocks, .. } => {
            &&& freelist::segment(a.memory, blocks, first, last)
            &&& forall|b: usize| #[trigger] blocks.contains(b) ==> a.holds(worker, b)
        },
        Step::BeginPop { worker } => 0 <= worker < a.workers.len(),
        Step::ReadNext { worker } => 0 <= worker < a.workers.len()
            && a.workers[worker].attempt is Some,
        Step::FinishPop { worker } => {
            &&& 0 <= worker < a.workers.len()
            &&& a.workers[worker].attempt matches Some(t)
            &&& t.read is Some
            &&& a.history.len() - t.seen.len() < TAGS
        },
        Step::TryTakeAll { worker, .. } => 0 <= worker < a.workers.len(),
        Step::Write { memory } => {
            &&& memory.dom() == a.memory.dom()
            &&& forall|b: usize| #[trigger]
                a.stack().contains(b) ==> memory::agree(a.memory, memory, b as int, 8)
        },
    }
}

/// The arena after the step, as the contract of the step's function has it.
pub open spec fn after(a: Arena, e: Step) -> Arena {
    match e {
        Step::TryPush { worker, block, current } => {
            let m = memory::put_word(
                a.memory,
                block as int,
                freelist::link_word(freelist::word_ptr(current)),
            );
            if current == freelist::head_word(a.history) {
                let w = a.workers[worker];
                Arena {
                    memory: m,
                    history: a.history.push(seq![block] + a.stack()),
                    workers: a.workers.update(
                        worker,
                        Worker { held: w.held.remove(block), pushed: w.pushed + 1, ..w },
                    ),
                }
            } else {
                Arena { memory: m, ..a }
            }
        },
        Step::TryPushChain { worker, last, blocks, current, .. } => {
            let m = memory::put_word(
                a.memory,
                last as int,
                freelist::link_word(freelist::word_ptr(current)),
            );
            if current == freelist::head_word(a.history) {
                let w = a.workers[worker];
                Arena {
                    memory: m,
                    history: a.history.push(blocks + a.stack()),
                    workers: a.workers.update(
                        worker,
                        Worker {
                            held: w.held.difference(blocks.to_set()),
                            pushed: w.pushed + blocks.len(),
                            ..w
                        },
                    ),
                }
            } else {
                Arena { memory: m, ..a }
            }
        },
        Step::BeginPop { worker } => {
            let attempt = if a.stack().len() > 0 {
                Some(Attempt { seen: a.history, read: None })
            } else {
                None
            };
            Arena {
                workers: a.workers.update(worker, Worker { attempt, ..a.workers[worker] }),
                ..a
            }
        },
        Step::ReadNext { worker } => {
            let w = a.workers[worker];
            let attempt = Some(Attempt { seen: w.attempt->0.seen, read: Some(a.history) });
            Arena { workers: a.workers.update(worker, Worker { attempt, ..w }), ..a }
        },
        Step::FinishPop { worker } => {
            let w = a.workers[worker];
            if a.history == w.attempt->0.seen {
                Arena {
                    history: a.history.push(a.stack().skip(1)),
                    workers: a.workers.update(
                        worker,
                        Worker {
                            held: w.held.insert(a.stack()[0]),
                            attempt: None,
                            popped: w.popped + 1,
                            ..w
                        },
                    ),
                    ..a
                }
            } else {
                Arena { workers: a.workers.update(worker, Worker { attempt: None, ..w }), ..a }
            }
        },
        Step::TryTakeAll { worker, current } => {
            let w = a.workers[worker];
            if current == freelist::head_word(a.history) {
                Arena {
                    history: a.history.push(Seq::empty()),
                    workers: a.workers.update(
                        worker,
                        Worker {
                            held: w.held.union(a.stack().to_set()),
                            popped: w.popped + a.stack().len(),
                            ..w
                        },
                    ),
                    ..a
                }
            } else {
                a
            }
        },
        Step::Write { memory } => Arena { memory, ..a },
    }
}

/// Replacing a thread changes the count by the difference.
proof fn lemma_outstanding(workers: Seq<Worker>, i: int, w: Worker, n: int)
    requires
        0 <= i < workers.len(),
        0 <= n <= workers.len(),
    ensures
        outstanding(workers.update(i, w), n) == outstanding(workers, n) + if i < n {
            (w.pushed - w.popped) - (workers[i].pushed - workers[i].popped)
        } else {
            0
        },
    decreases n,
{
    if n > 0 {
        lemma_outstanding(workers, i, w, n - 1);
    }
}

/// What a concatenation holds.
proof fn lemma_either(s: Seq<usize>, t: Seq<usize>, a: usize)
    ensures
        (s + t).contains(a) <==> s.contains(a) || t.contains(a),
{
    if s.contains(a) {
        let i = choose|i: int| 0 <= i < s.len() && s[i] == a;
        assert((s + t)[i] == a);
    }
    if t.contains(a) {
        let i = choose|i: int| 0 <= i < t.len() && t[i] == a;
        assert((s + t)[s.len() + i] == a);
    }
    if (s + t).contains(a) {
        let i = choose|i: int| 0 <= i < (s + t).len() && (s + t)[i] == a;
        if i < s.len() {
            assert(s[i] == a);
        } else {
            assert(t[i - s.len()] == a);
        }
    }
}

/// Storing the link of a block keeps every block usable.
proof fn lemma_blocks_kept(m: Map<int, u8>, b: usize, w: u64, blocks: Set<usize>)
    requires
        blocks.contains(b),
        forall|a: usize| #[trigger] blocks.contains(a) ==> freelist::block_ok(m, a),
    ensures
        forall|a: usize| #[trigger]
            blocks.contains(a) ==> freelist::block_ok(memory::put_word(m, b as int, w), a),
{
    assert(freelist::block_ok(m, b));
    memory::lemma_put_word(m, b as int, w);
}

/// A push of blocks that the thread holds.
proof fn lemma_pushed(
    a: Arena,
    blocks: Set<usize>,
    worker: int,
    first: usize,
    last: usize,
    s: Seq<usize>,
    current: u64,
)
    requires
        a.wf(blocks),
        freelist::segment(a.memory, s, first, last),
        forall|b: usize| #[trigger] s.contains(b) ==> a.holds(worker, b),
    ensures
        after(
            a,
            Step::TryPushChain { worker, first, last, blocks: s, current },
        ).wf(blocks),
{
    let e = Step::TryPushChain { worker, first, last, blocks: s, current };
    let a2 = after(a, e);
    let w = freelist::link_word(freelist::word_ptr(current));
    assert(s.contains(s[s.len() - 1]));
    assert(a.holds(worker, last));
    lemma_blocks_kept(a.memory, last, w, blocks);
    assert(freelist::block_ok(a.memory, last));
    assert(freelist::apart(s, a.stack())) by {
        assert forall|b: usize| !(s.contains(b) && #[trigger] a.stack().contains(b)) by {
            if s.contains(b) {
                assert(a.holds(worker, b));
            }
        }
    }
    if current == freelist::head_word(a.history) {
        let top = freelist::head_of(a.stack());
        assert(freelist::word_ptr(current) == top) by {
            if a.stack().len() > 0 {
                assert(a.stack().contains(a.stack()[0]));
                assert(freelist::block_ok(a.memory, a.stack()[0]));
            }
        }
        freelist::lemma_chain_concat(a.memory, s, first, last, a.stack());
        assert(a2.stack() == s + a.stack());
        assert forall|b: usize| #[trigger] a2.stack().contains(b) <==> s.contains(b)
            || a.stack().contains(b) by {
            lemma_either(s, a.stack(), b);
        }
        assert forall|i: int, b: usize| #[trigger] a2.holds(i, b) implies a.holds(i, b)
            && !s.contains(b) by {
            if s.contains(b) {
                assert(a.holds(worker, b));
                assert(a.holds(i, b));
            }
        }
        assert forall|b: usize| #[trigger] blocks.contains(b) implies a2.stack().contains(b)
            || exists|i: int| a2.holds(i, b) by {
            if !a2.stack().contains(b) {
                let i = choose|i: int| a.holds(i, b);
                assert(a2.holds(i, b));
            }
        }
        lemma_outstanding(a.workers, worker, a2.workers[worker], a.workers.len() as int);
        lemma_attempts(a, a2, blocks, worker);
    } else {
        assert(!a.stack().contains(last));
        freelist::lemma_chain_put(
            a.memory,
            last,
            freelist::word_ptr(current),
            freelist::head_of(a.stack()),
            a.stack(),
        );
        assert forall|i: int, b: usize| #[trigger] a2.holds(i, b) implies a.holds(i, b) by {}
        assert forall|b: usize| #[trigger] blocks.contains(b) implies a2.stack().contains(b)
            || exists|i: int| a2.holds(i, b) by {
            if !a.stack().contains(b) {
                let i = choose|i: int| a.holds(i, b);
                assert(a2.holds(i, b));
            }
        }
        assert forall|i: int| 0 <= i < a2.workers.len() implies ((#[trigger] a2.workers[i]).attempt
            matches Some(t) ==> a2.attempt_ok(blocks, t)) by {
            assert(a.workers[i].attempt matches Some(t) ==> a.attempt_ok(blocks, t));
        }
    }
}

/// What attempts remember stays an earlier state when the stack changes.
proof fn lemma_attempts(a: Arena, a2: Arena, blocks: Set<usize>, worker: int)
    requires
        a.wf(blocks),
        0 <= worker < a.workers.len(),
        a2.workers.len() == a.workers.len(),
        a.history.is_prefix_of(a2.history),
        forall|i: int|
            0 <= i < a.workers.len() && i != worker ==> #[trigger] a2.workers[i] == a.workers[i],
        a2.workers[worker].attempt is None || a2.workers[worker].attempt
            == a.workers[worker].attempt,
    ensures
        forall|i: int|
            0 <= i < a2.workers.len() ==> ((#[trigger] a2.workers[i]).attempt matches Some(t)
                ==> a2.attempt_ok(blocks, t)),
{
    assert forall|i: int| 0 <= i < a2.workers.len() implies ((#[trigger] a2.workers[i]).attempt
        matches Some(t) ==> a2.attempt_ok(blocks, t)) by {
        assert(a.workers[i].attempt matches Some(t) ==> a.attempt_ok(blocks, t));
    }
}

/// A step of one thread keeps every block in exactly one place.
pub proof fn law_step(a: Arena, blocks: Set<usize>, e: Step)
    requires
        a.wf(blocks),
        possible(a, e),
    ensures
        after(a, e).wf(blocks),
{
    let a2 = after(a, e);
    match e {
        Step::TryPush { worker, block, current } => {
            let s = seq![block];
            assert(s[0] == block);
            assert(freelist::block_ok(a.memory, block)) by {
                assert(a.holds(worker, block));
            }
            assert(freelist::segment(a.memory, s, block, block));
            lemma_pushed(a, blocks, worker, block, block, s, current);
            let held = a.workers[worker].held;
            assert(held.difference(s.to_set()) =~= held.remove(block)) by {
                assert forall|x: usize| s.to_set().contains(x) <==> x == block by {
                    if x == block {
                        assert(s.contains(x));
                    }
                }
            }
            let chained = Step::TryPushChain {
                worker,
                first: block,
                last: block,
                blocks: s,
                current,
            };
            assert(after(a, chained) == a2);
        },
        Step::TryPushChain { worker, first, last, blocks: s, current } => {
            lemma_pushed(a, blocks, worker, first, last, s, current);
        },
        Step::BeginPop { worker } => {
            if a.stack().len() > 0 {
                assert(a.stack().contains(a.stack()[0]));
            }
            lemma_unmoved(a, a2, blocks, worker);
        },
        Step::ReadNext { worker } => {
            lemma_unmoved(a, a2, blocks, worker);
        },
        Step::FinishPop { worker } => {
            if a.history == a.workers[worker].attempt->0.seen {
                lemma_popped(a, blocks, worker);
            } else {
                lemma_unmoved(a, a2, blocks, worker);
            }
        },
        Step::TryTakeAll { worker, current } => {
            if current == freelist::head_word(a.history) {
                lemma_all_taken(a, blocks, worker, current);
            }
        },
        Step::Write { memory } => {
            lemma_written(a, blocks, memory);
        },
    }
}

/// A step that moves no block.
proof fn lemma_unmoved(a: Arena, a2: Arena, blocks: Set<usize>, worker: int)
    requires
        a.wf(blocks),
        0 <= worker < a.workers.len(),
        a2.memory == a.memory,
        a2.history == a.history,
        a2.workers == a.workers.update(worker, a2.workers[worker]),
        a2.workers[worker].held == a.workers[worker].held,
        a2.workers[worker].pushed == a.workers[worker].pushed,
        a2.workers[worker].popped == a.workers[worker].popped,
        a2.workers[worker].attempt matches Some(t) ==> a2.attempt_ok(blocks, t),
    ensures
        a2.wf(blocks),
{
    assert forall|i: int, b: usize| #[trigger] a2.holds(i, b) implies a.holds(i, b) by {}
    assert forall|b: usize| #[trigger] blocks.contains(b) implies a2.stack().contains(b)
        || exists|i: int| a2.holds(i, b) by {
        if !a.stack().contains(b) {
            let i = choose|i: int| a.holds(i, b);
            assert(a2.holds(i, b));
        }
    }
    lemma_outstanding(a.workers, worker, a2.workers[worker], a.workers.len() as int);
    assert forall|i: int| 0 <= i < a2.workers.len() implies ((#[trigger] a2.workers[i]).attempt
        matches Some(t) ==> a2.attempt_ok(blocks, t)) by {
        if i != worker {
            assert(a.workers[i].attempt matches Some(t) ==> a.attempt_ok(blocks, t));
        }
    }
}

/// A pop that succeeds.
proof fn lemma_popped(a: Arena, blocks: Set<usize>, worker: int)
    requires
        a.wf(blocks),
        possible(a, Step::FinishPop { worker }),
        a.history == a.workers[worker].attempt->0.seen,
    ensures
        after(a, Step::FinishPop { worker }).wf(blocks),
{
    let a2 = after(a, Step::FinishPop { worker });
    let s = a.stack();
    let top = s[0];
    assert(a.workers[worker].attempt matches Some(t) ==> a.attempt_ok(blocks, t));
    assert(s.len() > 0);
    assert(s.contains(top));
    freelist::lemma_chain_skip(a.memory, s, 1);
    assert(a2.stack() == s.skip(1));
    assert forall|b: usize| #[trigger] a2.stack().contains(b) <==> s.contains(b) && b != top by {
        if a2.stack().contains(b) {
            let i = choose|i: int| 0 <= i < s.skip(1).len() && s.skip(1)[i] == b;
            assert(s[i + 1] == b);
        }
        if s.contains(b) && b != top {
            let i = choose|i: int| 0 <= i < s.len() && s[i] == b;
            assert(s.skip(1)[i - 1] == b);
        }
    }
    assert forall|i: int, b: usize| #[trigger] a2.holds(i, b) implies a.holds(i, b) || (i == worker
        && b == top) by {}
    assert forall|i: int, j: int, b: usize| #[trigger] a2.holds(i, b) && #[trigger] a2.holds(
        j,
        b,
    ) implies i == j by {
        if b == top {
            assert(!a.holds(i, b) && !a.holds(j, b));
        }
    }
    assert forall|b: usize| #[trigger] blocks.contains(b) implies a2.stack().contains(b)
        || exists|i: int| a2.holds(i, b) by {
        if b == top {
            assert(a2.holds(worker, b));
        } else if !s.contains(b) {
            let i = choose|i: int| a.holds(i, b);
            assert(a2.holds(i, b));
        }
    }
    lemma_outstanding(a.workers, worker, a2.workers[worker], a.workers.len() as int);
    lemma_attempts(a, a2, blocks, worker);
}

/// A detachment of the whole stack.
proof fn lemma_all_taken(a: Arena, blocks: Set<usize>, worker: int, current: u64)
    requires
        a.wf(blocks),
        0 <= worker < a.workers.len(),
        current == freelist::head_word(a.history),
    ensures
        after(a, Step::TryTakeAll { worker, current }).wf(blocks),
{
    let a2 = after(a, Step::TryTakeAll { worker, current });
    let s = a.stack();
    assert(a2.stack() == Seq::<usize>::empty());
    assert forall|b: usize| #[trigger] s.to_set().contains(b) <==> s.contains(b) by {}
    assert forall|i: int, b: usize| #[trigger] a2.holds(i, b) implies a.holds(i, b) || (i == worker
        && s.contains(b)) by {}
    assert forall|i: int, j: int, b: usize| #[trigger] a2.holds(i, b) && #[trigger] a2.holds(
        j,
        b,
    ) implies i == j by {
        if s.contains(b) {
            assert(!a.holds(i, b) && !a.holds(j, b));
        }
    }
    assert forall|b: usize| #[trigger] blocks.contains(b) implies a2.stack().contains(b)
        || exists|i: int| a2.holds(i, b) by {
        if s.contains(b) {
            assert(a2.holds(worker, b));
        } else {
            let i = choose|i: int| a.holds(i, b);
            assert(a2.holds(i, b));
        }
    }
    lemma_outstanding(a.workers, worker, a2.workers[worker], a.workers.len() as int);
    lemma_attempts(a, a2, blocks, worker);
}

/// A write elsewhere.
proof fn lemma_written(a: Arena, blocks: Set<usize>, m: Map<int, u8>)
    requires
        a.wf(blocks),
        possible(a, Step::Write { memory: m }),
    ensures
        after(a, Step::Write { memory: m }).wf(blocks),
{
    let a2 = after(a, Step::Write { memory: m });
    assert forall|b: usize| #[trigger] a.stack().contains(b) implies memory::agree(
        a.memory,
        m,
        b as int,
        8,
    ) && memory::range_mapped(m, b as int, 8) by {
        assert(freelist::block_ok(a.memory, b));
    }
    freelist::lemma_chain_agree(a.memory, m, a.stack());
    assert forall|b: usize| #[trigger] blocks.contains(b) implies freelist::block_ok(m, b) by {
        assert(freelist::block_ok(a.memory, b));
    }
    assert forall|i: int, b: usize| #[trigger] a2.holds(i, b) implies a.holds(i, b) by {}
    assert forall|b: usize| #[trigger] blocks.contains(b) implies a2.stack().contains(b)
        || exists|i: int| a2.holds(i, b) by {
        if !a.stack().contains(b) {
            let i = choose|i: int| a.holds(i, b);
            assert(a2.holds(i, b));
        }
    }
    assert forall|i: int| 0 <= i < a2.workers.len() implies ((#[trigger] a2.workers[i]).attempt
        matches Some(t) ==> a2.attempt_ok(blocks, t)) by {
        assert(a.workers[i].attempt matches Some(t) ==> a.attempt_ok(blocks, t));
    }
}

/// The arena after a sequence of steps.
pub open spec fn arena_after(a: Arena, s: Seq<Step>) -> Arena
    decreases s.len(),
{
    if s.len() == 0 {
        a
    } else {
        after(arena_after(a, s.drop_last()), s.last())
    }
}

/// Every step of the sequence can take place when its turn comes.
pub open spec fn all_possible(a: Arena, s: Seq<Step>) -> bool {
    forall|k: int| 0 <= k < s.len() ==> possible(arena_after(a, #[trigger] s.take(k)), s[k])
}

/// Whatever the interleaving of the steps of any number of threads, no block is
/// lost and none is in two places: each is on the stack or with one thread, and
/// the stack holds as many as were pushed and not popped.
pub proof fn law_interleaving(a: Arena, blocks: Set<usize>, s: Seq<Step>)
    requires
        a.wf(blocks),
        all_possible(a, s),
    ensures
        arena_after(a, s).wf(blocks),
    decreases s.len(),
{
    if s.len() > 0 {
        let before = s.drop_last();
        assert forall|k: int| 0 <= k < before.len() implies possible(
            arena_after(a, #[trigger] before.take(k)),
            before[k],
        ) by {
            assert(before.take(k) =~= s.take(k));
        }
        law_interleaving(a, blocks, before);
        assert(s.take(s.len() - 1) =~= before);
        law_step(arena_after(a, before), blocks, s.last());
    }
}

/// Every step that can take place meets what its function requires: the swaps
/// succeed or fail as the contracts of the single steps say.
pub proof fn law_steps_are_allowed(a: Arena, blocks: Set<usize>, e: Step, stack: TreiberStack)
    requires
        a.wf(blocks),
        possible(a, e),
        stack.coherent(),
        stack.history() == a.history,
    ensures
        stack.wf(a.memory),
        match e {
            Step::TryPush { block, .. } => freelist::block_ok(a.memory, block)
                && !stack@.contains(block),
            Step::TryPushChain { first, last, blocks: s, .. } => freelist::segment(
                a.memory,
                s,
                first,
                last,
            ) && freelist::apart(s, stack@),
            Step::ReadNext { worker } => {
                let t = a.workers[worker].attempt->0;
                &&& t.seen.is_prefix_of(stack.history())
                &&& freelist::block_ok(a.memory, t.seen[t.seen.len() - 1][0])
            },
            Step::FinishPop { worker } => {
                let t = a.workers[worker].attempt->0;
                &&& t.read matches Some(h)
                &&& t.seen.is_prefix_of(h)
                &&& h.is_prefix_of(stack.history())
                &&& stack.history().len() - t.seen.len() < TAGS
                &&& forall|i: int|
                    0 <= i < stack@.len() ==> 0 < #[trigger] stack@[i] < freelist::ADDRESS_LIMIT
            },
            _ => true,
        },
{
    match e {
        Step::TryPush { worker, block, .. } => {
            assert(a.holds(worker, block));
        },
        Step::TryPushChain { worker, blocks: s, .. } => {
            assert forall|b: usize| !(s.contains(b) && #[trigger] stack@.contains(b)) by {
                if s.contains(b) {
                    assert(a.holds(worker, b));
                }
            }
        },
        Step::ReadNext { worker } => {
            assert(a.workers[worker].attempt matches Some(t) ==> a.attempt_ok(blocks, t));
        },
        Step::FinishPop { worker } => {
            assert(a.workers[worker].attempt matches Some(t) ==> a.attempt_ok(blocks, t));
            assert forall|i: int| 0 <= i < stack@.len() implies 0 < #[trigger] stack@[i]
                < freelist::ADDRESS_LIMIT by {
                assert(freelist::block_ok(a.memory, a.stack()[i]));
            }
        },
        _ => {},
    }
}

/// The arena of an empty stack: every block is with one thread.
pub proof fn law_fresh_arena(a: Arena, blocks: Set<usize>)
    requires
        a.history == seq![Seq::<usize>::empty()],
        forall|b: usize| #[trigger] blocks.contains(b) ==> freelist::block_ok(a.memory, b),
        forall|b: usize| #[trigger] blocks.contains(b) ==> exists|i: int| a.holds(i, b),
        forall|i: int, b: usize| #[trigger] a.holds(i, b) ==> blocks.contains(b),
        forall|i: int, j: int, b: usize| #[trigger]
            a.holds(i, b) && #[trigger] a.holds(j, b) ==> i == j,
        forall|i: int|
            0 <= i < a.workers.len() ==> (#[trigger] a.workers[i]).attempt is None
                && a.workers[i].pushed == 0 && a.workers[i].popped == 0,
    ensures
        a.wf(blocks),
{
    lemma_none_outstanding(a.workers, a.workers.len() as int);
}

/// Where every thread has popped as many blocks as it has pushed, none is
/// outstanding.
proof fn lemma_none_outstanding(workers: Seq<Worker>, n: int)
    requires
        0 <= n <= workers.len(),
        forall|i: int|
            0 <= i < n ==> (#[trigger] workers[i]).popped == workers[i].pushed,
    ensures
        outstanding(workers, n) == 0,
    decreases n,
{
    if n > 0 {
        lemma_none_outstanding(workers, n - 1);
    }
}

/// Where no thread has popped more than it has pushed, at least what one thread
/// lacks is outstanding.
proof fn lemma_some_outstanding(workers: Seq<Worker>, n: int, t: int)
    requires
        0 <= n <= workers.len(),
        forall|i: int|
            0 <= i < workers.len() ==> (#[trigger] workers[i]).popped <= workers[i].pushed,
    ensures
        outstanding(workers, n) >= 0,
        0 <= t < n ==> outstanding(workers, n) >= workers[t].pushed - workers[t].popped,
    decreases n,
{
    if n > 0 {
        lemma_some_outstanding(workers, n - 1, t);
    }
}

/// As long as no thread pops more than it has pushed, a thread that has popped
/// less finds a block; once all have popped what they pushed, the stack is
/// empty, and a further pop finds none.
pub proof fn law_pops_balance_pushes(a: Arena, blocks: Set<usize>, t: int)
    requires
        a.wf(blocks),
        0 <= t < a.workers.len(),
        forall|i: int|
            0 <= i < a.workers.len() ==> (#[trigger] a.workers[i]).popped <= a.workers[i].pushed,
    ensures
        a.workers[t].popped < a.workers[t].pushed ==> after(
            a,
            Step::BeginPop { worker: t },
        ).workers[t].attempt is Some,
        (forall|i: int|
            0 <= i < a.workers.len() ==> (#[trigger] a.workers[i]).popped == a.workers[i].pushed)
            ==> after(a, Step::BeginPop { worker: t }).workers[t].attempt is None,
{
    lemma_some_outstanding(a.workers, a.workers.len() as int, t);
    if forall|i: int|
        0 <= i < a.workers.len() ==> (#[trigger] a.workers[i]).popped == a.workers[i].pushed {
        lemma_none_outstanding(a.workers, a.workers.len() as int);
    }
}

} // verus!
