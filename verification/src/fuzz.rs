//! Fuzz targets: what an input asks for, and in which order it is done.
//!
//! Both targets use a *fresh* allocator per input, so inputs never see state
//! from an earlier one and any failure reproduces from its input alone.  The
//! runner performs the operations and reports how many allocations it has made.
use crate::ops::{self, Decoder, Op, MAX_OPS};
use crate::rng::{self, Rng};
use vstd::prelude::*;

verus! {

/// Slots per model.
pub const SLOTS: usize = 64;

/// Upper bound on allocations per input, so that fill and churn operations
/// cannot turn one input into seconds of mapping traffic.
pub const ALLOC_BUDGET: usize = 20000;

/// Upper bound on [`Op::Validate`] operations per input.  Each one walks all
/// metadata with its own bookkeeping, so thousands of them would be mistaken
/// for a hang.
pub const VALIDATE_BUDGET: usize = 64;

/// Region sizes that a header byte can ask for.
pub const REGION_SIZES: [usize; 4] = [262144, 524288, 1048576, 2097152];

/// Topology from one header byte: 1-4 virtual nodes, 256 KiB - 2 MiB regions.
/// Small regions make exhaustion reachable in a few operations.
pub fn topology(b: u8) -> (r: (usize, usize))
    ensures
        r.0 == 1 + b % 4,
        r.1 == REGION_SIZES@[b as int / 4 % 4],
{
    (1 + (b % 4) as usize, REGION_SIZES[(b / 4 % 4) as usize])
}

// ---------------------------------------------------------------------------
// Sequential target
// ---------------------------------------------------------------------------
/// The operations that are performed: all of them, but validations only as
/// long as there have been fewer than [`VALIDATE_BUDGET`].
pub open spec fn within_budget(s: Seq<Op>, validates: int) -> Seq<Op>
    decreases s.len(),
{
    if s.len() == 0 {
        Seq::empty()
    } else if s[0] == Op::Validate && validates >= VALIDATE_BUDGET {
        within_budget(s.skip(1), validates)
    } else if s[0] == Op::Validate {
        seq![s[0]] + within_budget(s.skip(1), validates + 1)
    } else {
        seq![s[0]] + within_budget(s.skip(1), validates)
    }
}

/// Number of validations among the operations.
pub open spec fn validations(s: Seq<Op>) -> int
    decreases s.len(),
{
    if s.len() == 0 {
        0
    } else {
        validations(s.skip(1)) + if s[0] == Op::Validate {
            1int
        } else {
            0
        }
    }
}

/// Whatever the input, at most [`VALIDATE_BUDGET`] validations are performed,
/// and all other operations are.
pub proof fn law_validate_budget(s: Seq<Op>, done: int)
    requires
        0 <= done <= VALIDATE_BUDGET,
    ensures
        validations(within_budget(s, done)) + done <= VALIDATE_BUDGET,
        within_budget(s, done).len() - validations(within_budget(s, done)) == s.len()
            - validations(s),
    decreases s.len(),
{
    if s.len() > 0 {
        let w = within_budget(s, done);
        if s[0] == Op::Validate && done >= VALIDATE_BUDGET {
            law_validate_budget(s.skip(1), done);
        } else if s[0] == Op::Validate {
            law_validate_budget(s.skip(1), done + 1);
            assert(w.skip(1) =~= within_budget(s.skip(1), done + 1));
        } else {
            law_validate_budget(s.skip(1), done);
            assert(w.skip(1) =~= within_budget(s.skip(1), done));
        }
    }
}

/// A run of the sequential target.
pub struct OpsRun {
    nodes: usize,
    region: usize,
    ops: Vec<Op>,
    pos: usize,
    validates: usize,
}

impl OpsRun {
    /// Virtual nodes and region size of the allocator under test.
    pub closed spec fn machine(&self) -> (usize, usize) {
        (self.nodes, self.region)
    }

    /// The operations still to be performed.
    pub closed spec fn todo(&self) -> Seq<Op> {
        within_budget(self.ops@.skip(self.pos as int), self.validates as int)
    }

    /// No more operations were performed than there are.
    pub closed spec fn wf(&self) -> bool {
        &&& self.pos <= self.ops@.len()
        &&& self.validates <= VALIDATE_BUDGET
    }

    /// The run that an input asks for: a header byte, then operations.  `None`
    /// for an empty input.
    pub fn start(data: &[u8]) -> (run: Option<Self>)
        ensures
            run is Some <==> data@.len() > 0,
            run matches Some(r) ==> {
                &&& r.wf()
                &&& r.machine().0 == 1 + data@[0] % 4
                &&& r.machine().1 == REGION_SIZES@[data@[0] as int / 4 % 4]
                &&& r.todo() == within_budget(
                    ops::ops_from(data@, 1, SLOTS as int, MAX_OPS as nat),
                    0,
                )
            },
    {
        let mut dec = Decoder::new(data);
        let header: u8 = match dec.byte() {
            Some(b) => b,
            None => return None,
        };
        let (nodes, region) = topology(header);
        let list = dec.ops(SLOTS);
        assert(list@.skip(0) =~= list@);
        Some(OpsRun { nodes, region, ops: list, pos: 0, validates: 0 })
    }

    /// Virtual nodes and region size of the allocator under test.
    pub fn config(&self) -> (r: (usize, usize))
        ensures
            r == self.machine(),
    {
        (self.nodes, self.region)
    }

    /// The next operation to perform, given the number of allocations made so
    /// far.  `None` when the run is over.
    pub fn step(&mut self, allocs: usize) -> (op: Option<Op>)
        requires
            old(self).wf(),
        ensures
            final(self).wf(),
            final(self).machine() == old(self).machine(),
            op is None <==> allocs > ALLOC_BUDGET || old(self).todo().len() == 0,
            op matches Some(o) ==> o == old(self).todo()[0] && final(self).todo() == old(
                self,
            ).todo().skip(1),
            op is None ==> final(self).todo() == old(self).todo(),
            allocs > ALLOC_BUDGET ==> *final(self) == *old(self),
    {
        if allocs > ALLOC_BUDGET {
            return None;
        }
        let ghost todo = self.todo();
        while self.pos < self.ops.len()
            invariant
                self.wf(),
                self.todo() == todo,
                todo == old(self).todo(),
                self.machine() == old(self).machine(),
                allocs <= ALLOC_BUDGET,
            decreases self.ops@.len() - self.pos,
        {
            let op = self.ops[self.pos];
            let ghost rest = self.ops@.skip(self.pos as int);
            assert(rest[0] == op);
            assert(rest.skip(1) =~= self.ops@.skip(self.pos + 1));
            self.pos += 1;
            if op == Op::Validate {
                if self.validates >= VALIDATE_BUDGET {
                    continue;
                }
                self.validates += 1;
            }
            assert(self.todo() =~= todo.skip(1));
            return Some(op);
        }
        None
    }
}

// ---------------------------------------------------------------------------
// Multi-threaded target
// ---------------------------------------------------------------------------
/// Most worker threads.
pub const MAX_WORKERS: usize = 4;

/// Number of worker threads for a byte: two to [`MAX_WORKERS`].
pub open spec fn workers(b: int) -> int {
    if 2 + b % 4 > MAX_WORKERS {
        MAX_WORKERS as int
    } else {
        2 + b % 4
    }
}

/// The operations, at most `n`, that the bytes from `p` on assign to workers:
/// each is preceded by a byte for its worker.  Validations are left out, since
/// they are never valid while other threads run.
pub open spec fn assigned(d: Seq<u8>, p: int, nthreads: int, n: nat) -> Seq<(int, Op)>
    decreases d.len() - p, n,
{
    if n == 0 || !(0 <= p < d.len()) || !ops::has_op(d, p + 1) {
        Seq::empty()
    } else {
        let op = ops::op_at(d, p + 1, SLOTS as int);
        let next = p + 1 + ops::op_len(d[p + 1] as int);
        if op == Op::Validate {
            assigned(d, next, nthreads, n)
        } else {
            seq![(d[p] as int % nthreads, op)] + assigned(d, next, nthreads, (n - 1) as nat)
        }
    }
}

/// The operations of worker `t` in order.
pub open spec fn share_of(s: Seq<(int, Op)>, t: int) -> Seq<Op>
    decreases s.len(),
{
    if s.len() == 0 {
        Seq::empty()
    } else if s.last().0 == t {
        share_of(s.drop_last(), t).push(s.last().1)
    } else {
        share_of(s.drop_last(), t)
    }
}

/// What the multi-threaded target does.
pub struct ThreadsPlan {
    /// Virtual nodes of the allocator under test.
    pub nodes: usize,
    /// Region size of the allocator under test.
    pub region: usize,
    /// Operations of each worker.
    pub workers: Vec<Vec<Op>>,
}

/// The plan that an input asks for: a header byte, a byte for the number of
/// workers, then operations.  `None` if the input is shorter than two bytes.
pub fn plan_threads(data: &[u8]) -> (plan: Option<ThreadsPlan>)
    ensures
        plan is Some <==> data@.len() >= 2,
        plan matches Some(p) ==> {
            let n = workers(data@[1] as int);
            &&& p.nodes == 1 + data@[0] % 4
            &&& p.region == REGION_SIZES@[data@[0] as int / 4 % 4]
            &&& p.workers@.len() == n
            &&& forall|t: int|
                0 <= t < n ==> (#[trigger] p.workers@[t])@ == share_of(
                    assigned(data@, 2, n, MAX_OPS as nat),
                    t,
                )
        },
{
    let mut dec = Decoder::new(data);
    let header: u8 = match dec.byte() {
        Some(b) => b,
        None => return None,
    };
    let tb: u8 = match dec.byte() {
        Some(b) => b,
        None => return None,
    };
    let (nodes, region) = topology(header);
    let count: usize = if 2 + (tb % 4) as usize > MAX_WORKERS {
        MAX_WORKERS
    } else {
        2 + (tb % 4) as usize
    };
    let ghost n = count as int;
    let ghost all = assigned(data@, 2, n, MAX_OPS as nat);
    let mut lists: Vec<Vec<Op>> = Vec::new();
    let mut i: usize = 0;
    while i < count
        invariant
            i <= count,
            lists@.len() == i,
            forall|t: int| 0 <= t < i ==> (#[trigger] lists@[t])@ == Seq::<Op>::empty(),
        decreases count - i,
    {
        lists.push(Vec::new());
        i += 1;
    }
    let mut total: usize = 0;
    let ghost mut done: Seq<(int, Op)> = Seq::empty();
    assert(done + assigned(data@, 2, n, MAX_OPS as nat) =~= all);
    while total < MAX_OPS
        invariant_except_break
            done + assigned(data@, dec.at(), n, (MAX_OPS - total) as nat) == all,
        invariant
            dec.wf(),
            dec.input() == data@,
            dec.at() >= 2,
            n == count,
            2 <= count <= MAX_WORKERS,
            total <= MAX_OPS,
            lists@.len() == count,
            forall|t: int| 0 <= t < count ==> (#[trigger] lists@[t])@ == share_of(done, t),
        ensures
            done == all,
        decreases data@.len() - dec.at(),
    {
        let ghost p = dec.at();
        let ghost left = (MAX_OPS - total) as nat;
        let t: u8 = match dec.byte() {
            Some(b) => b,
            None => {
                assert(assigned(data@, p, n, left) =~= Seq::empty());
                assert(done + assigned(data@, p, n, left) =~= done);
                break;
            },
        };
        let op = match dec.op(SLOTS) {
            Some(o) => o,
            None => {
                assert(assigned(data@, p, n, left) =~= Seq::empty());
                assert(done + assigned(data@, p, n, left) =~= done);
                break;
            },
        };
        if op == Op::Validate {
            continue;
        }
        let w: usize = t as usize % count;
        let ghost before = lists@;
        let mut list: Vec<Op> = Vec::new();
        core::mem::swap(&mut list, &mut lists[w]);
        list.push(op);
        core::mem::swap(&mut list, &mut lists[w]);
        proof {
            let next = done.push((w as int, op));
            assert(next.drop_last() =~= done);
            assert forall|k: int| 0 <= k < count implies (#[trigger] lists@[k])@ == share_of(
                next,
                k,
            ) by {
                assert(before[k]@ == share_of(done, k));
            }
            assert(next + assigned(data@, dec.at(), n, (left - 1) as nat) =~= done + assigned(
                data@,
                p,
                n,
                left,
            ));
            done = next;
        }
        total += 1;
    }
    Some(ThreadsPlan { nodes, region, workers: lists })
}

/// What a worker does next.
#[derive(Clone, Copy, PartialEq, Eq, Structural, Debug)]
pub enum WorkerAction {
    /// Perform the operation on the worker's own model.
    Apply(Op),
    /// Detach the allocation in `slot`, if there is one, and send it to worker
    /// `to`.
    Send { slot: usize, to: usize },
}

/// What a worker among `nthreads` does for an operation.
pub open spec fn action_for(op: Op, nthreads: int) -> WorkerAction {
    match op {
        Op::Transfer { slot, to } => WorkerAction::Send { slot, to: (to as int % nthreads) as usize },
        other => WorkerAction::Apply(other),
    }
}

/// What a worker does with an object that another one sent.
#[derive(Clone, Copy, PartialEq, Eq, Structural, Debug)]
pub enum Receipt {
    /// Adopt it into `slot`.
    Adopt { slot: usize },
    /// Free it.
    Release,
}

/// A worker of the multi-threaded target.
pub struct WorkerRun {
    ops: Vec<Op>,
    pos: usize,
    nthreads: usize,
    rng: Rng,
}

impl WorkerRun {
    /// The operations still to be performed.
    pub closed spec fn todo(&self) -> Seq<Op> {
        self.ops@.skip(self.pos as int)
    }

    /// Number of workers.
    pub closed spec fn threads(&self) -> int {
        self.nthreads as int
    }

    /// State of the worker's random numbers.
    pub closed spec fn luck(&self) -> u64 {
        self.rng.at()
    }

    /// No more operations were performed than there are.
    pub closed spec fn wf(&self) -> bool {
        self.pos <= self.ops@.len() && self.nthreads > 0
    }

    /// Worker number `worker`, which is to perform `ops`.
    pub fn start(ops: Vec<Op>, nthreads: usize, worker: usize) -> (run: Self)
        requires
            worker < nthreads,
        ensures
            run.wf(),
            run.todo() == ops@,
            run.threads() == nthreads,
            run.luck() == worker + 1,
    {
        assert(ops@.skip(0) =~= ops@);
        WorkerRun { ops, pos: 0, nthreads, rng: Rng::new(worker as u64 + 1) }
    }

    /// What to do with an object that came in: adopt it or free it, by chance.
    pub fn receive(&mut self) -> (r: Receipt)
        requires
            old(self).wf(),
        ensures
            final(self).wf(),
            final(self).todo() == old(self).todo(),
            final(self).threads() == old(self).threads(),
            ({
                let first = rng::next_state(old(self).luck());
                let second = rng::next_state(first);
                if rng::drawn_below(first, 2) == 0 {
                    &&& final(self).luck() == second
                    &&& r == Receipt::Adopt { slot: rng::drawn_below(second, SLOTS as int) as usize }
                } else {
                    &&& final(self).luck() == first
                    &&& r is Release
                }
            }),
    {
        if self.rng.below(2) == 0 {
            Receipt::Adopt { slot: self.rng.below(SLOTS) }
        } else {
            Receipt::Release
        }
    }

    /// The next action, given the number of allocations that the worker has
    /// made so far.  `None` when it is done.
    pub fn step(&mut self, allocs: usize) -> (action: Option<WorkerAction>)
        requires
            old(self).wf(),
        ensures
            final(self).wf(),
            final(self).threads() == old(self).threads(),
            final(self).luck() == old(self).luck(),
            action is None <==> allocs > ALLOC_BUDGET as int / old(self).threads() || old(
                self,
            ).todo().len() == 0,
            action matches Some(a) ==> a == action_for(old(self).todo()[0], old(self).threads())
                && final(self).todo() == old(self).todo().skip(1),
            action is None ==> *final(self) == *old(self),
    {
        if allocs > ALLOC_BUDGET / self.nthreads || self.pos >= self.ops.len() {
            return None;
        }
        let op = self.ops[self.pos];
        self.pos += 1;
        assert(self.todo() =~= old(self).todo().skip(1));
        Some(
            match op {
                Op::Transfer { slot, to } => WorkerAction::Send { slot, to: to % self.nthreads },
                other => WorkerAction::Apply(other),
            },
        )
    }
}

/// Region sizes: 256 KiB, doubled up to three times.
pub proof fn law_region_sizes(b: int)
    requires
        0 <= b < 256,
    ensures
        REGION_SIZES@[b / 4 % 4] == 262144 * vstd::arithmetic::power2::pow2((b / 4 % 4) as nat),
{
    vstd::arithmetic::power2::lemma2_to64();
}

/// What is performed are the operations in their order, without the validations
/// behind the first 64.
pub proof fn law_performed(s: Seq<Op>, done: int)
    requires
        0 <= done <= 64,
    ensures
        validations(s) + done <= 64 ==> within_budget(s, done) == s,
        validations(within_budget(s, done)) == (if validations(s) + done <= 64 {
            validations(s)
        } else {
            64 - done
        }),
        others(within_budget(s, done)) == others(s),
    decreases s.len(),
{
    lemma_validations_nonneg(s);
    if s.len() > 0 {
        let rest = s.skip(1);
        lemma_validations_nonneg(rest);
        let w = within_budget(s, done);
        if s[0] == Op::Validate && done >= 64 {
            law_performed(rest, done);
        } else {
            let next = if s[0] == Op::Validate {
                done + 1
            } else {
                done
            };
            law_performed(rest, next);
            assert(w.skip(1) =~= within_budget(rest, next));
            assert(s =~= seq![s[0]] + rest);
        }
    }
}

/// The operations that are no validations.
pub open spec fn others(s: Seq<Op>) -> Seq<Op>
    decreases s.len(),
{
    if s.len() == 0 {
        Seq::empty()
    } else if s[0] is Validate {
        others(s.skip(1))
    } else {
        seq![s[0]] + others(s.skip(1))
    }
}

proof fn lemma_validations_nonneg(s: Seq<Op>)
    ensures
        0 <= validations(s) <= s.len(),
    decreases s.len(),
{
    if s.len() > 0 {
        lemma_validations_nonneg(s.skip(1));
    }
}

/// Two, three or four workers.
pub proof fn law_workers(b: int)
    requires
        0 <= b < 256,
    ensures
        b % 4 == 0 ==> workers(b) == 2,
        b % 4 == 1 ==> workers(b) == 3,
        b % 4 >= 2 ==> workers(b) == 4,
{
}

/// Each operation is one byte for its worker and then its own bytes; validations
/// are left out and do not count.
pub proof fn law_assignment(d: Seq<u8>, p: int, nthreads: int, n: nat)
    requires
        0 <= p,
        nthreads > 0,
    ensures
        assigned(d, p, nthreads, n).len() <= n,
        n == 0 || p >= d.len() || !ops::has_op(d, p + 1) ==> assigned(d, p, nthreads, n).len() == 0,
        n > 0 && p < d.len() && ops::has_op(d, p + 1) ==> {
            let op = ops::op_at(d, p + 1, 64);
            let next = p + 1 + ops::op_len(d[p + 1] as int);
            let s = assigned(d, p, nthreads, n);
            if op is Validate {
                s == assigned(d, next, nthreads, n)
            } else {
                &&& s.len() > 0
                &&& s[0] == (d[p] as int % nthreads, op)
                &&& s.skip(1) == assigned(d, next, nthreads, (n - 1) as nat)
            }
        },
    decreases d.len() - p, n,
{
    if n > 0 && p < d.len() && ops::has_op(d, p + 1) {
        let op = ops::op_at(d, p + 1, 64);
        let next = p + 1 + ops::op_len(d[p + 1] as int);
        let s = assigned(d, p, nthreads, n);
        if op is Validate {
            law_assignment(d, next, nthreads, n);
        } else {
            law_assignment(d, next, nthreads, (n - 1) as nat);
            assert(s.skip(1) =~= assigned(d, next, nthreads, (n - 1) as nat));
        }
    }
}

/// A worker has exactly the operations that were assigned to it, in their order.
pub proof fn law_shares(s: Seq<(int, Op)>, x: (int, Op), t: int)
    ensures
        share_of(Seq::empty(), t).len() == 0,
        x.0 == t ==> share_of(s.push(x), t) == share_of(s, t).push(x.1),
        x.0 != t ==> share_of(s.push(x), t) == share_of(s, t),
{
    assert(s.push(x).drop_last() =~= s);
}

/// A transfer sends the object of its slot to the worker that its number stands
/// for; everything else a worker does itself.
pub proof fn law_actions(op: Op, nthreads: int)
    requires
        0 < nthreads <= usize::MAX,
    ensures
        match op {
            Op::Transfer { slot, to } => action_for(op, nthreads) matches WorkerAction::Send {
                slot: from,
                to: worker,
            } && from == slot && worker == to as int % nthreads && worker < nthreads,
            _ => action_for(op, nthreads) == WorkerAction::Apply(op),
        },
{
    if let Op::Transfer { to, .. } = op {
        vstd::arithmetic::div_mod::lemma_mod_bound(to as int, nthreads);
    }
}

} // verus!
