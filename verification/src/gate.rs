//! The admission gate: a counting permit pool with a fixed capacity.
//!
//! Every CPU-intensive task execution holds exactly one permit for its whole
//! run, so the number of such executions in flight never passes the capacity
//! chosen at construction.  Suspending a waiting handler is the job of the
//! surrounding async runtime; `PermitPool` accounts for the permits, and
//! `gate_run` with its lemmas bounds every admissible history of acquires
//! and releases.

use vstd::prelude::*;

verus! {

/// The capacity of the server's permit pool: the ceiling on concurrent
/// CPU-intensive task executions, process-wide.
pub const PERMIT_CAPACITY: u64 = 40;

/// A fixed-capacity pool of interchangeable permits.
pub struct PermitPool {
    capacity: u64,
    outstanding: u64,
}

impl PermitPool {
    /// The capacity fixed at construction.
    pub closed spec fn capacity(self) -> int {
        self.capacity as int
    }

    /// How many permits are held right now.
    pub closed spec fn outstanding(self) -> int {
        self.outstanding as int
    }

    /// The pool's invariant: it never hands out more permits than its capacity.
    pub open spec fn wf(self) -> bool {
        0 <= self.outstanding() <= self.capacity()
    }

    /// Create a pool with every permit available.
    pub fn new(capacity: u64) -> (p: PermitPool)
        ensures
            p.wf(),
            p.capacity() == capacity,
            p.outstanding() == 0,
    {
        PermitPool { capacity, outstanding: 0 }
    }

    /// Whether a permit is available right now.
    pub fn can_acquire(&self) -> (r: bool)
        ensures
            r == (self.outstanding() < self.capacity()),
    {
        self.outstanding < self.capacity
    }

    /// Take one permit.  A caller may only complete an acquire while a permit
    /// is available; a runtime suspends the caller until then.
    pub fn acquire(&mut self)
        requires
            old(self).wf(),
            old(self).outstanding() < old(self).capacity(),
        ensures
            final(self).wf(),
            final(self).capacity() == old(self).capacity(),
            final(self).outstanding() == old(self).outstanding() + 1,
    {
        self.outstanding = self.outstanding + 1;
    }

    /// How many permits are held right now, for instrumentation.
    pub fn permits_out(&self) -> (n: u64)
        ensures
            n as int == self.outstanding(),
    {
        self.outstanding
    }

    /// Return one held permit.  Paired with exactly one earlier `acquire`.
    pub fn release(&mut self)
        requires
            old(self).wf(),
            old(self).outstanding() > 0,
        ensures
            final(self).wf(),
            final(self).capacity() == old(self).capacity(),
            final(self).outstanding() == old(self).outstanding() - 1,
    {
        self.outstanding = self.outstanding - 1;
    }
}

/// One completed gate operation, as seen by an observer of the pool.
#[derive(Clone, Copy, Debug, PartialEq, Eq, Structural)]
pub enum GateOp {
    Acquire,
    Release,
}

/// The outstanding count after a history of completed gate operations, or
/// `None` if the history is not admissible: an acquire completes only while
/// the count is below `cap`, and a release only while a permit is held.
pub open spec fn gate_run(cap: int, ops: Seq<GateOp>) -> Option<int>
    decreases ops.len(),
{
    if ops.len() == 0 {
        Some(0)
    } else {
        match gate_run(cap, ops.drop_last()) {
            Some(st) => match ops.last() {
                GateOp::Acquire => if st < cap {
                    Some(st + 1)
                } else {
                    None
                },
                GateOp::Release => if st > 0 {
                    Some(st - 1)
                } else {
                    None
                },
            },
            None => None,
        }
    }
}

/// Law: over every admissible history, the number of permits out at once
/// stays between zero and the capacity.  No sequence of completed acquires
/// and releases ever puts more than `cap` expensive executions in flight.
pub proof fn lemma_gate_bounded(cap: int, ops: Seq<GateOp>)
    requires
        cap >= 0,
        gate_run(cap, ops) is Some,
    ensures
        0 <= gate_run(cap, ops)->Some_0 <= cap,
    decreases ops.len(),
{
    if ops.len() > 0 {
        lemma_gate_bounded(cap, ops.drop_last());
    }
}

proof fn lemma_held_since(ops: Seq<GateOp>, i: int, t: int)
    requires
        gate_run(1, ops) is Some,
        0 <= i < t <= ops.len(),
        ops[i] is Acquire,
        forall|k: int| i < k < t ==> !(ops[k] is Release),
    ensures
        gate_run(1, ops.subrange(0, t))->Some_0 >= 1,
    decreases t,
{
    lemma_gate_prefix(1, ops, t);
    assert(ops.subrange(0, t).drop_last() =~= ops.subrange(0, t - 1));
    assert(ops.subrange(0, t).last() == ops[t - 1]);
    lemma_gate_prefix(1, ops, t - 1);
    if t == i + 1 {
        lemma_gate_bounded(1, ops.subrange(0, i));
    } else {
        lemma_held_since(ops, i, t - 1);
        lemma_gate_bounded(1, ops.subrange(0, t - 1));
    }
}

/// Law: with the pool capacity set to one, expensive executions are
/// serialized.  In every admissible history, between any two completed
/// acquires stands a release: the second execution does not start until the
/// first permit is given back.
pub proof fn lemma_capacity_one_serializes(ops: Seq<GateOp>, i: int, j: int)
    requires
        gate_run(1, ops) is Some,
        0 <= i < j < ops.len(),
        ops[i] is Acquire,
        ops[j] is Acquire,
    ensures
        exists|k: int| i < k < j && ops[k] is Release,
{
    if !(exists|k: int| i < k < j && ops[k] is Release) {
        assert forall|k: int| i < k < j implies !(ops[k] is Release) by {
            if ops[k] is Release {
                assert(exists|m: int| i < m < j && ops[m] is Release);
            }
        }
        lemma_held_since(ops, i, j);
        lemma_gate_prefix(1, ops, j + 1);
        assert(ops.subrange(0, j + 1).drop_last() =~= ops.subrange(0, j));
        assert(ops.subrange(0, j + 1).last() == ops[j]);
        assert(false);
    }
}

/// Every prefix of an admissible history is admissible.
pub proof fn lemma_gate_prefix(cap: int, ops: Seq<GateOp>, n: int)
    requires
        0 <= n <= ops.len(),
        gate_run(cap, ops) is Some,
    ensures
        gate_run(cap, ops.subrange(0, n)) is Some,
    decreases ops.len(),
{
    if n < ops.len() {
        lemma_gate_prefix(cap, ops.drop_last(), n);
        assert(ops.subrange(0, n) =~= ops.drop_last().subrange(0, n));
    } else {
        assert(ops.subrange(0, n) =~= ops);
    }
}

} // verus!
