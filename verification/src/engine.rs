//! Bookkeeping for the batch engine.
//!
//! The engine applies one operation to each repository of a batch with
//! bounded parallelism. The parallel fan-out itself — worker threads, the
//! progress display, the external tool calls — runs outside the library and
//! hands back one outcome per repository. This module holds what can be
//! stated exactly: a failure never aborts the batch, so the report lists
//! exactly the failed repositories, each with its own error, in batch
//! order; and the ticket counter used for unattended start/finish log lines
//! hands out consecutive numbers with no gaps.

use vstd::prelude::*;

use crate::errors::WorkspaceError;
use crate::repository::Repository;

verus! {

/// What one repository's operation came to: the repository, and its error
/// if the operation failed.
pub struct BatchOutcome {
    pub repository: Repository,
    pub error: Option<WorkspaceError>,
}

/// The failed outcomes, in order, each attributed to its repository.
pub open spec fn failures_of(s: Seq<BatchOutcome>) -> Seq<(Repository, WorkspaceError)>
    decreases s.len(),
{
    if s.len() == 0 {
        Seq::empty()
    } else {
        let rest = failures_of(s.drop_first());
        match s[0].error {
            Some(e) => seq![(s[0].repository, e)] + rest,
            None => rest,
        }
    }
}

/// How many outcomes failed.
pub open spec fn failure_count(s: Seq<BatchOutcome>) -> nat
    decreases s.len(),
{
    if s.len() == 0 {
        0
    } else {
        (if s[0].error is Some {
            1nat
        } else {
            0nat
        }) + failure_count(s.drop_first())
    }
}

/// Law: the end-of-batch report holds exactly one pair per failed outcome —
/// as many entries as failures, never more, never fewer.
pub proof fn lemma_failures_exact(s: Seq<BatchOutcome>)
    ensures
        failures_of(s).len() == failure_count(s),
    decreases s.len(),
{
    if s.len() > 0 {
        lemma_failures_exact(s.drop_first());
    }
}

/// Summarize a completed batch: every repository was attempted, and the
/// report is exactly the failed outcomes, in batch order, each carrying the
/// repository it belongs to.
pub fn summarize_batch(outcomes: Vec<BatchOutcome>) -> (failures: Vec<(Repository, WorkspaceError)>)
    ensures
        failures@ == failures_of(outcomes@),
{
    let ghost whole = outcomes@;
    let mut failures: Vec<(Repository, WorkspaceError)> = Vec::new();
    let mut rest = outcomes;
    proof {
        assert(failures@ + failures_of(rest@) =~= failures_of(whole));
    }
    while rest.len() > 0
        invariant
            failures_of(whole) == failures@ + failures_of(rest@),
        decreases rest@.len(),
    {
        let ghost rest_before = rest@;
        let ghost fail_before = failures@;
        let o = rest.remove(0);
        match o.error {
            Some(e) => {
                failures.push((o.repository, e));
                proof {
                    assert(fail_before + (seq![(rest_before[0].repository, rest_before[0].error->0)]
                        + failures_of(rest@)) =~= failures@ + failures_of(rest@));
                }
            },
            None => (),
        }
    }
    proof {
        assert(failures_of(rest@) =~= Seq::<(Repository, WorkspaceError)>::empty());
        assert(failures@ + Seq::<(Repository, WorkspaceError)>::empty() =~= failures@);
    }
    failures
}

/// The ticket counter behind unattended start/finish log lines. It is the
/// only state the log lines share; each worker takes a ticket before it
/// logs. Tickets are handed out one at a time, starting at 1.
pub struct EventCounter {
    /// How many tickets were handed out.
    pub count: u64,
    /// Every ticket handed out, in the order they were taken.
    pub emitted: Ghost<Seq<u64>>,
}

impl EventCounter {
    /// The counter's records are faithful: it has handed out exactly the
    /// tickets 1 up to `count`, in order.
    pub open spec fn wf(self) -> bool {
        self.emitted@ == Seq::new(self.count as nat, |i: int| (i + 1) as u64)
    }

    /// A fresh counter: nothing handed out yet.
    pub fn new() -> (c: EventCounter)
        ensures
            c.wf(),
            c.count == 0,
    {
        let c = EventCounter { count: 0, emitted: Ghost(Seq::empty()) };
        proof {
            assert(c.emitted@ =~= Seq::new(0, |i: int| (i + 1) as u64));
        }
        c
    }

    /// Take the next ticket: one more than the last one handed out.
    pub fn bump(&mut self) -> (ticket: u64)
        requires
            old(self).wf(),
            old(self).count < u64::MAX,
        ensures
            final(self).wf(),
            ticket == old(self).count + 1,
            final(self).count == old(self).count + 1,
            final(self).emitted@ == old(self).emitted@.push(ticket),
    {
        self.count = self.count + 1;
        let ticket = self.count;
        proof {
            let prev = self.emitted@;
            self.emitted@ = self.emitted@.push(ticket);
            assert(self.emitted@ =~= Seq::new(self.count as nat, |i: int| (i + 1) as u64));
        }
        ticket
    }

    /// Law: whatever order workers complete in, the tickets taken are
    /// strictly increasing and gapless from 1 to `count`.
    pub proof fn lemma_gapless(self)
        requires
            self.wf(),
        ensures
            self.emitted@.len() == self.count,
            forall|i: int| 0 <= i < self.emitted@.len() ==> self.emitted@[i] == i + 1,
            forall|i: int, j: int|
                0 <= i < j < self.emitted@.len() ==> self.emitted@[i] < self.emitted@[j],
    {
    }
}

} // verus!

