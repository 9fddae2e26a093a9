//! The bounded-concurrency batch executor, as a verified scheduling
//! state machine over task indices.
//!
//! The surrounding process owns the actual asynchronous work: it asks
//! this state machine which task index to dispatch next, runs the
//! task, and reports the outcome back. Every schedule the machine
//! admits keeps the number of in-flight tasks at or below the
//! configured ceiling, and a fail-fast batch stops starting new work
//! after the first failure while letting already-dispatched work run
//! to completion.

use vstd::prelude::*;

verus! {

/// Failure policy of one batch: tolerate individual failures and run
/// everything, or stop starting new work after the first failure.
#[derive(Clone, Copy, PartialEq, Eq, Structural, Debug)]
pub enum Policy {
    Tolerant,
    FailFast,
}

/// Scheduling state of one batch of `total` independent tasks under a
/// concurrency ceiling.
#[derive(Clone, Copy, PartialEq, Eq, Structural, Debug)]
pub struct BoundedExecutor {
    pub limit: usize,
    pub total: usize,
    pub started: usize,
    pub finished: usize,
    pub failures: usize,
    pub policy: Policy,
}

impl BoundedExecutor {
    pub open spec fn limit_sp(self) -> int {
        self.limit as int
    }

    pub open spec fn total_sp(self) -> int {
        self.total as int
    }

    pub open spec fn started_sp(self) -> int {
        self.started as int
    }

    pub open spec fn finished_sp(self) -> int {
        self.finished as int
    }

    pub open spec fn failures_sp(self) -> int {
        self.failures as int
    }

    pub open spec fn policy_sp(self) -> Policy {
        self.policy
    }

    /// How many tasks are dispatched and not yet reported back.
    pub open spec fn in_flight_sp(self) -> int {
        self.started_sp() - self.finished_sp()
    }

    /// A fail-fast batch aborts once a failure has been reported.
    pub open spec fn aborted_sp(self) -> bool {
        self.policy is FailFast && self.failures_sp() > 0
    }

    /// The machine's invariant. In particular the in-flight count
    /// never exceeds the configured ceiling.
    pub open spec fn wf(self) -> bool {
        &&& self.limit_sp() >= 1
        &&& 0 <= self.finished_sp() <= self.started_sp() <= self.total_sp()
        &&& self.failures_sp() <= self.finished_sp()
        &&& self.in_flight_sp() <= self.limit_sp()
    }

    /// Whether another task may be dispatched now.
    pub open spec fn can_start_sp(self) -> bool {
        self.started_sp() < self.total_sp() && self.in_flight_sp() < self.limit_sp()
            && !self.aborted_sp()
    }

    /// The batch is over: nothing is in flight and nothing more may
    /// start.
    pub open spec fn complete_sp(self) -> bool {
        self.in_flight_sp() == 0 && !self.can_start_sp()
    }

    /// A fresh batch of `total` tasks under ceiling `limit`.
    pub fn new(total: usize, limit: usize, policy: Policy) -> (r: BoundedExecutor)
        requires
            limit >= 1,
        ensures
            r.wf(),
            r.total_sp() == total,
            r.limit_sp() == limit,
            r.policy_sp() == policy,
            r.started_sp() == 0,
            r.finished_sp() == 0,
            r.failures_sp() == 0,
    {
        BoundedExecutor { limit, total, started: 0, finished: 0, failures: 0, policy }
    }

    pub fn can_start(&self) -> (r: bool)
        requires
            self.wf(),
        ensures
            r == self.can_start_sp(),
    {
        self.started < self.total && self.started - self.finished < self.limit && !(match self
            .policy {
            Policy::FailFast => self.failures > 0,
            Policy::Tolerant => false,
        })
    }

    pub fn is_complete(&self) -> (r: bool)
        requires
            self.wf(),
        ensures
            r == self.complete_sp(),
    {
        self.started == self.finished && !self.can_start()
    }

    /// Dispatches the next task, returning its index in the batch's
    /// submission order. The in-flight count rises by one and stays
    /// within the ceiling.
    pub fn start(&mut self) -> (idx: usize)
        requires
            old(self).wf(),
            old(self).can_start_sp(),
        ensures
            final(self).wf(),
            idx == old(self).started_sp(),
            final(self).started_sp() == old(self).started_sp() + 1,
            final(self).in_flight_sp() == old(self).in_flight_sp() + 1,
            final(self).in_flight_sp() <= final(self).limit_sp(),
            final(self).finished_sp() == old(self).finished_sp(),
            final(self).failures_sp() == old(self).failures_sp(),
            final(self).total_sp() == old(self).total_sp(),
            final(self).limit_sp() == old(self).limit_sp(),
            final(self).policy_sp() == old(self).policy_sp(),
    {
        let idx = self.started;
        self.started = self.started + 1;
        idx
    }

    /// Records the outcome of one dispatched task. The in-flight
    /// count falls by one; under the fail-fast policy a failure
    /// aborts the batch, so that nothing further is started.
    pub fn finish(&mut self, ok: bool)
        requires
            old(self).wf(),
            old(self).in_flight_sp() > 0,
        ensures
            final(self).wf(),
            final(self).finished_sp() == old(self).finished_sp() + 1,
            final(self).in_flight_sp() == old(self).in_flight_sp() - 1,
            final(self).failures_sp() == old(self).failures_sp() + (if ok { 0int } else { 1int }),
            final(self).started_sp() == old(self).started_sp(),
            final(self).total_sp() == old(self).total_sp(),
            final(self).limit_sp() == old(self).limit_sp(),
            final(self).policy_sp() == old(self).policy_sp(),
            !ok && final(self).policy_sp() is FailFast ==> !final(self).can_start_sp(),
    {
        self.finished = self.finished + 1;
        if !ok {
            self.failures = self.failures + 1;
        }
    }

    /// The concurrency bound: in every reachable state the in-flight
    /// task count is at most the configured ceiling.
    pub proof fn lemma_in_flight_bounded(self)
        requires
            self.wf(),
        ensures
            self.in_flight_sp() <= self.limit_sp(),
    {
    }

    /// A tolerant batch never aborts: when it is over, every task was
    /// dispatched and every task reported back, failures included.
    pub proof fn lemma_tolerant_runs_all(self)
        requires
            self.wf(),
            self.policy_sp() is Tolerant,
            self.complete_sp(),
        ensures
            self.started_sp() == self.total_sp(),
            self.finished_sp() == self.total_sp(),
    {
    }

    /// A fail-fast batch stops starting new work as soon as a failure
    /// has been reported.
    pub proof fn lemma_failfast_stops(self)
        requires
            self.wf(),
            self.policy_sp() is FailFast,
            self.failures_sp() > 0,
        ensures
            !self.can_start_sp(),
    {
    }
}

} // verus!
