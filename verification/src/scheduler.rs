use vstd::prelude::*;

verus! {

/// Why a batch of evaluations stopped.
#[derive(Clone, Copy, Debug, PartialEq, Eq, Structural)]
pub enum StopReason {
    Complete,
    Interrupted,
    HookAbort,
    FirstBad,
}

} // verus!

verus! {

use crate::oracle::Classification;
use crate::state::RunState;

/// The worker pool's bookkeeping for one batch of evaluations: which commits
/// still wait, how many are being evaluated, and whether the batch should
/// stop dispatching.
#[derive(Debug)]
pub struct Dispatcher {
    pending: Vec<String>,
    next: usize,
    in_flight: usize,
    workers: usize,
    reason: StopReason,
    failed: bool,
    stop_on_first_bad: bool,
}

/// `min(jobs, pending)`, but at least one.
pub open spec fn worker_count(jobs: usize, pending: nat) -> int {
    let m = if jobs < pending { jobs as int } else { pending as int };
    if m < 1 {
        1
    } else {
        m
    }
}

/// The reason after one more finished evaluation: an aborting hook stops the
/// batch, and so does a bad commit when asked to stop on the first bad one;
/// an interrupt overrides both.
pub open spec fn next_reason(
    reason: StopReason,
    class: Option<Classification>,
    stop_on_first_bad: bool,
    interrupted: bool,
) -> StopReason {
    let after = match class {
        Some(Classification::Abort) => StopReason::HookAbort,
        Some(Classification::Bad) => if stop_on_first_bad {
            StopReason::FirstBad
        } else {
            reason
        },
        _ => reason,
    };
    if interrupted {
        StopReason::Interrupted
    } else {
        after
    }
}

/// What stops a batch: an interrupt always does, whatever else happened; an
/// aborting hook does; a bad commit does when stopping on the first bad one;
/// any other result leaves the reason as it was.
pub proof fn lemma_stop_reasons(
    reason: StopReason,
    class: Option<Classification>,
    stop_on_first_bad: bool,
    interrupted: bool,
)
    ensures
        interrupted ==> next_reason(reason, class, stop_on_first_bad, interrupted) == StopReason::Interrupted,
        !interrupted && class == Some(Classification::Abort) ==> next_reason(reason, class, stop_on_first_bad, interrupted)
            == StopReason::HookAbort,
        !interrupted && class == Some(Classification::Bad) && stop_on_first_bad ==> next_reason(
            reason,
            class,
            stop_on_first_bad,
            interrupted,
        ) == StopReason::FirstBad,
        !interrupted && class != Some(Classification::Abort) && !(class == Some(Classification::Bad) && stop_on_first_bad)
            ==> next_reason(reason, class, stop_on_first_bad, interrupted) == reason,
{
}

/// Whether a commit still needs evaluating: it has no recorded evaluation.
pub fn awaiting_evaluation(state: &RunState, sha: &str) -> (awaiting: bool)
    requires
        state.evaluations.well_formed(),
    ensures
        awaiting == !state.evaluations@.contains_key(sha@),
{
    !state.evaluations.contains_key(sha)
}

/// The commits of `commits` without a recorded evaluation, in order.
pub open spec fn unevaluated_along(commits: Seq<String>, ledger: Map<Seq<char>, crate::state::Evaluation>) -> Seq<String>
    decreases commits.len(),
{
    if commits.len() == 0 {
        Seq::empty()
    } else {
        let rest = unevaluated_along(commits.drop_last(), ledger);
        if ledger.contains_key(commits.last()@) {
            rest
        } else {
            rest.push(commits.last())
        }
    }
}

/// The commits that still need evaluating: completed ledger entries are
/// never evaluated again.
pub fn unevaluated(commits: &[String], state: &RunState) -> (waiting: Vec<String>)
    requires
        state.evaluations.well_formed(),
    ensures
        waiting@ == unevaluated_along(commits@, state.evaluations@),
{
    let mut waiting: Vec<String> = Vec::new();
    let mut i: usize = 0;
    while i < commits.len()
        invariant
            i <= commits@.len(),
            state.evaluations.well_formed(),
            waiting@ == unevaluated_along(commits@.take(i as int), state.evaluations@),
        decreases commits@.len() - i,
    {
        assert(commits@.take(i + 1).drop_last() =~= commits@.take(i as int));
        if awaiting_evaluation(state, commits[i].as_str()) {
            waiting.push(commits[i].clone());
        }
        i = i + 1;
    }
    assert(commits@.take(commits@.len() as int) =~= commits@);
    waiting
}

/// Nothing already in the ledger is handed out again, and everything not
/// in it is.
pub proof fn lemma_unevaluated_exact(commits: Seq<String>, ledger: Map<Seq<char>, crate::state::Evaluation>)
    ensures
        forall|i: int| 0 <= i < unevaluated_along(commits, ledger).len()
            ==> !ledger.contains_key((#[trigger] unevaluated_along(commits, ledger)[i])@),
        forall|j: int| 0 <= j < commits.len() && !ledger.contains_key((#[trigger] commits[j])@)
            ==> unevaluated_along(commits, ledger).contains(commits[j]),
    decreases commits.len(),
{
    if commits.len() > 0 {
        let rest = commits.drop_last();
        lemma_unevaluated_exact(rest, ledger);
        let r = unevaluated_along(rest, ledger);
        let all = unevaluated_along(commits, ledger);
        assert forall|j: int| 0 <= j < commits.len() && !ledger.contains_key((#[trigger] commits[j])@)
            implies all.contains(commits[j]) by {
            if j < commits.len() - 1 {
                assert(rest[j] == commits[j]);
                assert(r.contains(rest[j]));
                let k = choose|k: int| 0 <= k < r.len() && r[k] == rest[j];
                assert(all[k] == r[k]);
            } else {
                assert(all[all.len() - 1] == commits[j]);
            }
        }
    }
}

impl Dispatcher {
    /// The commits still waiting to be dispatched.
    pub closed spec fn waiting(&self) -> Seq<String> {
        self.pending@.subrange(self.next as int, self.pending@.len() as int)
    }

    /// The commits dispatched so far, in order.
    pub closed spec fn dispatched(&self) -> Seq<String> {
        self.pending@.subrange(0, self.next as int)
    }

    pub closed spec fn in_flight(&self) -> nat {
        self.in_flight as nat
    }

    pub closed spec fn workers(&self) -> nat {
        self.workers as nat
    }

    pub closed spec fn reason(&self) -> StopReason {
        self.reason
    }

    pub closed spec fn failed(&self) -> bool {
        self.failed
    }

    pub closed spec fn stops_on_first_bad(&self) -> bool {
        self.stop_on_first_bad
    }

    pub closed spec fn well_formed(&self) -> bool {
        &&& self.next <= self.pending@.len()
        &&& self.in_flight <= self.next
        &&& self.in_flight <= self.workers
        &&& self.workers >= 1
    }

    /// No more evaluations run at once than there are workers.
    pub proof fn lemma_in_flight_bounded(&self)
        requires
            self.well_formed(),
        ensures
            self.in_flight() <= self.workers(),
            self.workers() >= 1,
            self.in_flight() <= self.dispatched().len(),
    {
    }

    /// Starts a batch over `pending` with up to `jobs` workers and hands out
    /// the first commit to each worker.
    pub fn new(pending: Vec<String>, jobs: usize, stop_on_first_bad: bool) -> (started: (Dispatcher, Vec<String>))
        ensures
            started.0.well_formed(),
            started.0.workers() == worker_count(jobs, pending@.len()),
            started.1@ == started.0.dispatched(),
            started.1@ == pending@.take(if worker_count(jobs, pending@.len()) < pending@.len() { worker_count(jobs, pending@.len()) } else { pending@.len() as int }),
            started.0.dispatched() + started.0.waiting() == pending@,
            started.0.in_flight() == started.1@.len(),
            started.0.reason() == StopReason::Complete,
            !started.0.failed(),
            started.0.stops_on_first_bad() == stop_on_first_bad,
    {
        let count = if jobs < pending.len() {
            jobs
        } else {
            pending.len()
        };
        let workers = if count < 1 {
            1
        } else {
            count
        };
        let first = if workers < pending.len() {
            workers
        } else {
            pending.len()
        };
        let mut initial: Vec<String> = Vec::new();
        let mut i: usize = 0;
        while i < first
            invariant
                first <= pending@.len(),
                i <= first,
                initial@ == pending@.take(i as int),
            decreases first - i,
        {
            initial.push(pending[i].clone());
            assert(pending@.take(i + 1) =~= pending@.take(i as int).push(pending@[i as int]));
            i = i + 1;
        }
        let dispatcher = Dispatcher {
            pending,
            next: first,
            in_flight: first,
            workers,
            reason: StopReason::Complete,
            failed: false,
            stop_on_first_bad,
        };
        assert(dispatcher.pending@.subrange(0, first as int) =~= initial@);
        assert(dispatcher.dispatched() + dispatcher.waiting() =~= dispatcher.pending@);
        (dispatcher, initial)
    }

    /// The number of workers the batch uses.
    pub fn worker_total(&self) -> (n: usize)
        ensures
            n == self.workers(),
    {
        self.workers
    }

    /// Whether every dispatched evaluation has reported back.
    pub fn is_idle(&self) -> (idle: bool)
        ensures
            idle == (self.in_flight() == 0),
    {
        self.in_flight == 0
    }

    /// Takes one reported evaluation (`None` when it failed with an error),
    /// notes whether the user interrupted, and hands out the next waiting
    /// commit while nothing has asked to stop.
    pub fn on_result(&mut self, class: Option<Classification>, interrupted: bool) -> (next: Option<String>)
        requires
            old(self).well_formed(),
            old(self).in_flight() > 0,
        ensures
            final(self).well_formed(),
            final(self).workers() == old(self).workers(),
            final(self).stops_on_first_bad() == old(self).stops_on_first_bad(),
            final(self).failed() == (old(self).failed() || class is None),
            final(self).reason() == next_reason(old(self).reason(), class, old(self).stops_on_first_bad(), interrupted),
            // An interrupt stops dispatching and marks the batch interrupted.
            interrupted ==> next is None && final(self).reason() == StopReason::Interrupted,
            // An aborting hook, or a bad commit when stopping on the first one,
            // stops dispatching; so does an evaluation that failed with an error.
            !interrupted && class == Some(Classification::Abort) ==> next is None && final(self).reason() == StopReason::HookAbort,
            !interrupted && class == Some(Classification::Bad) && old(self).stops_on_first_bad() ==> next is None
                && final(self).reason() == StopReason::FirstBad,
            class is None ==> next is None && final(self).failed(),
            // Work is handed out only while nothing has asked to stop.
            next is Some ==> !interrupted && !old(self).failed() && old(self).reason() == StopReason::Complete
                && final(self).reason() == StopReason::Complete,
            final(self).dispatched() + final(self).waiting() == old(self).dispatched() + old(self).waiting(),
            ({
                let may_dispatch = !final(self).failed() && final(self).reason() == StopReason::Complete
                    && old(self).waiting().len() > 0;
                if may_dispatch {
                    &&& next == Some(old(self).waiting()[0])
                    &&& final(self).dispatched() == old(self).dispatched().push(old(self).waiting()[0])
                    &&& final(self).waiting() == old(self).waiting().drop_first()
                    &&& final(self).in_flight() == old(self).in_flight()
                } else {
                    &&& next is None
                    &&& final(self).dispatched() == old(self).dispatched()
                    &&& final(self).waiting() == old(self).waiting()
                    &&& final(self).in_flight() == old(self).in_flight() - 1
                }
            }),
    {
        self.in_flight = self.in_flight - 1;
        match class {
            Some(Classification::Abort) => {
                self.reason = StopReason::HookAbort;
            },
            Some(Classification::Bad) => {
                if self.stop_on_first_bad {
                    self.reason = StopReason::FirstBad;
                }
            },
            Some(_) => {},
            None => {
                self.failed = true;
            },
        }
        if interrupted {
            self.reason = StopReason::Interrupted;
        }
        let may_dispatch = !self.failed && self.reason == StopReason::Complete;
        if may_dispatch && self.next < self.pending.len() {
            let sha = self.pending[self.next].clone();
            proof {
                let p = self.pending@;
                assert(p.subrange(0, self.next + 1) =~= p.subrange(0, self.next as int).push(p[self.next as int]));
                assert(p.subrange(self.next + 1, p.len() as int) =~= p.subrange(self.next as int, p.len() as int).drop_first());
            }
            self.next = self.next + 1;
            self.in_flight = self.in_flight + 1;
            Some(sha)
        } else {
            None
        }
    }

    /// How the batch ended once idle: `None` when an evaluation failed with
    /// an error, the stop reason otherwise.
    pub fn outcome(&self) -> (outcome: Option<StopReason>)
        ensures
            outcome == (if self.failed() { None } else { Some(self.reason()) }),
    {
        if self.failed {
            None
        } else {
            Some(self.reason)
        }
    }
}

} // verus!
