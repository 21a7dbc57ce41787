use vstd::prelude::*;

use crate::bisect::{
    shas_at,
    contradictory_positions, contradictory_shas, evaluated_interior, first_bad_or_max,
    interior_results, interval_classifications, narrow_interval, narrow_leftmost, narrowed,
    non_monotone, probe_set, probes, recorded_class, strictly_increasing, tested_indices,
    has_class, has_good_below, is_leftmost_bad, is_rightmost_good_below, leftmost_bad,
    rightmost_good_below,
};
use crate::cli::InconsistentPolicy;
use crate::oracle::{class_name, Classification};
use crate::scheduler::StopReason;
use crate::state::{Conclusion, Evaluation, RoundRecord, RunState};
use crate::util::{push_text, short_sha, short_text};

verus! {

/// How a bisect ended.
#[derive(Debug)]
pub enum BisectOutcome {
    /// The first bad commit and the last good one.
    Conclusive(Box<Conclusion>),
    /// The first bad commit is one of `candidates`.
    Inconclusive { candidates: Vec<String>, message: String },
    /// A boundary commit was not classified as the user claimed.
    EndpointFailed(String),
    /// A hook asked to abort the run.
    HookAbort,
    /// The user interrupted the run.
    Interrupted,
}

/// What the driver must do next.
#[derive(Debug)]
pub enum BisectAction {
    /// Evaluate these commits (bypassing the evaluation cache if asked), then
    /// resume with the reason the batch stopped.
    Evaluate { shas: Vec<String>, bypass_cache: bool },
    /// The bisect is over.
    Finish(BisectOutcome),
}

/// The next action, with a warning to show first, if any.
#[derive(Debug)]
pub struct BisectStep {
    pub action: BisectAction,
    pub warning: Option<String>,
}

/// Errors that stop a bisect.
#[derive(Debug)]
pub enum BisectError {
    /// Fewer than two commits: no good and bad boundary.
    TooFewCommits,
    /// A verified endpoint has no recorded evaluation.
    MissingEndpoint(String),
}

/// Where the bisect stands.
#[derive(Clone, Copy, Debug, PartialEq, Eq, Structural)]
pub enum BisectPhase {
    /// Waiting for both boundary commits to be evaluated.
    Endpoints,
    /// Waiting for the probes of the current round.
    Probes,
    /// Waiting for the contradictory probes to be evaluated again.
    Retry,
    /// Finished.
    Finished,
}

/// Parallel k-section over `commits`, where `commits[0]` is the good
/// boundary and the last commit the bad one. The interval `(low, high]`
/// holds the first bad commit.
#[derive(Debug)]
pub struct Bisection {
    pub jobs: usize,
    pub policy: InconsistentPolicy,
    pub good_term: String,
    pub bad_term: String,
    pub low: usize,
    pub high: usize,
    pub round: usize,
    pub phase: BisectPhase,
    pub probes: Vec<usize>,
}


/// No SHA appears twice in `commits`.
pub open spec fn distinct_shas(commits: Seq<String>) -> bool {
    forall|i: int, j: int|
        0 <= i < commits.len() && 0 <= j < commits.len() && i != j ==> commits[i]@ != commits[j]@
}

/// The message for a boundary commit the oracle did not confirm.
pub open spec fn endpoint_message(sha: Seq<char>, term: Seq<char>, class: Classification) -> Seq<char> {
    "endpoint "@ + sha + " was labeled "@ + term + " but the oracle classified it "@ + class_name(class)
}

impl Bisection {
    pub open spec fn well_formed(&self, n: int) -> bool {
        &&& n >= 2
        &&& self.low < self.high < n
        &&& (self.phase == BisectPhase::Probes || self.phase == BisectPhase::Retry) ==> {
            &&& self.probes@.len() > 0
            &&& strictly_increasing(self.probes@)
            &&& forall|i: int| 0 <= i < self.probes@.len() ==> self.low < #[trigger] self.probes@[i] < self.high
        }
    }

    /// The bounds are backed by the ledger: the lower bound is the good
    /// boundary or a commit recorded good, the upper bound the bad boundary
    /// or a commit recorded bad.
    pub open spec fn witnessed(&self, commits: Seq<String>, ledger: Map<Seq<char>, Evaluation>) -> bool {
        &&& (self.low == 0 || recorded_class(ledger, commits[self.low as int]@) == Some(Classification::Good))
        &&& (self.high == commits.len() - 1 || recorded_class(ledger, commits[self.high as int]@) == Some(Classification::Bad))
    }

    /// A bisect that stopped without two adjacent bounds ran out of commits
    /// to probe: every commit inside the interval was evaluated.
    pub open spec fn stopped_only_when_exhausted(&self, commits: Seq<String>, ledger: Map<Seq<char>, Evaluation>) -> bool {
        self.phase == BisectPhase::Finished && self.high != self.low + 1 ==> probe_set(
            self.low,
            self.high,
            self.jobs,
            evaluated_interior(commits, ledger, self.low, self.high),
        ).len() == 0
    }

    /// What planning a round from the current interval yields, given the
    /// probes it chose.
    pub open spec fn planned(&self, commits: Seq<String>, step: BisectStep) -> bool {
        if self.high == self.low + 1 {
            &&& self.phase == BisectPhase::Finished
            &&& step.action matches BisectAction::Finish(BisectOutcome::Conclusive(c)) && {
                &&& c.first_bad == commits[self.high as int]
                &&& c.last_good == commits[self.low as int]
                &&& c.candidates@.len() == 0
                &&& c.first_bad_metadata is None
                &&& c.last_good_metadata is None
            }
        } else if self.phase == BisectPhase::Finished {
            step.action matches BisectAction::Finish(BisectOutcome::Inconclusive { candidates, message }) && {
                &&& candidates@ == commits.subrange(self.low + 1, self.high + 1)
                &&& message@ == "the remaining interval contains only skipped commits"@
            }
        } else {
            &&& self.phase == BisectPhase::Probes
            &&& step.action matches BisectAction::Evaluate { shas, bypass_cache } && {
                &&& shas@ == shas_at(commits, self.probes@)
                &&& !bypass_cache
            }
        }
    }

    fn candidates(commits: &[String], low: usize, high: usize) -> (candidates: Vec<String>)
        requires
            low < high < commits@.len(),
        ensures
            candidates@ == commits@.subrange(low + 1, high + 1),
    {
        let mut candidates: Vec<String> = Vec::new();
        let mut i: usize = low + 1;
        while i <= high
            invariant
                low < high < commits@.len(),
                low + 1 <= i <= high + 1,
                candidates@ == commits@.subrange(low + 1, i as int),
            decreases high + 1 - i,
        {
            candidates.push(commits[i].clone());
            assert(commits@.subrange(low + 1, i + 1) =~= commits@.subrange(low + 1, i as int).push(commits@[i as int]));
            i = i + 1;
        }
        candidates
    }

    /// Plans the next round from the current interval: finishes when the
    /// interval holds one commit or only skipped commits remain, and asks
    /// for the probes otherwise.
    fn plan_round(&mut self, commits: &[String], state: &RunState) -> (step: BisectStep)
        requires
            old(self).low < old(self).high < commits@.len(),
            state.evaluations.well_formed(),
        ensures
            final(self).low == old(self).low,
            final(self).high == old(self).high,
            final(self).jobs == old(self).jobs,
            final(self).policy == old(self).policy,
            final(self).good_term == old(self).good_term,
            final(self).bad_term == old(self).bad_term,
            final(self).planned(commits@, step),
            final(self).stopped_only_when_exhausted(commits@, state.evaluations@),
            step.warning is None,
            final(self).phase == BisectPhase::Probes ==> {
                &&& strictly_increasing(final(self).probes@)
                &&& forall|x: usize| #[trigger] final(self).probes@.contains(x) <==> probe_set(
                    old(self).low,
                    old(self).high,
                    old(self).jobs,
                    evaluated_interior(commits@, state.evaluations@, old(self).low, old(self).high),
                ).contains(x)
                &&& final(self).probes@.len() > 0
                &&& forall|i: int| 0 <= i < final(self).probes@.len() ==> final(self).low < #[trigger] final(self).probes@[i] < final(self).high
                &&& final(self).round == if old(self).round < usize::MAX { old(self).round + 1 } else { old(self).round as int }
            },
            final(self).phase != BisectPhase::Probes ==> final(self).phase == BisectPhase::Finished && final(self).round == old(self).round,
    {
        let low = self.low;
        let high = self.high;
        if high == low + 1 {
            self.phase = BisectPhase::Finished;
            let conclusion = Conclusion {
                first_bad: commits[high].clone(),
                last_good: commits[low].clone(),
                candidates: Vec::new(),
                first_bad_metadata: None,
                last_good_metadata: None,
            };
            return BisectStep {
                action: BisectAction::Finish(BisectOutcome::Conclusive(Box::new(conclusion))),
                warning: None,
            };
        }
        let tested = tested_indices(commits, state, low, high);
        let chosen = probes(low, high, self.jobs, &tested);
        if chosen.len() == 0 {
            proof {
                let ps = probe_set(low, high, self.jobs, tested@);
                if ps.len() > 0 {
                    assert(ps.contains(ps[0]));
                    assert(chosen@.contains(ps[0]));
                }
            }
            self.phase = BisectPhase::Finished;
            return BisectStep {
                action: BisectAction::Finish(
                    BisectOutcome::Inconclusive {
                        candidates: Self::candidates(commits, low, high),
                        message: "the remaining interval contains only skipped commits".to_string(),
                    },
                ),
                warning: None,
            };
        }
        proof {
            crate::bisect::lemma_probe_set_interior(low, high, self.jobs, tested@);
            assert forall|i: int| 0 <= i < chosen@.len() implies low < #[trigger] chosen@[i] < high by {
                assert(chosen@.contains(chosen@[i]));
            }
        }
        self.round = if self.round < usize::MAX {
            self.round + 1
        } else {
            self.round
        };
        let mut shas: Vec<String> = Vec::new();
        let mut i: usize = 0;
        while i < chosen.len()
            invariant
                i <= chosen@.len(),
                high < commits@.len(),
                forall|k: int| 0 <= k < chosen@.len() ==> #[trigger] chosen@[k] < high,
                shas@ == shas_at(commits@, chosen@.subrange(0, i as int)),
            decreases chosen@.len() - i,
        {
            shas.push(commits[chosen[i]].clone());
            proof {
                assert(chosen@.subrange(0, i + 1) =~= chosen@.subrange(0, i as int).push(chosen@[i as int]));
                assert(shas_at(commits@, chosen@.subrange(0, i + 1)) =~= shas_at(commits@, chosen@.subrange(0, i as int)).push(commits@[chosen@[i as int] as int]));
            }
            i = i + 1;
        }
        assert(chosen@.subrange(0, chosen@.len() as int) =~= chosen@);
        self.phase = BisectPhase::Probes;
        self.probes = chosen;
        BisectStep { action: BisectAction::Evaluate { shas, bypass_cache: false }, warning: None }
    }
}



/// The ledger after forgetting the evaluations of `shas`.
pub open spec fn forget(ledger: Map<Seq<char>, Evaluation>, shas: Seq<String>) -> Map<Seq<char>, Evaluation>
    decreases shas.len(),
{
    if shas.len() == 0 {
        ledger
    } else {
        forget(ledger, shas.drop_last()).remove(shas.last()@)
    }
}

/// Bounds backed by the ledger, for a pair of indices.
pub open spec fn bounds_witnessed(commits: Seq<String>, ledger: Map<Seq<char>, Evaluation>, low: usize, high: usize) -> bool {
    &&& (low == 0 || recorded_class(ledger, commits[low as int]@) == Some(Classification::Good))
    &&& (high == commits.len() - 1 || recorded_class(ledger, commits[high as int]@) == Some(Classification::Bad))
}

/// Narrowing keeps the new bounds inside the old ones and backed by the
/// ledger: the new lower bound is a commit recorded good (or the old lower
/// bound), the new upper bound one recorded bad (or the old upper bound).
pub proof fn lemma_narrowed_witnessed(
    commits: Seq<String>,
    ledger: Map<Seq<char>, Evaluation>,
    low: usize,
    high: usize,
)
    requires
        low < high < commits.len(),
    ensures
        ({
            let (l, h) = narrowed(low, high, interior_results(commits, ledger, low as int, high as int));
            &&& low <= l < h <= high
            &&& bounds_witnessed(commits, ledger, low, high) ==> bounds_witnessed(commits, ledger, l, h)
        }),
{
    let results = interior_results(commits, ledger, low as int, high as int);
    crate::bisect::lemma_interior_results(commits, ledger, low as int, high as int);
    let h = leftmost_bad(results, high);
    if has_class(results, Classification::Bad) {
        let i = choose|i: int| 0 <= i < results.len() && (#[trigger] results[i]).1 == Classification::Bad;
        crate::bisect::lemma_leftmost_exists(results);
        let b = choose|b: usize| is_leftmost_bad(results, b);
        let k = choose|k: int| 0 <= k < results.len() && (#[trigger] results[k]) == (b, Classification::Bad);
        assert(h == b);
        assert(low < h < high);
        assert(recorded_class(ledger, commits[h as int]@) == Some(Classification::Bad));
    }
    let l = rightmost_good_below(results, h, low);
    if has_good_below(results, h) {
        crate::bisect::lemma_rightmost_exists(results, h);
        let g = choose|g: usize| is_rightmost_good_below(results, h, g);
        let k = choose|k: int| 0 <= k < results.len() && (#[trigger] results[k]) == (g, Classification::Good);
        assert(l == g);
        assert(low < l < h);
        assert(recorded_class(ledger, commits[l as int]@) == Some(Classification::Good));
    }
}

proof fn lemma_forget_keeps(ledger: Map<Seq<char>, Evaluation>, shas: Seq<String>, key: Seq<char>)
    requires
        forall|i: int| 0 <= i < shas.len() ==> (#[trigger] shas[i])@ != key,
    ensures
        forget(ledger, shas).contains_key(key) == ledger.contains_key(key),
        ledger.contains_key(key) ==> forget(ledger, shas)[key] == ledger[key],
    decreases shas.len(),
{
    if shas.len() > 0 {
        assert forall|i: int| 0 <= i < shas.drop_last().len() implies (#[trigger] shas.drop_last()[i])@ != key by {
            assert(shas.drop_last()[i] == shas[i]);
        }
        lemma_forget_keeps(ledger, shas.drop_last(), key);
        assert(shas[shas.len() - 1]@ != key);
    }
}

impl Bisection {
    /// Starts a bisect over `commits`: with endpoint verification it first
    /// asks for both boundary commits, otherwise it plans the first round
    /// over the whole range.
    pub fn begin(
        commits: &[String],
        jobs: usize,
        verify_endpoints: bool,
        policy: InconsistentPolicy,
        good_term: String,
        bad_term: String,
        state: &RunState,
    ) -> (started: Result<(Bisection, BisectStep), BisectError>)
        requires
            state.evaluations.well_formed(),
        ensures
            commits@.len() < 2 <==> started is Err,
            started matches Err(e) ==> e is TooFewCommits,
            started matches Ok((machine, step)) ==> {
                &&& machine.well_formed(commits@.len() as int)
                &&& machine.jobs == jobs
                &&& machine.policy == policy
                &&& machine.good_term == good_term
                &&& machine.bad_term == bad_term
                &&& machine.witnessed(commits@, state.evaluations@)
                &&& machine.stopped_only_when_exhausted(commits@, state.evaluations@)
                &&& step.warning is None
                &&& if verify_endpoints {
                    &&& machine.phase == BisectPhase::Endpoints
                    &&& machine.round == 0
                    &&& step.action matches BisectAction::Evaluate { shas, bypass_cache } && {
                        &&& shas@ == seq![commits@[0], commits@[commits@.len() - 1]]
                        &&& !bypass_cache
                    }
                } else {
                    &&& machine.low == 0
                    &&& machine.high == commits@.len() - 1
                    &&& machine.planned(commits@, step)
                }
            },
    {
        if commits.len() < 2 {
            return Err(BisectError::TooFewCommits);
        }
        let n = commits.len();
        let mut machine = Bisection {
            jobs,
            policy,
            good_term,
            bad_term,
            low: 0,
            high: n - 1,
            round: 0,
            phase: BisectPhase::Endpoints,
            probes: Vec::new(),
        };
        if verify_endpoints {
            let mut shas: Vec<String> = Vec::new();
            shas.push(commits[0].clone());
            shas.push(commits[n - 1].clone());
            assert(shas@ =~= seq![commits@[0], commits@[commits@.len() - 1]]);
            return Ok((machine, BisectStep { action: BisectAction::Evaluate { shas, bypass_cache: false }, warning: None }));
        }
        let step = machine.plan_round(commits, state);
        Ok((machine, step))
    }

    fn endpoint_failure(sha: &String, term: &String, class: Classification) -> (message: String)
        ensures
            message@ == endpoint_message(sha@, term@, class),
    {
        let mut message = "endpoint ".to_string();
        push_text(&mut message, sha.as_str());
        push_text(&mut message, " was labeled ");
        push_text(&mut message, term.as_str());
        push_text(&mut message, " but the oracle classified it ");
        push_text(&mut message, class.name());
        message
    }

    fn finish(&mut self, outcome: BisectOutcome) -> (step: BisectStep)
        ensures
            final(self).phase == BisectPhase::Finished,
            final(self).low == old(self).low,
            final(self).high == old(self).high,
            final(self).round == old(self).round,
            final(self).jobs == old(self).jobs,
            final(self).policy == old(self).policy,
            final(self).good_term == old(self).good_term,
            final(self).bad_term == old(self).bad_term,
            final(self).probes == old(self).probes,
            step.warning is None,
            step.action == BisectAction::Finish(outcome),
    {
        self.phase = BisectPhase::Finished;
        BisectStep { action: BisectAction::Finish(outcome), warning: None }
    }

    /// Adopts the narrowed interval `(low, high]`, records the round for the
    /// report if it is not recorded yet, and plans the next round.
    fn advance(&mut self, commits: &[String], state: &mut RunState, low: usize, high: usize) -> (step: BisectStep)
        requires
            old(self).low <= low < high <= old(self).high < commits@.len(),
            old(state).evaluations.well_formed(),
            forall|i: int| 0 <= i < old(self).probes@.len() ==> #[trigger] old(self).probes@[i] < commits@.len(),
        ensures
            final(state).evaluations == old(state).evaluations,
            step.warning is None,
            round_recorded(old(state).rounds@, final(state).rounds@, old(self).round, commits@, old(self).probes@,
                old(self).low, old(self).high, low, high),
            final(self).stopped_only_when_exhausted(commits@, old(state).evaluations@),
            final(state).conclusion == old(state).conclusion,
            final(state).complete == old(state).complete,
            final(state).interrupted == old(state).interrupted,
            ({
                final(self).planned(commits@, step) && final(self).low == low && final(self).high == high
                    && (final(self).phase == BisectPhase::Probes ==> {
                        &&& strictly_increasing(final(self).probes@)
                        &&& final(self).probes@.len() > 0
                        &&& forall|x: usize| #[trigger] final(self).probes@.contains(x) <==> probe_set(low, high, old(self).jobs, evaluated_interior(commits@, old(state).evaluations@, low, high)).contains(x)
                        &&& forall|i: int| 0 <= i < final(self).probes@.len() ==> low < #[trigger] final(self).probes@[i] < high
                    })
                    && (final(self).phase != BisectPhase::Probes ==> final(self).phase == BisectPhase::Finished)
            }),
            final(self).jobs == old(self).jobs,
            final(self).policy == old(self).policy,
            final(self).good_term == old(self).good_term,
            final(self).bad_term == old(self).bad_term,
    {
        if state.rounds.len() < self.round {
            let mut probe_shas: Vec<String> = Vec::new();
            let mut i: usize = 0;
            while i < self.probes.len()
                invariant
                    i <= self.probes@.len(),
                    forall|k: int| 0 <= k < self.probes@.len() ==> #[trigger] self.probes@[k] < commits@.len(),
                    probe_shas@ == shas_at(commits@, self.probes@.subrange(0, i as int)),
                decreases self.probes@.len() - i,
            {
                probe_shas.push(commits[self.probes[i]].clone());
                proof {
                    assert(self.probes@.subrange(0, i + 1) =~= self.probes@.subrange(0, i as int).push(self.probes@[i as int]));
                    assert(shas_at(commits@, self.probes@.subrange(0, i + 1)) =~= shas_at(commits@, self.probes@.subrange(0, i as int)).push(commits@[self.probes@[i as int] as int]));
                }
                i = i + 1;
            }
            assert(self.probes@.subrange(0, self.probes@.len() as int) =~= self.probes@);
            let narrative = round_narrative(&probe_shas, &commits[self.low], &commits[self.high], &commits[low], &commits[high]);
            state.rounds.push(RoundRecord { number: self.round, probes: probe_shas, narrative });
        }
        assert(round_recorded(old(state).rounds@, state.rounds@, old(self).round, commits@, old(self).probes@,
            old(self).low, old(self).high, low, high));
        self.low = low;
        self.high = high;
        self.plan_round(commits, state)
    }
}

/// The ledger's rounds after a round that narrowed `(from_low, from_high]`
/// to `(to_low, to_high]`: the round is recorded once, with its probes and
/// narrative, and earlier records stay.
pub open spec fn round_recorded(
    before: Seq<RoundRecord>,
    after: Seq<RoundRecord>,
    round: usize,
    commits: Seq<String>,
    probes: Seq<usize>,
    from_low: usize,
    from_high: usize,
    to_low: usize,
    to_high: usize,
) -> bool {
    if before.len() < round {
        &&& after.len() == before.len() + 1
        &&& forall|i: int| 0 <= i < before.len() ==> after[i] == before[i]
        &&& after.last().number == round
        &&& after.last().probes@ == shas_at(commits, probes)
        &&& after.last().narrative@ == narrative_text(
            shas_at(commits, probes),
            commits[from_low as int]@,
            commits[from_high as int]@,
            commits[to_low as int]@,
            commits[to_high as int]@,
        )
    } else {
        after == before
    }
}

/// The abbreviated SHAs of `shas`, separated by commas.
pub open spec fn short_list(shas: Seq<String>) -> Seq<char>
    decreases shas.len(),
{
    if shas.len() == 0 {
        Seq::empty()
    } else if shas.len() == 1 {
        short_text(shas[0]@)
    } else {
        short_list(shas.drop_last()) + ", "@ + short_text(shas.last()@)
    }
}

/// The report's line for one round.
pub open spec fn narrative_text(probes: Seq<String>, from_low: Seq<char>, from_high: Seq<char>, to_low: Seq<char>, to_high: Seq<char>) -> Seq<char> {
    "probed "@ + short_list(probes) + "; narrowed (`"@ + short_text(from_low) + "`, `"@ + short_text(from_high)
        + "`] to (`"@ + short_text(to_low) + "`, `"@ + short_text(to_high) + "`]"@
}

/// The report's line for one round: the probes and how the interval moved.
pub fn round_narrative(probe_shas: &Vec<String>, from_low: &String, from_high: &String, to_low: &String, to_high: &String) -> (narrative: String)
    ensures
        narrative@ == narrative_text(probe_shas@, from_low@, from_high@, to_low@, to_high@),
{
    let mut narrative = "probed ".to_string();
    let ghost head = narrative@;
    let mut i: usize = 0;
    while i < probe_shas.len()
        invariant
            i <= probe_shas@.len(),
            narrative@ == head + short_list(probe_shas@.take(i as int)),
        decreases probe_shas@.len() - i,
    {
        if i > 0 {
            push_text(&mut narrative, ", ");
        }
        push_text(&mut narrative, short_sha(probe_shas[i].as_str()));
        proof {
            assert(probe_shas@.take(i + 1).drop_last() =~= probe_shas@.take(i as int));
            if i == 0 {
                assert(short_list(probe_shas@.take(0)) =~= Seq::<char>::empty());
            }
        }
        assert(narrative@ =~= head + short_list(probe_shas@.take(i + 1)));
        i = i + 1;
    }
    assert(probe_shas@.take(probe_shas@.len() as int) =~= probe_shas@);
    push_text(&mut narrative, "; narrowed (`");
    push_text(&mut narrative, short_sha(from_low.as_str()));
    push_text(&mut narrative, "`, `");
    push_text(&mut narrative, short_sha(from_high.as_str()));
    push_text(&mut narrative, "`] to (`");
    push_text(&mut narrative, short_sha(to_low.as_str()));
    push_text(&mut narrative, "`, `");
    push_text(&mut narrative, short_sha(to_high.as_str()));
    push_text(&mut narrative, "`]");
    assert(narrative@ =~= narrative_text(probe_shas@, from_low@, from_high@, to_low@, to_high@));
    narrative
}


/// The message when probes contradict each other and the policy aborts.
pub open spec fn non_monotone_message() -> Seq<char> {
    "a good probe appeared to the right of a bad probe; use `bisectrunk scan` to inspect non-monotone history"@
}

/// The message when probes still contradict each other after a retry.
pub open spec fn retry_failed_message() -> Seq<char> {
    "probe results remained inconsistent after one retry; use `bisectrunk scan`"@
}

/// The warning when the leftmost policy goes on past contradicting probes.
pub open spec fn leftmost_warning() -> Seq<char> {
    "warning: inconsistent probe results; proceeding with the leftmost bad result"@
}

impl Bisection {
    /// Continues after a batch of evaluations stopped for `reason`, reading
    /// the results from the ledger in `state`.
    pub fn resume(&mut self, commits: &[String], state: &mut RunState, reason: StopReason) -> (result: Result<BisectStep, BisectError>)
        requires
            old(self).well_formed(commits@.len() as int),
            old(self).phase != BisectPhase::Finished,
            old(state).evaluations.well_formed(),
        ensures
            final(state).evaluations.well_formed(),
            final(self).well_formed(commits@.len() as int),
            final(self).jobs == old(self).jobs,
            final(self).policy == old(self).policy,
            final(self).good_term == old(self).good_term,
            final(self).bad_term == old(self).bad_term,
            // The ledger only loses the evaluations a retry repeats.
            !(old(self).phase == BisectPhase::Probes && final(self).phase == BisectPhase::Retry) ==> final(state).evaluations@ == old(state).evaluations@,
            // The ledger's conclusion and flags are the driver's; rounds are only appended.
            final(state).conclusion == old(state).conclusion,
            final(state).complete == old(state).complete,
            final(state).interrupted == old(state).interrupted,
            final(state).rounds@.len() <= old(state).rounds@.len() + 1,
            forall|i: int| 0 <= i < old(state).rounds@.len() ==> final(state).rounds@[i] == old(state).rounds@[i],
            // Stopped batches end the bisect.
            reason == StopReason::HookAbort ==> (result matches Ok(step) && step.action == BisectAction::Finish(BisectOutcome::HookAbort)),
            reason == StopReason::Interrupted ==> (result matches Ok(step) && step.action == BisectAction::Finish(BisectOutcome::Interrupted)),
            (reason == StopReason::HookAbort || reason == StopReason::Interrupted) ==> final(self).phase == BisectPhase::Finished
                && final(self).low == old(self).low && final(self).high == old(self).high
                && final(state).rounds@ == old(state).rounds@,
            // Endpoint verification.
            (old(self).phase == BisectPhase::Endpoints && (reason == StopReason::Complete || reason == StopReason::FirstBad)) ==> {
                let n = commits@.len() as int;
                let good = recorded_class(old(state).evaluations@, commits@[0]@);
                let bad = recorded_class(old(state).evaluations@, commits@[n - 1]@);
                // Checking the endpoints runs no round.
                &&& final(state).rounds@ == old(state).rounds@
                &&& good is None ==> (result matches Err(BisectError::MissingEndpoint(sha)) && sha@ == commits@[0]@)
                &&& (good is Some && bad is None) ==> (result matches Err(BisectError::MissingEndpoint(sha)) && sha@ == commits@[n - 1]@)
                &&& (good is Some && good.unwrap() != Classification::Good && bad is Some) ==> (result matches Ok(step)
                    && step.action matches BisectAction::Finish(BisectOutcome::EndpointFailed(m)) && m@ == endpoint_message(commits@[0]@, old(self).good_term@, good.unwrap()))
                &&& (good == Some(Classification::Good) && bad is Some && bad.unwrap() != Classification::Bad) ==> (result matches Ok(step)
                    && step.action matches BisectAction::Finish(BisectOutcome::EndpointFailed(m)) && m@ == endpoint_message(commits@[n - 1]@, old(self).bad_term@, bad.unwrap()))
                &&& (good == Some(Classification::Good) && bad == Some(Classification::Bad)) ==> (result matches Ok(step)
                    && final(self).low == 0 && final(self).high == n - 1 && final(self).planned(commits@, step)
                    && final(self).stopped_only_when_exhausted(commits@, final(state).evaluations@))
            },
            // A round's results narrow the interval.
            ((old(self).phase == BisectPhase::Probes || old(self).phase == BisectPhase::Retry) && (reason == StopReason::Complete || reason == StopReason::FirstBad)) ==> {
                let results = interior_results(commits@, old(state).evaluations@, old(self).low as int, old(self).high as int);
                let retrying = old(self).phase == BisectPhase::Retry;
                &&& result is Ok
                &&& (!non_monotone(results) || (!retrying && old(self).policy == InconsistentPolicy::Leftmost)) ==> {
                    &&& (final(self).low, final(self).high) == narrowed(old(self).low, old(self).high, results)
                    &&& round_recorded(old(state).rounds@, final(state).rounds@, old(self).round, commits@,
                        old(self).probes@, old(self).low, old(self).high, final(self).low, final(self).high)
                    &&& result matches Ok(step) && final(self).planned(commits@, step)
                    &&& final(self).stopped_only_when_exhausted(commits@, final(state).evaluations@)
                    &&& step_warning(result) == (if non_monotone(results) { Some(leftmost_warning()) } else { None })
                }
                &&& (non_monotone(results) && (retrying || old(self).policy == InconsistentPolicy::Abort)) ==> {
                    &&& final(self).phase == BisectPhase::Finished
                    &&& final(self).low == old(self).low
                    &&& final(self).high == old(self).high
                    &&& result matches Ok(step) && step.action matches BisectAction::Finish(BisectOutcome::Inconclusive { candidates, message }) && {
                        &&& candidates@ == commits@.subrange(old(self).low + 1, old(self).high + 1)
                        &&& message@ == if retrying { retry_failed_message() } else { non_monotone_message() }
                    }
                }
                &&& (non_monotone(results) && !retrying && old(self).policy == InconsistentPolicy::Retry) ==> {
                    let again = contradictory_positions(results, crate::bisect::first_bad_or_max(results));
                    &&& final(self).phase == BisectPhase::Retry
                    &&& final(self).low == old(self).low
                    &&& final(self).high == old(self).high
                    &&& final(self).probes == old(self).probes
                    &&& final(state).evaluations@ == forget(old(state).evaluations@, shas_at(commits@, again))
                    &&& result matches Ok(step) && step.action matches BisectAction::Evaluate { shas, bypass_cache } && {
                        &&& shas@ == shas_at(commits@, again)
                        &&& bypass_cache
                    }
                }
            },
            // The bounds stay backed by the ledger.
            distinct_shas(commits@) && old(self).witnessed(commits@, old(state).evaluations@) ==> final(self).witnessed(commits@, final(state).evaluations@),
    {
        if reason == StopReason::HookAbort {
            return Ok(self.finish(BisectOutcome::HookAbort));
        }
        if reason == StopReason::Interrupted {
            return Ok(self.finish(BisectOutcome::Interrupted));
        }
        match self.phase {
            BisectPhase::Endpoints => {
                let n = commits.len();
                let good = match state.evaluations.get(commits[0].as_str()) {
                    Some(evaluation) => evaluation.classification,
                    None => return Err(BisectError::MissingEndpoint(commits[0].clone())),
                };
                let bad = match state.evaluations.get(commits[n - 1].as_str()) {
                    Some(evaluation) => evaluation.classification,
                    None => return Err(BisectError::MissingEndpoint(commits[n - 1].clone())),
                };
                if good != Classification::Good {
                    let message = Self::endpoint_failure(&commits[0], &self.good_term, good);
                    return Ok(self.finish(BisectOutcome::EndpointFailed(message)));
                }
                if bad != Classification::Bad {
                    let message = Self::endpoint_failure(&commits[n - 1], &self.bad_term, bad);
                    return Ok(self.finish(BisectOutcome::EndpointFailed(message)));
                }
                self.low = 0;
                self.high = n - 1;
                Ok(self.plan_round(commits, state))
            },
            _ => {
                let retrying = self.phase == BisectPhase::Retry;
                let results = interval_classifications(commits, state, self.low, self.high);
                proof {
                    lemma_narrowed_witnessed(commits@, state.evaluations@, self.low, self.high);
                    assert forall|i: int| 0 <= i < self.probes@.len() implies #[trigger] self.probes@[i] < commits@.len() by {}
                }
                match narrow_interval(self.low, self.high, &results) {
                    Ok((low, high)) => Ok(self.advance(commits, state, low, high)),
                    Err(_) => {
                        if retrying {
                            let candidates = Self::candidates(commits, self.low, self.high);
                            let message = "probe results remained inconsistent after one retry; use `bisectrunk scan`".to_string();
                            return Ok(self.finish(BisectOutcome::Inconclusive { candidates, message }));
                        }
                        match self.policy {
                            InconsistentPolicy::Abort => {
                                let candidates = Self::candidates(commits, self.low, self.high);
                                let message = "a good probe appeared to the right of a bad probe; use `bisectrunk scan` to inspect non-monotone history".to_string();
                                Ok(self.finish(BisectOutcome::Inconclusive { candidates, message }))
                            },
                            InconsistentPolicy::Leftmost => {
                                let (low, high) = narrow_leftmost(self.low, self.high, &results);
                                let mut step = self.advance(commits, state, low, high);
                                step.warning = Some("warning: inconsistent probe results; proceeding with the leftmost bad result".to_string());
                                Ok(step)
                            },
                            InconsistentPolicy::Retry => {
                                proof {
                                    crate::bisect::lemma_interior_results(commits@, state.evaluations@, self.low as int, self.high as int);
                                }
                                let again = contradictory_shas(commits, &results);
                                let ghost positions = contradictory_positions(results@, first_bad_or_max(results@));
                                proof {
                                    crate::bisect::lemma_contradictory_from_entries(results@, first_bad_or_max(results@));
                                }
                                let ghost before = state.evaluations@;
                                let mut i: usize = 0;
                                while i < again.len()
                                    invariant
                                        i <= again@.len(),
                                        state.evaluations.well_formed(),
                                        state.evaluations@ == forget(before, again@.subrange(0, i as int)),
                                        state.conclusion == old(state).conclusion,
                                        state.complete == old(state).complete,
                                        state.interrupted == old(state).interrupted,
                                        state.rounds == old(state).rounds,
                                    decreases again@.len() - i,
                                {
                                    state.evaluations.remove(again[i].as_str());
                                    assert(again@.subrange(0, i + 1).drop_last() =~= again@.subrange(0, i as int));
                                    i = i + 1;
                                }
                                assert(again@.subrange(0, again@.len() as int) =~= again@);
                                proof {
                                    if distinct_shas(commits@) {
                                        assert forall|k: int| 0 <= k < again@.len() implies
                                            (#[trigger] again@[k])@ != commits@[self.low as int]@ && again@[k]@ != commits@[self.high as int]@ by {
                                            let j = choose|j: int| 0 <= j < results@.len() && (#[trigger] results@[j]).0 == positions[k];
                                            assert(again@[k] == commits@[positions[k] as int]);
                                        }
                                        lemma_forget_keeps(before, again@, commits@[self.low as int]@);
                                        lemma_forget_keeps(before, again@, commits@[self.high as int]@);
                                    }
                                }
                                self.phase = BisectPhase::Retry;
                                Ok(BisectStep { action: BisectAction::Evaluate { shas: again, bypass_cache: true }, warning: None })
                            },
                        }
                    },
                }
            },
        }
    }
}

/// The warning of a successful step.
pub open spec fn step_warning(result: Result<BisectStep, BisectError>) -> Option<Seq<char>> {
    match result {
        Ok(step) => match step.warning {
            Some(w) => Some(w@),
            None => None,
        },
        Err(_) => None,
    }
}

} // verus!
