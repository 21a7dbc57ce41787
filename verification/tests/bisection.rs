use bisectrunk::bisection::{BisectAction, BisectError, BisectOutcome, Bisection};
use bisectrunk::cli::InconsistentPolicy;
use bisectrunk::oracle::Classification;
use bisectrunk::plan::{bisect_exit_code, record_bisect_outcome};
use bisectrunk::scheduler::StopReason;
use bisectrunk::state::{Evaluation, RunState};

fn evaluation(sha: &str, classification: Classification) -> Evaluation {
    Evaluation {
        sha: sha.to_owned(),
        classification,
        exit_code: 0,
        duration_ms: 1,
        completed_at: "now".to_owned(),
        setup_exit_code: None,
        log_dir: String::new(),
        out_dir: String::new(),
        diff: None,
    }
}

fn commits(n: usize) -> Vec<String> {
    (0..n).map(|i| format!("c{i:02}")).collect()
}

/// Runs a bisect to its end with `judge` classifying commit indices;
/// returns the outcome and the number of evaluations made.
fn drive(
    n: usize,
    jobs: usize,
    verify: bool,
    policy: InconsistentPolicy,
    judge: &dyn Fn(usize) -> Classification,
) -> (BisectOutcome, usize, RunState) {
    let commits = commits(n);
    let mut state = RunState::new("t".to_owned());
    let (mut machine, mut step) =
        Bisection::begin(&commits, jobs, verify, policy, "good".to_owned(), "bad".to_owned(), &state).expect("starts");
    let mut evaluated = 0;
    loop {
        match step.action {
            BisectAction::Finish(outcome) => return (outcome, evaluated, state),
            BisectAction::Evaluate { shas, .. } => {
                for sha in shas {
                    let index = commits.iter().position(|c| *c == sha).expect("known commit");
                    state.record(evaluation(&sha, judge(index)), "t".to_owned());
                    evaluated += 1;
                }
                step = machine.resume(&commits, &mut state, StopReason::Complete).expect("resumes");
            },
        }
    }
}

fn monotone(boundary: usize) -> impl Fn(usize) -> Classification {
    move |index| if index < boundary { Classification::Good } else { Classification::Bad }
}

#[test]
fn bisect_finds_exact_first_bad_with_one_or_eight_jobs() {
    for jobs in [1, 8] {
        let (outcome, _, _) = drive(40, jobs, true, InconsistentPolicy::Abort, &monotone(23));
        match outcome {
            BisectOutcome::Conclusive(conclusion) => {
                assert_eq!(conclusion.first_bad, "c23");
                assert_eq!(conclusion.last_good, "c22");
            },
            other => panic!("unexpected outcome {other:?}"),
        }
    }
}

#[test]
fn bisect_reports_skip_candidate_set_adjacent_to_transition() {
    let judge = |index: usize| {
        if index == 19 || index == 20 {
            Classification::Skip
        } else if index < 20 {
            Classification::Good
        } else {
            Classification::Bad
        }
    };
    let (outcome, _, _) = drive(40, 8, true, InconsistentPolicy::Abort, &judge);
    match outcome {
        BisectOutcome::Inconclusive { candidates, .. } => {
            assert_eq!(candidates, ["c19", "c20", "c21"]);
        },
        other => panic!("unexpected outcome {other:?}"),
    }
}

#[test]
fn endpoint_contradiction_exits_three_with_precise_message() {
    let (outcome, evaluated, _) = drive(10, 2, true, InconsistentPolicy::Abort, &|_| Classification::Bad);
    assert_eq!(evaluated, 2);
    assert_eq!(bisect_exit_code(&outcome), 3);
    match outcome {
        BisectOutcome::EndpointFailed(message) => {
            assert_eq!(message, "endpoint c00 was labeled good but the oracle classified it bad");
        },
        other => panic!("unexpected outcome {other:?}"),
    }
}

#[test]
fn unverified_endpoints_are_not_evaluated() {
    let (outcome, evaluated, _) = drive(17, 3, false, InconsistentPolicy::Abort, &monotone(5));
    assert!(matches!(outcome, BisectOutcome::Conclusive(ref c) if c.first_bad == "c05"));
    assert!(evaluated <= 15);
}

#[test]
fn non_monotone_results_follow_the_policy() {
    let judge = |index: usize| match index {
        0 => Classification::Good,
        i if i == 4 => Classification::Bad,
        i if i == 8 => Classification::Good,
        i if i >= 12 => Classification::Bad,
        _ => Classification::Good,
    };
    let (aborted, _, _) = drive(20, 3, false, InconsistentPolicy::Abort, &judge);
    assert!(matches!(aborted, BisectOutcome::Inconclusive { ref message, .. }
        if message == "a good probe appeared to the right of a bad probe; use `bisectrunk scan` to inspect non-monotone history"));
    let (leftmost, _, _) = drive(20, 3, false, InconsistentPolicy::Leftmost, &judge);
    assert!(matches!(leftmost, BisectOutcome::Conclusive(ref c) if c.first_bad == "c04"));
    let (retried, _, _) = drive(20, 3, false, InconsistentPolicy::Retry, &judge);
    assert!(matches!(retried, BisectOutcome::Inconclusive { ref message, .. }
        if message == "probe results remained inconsistent after one retry; use `bisectrunk scan`"));
}

#[test]
fn rounds_are_narrated_in_the_ledger() {
    let (_, _, state) = drive(40, 4, false, InconsistentPolicy::Abort, &monotone(23));
    assert!(!state.rounds.is_empty());
    assert_eq!(state.rounds[0].number, 1);
    assert!(state.rounds[0].narrative.starts_with("probed c07, c15, c23, c31; narrowed (`c00`, `c39`] to (`c15`, `c23`]"));
}

#[test]
fn too_few_commits_cannot_be_bisected() {
    let state = RunState::new("t".to_owned());
    let one = commits(1);
    assert!(matches!(
        Bisection::begin(&one, 2, true, InconsistentPolicy::Abort, "good".into(), "bad".into(), &state),
        Err(BisectError::TooFewCommits)
    ));
}

#[test]
fn stopped_batches_end_the_bisect() {
    let commits = commits(10);
    let mut state = RunState::new("t".to_owned());
    let (mut machine, _) =
        Bisection::begin(&commits, 2, false, InconsistentPolicy::Abort, "good".into(), "bad".into(), &state)
            .expect("starts");
    let step = machine.resume(&commits, &mut state, StopReason::Interrupted).expect("resumes");
    let outcome = match step.action {
        BisectAction::Finish(outcome) => outcome,
        other => panic!("unexpected {other:?}"),
    };
    assert!(matches!(outcome, BisectOutcome::Interrupted));
    let code = record_bisect_outcome(&mut state, outcome);
    assert_eq!(code, 2);
    assert!(state.interrupted);
    assert!(!state.complete);
}
