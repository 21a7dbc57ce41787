use bisectrunk::cli::InconsistentPolicy;
use bisectrunk::config::{resolve, FileConfig, ResolvedConfig, SharedArgs, Surroundings};
use bisectrunk::markdown::{markdown, report_evaluations};
use bisectrunk::oracle::Classification;
use bisectrunk::progress::{evaluation_line, phase_message, resolve_format};
use bisectrunk::cli::OutputFormat;
use bisectrunk::report::{follow_up_bisect, operation_commits, report_paths, strategy_name, transitions};
use bisectrunk::state::{CommitMetadata, Conclusion, Evaluation, Operation, RoundRecord, RunPlan, RunState};
use bisectrunk::util::short_sha;

fn config() -> ResolvedConfig {
    let args = SharedArgs { repo: Some("/src/repo".into()), run: Some("true".into()), ..SharedArgs::default() };
    let around = Surroundings {
        cwd: "/work".to_owned(),
        canonical_cwd: "/work".to_owned(),
        canonical_repo: None,
        default_jobs: 2,
        default_cache_dir: Some("/cache".to_owned()),
        fresh_run_dir: "/work/run".to_owned(),
    };
    resolve(&args, FileConfig::default(), &around).expect("resolves")
}

fn evaluation(sha: &str, classification: Classification, exit_code: i32, duration_ms: u128) -> Evaluation {
    Evaluation {
        sha: sha.to_owned(),
        classification,
        exit_code,
        duration_ms,
        completed_at: "2024-01-01T00:00:00Z".to_owned(),
        setup_exit_code: None,
        log_dir: format!("/work/run/logs/{sha}"),
        out_dir: format!("/work/run/out/{sha}"),
        diff: None,
    }
}

fn scan_state(commits: &[&str], classes: &[Classification]) -> RunState {
    let mut state = RunState::new("t0".to_owned());
    for (sha, class) in commits.iter().zip(classes) {
        let code = match class {
            Classification::Good => 0,
            Classification::Bad => 1,
            Classification::Skip => 125,
            Classification::Abort => 128,
        };
        state.record(evaluation(sha, *class, code, 1500), "t1".to_owned());
    }
    state
}

#[test]
fn transitions_skip_unclassified_commits() {
    let commits: Vec<String> = ["a", "b", "c", "d", "e"].iter().map(|s| s.to_string()).collect();
    let state = scan_state(
        &["a", "b", "d", "e"],
        &[Classification::Good, Classification::Skip, Classification::Bad, Classification::Good],
    );
    let found = transitions(&commits, &state);
    assert_eq!(found.len(), 2);
    assert_eq!((found[0].from_sha.as_str(), found[0].to_sha.as_str()), ("a", "d"));
    assert_eq!((found[0].from, found[0].to), (Classification::Good, Classification::Bad));
    assert_eq!((found[1].from_sha.as_str(), found[1].to_sha.as_str()), ("d", "e"));
    assert_eq!(found[1].from, found[0].to);
}

#[test]
fn report_lists_evaluations_in_commit_order() {
    let commits: Vec<String> = ["c", "a", "b"].iter().map(|s| s.to_string()).collect();
    let state = scan_state(&["a", "b", "c"], &[Classification::Good, Classification::Good, Classification::Bad]);
    let listed = report_evaluations(&commits, &state);
    let order: Vec<&str> = listed.iter().map(|e| e.sha.as_str()).collect();
    assert_eq!(order, ["c", "a", "b"]);
    let all = report_evaluations(&[], &state);
    let order: Vec<&str> = all.iter().map(|e| e.sha.as_str()).collect();
    assert_eq!(order, ["a", "b", "c"]);
}

#[test]
fn markdown_report_of_a_scan() {
    let commits: Vec<String> = ["1111111111111111", "2222222222222222"].iter().map(|s| s.to_string()).collect();
    let state = scan_state(&["1111111111111111", "2222222222222222"], &[Classification::Good, Classification::Bad]);
    let plan = RunPlan {
        config: config(),
        operation: Operation::Scan {
            range: "v1..v2".to_owned(),
            commits: commits.clone(),
            stride: 1,
            sample: None,
            stop_on_first_bad: false,
        },
    };
    let text = markdown(&plan, &state);
    let expected = "# bisectrunk report\n\n- Subject repo: `/src/repo`\n- Strategy: `scan`\n- Started: t0\n- Updated: t1\n\n\
- Range: `v1..v2`\n\n\
## Evaluations\n\n| SHA | Classification | Exit code | Duration |\n|---|---:|---:|---:|\n\
| `111111111111` | good | 0 | 1s 500ms |\n\
| `222222222222` | bad | 1 | 1s 500ms |\n\
\n## Transitions\n\n- `111111111111` good → `222222222222` bad\n\
\n## Savings\n\n2 evaluations instead of 2 (saved 0).\n";
    assert_eq!(text, expected);
}

#[test]
fn markdown_report_of_a_bisect_with_conclusion_and_rounds() {
    let commits: Vec<String> = ["g", "x", "y", "b"].iter().map(|s| s.to_string()).collect();
    let mut state = scan_state(&["g", "y", "b"], &[Classification::Good, Classification::Bad, Classification::Bad]);
    state.rounds.push(RoundRecord { number: 1, probes: vec!["y".to_owned()], narrative: "probed y".to_owned() });
    state.conclusion = Some(Conclusion {
        first_bad: "y".to_owned(),
        last_good: "x".to_owned(),
        candidates: Vec::new(),
        first_bad_metadata: Some(CommitMetadata {
            sha: "y".to_owned(),
            author: "Ada".to_owned(),
            date: "2024-01-01T00:00:00Z".to_owned(),
            subject: "break it".to_owned(),
        }),
        last_good_metadata: None,
    });
    let plan = RunPlan {
        config: config(),
        operation: Operation::Bisect {
            good: "g".to_owned(),
            bad: "b".to_owned(),
            commits,
            verify_endpoints: true,
            on_inconsistent: InconsistentPolicy::Abort,
            terms: ["good".to_owned(), "bad".to_owned()],
        },
    };
    let text = markdown(&plan, &state);
    assert!(text.contains("- Strategy: `bisect`\n"));
    assert!(text.contains("- Range: `g..b`\n\n"));
    assert!(text.contains("## Rounds\n\n1. probed y\n\n## Evaluations"));
    assert!(text.contains("\n## Conclusion\n\nFirst bad commit: `y`\n\nLast good commit: `x`\n"));
    assert!(text.contains("\nFirst bad details: Ada — 2024-01-01T00:00:00Z — break it\n"));
    assert!(text.ends_with("\n## Savings\n\n3 evaluations instead of 4 (saved 1).\n"));
}

#[test]
fn markdown_report_of_candidates_and_of_a_run() {
    let mut state = scan_state(&["z"], &[Classification::Skip]);
    state.conclusion = Some(Conclusion {
        first_bad: String::new(),
        last_good: String::new(),
        candidates: vec!["p".to_owned(), "q".to_owned()],
        first_bad_metadata: None,
        last_good_metadata: None,
    });
    let plan = RunPlan { config: config(), operation: Operation::Run { at: "z".to_owned() } };
    let text = markdown(&plan, &state);
    assert!(text.contains("- Commit: `z`\n\n"));
    assert!(text.contains("| `z` | skip | 125 | 1s 500ms |\n"));
    assert!(text.contains("No classification transitions found.\n"));
    assert!(text.contains("The first bad commit is one of:\n\n- `p`\n- `q`\n"));
    assert!(text.ends_with("1 evaluations instead of 0 (saved 0).\n"));
}

#[test]
fn report_helpers() {
    let run = Operation::Run { at: "a".to_owned() };
    assert_eq!(strategy_name(&run), "run");
    assert!(operation_commits(&run).is_empty());
    let (md, json) = report_paths("/work/run");
    assert_eq!(md, "/work/run/report.md");
    assert_eq!(json, "/work/run/report.json");
    assert_eq!(short_sha("0123456789abcdef"), "0123456789ab");
    assert_eq!(short_sha("abc"), "abc");
}

#[test]
fn progress_lines() {
    let e = evaluation("0123456789abcdef", Classification::Bad, -3, 61_000);
    assert_eq!(evaluation_line(&e, false), "0123456789ab bad (exit -3, 1m 1s)");
    assert_eq!(evaluation_line(&e, true), "0123456789ab bad (exit -3, 1m 1s cached)");
    assert_eq!(phase_message("0123456789abcdef", "evaluating"), "0123456789ab evaluating");
    assert_eq!(resolve_format(OutputFormat::Auto, false), OutputFormat::Plain);
    assert_eq!(resolve_format(OutputFormat::Auto, true), OutputFormat::Auto);
    assert_eq!(resolve_format(OutputFormat::Json, false), OutputFormat::Json);
}

#[test]
fn markdown_report_shows_artifact_differences() {
    let mut state = RunState::new("t0".to_owned());
    let mut bad = evaluation("bbbbbbbbbbbbbbbb", Classification::Bad, 1, 10);
    bad.diff = Some("--- baseline\n+++ candidate\n@@ -1 +1 @@\n-good\n+bad\n".to_owned());
    let mut odd = evaluation("cccccccccccccccc", Classification::Bad, 1, 10);
    odd.diff = Some("binary artifacts differ; no text diff available".to_owned());
    state.record(evaluation("aaaaaaaaaaaaaaaa", Classification::Good, 0, 10), "t1".to_owned());
    state.record(bad, "t2".to_owned());
    state.record(odd, "t3".to_owned());
    let plan = RunPlan { config: config(), operation: Operation::Run { at: "a".to_owned() } };
    let text = markdown(&plan, &state);
    assert!(text.ends_with(
        "\n## Artifact differences\n\n### `bbbbbbbbbbbb`\n\n```diff\n--- baseline\n+++ candidate\n@@ -1 +1 @@\n-good\n+bad\n```\n\n### `cccccccccccc`\n\n```diff\nbinary artifacts differ; no text diff available\n```\n"
    ));
    let plain = scan_state(&["a"], &[Classification::Good]);
    assert!(!markdown(&plan, &plain).contains("Artifact differences"));
}

#[test]
fn sampled_scans_suggest_a_follow_up_bisect() {
    let commits: Vec<String> = ["a", "b", "c", "d"].iter().map(|s| s.to_string()).collect();
    let state = scan_state(
        &["a", "b", "c", "d"],
        &[Classification::Bad, Classification::Good, Classification::Good, Classification::Bad],
    );
    let found = transitions(&commits, &state);
    assert_eq!(follow_up_bisect(&found).as_deref(), Some("bisectrunk bisect --good c --bad d"));
    let fixed = scan_state(&["a", "b"], &[Classification::Bad, Classification::Good]);
    let found = transitions(&commits, &fixed);
    assert!(follow_up_bisect(&found).is_none());
}

#[test]
fn run_report_lists_every_evaluation_by_sha() {
    let state = scan_state(&["c2", "a7", "b1"], &[Classification::Bad, Classification::Good, Classification::Skip]);
    let all = report_evaluations(&[], &state);
    let order: Vec<&str> = all.iter().map(|e| e.sha.as_str()).collect();
    assert_eq!(order, ["a7", "b1", "c2"]);
}
