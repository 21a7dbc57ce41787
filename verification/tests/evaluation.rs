use bisectrunk::cli::{KeepPolicy, OracleKind, SetupFailure};
use bisectrunk::compare::{
    baseline_path, builtin_compare, candidate_path, compare_artifact, compare_context, compared_by_hook,
    make_diff, truncate_diff, CompareError, CompareStep,
};
use bisectrunk::config::{resolve, FileConfig, ResolvedConfig, SharedArgs, Surroundings};
use bisectrunk::evaluation::{
    evaluate, evaluation_context, evaluation_layout, retains, run_hook, setup_verdict, RunVerdict, SetupVerdict,
};
use bisectrunk::hashing::stable_hash;
use bisectrunk::hooks::{contract_vars, HookResult};
use bisectrunk::oracle::{classify_exit, Classification};
use bisectrunk::plan::run_exit_code;
use bisectrunk::progress::evaluation_line;

fn config(args: SharedArgs) -> ResolvedConfig {
    let around = Surroundings {
        cwd: "/work".to_owned(),
        canonical_cwd: "/work".to_owned(),
        canonical_repo: None,
        default_jobs: 2,
        default_cache_dir: Some("/cache".to_owned()),
        fresh_run_dir: "/work/run".to_owned(),
    };
    resolve(&args, FileConfig::default(), &around).expect("resolves")
}

fn basic() -> SharedArgs {
    SharedArgs { repo: Some("repo".into()), run: Some("make test".into()), ..SharedArgs::default() }
}

fn compare_args() -> SharedArgs {
    SharedArgs {
        oracle: Some(OracleKind::Compare),
        baseline: Some("expected.txt".into()),
        artifact: Some("result.txt".into()),
        ..basic()
    }
}

fn exited(code: i32) -> HookResult {
    HookResult { code, timed_out: false }
}

#[test]
fn evaluation_layout_paths() {
    let with_setup = config(SharedArgs { setup: Some("make".into()), ..basic() });
    let layout = evaluation_layout(&with_setup, "abc123", 3);
    assert_eq!(layout.worktree, "/work/run/worktrees/job-3/abc123");
    assert_eq!(layout.log_dir, "/work/run/logs/abc123");
    assert_eq!(layout.out_dir, "/work/run/out/abc123");
    let hash = stable_hash(&["repo", "abc123", "make"]);
    assert_eq!(layout.env_dir, format!("/cache/envs/{hash}"));
    assert_eq!(layout.setup_marker, format!("/cache/envs/{hash}/.bisectrunk-setup-complete"));
    let without_setup = evaluation_layout(&config(basic()), "abc123", 3);
    assert_eq!(without_setup.env_dir, format!("/cache/envs/{}", stable_hash(&["repo", "abc123", ""])));
}

#[test]
fn hook_context_carries_the_contract() {
    let cfg = config(SharedArgs { env: vec!["EXTRA=1".into()], ..basic() });
    let layout = evaluation_layout(&cfg, "0123456789abcdef", 0);
    let context = evaluation_context(&cfg, "0123456789abcdef", 0, &layout, Some("/pins/a:/pins/b".to_owned()));
    assert_eq!(context.project, "/work");
    let vars = contract_vars(&context);
    let names: Vec<&str> = vars.iter().map(|(name, _)| name.as_str()).collect();
    assert_eq!(
        names,
        [
            "BISECTRUNK_COMMIT",
            "BISECTRUNK_COMMIT_SHORT",
            "BISECTRUNK_WORKTREE",
            "BISECTRUNK_ENV",
            "BISECTRUNK_OUT",
            "BISECTRUNK_PROJECT",
            "BISECTRUNK_JOB",
            "BISECTRUNK_RUN_DIR",
            "EXTRA",
            "BISECTRUNK_PIN_ENVS",
        ]
    );
    assert_eq!(vars[1].1, "0123456789ab");
    assert_eq!(vars[6].1, "0");
    let compare = compare_context(&context, "/b", "/c");
    let vars = contract_vars(&compare);
    assert_eq!(vars[vars.len() - 2], ("BISECTRUNK_BASELINE".to_owned(), "/b".to_owned()));
    assert_eq!(vars[vars.len() - 1], ("BISECTRUNK_CANDIDATE".to_owned(), "/c".to_owned()));
}

#[test]
fn setup_policy_decides_failed_setups() {
    assert_eq!(setup_verdict(exited(0), SetupFailure::Skip), SetupVerdict::Proceed);
    assert_eq!(
        setup_verdict(exited(1), SetupFailure::Skip),
        SetupVerdict::Finish { classification: Classification::Skip, exit_code: 1 }
    );
    assert_eq!(
        setup_verdict(exited(1), SetupFailure::Bad),
        SetupVerdict::Finish { classification: Classification::Bad, exit_code: 1 }
    );
    assert_eq!(
        setup_verdict(exited(129), SetupFailure::Bad),
        SetupVerdict::Finish { classification: Classification::Abort, exit_code: 129 }
    );
    assert_eq!(
        setup_verdict(HookResult { code: 0, timed_out: true }, SetupFailure::Bad),
        SetupVerdict::Finish { classification: Classification::Skip, exit_code: 0 }
    );
}

#[test]
fn run_hook_goes_on_to_compare_only_on_success() {
    let exit = config(basic());
    let compare = config(compare_args());
    assert_eq!(run_hook(&exit, exited(0)), RunVerdict::Finish { classification: Classification::Good, exit_code: 0 });
    assert_eq!(run_hook(&compare, exited(0)), RunVerdict::Compare);
    assert_eq!(
        run_hook(&compare, exited(2)),
        RunVerdict::Finish { classification: Classification::Bad, exit_code: 2 }
    );
}

#[test]
fn retries_only_bad_or_skipped_results() {
    assert!(evaluate(None, 0, 0));
    assert!(!evaluate(Some(Classification::Bad), 1, 0));
    assert!(evaluate(Some(Classification::Bad), 1, 2));
    assert!(evaluate(Some(Classification::Skip), 2, 2));
    assert!(!evaluate(Some(Classification::Skip), 3, 2));
    assert!(!evaluate(Some(Classification::Good), 1, 2));
    assert!(!evaluate(Some(Classification::Abort), 1, 2));
}

#[test]
fn keep_policy_decides_retention() {
    assert!(retains(KeepPolicy::All, Classification::Good));
    assert!(!retains(KeepPolicy::Failed, Classification::Good));
    assert!(retains(KeepPolicy::Failed, Classification::Skip));
    assert!(!retains(KeepPolicy::Nothing, Classification::Bad));
}

#[test]
fn compare_paths_and_steps() {
    let cfg = config(compare_args());
    let candidate = candidate_path(&cfg, "/work/run/out/abc");
    assert_eq!(candidate.as_deref(), Some("/work/run/out/abc/result.txt"));
    assert_eq!(baseline_path(&cfg, "/proj").as_deref(), Some("/proj/expected.txt"));
    let absolute = config(SharedArgs { baseline: Some("/data/expected.txt".into()), ..compare_args() });
    assert_eq!(baseline_path(&absolute, "/proj").as_deref(), Some("/data/expected.txt"));
    assert!(candidate_path(&config(basic()), "/out").is_none());
    match compare_artifact(&cfg, candidate.clone(), false, Some("/proj/expected.txt".into()), true) {
        Ok(CompareStep::Finish(result)) => {
            assert_eq!(result.classification, Classification::Skip);
            assert_eq!(result.exit_code, 125);
        },
        other => panic!("unexpected {other:?}"),
    }
    assert!(matches!(
        compare_artifact(&cfg, candidate.clone(), true, Some("/proj/expected.txt".into()), false),
        Err(CompareError::MissingBaseline(path)) if path == "/proj/expected.txt"
    ));
    assert!(matches!(compare_artifact(&cfg, None, true, None, true), Err(CompareError::ArtifactUnresolved)));
    assert!(matches!(compare_artifact(&cfg, candidate.clone(), true, None, true), Err(CompareError::BaselineUnresolved)));
    assert!(matches!(compare_artifact(&cfg, candidate.clone(), true, Some("/b".into()), true), Ok(CompareStep::Builtin)));
    let hooked = config(SharedArgs { compare: Some("cmp a b".into()), ..compare_args() });
    assert!(matches!(
        compare_artifact(&hooked, candidate, true, Some("/b".into()), true),
        Ok(CompareStep::RunHook(command)) if command == "cmp a b"
    ));
}

#[test]
fn builtin_comparison() {
    let same = builtin_compare(b"x\n", b"x\n", &[]).expect("compares");
    assert_eq!((same.classification, same.exit_code), (Classification::Good, 0));
    assert!(same.diff.is_none());
    let endings = builtin_compare(b"x\r\ny\r\n", b"x\ny\n", &[]).expect("compares");
    assert_eq!(endings.classification, Classification::Good);
    let patterns = vec![r"id=\d+".to_owned()];
    let ids = builtin_compare(b"id=1\n", b"id=2\n", &patterns).expect("compares");
    assert_eq!(ids.classification, Classification::Good);
    let differs = builtin_compare(b"good\n", b"bad\n", &[]).expect("compares");
    assert_eq!((differs.classification, differs.exit_code), (Classification::Bad, 1));
    let diff = differs.diff.expect("diff");
    assert!(diff.contains("--- baseline"));
    assert!(diff.contains("+++ candidate"));
    assert!(diff.contains("-good"));
    assert!(diff.contains("+bad"));
    let binary = builtin_compare(&[0xff, 0x00], &[0xfe], &[]).expect("compares");
    assert_eq!(binary.diff.as_deref(), Some("binary artifacts differ; no text diff available"));
    let bad_pattern = vec!["(".to_owned()];
    assert!(builtin_compare(b"a", b"b", &bad_pattern).is_err());
    assert!(builtin_compare(b"a", b"a", &bad_pattern).is_ok());
}

#[test]
fn long_diffs_are_cut_on_a_character_boundary() {
    let short = "short diff".to_owned();
    assert_eq!(truncate_diff(short.clone()), short);
    let mut long = "a".repeat(65535);
    long.push('é');
    long.push_str("tail");
    let cut = truncate_diff(long);
    assert_eq!(cut, format!("{}\n... diff truncated by bisectrunk ...\n", "a".repeat(65535)));
    let exact = "b".repeat(65536);
    assert_eq!(truncate_diff(exact.clone()), exact);
    let over = "c".repeat(70000);
    assert_eq!(truncate_diff(over), format!("{}\n... diff truncated by bisectrunk ...\n", "c".repeat(65536)));
    let diff = make_diff(b"one\ntwo\n", b"one\nthree\n", &[]).expect("diff");
    assert!(diff.contains("-two"));
    assert!(diff.contains("+three"));
}

#[test]
fn compare_hook_verdict_keeps_diff_only_when_bad() {
    let bad = compared_by_hook(exited(1), Some("d".to_owned()));
    assert_eq!((bad.classification, bad.exit_code, bad.diff.as_deref()), (Classification::Bad, 1, Some("d")));
    let good = compared_by_hook(exited(0), Some("d".to_owned()));
    assert_eq!((good.classification, good.diff), (Classification::Good, None));
    let skipped = compared_by_hook(exited(125), None);
    assert_eq!(skipped.classification, Classification::Skip);
}

fn finished(sha: &str, classification: Classification, exit_code: i32) -> bisectrunk::state::Evaluation {
    bisectrunk::state::Evaluation {
        sha: sha.to_owned(),
        classification,
        exit_code,
        duration_ms: 5,
        completed_at: String::new(),
        setup_exit_code: None,
        log_dir: String::new(),
        out_dir: String::new(),
        diff: None,
    }
}

#[test]
fn run_classifies_all_exit_protocol_outcomes() {
    for (hook_code, classification, process_code) in [(0, "good", 0u8), (1, "bad", 0), (125, "skip", 2), (130, "abort", 4)] {
        let class = classify_exit(hook_code, false);
        assert_eq!(class.name(), classification);
        let line = evaluation_line(&finished("0123456789abcdef", class, hook_code), false);
        assert!(line.contains(&format!(" {classification} (exit {hook_code}")), "{line}");
        assert_eq!(run_exit_code(class), process_code);
    }
}

#[test]
fn run_uses_worktree_contract_and_setup_policy() {
    let failed_setup = HookResult { code: 1, timed_out: false };
    let skip = match setup_verdict(failed_setup, SetupFailure::Skip) {
        SetupVerdict::Finish { classification, exit_code } => evaluation_line(&finished("abc", classification, exit_code), false),
        SetupVerdict::Proceed => panic!("a failed setup does not proceed"),
    };
    assert!(skip.contains(" skip (exit 1,"), "{skip}");
    let bad = match setup_verdict(failed_setup, SetupFailure::Bad) {
        SetupVerdict::Finish { classification, exit_code } => evaluation_line(&finished("abc", classification, exit_code), false),
        SetupVerdict::Proceed => panic!("a failed setup does not proceed"),
    };
    assert!(bad.contains(" bad (exit 1,"), "{bad}");
    let cfg = config(basic());
    let layout = evaluation_layout(&cfg, "abc", 1);
    let context = evaluation_context(&cfg, "abc", 1, &layout, None);
    assert_eq!(context.worktree, "/work/run/worktrees/job-1/abc");
    assert_eq!(context.out_dir, "/work/run/out/abc");
    assert_eq!(context.env_dir, layout.env_dir);
    assert_eq!(context.run_dir, "/work/run");
}

#[test]
fn environments_are_shared_across_run_hooks() {
    let first = config(SharedArgs { setup: Some("make".into()), ..basic() });
    let second = config(SharedArgs { setup: Some("make".into()), run: Some("other".into()), ..basic() });
    assert_eq!(evaluation_layout(&first, "abc", 0).env_dir, evaluation_layout(&second, "abc", 5).env_dir);
    let other_setup = config(SharedArgs { setup: Some("make all".into()), ..basic() });
    assert_ne!(evaluation_layout(&first, "abc", 0).env_dir, evaluation_layout(&other_setup, "abc", 0).env_dir);
}
