use bisectrunk::cli::InconsistentPolicy;
use bisectrunk::config::{FileConfig, SharedArgs};
use bisectrunk::history::{ancestry_verdict, commit_metadata, filter_touched, FirstParentWalk, WalkStep};
use bisectrunk::mirror::{canonical_identity, Mirror};
use bisectrunk::hashing::stable_hash;
use bisectrunk::pins::{environment, environment_dir, pin_context, pin_marker_text, pin_paths, pin_verdict, prepare};
use bisectrunk::config::{resolve, PinConfig, Surroundings};
use bisectrunk::hooks::HookResult;
use bisectrunk::oracle::Classification;
use bisectrunk::plan::{
    bisect_commits, bisect_options, parse_range, parse_terms, record_run, record_scan_outcome, resumption, run_target,
    scan_commits, scan_options, BisectArgs, PlanError, Resumption, RunArgs, ScanArgs,
};
use bisectrunk::scheduler::{unevaluated, Dispatcher, StopReason};
use bisectrunk::state::{Evaluation, Operation, RunState};
use bisectrunk::worktree::Worktree;

fn strings(values: &[&str]) -> Vec<String> {
    values.iter().map(|v| v.to_string()).collect()
}

#[test]
fn terms_and_ranges_parse() {
    assert_eq!(parse_terms("old,new").expect("terms"), ["old".to_owned(), "new".to_owned()]);
    assert!(parse_terms("old").is_err());
    assert!(parse_terms("a,b,c").is_err());
    assert!(parse_terms(",b").is_err());
    assert_eq!(parse_range("v1..v2").expect("range"), ("v1", "v2"));
    assert_eq!(parse_range("v1...v2").expect("range"), ("v1", ".v2"));
    assert!(parse_range("..v2").is_err());
    assert!(parse_range("v1").is_err());
    assert!(parse_range("a..b..c").is_err());
}

#[test]
fn run_needs_a_revision() {
    let args = RunArgs { shared: SharedArgs::default(), at: None };
    assert!(matches!(run_target(&args, &FileConfig::default()), Err(PlanError::MissingAt)));
    let mut file = FileConfig::default();
    file.subject.at = Some("HEAD~2".into());
    assert_eq!(run_target(&args, &file).expect("from file"), "HEAD~2");
    let cli = RunArgs { shared: SharedArgs::default(), at: Some("v1".into()) };
    assert_eq!(run_target(&cli, &file).expect("from cli"), "v1");
}

#[test]
fn scan_options_resolve_and_check() {
    let args = ScanArgs { shared: SharedArgs::default(), range: None, stride: None, sample: None, stop_on_first_bad: false };
    assert!(matches!(scan_options(&args, &FileConfig::default()), Err(PlanError::MissingRange)));
    let with_range = ScanArgs { range: Some("a..b".into()), ..args.clone() };
    let options = scan_options(&with_range, &FileConfig::default()).expect("options");
    assert_eq!((options.range.as_str(), options.stride, options.sample, options.stop_on_first_bad), ("a..b", 1, None, false));
    let zero_stride = ScanArgs { stride: Some(0), ..with_range.clone() };
    assert!(matches!(scan_options(&zero_stride, &FileConfig::default()), Err(PlanError::ZeroStride)));
    let mut file = FileConfig::default();
    file.execution.sample = Some(0);
    assert!(matches!(scan_options(&with_range, &file), Err(PlanError::ZeroSample)));
    file.execution.sample = Some(3);
    file.execution.stop_on_first_bad = Some(true);
    let options = scan_options(&with_range, &file).expect("options");
    assert_eq!((options.sample, options.stop_on_first_bad), (Some(3), true));
    assert!(matches!(scan_commits("a..b", Vec::new(), 1, None), Err(PlanError::EmptyRange(r)) if r == "a..b"));
    assert_eq!(scan_commits("a..b", strings(&["x", "y", "z"]), 2, None).expect("selected"), ["x", "z"]);
}

#[test]
fn bisect_options_resolve_and_check() {
    let args = BisectArgs {
        shared: SharedArgs::default(),
        good: None,
        bad: None,
        terms: None,
        no_verify_endpoints: false,
        on_inconsistent: None,
    };
    assert!(matches!(bisect_options(&args, &FileConfig::default()), Err(PlanError::MissingGood)));
    let with_good = BisectArgs { good: Some("v1".into()), ..args.clone() };
    let options = bisect_options(&with_good, &FileConfig::default()).expect("options");
    assert_eq!(options.bad, "HEAD");
    assert_eq!(options.terms, ["good".to_owned(), "bad".to_owned()]);
    assert!(options.verify_endpoints);
    assert_eq!(options.on_inconsistent, InconsistentPolicy::Abort);
    let bad_terms = BisectArgs { terms: Some("only".into()), ..with_good.clone() };
    assert!(matches!(bisect_options(&bad_terms, &FileConfig::default()), Err(PlanError::Terms(t)) if t == "only"));
    let mut file = FileConfig::default();
    file.execution.verify_endpoints = Some(false);
    file.execution.on_inconsistent = Some(InconsistentPolicy::Retry);
    file.execution.terms = Some("fast,slow".into());
    let options = bisect_options(&with_good, &file).expect("options");
    assert!(!options.verify_endpoints);
    assert_eq!(options.on_inconsistent, InconsistentPolicy::Retry);
    assert_eq!(options.terms, ["fast".to_owned(), "slow".to_owned()]);
    let skip = BisectArgs { no_verify_endpoints: true, ..with_good };
    assert!(!bisect_options(&skip, &FileConfig::default()).expect("options").verify_endpoints);
}

#[test]
fn bisect_commit_list_has_both_endpoints() {
    let list = bisect_commits(strings(&["a", "b", "c"]), "g".into(), "c".into()).expect("list");
    assert_eq!(list, ["g", "a", "b", "c"]);
    let list = bisect_commits(strings(&["a", "b"]), "g".into(), "c".into()).expect("list");
    assert_eq!(list, ["g", "a", "b", "c"]);
    let list = bisect_commits(Vec::new(), "g".into(), "c".into()).expect("list");
    assert_eq!(list, ["g", "c"]);
    assert!(matches!(bisect_commits(Vec::new(), "s".into(), "s".into()), Err(PlanError::SameEndpoints(s)) if s == "s"));
}

fn evaluation(sha: &str, classification: Classification) -> Evaluation {
    Evaluation {
        sha: sha.to_owned(),
        classification,
        exit_code: 0,
        duration_ms: 0,
        completed_at: String::new(),
        setup_exit_code: None,
        log_dir: String::new(),
        out_dir: String::new(),
        diff: None,
    }
}

#[test]
fn ledger_outcomes() {
    let mut state = RunState::new("t0".to_owned());
    assert_eq!(record_run(&mut state, evaluation("a", Classification::Skip), "t1".to_owned()), 2);
    assert!(state.complete);
    assert_eq!(state.updated_at, "t1");
    assert!(state.evaluations.contains_key("a"));
    let mut scan = RunState::new("t0".to_owned());
    assert_eq!(record_scan_outcome(&mut scan, StopReason::FirstBad), 0);
    assert!(scan.complete && !scan.interrupted);
    assert_eq!(record_scan_outcome(&mut scan, StopReason::Interrupted), 2);
    assert!(!scan.complete && scan.interrupted);
    assert_eq!(record_scan_outcome(&mut scan, StopReason::HookAbort), 4);
    let run = Operation::Run { at: "x".into() };
    assert_eq!(resumption(&run, false), Resumption::NotResumable);
    assert_eq!(resumption(&run, true), Resumption::AlreadyComplete);
}

#[test]
fn recording_again_replaces_the_evaluation() {
    let mut state = RunState::new("t0".to_owned());
    state.record(evaluation("a", Classification::Bad), "t1".to_owned());
    state.record(evaluation("a", Classification::Good), "t2".to_owned());
    assert_eq!(state.evaluations.len(), 1);
    assert_eq!(state.evaluations.get("a").expect("a").classification, Classification::Good);
}

#[test]
fn dispatcher_stops_handing_out_work_after_a_stop() {
    let (mut dispatcher, initial) = Dispatcher::new(strings(&["a", "b", "c", "d", "e"]), 2, true);
    assert_eq!(initial, ["a", "b"]);
    assert_eq!(dispatcher.on_result(Some(Classification::Good), false).as_deref(), Some("c"));
    assert_eq!(dispatcher.on_result(Some(Classification::Bad), false), None);
    assert!(!dispatcher.is_idle());
    assert_eq!(dispatcher.on_result(Some(Classification::Good), false), None);
    assert!(dispatcher.is_idle());
    assert_eq!(dispatcher.outcome(), Some(StopReason::FirstBad));
    let (mut failing, initial) = Dispatcher::new(strings(&["a", "b"]), 8, false);
    assert_eq!(initial, ["a", "b"]);
    assert_eq!(failing.on_result(None, false), None);
    assert_eq!(failing.on_result(Some(Classification::Good), true), None);
    assert_eq!(failing.outcome(), None);
    let (mut aborted, _) = Dispatcher::new(strings(&["a", "b", "c"]), 1, false);
    assert_eq!(aborted.on_result(Some(Classification::Abort), false), None);
    assert_eq!(aborted.outcome(), Some(StopReason::HookAbort));
}

fn config_with_pins() -> bisectrunk::config::ResolvedConfig {
    let args = SharedArgs { repo: Some("repo".into()), run: Some("true".into()), env: vec!["K=V".into()], ..SharedArgs::default() };
    let around = Surroundings {
        cwd: "/work".to_owned(),
        canonical_cwd: "/work".to_owned(),
        canonical_repo: None,
        default_jobs: 2,
        default_cache_dir: Some("/cache".to_owned()),
        fresh_run_dir: "/work/run".to_owned(),
    };
    let mut file = FileConfig::default();
    file.pins = vec![PinConfig { repo: "dep".into(), rev: "v1".into(), setup: "make install".into() }];
    resolve(&args, file, &around).expect("resolves")
}

#[test]
fn pins_install_once_into_shared_environments() {
    let config = config_with_pins();
    let pin = &config.pins[0];
    let hash = stable_hash(&["dep", "v1", "make install"]);
    assert_eq!(environment_dir(&config, pin), format!("/cache/pins/{hash}"));
    let dirs = environment(&config).expect("pinned");
    assert_eq!(dirs, [format!("/cache/pins/{hash}")]);
    assert!(prepare(&config, 0, true).is_none());
    let install = prepare(&config, 0, false).expect("install");
    assert_eq!(install.marker, format!("/cache/pins/{hash}/.bisectrunk-pin-complete"));
    let paths = pin_paths(&config, 0, "24b698e81b4a0000");
    assert_eq!(paths.worktree, "/work/run/pins/0-24b698e81b4a");
    assert_eq!(paths.log_dir, "/work/run/logs/pins/0-24b698e81b4a");
    assert_eq!(paths.out_dir, "/work/run/out/pins/0");
    let context = pin_context(&config, pin, 0, "24b698e81b4a0000", &paths);
    assert_eq!(context.extra_env.get("K").expect("K"), "V");
    assert_eq!(context.extra_env.get("BISECTRUNK_PIN_ENV").expect("env"), &format!("/cache/pins/{hash}"));
    assert_eq!(context.extra_env.get("BISECTRUNK_PIN_WORKTREE").expect("worktree"), "/work/run/pins/0-24b698e81b4a");
    assert_eq!(pin_marker_text("abc"), "abc\n");
    assert!(pin_verdict(pin, "abc", HookResult { code: 0, timed_out: false }).is_ok());
    let error = pin_verdict(pin, "abc", HookResult { code: 3, timed_out: false }).expect_err("fails");
    assert_eq!((error.code, error.classification), (3, Classification::Bad));
    let mut bare = config_with_pins();
    bare.pins.clear();
    assert!(environment(&bare).is_none());
}

#[test]
fn mirrors_and_worktrees() {
    assert_eq!(canonical_identity("../repo", Some("/abs/repo".into())), "/abs/repo");
    assert_eq!(canonical_identity("https://example.invalid/r.git", None), "https://example.invalid/r.git");
    let mirror = Mirror::located("/cache", "/abs/repo");
    assert_eq!(mirror.path(), format!("/cache/repos/{}", stable_hash(&["/abs/repo"])));
    let mut worktree = Worktree::new("/m".into(), "/w".into());
    assert_eq!((worktree.path(), worktree.mirror()), ("/w", "/m"));
    assert!(worktree.needs_removal());
    worktree.retain();
    assert!(!worktree.needs_removal());
}

#[test]
fn history_helpers() {
    let mut walk = FirstParentWalk::new("s".into());
    assert!(matches!(walk.visit("c3", 1), WalkStep::Follow));
    assert!(matches!(walk.visit("c2", 1), WalkStep::Follow));
    assert!(matches!(walk.visit("s", 1), WalkStep::Done(range) if range == ["c2", "c3"]));
    let mut broken = FirstParentWalk::new("s".into());
    assert!(matches!(broken.visit("root", 0), WalkStep::NotOnChain));
    assert!(ancestry_verdict("a", "b", "a").is_ok());
    assert!(ancestry_verdict("a", "b", "c").is_err());
    let meta = commit_metadata("x", None, "2024".into(), None);
    assert_eq!((meta.author.as_str(), meta.subject.as_str()), ("unknown", "(no subject)"));
    let kept = filter_touched(strings(&["a", "b", "c"]), true, &vec![true, false, true]);
    assert_eq!(kept, ["a", "c"]);
    assert_eq!(filter_touched(strings(&["a"]), false, &vec![false]), ["a"]);
}

#[test]
fn completed_ledger_entries_are_not_evaluated_again() {
    let mut state = RunState::new("t0".to_owned());
    state.record(evaluation("b", Classification::Good), "t1".to_owned());
    state.record(evaluation("d", Classification::Skip), "t2".to_owned());
    assert_eq!(unevaluated(&strings(&["a", "b", "c", "d"]), &state), ["a", "c"]);
    assert!(unevaluated(&strings(&["b", "d"]), &state).is_empty());
}
