use bisectrunk::cli::{KeepPolicy, OracleKind, OutputFormat, SetupFailure};
use bisectrunk::config::{config_candidate, resolve, ConfigError, FileConfig, SharedArgs, Surroundings};
use bisectrunk::hooks::TimeoutError;

fn around() -> Surroundings {
    Surroundings {
        cwd: "/work".to_owned(),
        canonical_cwd: "/work".to_owned(),
        canonical_repo: None,
        default_jobs: 4,
        default_cache_dir: Some("/cache/bisectrunk".to_owned()),
        fresh_run_dir: "/work/bisectrunk-runs/20240101-000000-abcdef0".to_owned(),
    }
}

#[test]
fn cli_values_override_file_values() {
    let args = SharedArgs {
        repo: Some("cli-repo".into()),
        run: Some("cli-run".into()),
        jobs: Some(7),
        env: vec!["SAME=cli".into(), "CLI=yes".into()],
        ..SharedArgs::default()
    };
    let mut file = FileConfig::default();
    file.subject.repo = Some("file-repo".into());
    file.hooks.run = Some("file-run".into());
    file.hooks.env.insert("SAME".into(), "file".into());
    file.hooks.env.insert("FILE".into(), "yes".into());
    file.execution.jobs = Some(2);
    let resolved = resolve(&args, file, &around()).expect("config resolves");
    assert_eq!(resolved.subject.repo, "cli-repo");
    assert_eq!(resolved.hooks.run, "cli-run");
    assert_eq!(resolved.execution.jobs, 7);
    assert_eq!(resolved.hooks.env.get("SAME").expect("SAME"), "cli");
    assert_eq!(resolved.hooks.env.get("FILE").expect("FILE"), "yes");
    assert_eq!(resolved.hooks.env.get("CLI").expect("CLI"), "yes");
}

#[test]
fn file_values_fill_unspecified_cli_values() {
    let args = SharedArgs::default();
    let mut file = FileConfig::default();
    file.subject.repo = Some("file-repo".into());
    file.hooks.run = Some("file-run".into());
    file.execution.jobs = Some(3);
    let resolved = resolve(&args, file, &around()).expect("config resolves");
    assert_eq!(resolved.subject.repo, "file-repo");
    assert_eq!(resolved.hooks.run, "file-run");
    assert_eq!(resolved.execution.jobs, 3);
}

#[test]
fn defaults_apply_when_nothing_is_set() {
    let args = SharedArgs { repo: Some("r".into()), run: Some("true".into()), ..SharedArgs::default() };
    let resolved = resolve(&args, FileConfig::default(), &around()).expect("resolves");
    assert_eq!(resolved.execution.jobs, 4);
    assert_eq!(resolved.execution.retries, 0);
    assert_eq!(resolved.execution.cache_dir, "/cache/bisectrunk");
    assert_eq!(resolved.execution.run_dir, "/work/bisectrunk-runs/20240101-000000-abcdef0");
    assert_eq!(resolved.execution.keep, KeepPolicy::Failed);
    assert_eq!(resolved.execution.format, OutputFormat::Auto);
    assert_eq!(resolved.execution.setup_failure, SetupFailure::Skip);
    assert_eq!(resolved.oracle.kind, OracleKind::Exit);
    assert_eq!(resolved.subject.project, "/work");
    assert!(!resolved.subject.self_bisect);
    assert!(!resolved.execution.no_cache);
}

#[test]
fn self_bisect_is_detected_from_canonical_paths() {
    let args = SharedArgs { repo: Some(".".into()), run: Some("true".into()), ..SharedArgs::default() };
    let mut surroundings = around();
    surroundings.canonical_repo = Some("/work".to_owned());
    let resolved = resolve(&args, FileConfig::default(), &surroundings).expect("resolves");
    assert!(resolved.subject.self_bisect);
    let with_project = SharedArgs { project: Some("/elsewhere".into()), ..args };
    let resolved = resolve(&with_project, FileConfig::default(), &surroundings).expect("resolves");
    assert!(!resolved.subject.self_bisect);
    assert_eq!(resolved.subject.project, "/elsewhere");
}

#[test]
fn each_resolution_error_has_its_input() {
    let base = SharedArgs { repo: Some("r".into()), run: Some("true".into()), ..SharedArgs::default() };
    let missing_repo = SharedArgs { repo: None, ..base.clone() };
    assert!(matches!(resolve(&missing_repo, FileConfig::default(), &around()), Err(ConfigError::MissingRepo)));
    let missing_run = SharedArgs { run: None, ..base.clone() };
    assert!(matches!(resolve(&missing_run, FileConfig::default(), &around()), Err(ConfigError::MissingRun)));
    let zero_jobs = SharedArgs { jobs: Some(0), ..base.clone() };
    assert!(matches!(resolve(&zero_jobs, FileConfig::default(), &around()), Err(ConfigError::ZeroJobs)));
    let bad_timeout = SharedArgs { timeout: Some("soon".into()), ..base.clone() };
    assert!(matches!(
        resolve(&bad_timeout, FileConfig::default(), &around()),
        Err(ConfigError::Timeout { value, .. }) if value == "soon"
    ));
    let huge_timeout = SharedArgs { timeout: Some("18446744073709551615s 1000000000ns".into()), ..base.clone() };
    assert!(matches!(
        resolve(&huge_timeout, FileConfig::default(), &around()),
        Err(ConfigError::Timeout { error: TimeoutError::TooLarge, .. })
    ));
    let no_equals = SharedArgs { env: vec!["A=1".into(), "NOEQUALS".into()], ..base.clone() };
    assert!(matches!(
        resolve(&no_equals, FileConfig::default(), &around()),
        Err(ConfigError::EnvAssignment(a)) if a == "NOEQUALS"
    ));
    let empty_key = SharedArgs { env: vec!["=1".into()], ..base.clone() };
    assert!(matches!(
        resolve(&empty_key, FileConfig::default(), &around()),
        Err(ConfigError::EmptyEnvKey(a)) if a == "=1"
    ));
    let mut no_cache_dir = around();
    no_cache_dir.default_cache_dir = None;
    assert!(matches!(resolve(&base, FileConfig::default(), &no_cache_dir), Err(ConfigError::CacheDir)));
    let compare = SharedArgs { oracle: Some(OracleKind::Compare), ..base.clone() };
    assert!(matches!(resolve(&compare, FileConfig::default(), &around()), Err(ConfigError::MissingBaseline)));
    let with_baseline = SharedArgs { baseline: Some("b.txt".into()), ..compare.clone() };
    assert!(matches!(resolve(&with_baseline, FileConfig::default(), &around()), Err(ConfigError::MissingArtifact)));
    let absolute = SharedArgs { artifact: Some("/etc/out".into()), ..with_baseline.clone() };
    assert!(matches!(resolve(&absolute, FileConfig::default(), &around()), Err(ConfigError::ArtifactEscapes)));
    let climbing = SharedArgs { artifact: Some("a/../../out".into()), ..with_baseline.clone() };
    assert!(matches!(resolve(&climbing, FileConfig::default(), &around()), Err(ConfigError::ArtifactEscapes)));
    let dotted = SharedArgs { artifact: Some("a/..b/out".into()), ..with_baseline.clone() };
    assert!(resolve(&dotted, FileConfig::default(), &around()).is_ok());
    let mut bad_pattern = FileConfig::default();
    bad_pattern.oracle.normalize = vec!["[".into()];
    assert!(matches!(
        resolve(&base, bad_pattern, &around()),
        Err(ConfigError::Pattern { pattern, .. }) if pattern == "["
    ));
}

#[test]
fn env_values_may_contain_equals_signs() {
    let args = SharedArgs {
        repo: Some("r".into()),
        run: Some("true".into()),
        env: vec!["URL=a=b".into(), "EMPTY=".into()],
        ..SharedArgs::default()
    };
    let resolved = resolve(&args, FileConfig::default(), &around()).expect("resolves");
    assert_eq!(resolved.hooks.env.get("URL").expect("URL"), "a=b");
    assert_eq!(resolved.hooks.env.get("EMPTY").expect("EMPTY"), "");
}

#[test]
fn configuration_file_is_looked_for_in_the_project() {
    let args = SharedArgs { project: Some("/proj".into()), ..SharedArgs::default() };
    assert_eq!(config_candidate(&args, "/work"), "/proj/bisectrunk.toml");
    assert_eq!(config_candidate(&SharedArgs::default(), "/work/"), "/work/bisectrunk.toml");
}
