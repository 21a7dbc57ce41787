use bisectrunk::cache::{cache_key, cache_path, SerializedSettings};
use bisectrunk::config::{resolve, FileConfig, SharedArgs, Surroundings};
use bisectrunk::env::EnvMap;
use bisectrunk::hashing::stable_hash;

fn around() -> Surroundings {
    Surroundings {
        cwd: "/work".to_owned(),
        canonical_cwd: "/work".to_owned(),
        canonical_repo: None,
        default_jobs: 2,
        default_cache_dir: Some("/cache".to_owned()),
        fresh_run_dir: "/work/run".to_owned(),
    }
}

fn settings() -> SerializedSettings {
    SerializedSettings {
        oracle: r#"{"kind":"exit","baseline":null,"artifact":null,"normalize":[]}"#.to_owned(),
        pins: "[]".to_owned(),
        setup_failure: r#""skip""#.to_owned(),
    }
}

#[test]
fn cache_key_is_stable_for_reordered_equal_env() {
    let args = SharedArgs {
        repo: Some("repo".into()),
        run: Some("run".into()),
        ..SharedArgs::default()
    };
    let mut first = resolve(&args, FileConfig::default(), &around()).expect("resolve");
    let mut env = EnvMap::new();
    env.insert("B".into(), "2".into());
    env.insert("A".into(), "1".into());
    first.hooks.env = env;
    let mut second = resolve(&args, FileConfig::default(), &around()).expect("resolve");
    let mut env = EnvMap::new();
    env.insert("A".into(), "1".into());
    env.insert("B".into(), "2".into());
    second.hooks.env = env;
    assert_eq!(
        cache_key(&first, "abc", &settings()).expect("key"),
        cache_key(&second, "abc", &settings()).expect("key")
    );
}

#[test]
fn cache_key_changes_with_the_commit_and_the_hooks() {
    let args = SharedArgs { repo: Some("repo".into()), run: Some("run".into()), ..SharedArgs::default() };
    let config = resolve(&args, FileConfig::default(), &around()).expect("resolve");
    let key = cache_key(&config, "abc", &settings()).expect("key");
    assert_eq!(key.len(), 64);
    assert!(key.chars().all(|c| c.is_ascii_digit() || ('a'..='f').contains(&c)));
    assert_ne!(key, cache_key(&config, "abd", &settings()).expect("key"));
    let retried = SharedArgs { retries: Some(2), ..args.clone() };
    let with_retries = resolve(&retried, FileConfig::default(), &around()).expect("resolve");
    assert_ne!(key, cache_key(&with_retries, "abc", &settings()).expect("key"));
    let other = SharedArgs { run: Some("run2".into()), ..args };
    let changed = resolve(&other, FileConfig::default(), &around()).expect("resolve");
    assert_ne!(key, cache_key(&changed, "abc", &settings()).expect("key"));
    let path = cache_path(&config, "abc", &settings()).expect("path");
    assert_eq!(path, format!("/cache/evaluations/{key}.json"));
}

#[test]
fn stable_hash_frames_its_parts() {
    let joined = stable_hash(&["ab", "c"]);
    let split = stable_hash(&["a", "bc"]);
    assert_ne!(joined, split);
    assert_eq!(stable_hash(&["x", "y"]), stable_hash(&["x", "y"]));
    let mut framed = Vec::new();
    for part in ["ab", "c"] {
        framed.extend_from_slice(&(part.len() as u64).to_le_bytes());
        framed.extend_from_slice(part.as_bytes());
    }
    assert_eq!(joined, blake3::hash(&framed).to_hex().to_string());
}

#[test]
fn cache_key_hashes_the_environment_as_a_sorted_json_object() {
    let args = SharedArgs { repo: Some("repo".into()), run: Some("run".into()), ..SharedArgs::default() };
    let mut config = resolve(&args, FileConfig::default(), &around()).expect("resolve");
    let mut env = EnvMap::new();
    env.insert("ZED".into(), "tab\there".into());
    env.insert("ALPHA".into(), "say \"hi\"\\".into());
    env.insert("MID".into(), "bell\u{7}".into());
    config.hooks.env = env;
    let names: Vec<&str> = config.hooks.env.entries().iter().map(|(name, _)| name.as_str()).collect();
    assert_eq!(names, ["ALPHA", "MID", "ZED"]);
    let json = r#"{"ALPHA":"say \"hi\"\\","MID":"bell\u0007","ZED":"tab\there"}"#;
    let retries = config.execution.retries.to_string();
    let s = settings();
    let expected = stable_hash(&[
        config.subject.repo.as_str(),
        "abc",
        "",
        config.hooks.run.as_str(),
        "",
        json,
        s.oracle.as_str(),
        s.pins.as_str(),
        s.setup_failure.as_str(),
        retries.as_str(),
    ]);
    assert_eq!(cache_key(&config, "abc", &s).expect("key"), expected);
}
