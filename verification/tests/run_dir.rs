use bisectrunk::hashing::{new_run_dir, stable_hash};

#[test]
fn run_directory_uses_timestamp_and_short_id() {
    let now = jiff::Zoned::now();
    let timestamp = now.strftime("%Y%m%d-%H%M%S").to_string();
    let path = new_run_dir("/tmp", &timestamp, now.timestamp().as_nanosecond());
    let name = std::path::Path::new(&path)
        .file_name()
        .and_then(|value| value.to_str())
        .expect("UTF-8 run directory name");
    assert!(
        regex::Regex::new(r"^\d{8}-\d{6}-[0-9a-f]{7}$")
            .expect("static regex")
            .is_match(name),
        "unexpected run directory name: {name}"
    );
}

#[test]
fn run_directory_layout_is_exact() {
    let path = new_run_dir("/tmp/", "20240102-030405", -12);
    let id = stable_hash(&["-12"]);
    assert_eq!(path, format!("/tmp/bisectrunk-runs/20240102-030405-{}", &id[..7]));
    let relative = new_run_dir("", "t", 0);
    assert_eq!(relative, format!("bisectrunk-runs/t-{}", &stable_hash(&["0"])[..7]));
}
