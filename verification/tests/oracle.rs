use bisectrunk::normalize::normalize_text;
use bisectrunk::oracle::{classify_exit, Classification};

#[test]
fn exit_protocol_matches_git_bisect_run() {
    assert_eq!(classify_exit(0, false), Classification::Good);
    assert_eq!(classify_exit(1, false), Classification::Bad);
    assert_eq!(classify_exit(125, false), Classification::Skip);
    assert_eq!(classify_exit(127, false), Classification::Bad);
    assert_eq!(classify_exit(128, false), Classification::Abort);
    assert_eq!(classify_exit(0, true), Classification::Skip);
}

#[test]
fn text_normalization_handles_line_endings_and_regexes() {
    let patterns = vec![r"timestamp: \d+".to_owned()];
    let left = normalize_text("value\r\ntimestamp: 123\r\n", &patterns).expect("normalize");
    let right = normalize_text("value\ntimestamp: 999\n", &patterns).expect("normalize");
    assert_eq!(left, right);
}

#[test]
fn exit_codes_above_the_skip_code_and_negative_codes() {
    assert_eq!(classify_exit(126, false), Classification::Bad);
    assert_eq!(classify_exit(255, false), Classification::Abort);
    assert_eq!(classify_exit(-1, false), Classification::Bad);
    assert_eq!(classify_exit(125, true), Classification::Skip);
    assert_eq!(Classification::Abort.name(), "abort");
    assert_eq!(Classification::Good.name(), "good");
}

#[test]
fn lone_carriage_returns_become_newlines() {
    let normalized = normalize_text("a\rb\r\nc\n\r", &[]).expect("no patterns");
    assert_eq!(normalized, "a\nb\nc\n\n");
}

#[test]
fn patterns_apply_in_order() {
    let patterns = vec!["ab".to_owned(), "c+".to_owned()];
    let normalized = normalize_text("xabcccy", &patterns).expect("normalize");
    assert_eq!(normalized, "xy");
}

#[test]
fn invalid_pattern_is_reported() {
    let patterns = vec!["fine".to_owned(), "(unclosed".to_owned()];
    let error = normalize_text("text", &patterns).expect_err("bad pattern");
    assert_eq!(error.pattern, "(unclosed");
}

#[test]
fn line_ending_normalization_is_idempotent() {
    let once = normalize_text("a\r\r\nb\rc", &[]).expect("no patterns");
    let twice = normalize_text(&once, &[]).expect("no patterns");
    assert_eq!(once, twice);
    assert!(!once.contains('\r'));
}
