use std::time::Duration;

use bisectrunk::hooks::{duration_within_limit, exit_code, parse_timeout, remaining_timeout, Span, TimeoutError};

fn as_duration(span: Span) -> Duration {
    Duration::new(span.secs, span.nanos)
}

#[test]
fn parses_human_durations() {
    assert_eq!(
        as_duration(parse_timeout(Some("2m")).expect("valid").unwrap()),
        Duration::from_secs(120)
    );
    assert!(parse_timeout(Some("tomorrow")).is_err());
    assert!(parse_timeout(None).expect("none is valid").is_none());
}

#[test]
fn parses_compound_and_subsecond_durations() {
    assert_eq!(
        as_duration(parse_timeout(Some("1h 30m")).expect("valid").unwrap()),
        Duration::from_secs(5400)
    );
    assert_eq!(
        as_duration(parse_timeout(Some("20ms")).expect("valid").unwrap()),
        Duration::from_millis(20)
    );
}

#[test]
fn remaining_time_saturates_at_zero() {
    let limit = Span { secs: 10, nanos: 500 };
    let early = Span { secs: 3, nanos: 700 };
    let left = remaining_timeout(Some(limit), early).expect("limit set");
    assert_eq!(as_duration(left), Duration::new(6, 999_999_800));
    let late = Span { secs: 11, nanos: 0 };
    assert_eq!(as_duration(remaining_timeout(Some(limit), late).expect("limit set")), Duration::ZERO);
    assert!(remaining_timeout(None, late).is_none());
}

#[test]
fn signals_map_to_shell_exit_codes() {
    assert_eq!(exit_code(Some(3), None), 3);
    assert_eq!(exit_code(None, Some(9)), 137);
    assert_eq!(exit_code(None, Some(2)), 130);
}

#[test]
fn refuses_timeouts_past_the_digit_limit() {
    assert!(matches!(parse_timeout(Some("18446744073709551615s 1000000000ns")), Err(TimeoutError::TooLarge)));
    assert!(matches!(parse_timeout(Some("100000000000s")), Err(TimeoutError::TooLarge)));
    assert_eq!(
        as_duration(parse_timeout(Some("99999999999s")).expect("valid").unwrap()),
        Duration::from_secs(99_999_999_999)
    );
    assert!(matches!(parse_timeout(Some("tomorrow")), Err(TimeoutError::Invalid(_))));
}

#[test]
fn fraction_digits_do_not_count_toward_the_limit() {
    assert!(duration_within_limit("1h 1m 1.123456789s"));
    assert_eq!(
        as_duration(parse_timeout(Some("1h 1m 1.123456789s")).expect("valid").unwrap()),
        Duration::new(3661, 123_456_789)
    );
    assert!(duration_within_limit("12345678901ms"));
    assert!(!duration_within_limit("123456789012ms"));
    assert!(!duration_within_limit("1 2 3 4 5 6 7 8 9 0 1 2s"));
}
