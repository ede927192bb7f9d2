//! Sunset dates.

use graviz::until::{is_until_expired, parse_until};

#[test]
fn parse_until_extracts_the_iso_date_from_an_until_marker() {
    assert_eq!(
        parse_until(Some("[until 2026-08-18] 더 이상 쓰이지 않음")).as_deref(),
        Some("2026-08-18")
    );
    assert_eq!(
        parse_until(Some("[until 1970-01-01] Use adminUpdateContractReview instead"))
            .as_deref(),
        Some("1970-01-01")
    );
}

#[test]
fn parse_until_is_tolerant_of_casing_and_inner_whitespace() {
    assert_eq!(parse_until(Some("[Until 2026-01-02]")).as_deref(), Some("2026-01-02"));
    assert_eq!(
        parse_until(Some("[  until   2026-01-02  ]")).as_deref(),
        Some("2026-01-02")
    );
    assert_eq!(parse_until(Some("[UNTIL 2026-01-02]")).as_deref(), Some("2026-01-02"));
}

#[test]
fn parse_until_returns_none_when_there_is_no_marker() {
    assert_eq!(parse_until(Some("Use privateV2 instead")), None);
    assert_eq!(parse_until(None), None);
    assert_eq!(parse_until(Some("")), None);
    assert_eq!(parse_until(Some("[until 2026-1-2]")), None);
    assert_eq!(parse_until(Some("[until2026-01-02]")), None);
    assert_eq!(parse_until(Some("[until 2026-01-02")), None);
}

#[test]
fn parse_until_takes_the_leftmost_match() {
    assert_eq!(
        parse_until(Some("[nope] and [until 2030-01-01] and [until 2040-01-01]")).as_deref(),
        Some("2030-01-01")
    );
}

#[test]
fn is_until_expired_compares_against_the_end_of_the_given_day() {
    let today = "2026-07-08";
    assert!(is_until_expired(Some("1970-01-01"), today));
    assert!(!is_until_expired(Some("2026-07-08"), today)); // still within the day
    assert!(is_until_expired(Some("2026-07-07"), today));
    assert!(!is_until_expired(Some("2026-08-18"), today));
}

#[test]
fn is_until_expired_handles_missing_or_malformed_input() {
    assert!(!is_until_expired(None, "2026-07-08"));
    assert!(!is_until_expired(Some("not-a-date"), "2026-07-08"));
    assert!(!is_until_expired(Some("2026-13-01"), "2026-07-08"));
    assert!(!is_until_expired(Some("1970-01-01"), "garbage"));
}
