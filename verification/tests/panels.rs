//! Wording of sunset dates.

use graviz::dates::{days_from_civil, days_from_now};
use graviz::deadlines::{group_digits, meta_line, strip_until, Variant};

#[test]
fn days_from_civil_counts_days_since_the_epoch() {
    assert_eq!(days_from_civil("1970-01-01"), Some(0));
    assert_eq!(days_from_civil("1970-01-02"), Some(1));
    assert_eq!(days_from_civil("1969-12-31"), Some(-1));
    // 2000 is a leap year, so March starts 60 days into it.
    assert_eq!(days_from_civil("2000-03-01"), Some(11017));
    assert_eq!(days_from_civil("2026-08-19"), Some(20684));
}

#[test]
fn days_from_civil_rejects_malformed_dates() {
    assert_eq!(days_from_civil(""), None);
    assert_eq!(days_from_civil("2026-8-19"), None);
    assert_eq!(days_from_civil("2026/08/19"), None);
    assert_eq!(days_from_civil("2026-13-01"), None);
    assert_eq!(days_from_civil("2026-01-00"), None);
    assert_eq!(days_from_civil("not-a-date"), None);
}

#[test]
fn days_from_now_measures_against_the_end_of_the_until_day() {
    // A sunset date that only just passed is 0 days overdue, not 1 — the
    // marker means "end of that calendar day".
    assert_eq!(days_from_now("2026-08-18", "2026-08-19"), 0);
    assert_eq!(days_from_now("2026-08-17", "2026-08-19"), 1);
    assert_eq!(days_from_now("2026-08-09", "2026-08-19"), 9);
    // Not yet due: negative, i.e. days remaining.
    assert_eq!(days_from_now("2026-08-19", "2026-08-19"), -1);
    assert_eq!(days_from_now("2026-08-29", "2026-08-19"), -11);
    assert_eq!(days_from_now("1970-01-01", "2026-08-19"), 20683);
}

#[test]
fn days_from_now_falls_back_to_zero_on_bad_input() {
    assert_eq!(days_from_now("garbage", "2026-08-19"), 0);
    assert_eq!(days_from_now("2026-08-19", "garbage"), 0);
    assert_eq!(days_from_now("", ""), 0);
}

#[test]
fn meta_line_reads_the_day_count_per_section() {
    let today = "2026-08-19";
    assert_eq!(meta_line(Variant::Expired, Some("2026-08-17"), None, today), "1d overdue");
    assert_eq!(meta_line(Variant::Expired, Some("2026-08-18"), None, today), "overdue");
    assert_eq!(
        meta_line(Variant::Expired, Some("1970-01-01"), None, today),
        "20,683d overdue"
    );
    assert_eq!(meta_line(Variant::Upcoming, Some("2026-08-29"), None, today), "in 11d");
    assert_eq!(
        meta_line(Variant::Expired, Some("2026-08-17"), Some("[until 2026-08-17] gone"), today),
        "1d overdue · gone"
    );
    assert_eq!(meta_line(Variant::Undated, None, Some("use v2"), today), "use v2");
    assert_eq!(meta_line(Variant::Undated, None, None, today), "deprecated");
}

#[test]
fn group_digits_inserts_thousands_separators() {
    assert_eq!(group_digits(0), "0");
    assert_eq!(group_digits(7), "7");
    assert_eq!(group_digits(999), "999");
    assert_eq!(group_digits(1_000), "1,000");
    assert_eq!(group_digits(20_683), "20,683");
    assert_eq!(group_digits(1_234_567), "1,234,567");
    assert_eq!(group_digits(-1_234), "-1,234");
}

#[test]
fn strip_until_drops_the_marker_and_the_space_after_it() {
    assert_eq!(strip_until("[until 2026-08-18] 더 이상 쓰이지 않음"), "더 이상 쓰이지 않음");
    assert_eq!(strip_until("[UNTIL 2026-01-02]  Use privateV2"), "Use privateV2");
    assert_eq!(strip_until("[  until   2026-01-02  ] gone"), "gone");
    assert_eq!(strip_until("use foo [until 2030-01-01] instead"), "use foo instead");
    assert_eq!(strip_until("[until 2026-08-18]"), "");
}

#[test]
fn strip_until_leaves_a_reason_without_a_marker_alone() {
    assert_eq!(strip_until("Use privateV2 instead"), "Use privateV2 instead");
    assert_eq!(strip_until("  padded  "), "padded");
    assert_eq!(strip_until("[until 2026-1-2] kept"), "[until 2026-1-2] kept");
    assert_eq!(strip_until("[until2026-01-02] kept"), "[until2026-01-02] kept");
    assert_eq!(strip_until("[until 2026-01-02 kept"), "[until 2026-01-02 kept");
    assert_eq!(strip_until(""), "");
}

#[test]
fn strip_until_takes_the_leftmost_marker() {
    assert_eq!(
        strip_until("[nope] and [until 2030-01-01] and [until 2040-01-01]"),
        "[nope] and and [until 2040-01-01]"
    );
}
