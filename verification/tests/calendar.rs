//! Days, dates and deadlines.

use graviz::dates::{civil_from_days, days_from_civil, days_from_now, format_stamp, today_string};
use graviz::deadlines::{group_digits, meta_line, strip_until, Variant};

#[test]
fn the_epoch_is_the_first_of_january_1970() {
    assert_eq!(civil_from_days(0), (1970, 1, 1));
    assert_eq!(days_from_civil("1970-01-01"), Some(0));
    assert_eq!(today_string(0), "1970-01-01");
}

#[test]
fn days_before_the_epoch_count_backwards() {
    assert_eq!(civil_from_days(-1), (1969, 12, 31));
    assert_eq!(civil_from_days(-719_468), (0, 3, 1));
    assert_eq!(today_string(-1), "1969-12-31");
    assert_eq!(format_stamp(-60), "1969-12-31 23:59");
}

#[test]
fn leap_days_come_every_four_years_but_not_every_hundred() {
    assert_eq!(civil_from_days(11_016), (2000, 2, 29));
    assert_eq!(civil_from_days(11_017), (2000, 3, 1));
    let day = days_from_civil("1900-02-28").unwrap();
    assert_eq!(civil_from_days(day + 1), (1900, 3, 1));
}

#[test]
fn years_beyond_four_digits_are_written_out() {
    let (y, m, d) = civil_from_days(2_932_897);
    assert_eq!((y, m, d), (10_000, 1, 1));
    assert_eq!(today_string(2_932_897 * 86_400), "10000-01-01");
}

#[test]
fn written_dates_read_back_as_their_days() {
    for day in [0, 59, 60, 365, 11_016, 18_628, 20_683, 40_000] {
        let text = today_string(day * 86_400);
        assert_eq!(days_from_civil(&text), Some(day), "{text}");
    }
}

#[test]
fn consecutive_days_have_consecutive_dates() {
    let mut last = civil_from_days(-1000);
    for day in -999..1000 {
        let now = civil_from_days(day);
        assert!(last < now, "{last:?} {now:?}");
        last = now;
    }
}

#[test]
fn texts_that_are_no_dates_have_no_day() {
    assert_eq!(days_from_civil(""), None);
    assert_eq!(days_from_civil("2021-13-01"), None);
    assert_eq!(days_from_civil("2021-00-10"), None);
    assert_eq!(days_from_civil("2021-01-32"), None);
    assert_eq!(days_from_civil("2021/01/01"), None);
    assert_eq!(days_from_civil("2021-1-1"), None);
    assert_eq!(days_from_now("never", "2021-01-01"), 0);
}

#[test]
fn a_deadline_is_over_when_its_day_is() {
    assert_eq!(days_from_now("2021-01-01", "2021-01-02"), 0);
    assert_eq!(days_from_now("2021-01-01", "2021-01-03"), 1);
    assert_eq!(days_from_now("2021-01-03", "2021-01-01"), -3);
}

#[test]
fn stamps_show_hours_and_minutes() {
    assert_eq!(format_stamp(1_609_459_200 + 9 * 3600 + 41 * 60 + 59), "2021-01-01 09:41");
}

#[test]
fn digits_are_grouped_by_three() {
    assert_eq!(group_digits(0), "0");
    assert_eq!(group_digits(999), "999");
    assert_eq!(group_digits(1000), "1,000");
    assert_eq!(group_digits(20_683), "20,683");
    assert_eq!(group_digits(-1_234_567), "-1,234,567");
}

#[test]
fn section_titles_name_the_three_variants() {
    assert_eq!(Variant::Expired.title(), "EXPIRED");
    assert_eq!(Variant::Upcoming.title(), "UPCOMING");
    assert_eq!(Variant::Undated.title(), "DEPRECATED");
}

#[test]
fn meta_lines_say_how_far_off_the_date_is() {
    let line = |v, until, today| meta_line(v, Some(until), Some("[until 2021-01-01] use b"), today);
    assert_eq!(line(Variant::Expired, "2021-01-01", "2024-01-01"), "1,094d overdue · use b");
    assert_eq!(line(Variant::Expired, "2021-01-01", "2021-01-02"), "overdue · use b");
    assert_eq!(line(Variant::Upcoming, "2021-01-10", "2021-01-08"), "in 3d · use b");
    assert_eq!(meta_line(Variant::Undated, None, None, "2021-01-01"), "deprecated");
    assert_eq!(meta_line(Variant::Upcoming, Some("x"), None, "2021-01-01"), "due today");
}

#[test]
fn only_well_formed_markers_are_dropped() {
    assert_eq!(strip_until("  a [ UNTIL 2021-99-99 ]  b "), "a b");
    assert_eq!(strip_until("[until2021-01-01] b"), "[until2021-01-01] b");
    assert_eq!(strip_until("[until 2021-01-01 b"), "[until 2021-01-01 b");
    assert_eq!(strip_until("[[until 2021-01-01] b"), "[b");
}
