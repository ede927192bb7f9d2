//! Civil dates in the Gregorian calendar, counted in days from 1970-01-01.
//!
//! Years are counted from March, so that the leap day is the last day of its year.

use vstd::prelude::*;

use crate::text::{chars_of, decimal, digit, padded, padded_string};
use crate::until::{is_date, is_iso_date_shape, read_two, two_digits};

verus! {

/// Seconds in a day.
pub const DAY: i64 = 86_400;

/// Whether `y` has a leap day.
pub open spec fn is_leap(y: int) -> bool {
    y % 4 == 0 && (y % 100 != 0 || y % 400 == 0)
}

/// The number of days of month `m` of year `y`.
pub open spec fn month_length(y: int, m: int) -> int {
    if m == 2 {
        if is_leap(y) {
            29
        } else {
            28
        }
    } else if m == 4 || m == 6 || m == 9 || m == 11 {
        30
    } else {
        31
    }
}

/// Month and day exist in the calendar.
pub open spec fn is_calendar_date(y: int, m: int, d: int) -> bool {
    1 <= m <= 12 && 1 <= d <= month_length(y, m)
}

/// The year that month `m` of year `y` falls into, where years start in March.
pub open spec fn march_year(y: int, m: int) -> int {
    if m <= 2 {
        y - 1
    } else {
        y
    }
}

/// The days from 0000-03-01 up to March 1 of year `y`.
pub open spec fn march_start(y: int) -> int {
    365 * y + y / 4 - y / 100 + y / 400
}

/// The days from March 1 up to the first of the month `m`.
pub open spec fn month_start(m: int) -> int {
    (153 * ((m + 9) % 12) + 2) / 5
}

/// The days from 1970-01-01 up to day `d` of month `m` of year `y`; `d` may run past the month.
pub open spec fn day_number(y: int, m: int, d: int) -> int {
    march_start(march_year(y, m)) + month_start(m) + d - 1 - 719_468
}

/// `y`-`m`-`d` is the calendar date `days` after 1970-01-01.
pub open spec fn falls_on(days: int, y: int, m: int, d: int) -> bool {
    is_calendar_date(y, m, d) && day_number(y, m, d) == days
}

/// A date as text: `YYYY-MM-DD`.
pub open spec fn date_text(y: int, m: int, d: int) -> Seq<char> {
    padded(y, 4) + "-"@ + padded(m, 2) + "-"@ + padded(d, 2)
}

/// The day count follows the calendar: it starts at 1970-01-01, each day is one more than the day
/// before it, and each month starts where the month before it ends.
pub proof fn days_follow_the_calendar(y: int, m: int, d: int)
    requires
        1 <= m <= 12,
    ensures
        day_number(1970, 1, 1) == 0,
        day_number(y, m, d + 1) == day_number(y, m, d) + 1,
        m < 12 ==> day_number(y, m + 1, 1) == day_number(y, m, month_length(y, m)) + 1,
        m == 12 ==> day_number(y + 1, 1, 1) == day_number(y, 12, 31) + 1,
{
    if m == 2 {
        lemma_march_step(y - 1);
    }
}

/// A year from March to March has a leap day when the year that it ends in has one.
proof fn lemma_march_step(y: int)
    ensures
        march_start(y + 1) == march_start(y) + (if is_leap(y + 1) { 366int } else { 365 }),
{
}

/// Later years start later.
proof fn lemma_march_order(a: int, b: int)
    requires
        a <= b,
    ensures
        march_start(a) + 365 * (b - a) <= march_start(b),
    decreases b - a,
{
    if a < b {
        lemma_march_order(a, b - 1);
        lemma_march_step(b - 1);
    }
}

/// Where a date stands in its year from March.
proof fn lemma_within_year(y: int, m: int, d: int)
    requires
        is_calendar_date(y, m, d),
    ensures
        march_start(march_year(y, m)) <= day_number(y, m, d) + 719_468 < march_start(
            march_year(y, m) + 1,
        ),
{
    lemma_march_step(march_year(y, m));
}

/// A day has one date: calendar dates with the same day count are the same.
pub proof fn dates_are_unique(y: int, m: int, d: int, y2: int, m2: int, d2: int)
    requires
        is_calendar_date(y, m, d),
        is_calendar_date(y2, m2, d2),
        day_number(y, m, d) == day_number(y2, m2, d2),
    ensures
        y == y2 && m == m2 && d == d2,
{
    lemma_within_year(y, m, d);
    lemma_within_year(y2, m2, d2);
    let a = march_year(y, m);
    let b = march_year(y2, m2);
    if a < b {
        lemma_march_order(a + 1, b);
    } else if b < a {
        lemma_march_order(b + 1, a);
    }
}

/// The year of the era that day `doe` of the era falls into.
proof fn lemma_year_of_era(doe: int)
    requires
        0 <= doe < 146_097,
    ensures
        ({
            let yoe = (doe - doe / 1460 + doe / 36524 - doe / 146_096) / 365;
            0 <= yoe < 400 && 365 * yoe + yoe / 4 - yoe / 100 <= doe && doe < 365 * (yoe + 1) + (
            yoe + 1) / 4 - (yoe + 1) / 100 + (yoe + 1) / 400
        }),
{
    let c = doe / 36524;
    let r = doe % 36524;
    assert(0 <= c <= 4);
}

/// Eras of 400 years have all the same length.
proof fn lemma_era(era: int, yoe: int)
    requires
        0 <= yoe < 400,
    ensures
        march_start(yoe + era * 400) == 146_097 * era + 365 * yoe + yoe / 4 - yoe / 100,
{
    assert((yoe + era * 400) / 4 == yoe / 4 + era * 100);
    assert((yoe + era * 400) / 100 == yoe / 100 + era * 4);
    assert((yoe + era * 400) / 400 == era);
}

/// The month, counted from March, and the day of a day of the year.
proof fn lemma_month(doy: int, mp: int, d: int, m: int)
    requires
        0 <= doy <= 365,
        mp == (5 * doy + 2) / 153,
        d == doy - (153 * mp + 2) / 5 + 1,
        m == (if mp < 10 { mp + 3 } else { mp - 9 }),
    ensures
        0 <= mp <= 11,
        1 <= m <= 12,
        (m + 9) % 12 == mp,
        month_start(m) + d - 1 == doy,
        1 <= d,
        m != 2 ==> d <= month_length(0, m),
        m == 2 ==> d == doy - 336,
{
}

/// The date `days` after 1970-01-01.
pub fn civil_from_days(days: i64) -> (r: (i64, i64, i64))
    requires
        -0x0100_0000_0000_0000 <= days <= 0x0100_0000_0000_0000,
    ensures
        falls_on(days as int, r.0 as int, r.1 as int, r.2 as int),
{
    let z: i64 = days + 719_468;
    let era: i64 = floor_div(z, 146_097);
    let doe: i64 = z - era * 146_097;
    let yoe: i64 = (doe - doe / 1460 + doe / 36524 - doe / 146_096) / 365;
    proof {
        lemma_year_of_era(doe as int);
    }
    let doy: i64 = doe - (365 * yoe + yoe / 4 - yoe / 100);
    assert(0 <= doy <= 365);
    let mp: i64 = (5 * doy + 2) / 153;
    let d: i64 = doy - (153 * mp + 2) / 5 + 1;
    let m: i64 = if mp < 10 { mp + 3 } else { mp - 9 };
    let march: i64 = yoe + era * 400;
    let y: i64 = if m <= 2 { march + 1 } else { march };
    proof {
        lemma_era(era as int, yoe as int);
        lemma_march_step(march as int);
        assert((yoe + 1 + era * 400) / 4 == (yoe + 1) / 4 + era * 100);
        assert((yoe + 1 + era * 400) / 100 == (yoe + 1) / 100 + era * 4);
        assert((yoe + 1 + era * 400) / 400 == (yoe + 1) / 400 + era);
        assert(march_start(march as int) <= z < march_start(march + 1));
        lemma_month(doy as int, mp as int, d as int, m as int);
        assert(march_year(y as int, m as int) == march);
        assert(month_length(y as int, m as int) >= d);
    }
    (y, m, d)
}

/// `a / b` rounded down.
fn floor_div(a: i64, b: i64) -> (r: i64)
    requires
        0 < b,
        a > i64::MIN,
    ensures
        r == a as int / b as int,
{
    if a >= 0 {
        a / b
    } else {
        let q: i64 = (-(a + 1)) / b;
        proof {
            let n: int = -(a + 1);
            let w: int = b as int;
            vstd::arithmetic::div_mod::lemma_fundamental_div_mod(n, w);
            assert(a == (-(q as int) - 1) * w + (w - 1 - n % w)) by (nonlinear_arith)
                requires
                    n == w * q + n % w,
                    n == -(a + 1),
            ;
            vstd::arithmetic::div_mod::lemma_fundamental_div_mod_converse(
                a as int,
                w,
                -(q as int) - 1,
                w - 1 - n % w,
            );
        }
        -q - 1
    }
}

fn date_string(y: i64, m: i64, d: i64) -> (r: String)
    requires
        y > i64::MIN,
        m > i64::MIN,
        d > i64::MIN,
    ensures
        r@ == date_text(y as int, m as int, d as int),
{
    let mut r = padded_string(y, 4);
    r.append("-");
    r.append(&padded_string(m, 2));
    r.append("-");
    r.append(&padded_string(d, 2));
    r
}

/// The civil date (UTC), as `YYYY-MM-DD`, of the moment `secs` seconds after 1970-01-01 00:00.
pub fn today_string(secs: i64) -> (r: String)
    requires
        secs > i64::MIN,
    ensures
        exists|y: int, m: int, d: int| #[trigger]
            falls_on(secs as int / 86_400, y, m, d) && r@ == date_text(y, m, d),
{
    let (y, m, d) = civil_from_days(floor_div(secs, DAY));
    date_string(y, m, d)
}

/// Date and time of day as text: `YYYY-MM-DD hh:mm`.
pub open spec fn stamp_text(y: int, m: int, d: int, second: int) -> Seq<char> {
    date_text(y, m, d) + " "@ + padded(second / 3600, 2) + ":"@ + padded((second % 3600) / 60, 2)
}

/// The seconds that have gone since midnight.
fn second_of_day(secs: i64) -> (r: i64)
    requires
        secs > i64::MIN,
    ensures
        r == secs as int % 86_400,
        0 <= r < 86_400,
{
    if secs >= 0 {
        secs % DAY
    } else {
        let n: i64 = -(secs + 1);
        DAY - 1 - n % DAY
    }
}

/// The hour and the minute of a second of the day, as `hh:mm`.
fn clock_string(second: i64) -> (r: String)
    requires
        0 <= second < 86_400,
    ensures
        r@ == padded(second as int / 3600, 2) + ":"@ + padded((second as int % 3600) / 60, 2),
{
    let mut r = padded_string(second / 3600, 2);
    r.append(":");
    r.append(&padded_string((second % 3600) / 60, 2));
    r
}

/// Date and time of day (UTC) of the moment `secs` seconds after 1970-01-01 00:00, as
/// `2025-08-19 09:41`.
pub fn format_stamp(secs: i64) -> (r: String)
    requires
        secs > i64::MIN,
    ensures
        exists|y: int, m: int, d: int| #[trigger]
            falls_on(secs as int / 86_400, y, m, d) && r@ == stamp_text(y, m, d, secs as int % 86_400),
{
    let second: i64 = second_of_day(secs);
    let (y, m, d) = civil_from_days(floor_div(secs, DAY));
    let mut r = date_string(y, m, d);
    r.append(" ");
    r.append(&clock_string(second));
    assert(falls_on(secs as int / 86_400, y as int, m as int, d as int));
    assert(r@ =~= stamp_text(y as int, m as int, d as int, secs as int % 86_400));
    r
}

/// The days from 1970-01-01 to a date written `YYYY-MM-DD`; nothing for a text that is no date.
pub open spec fn text_day(date: Seq<char>) -> Option<int> {
    if is_date(date) {
        Some(
            day_number(
                100 * two_digits(date, 0) + two_digits(date, 2),
                two_digits(date, 5),
                two_digits(date, 8),
            ),
        )
    } else {
        None
    }
}

/// The days from 1970-01-01 to the date `YYYY-MM-DD`.
pub fn days_from_civil(date: &str) -> (r: Option<i64>)
    ensures
        r is Some <==> text_day(date@) is Some,
        r matches Some(days) ==> text_day(date@) == Some(days as int) && -800_000 < days < 3_000_000,
{
    let s = chars_of(date);
    if s.len() != 10 || !is_iso_date_shape(&s, 0) {
        return None;
    }
    let y: i64 = 100 * (read_two(&s, 0) as i64) + read_two(&s, 2) as i64;
    let m: i64 = read_two(&s, 5) as i64;
    let d: i64 = read_two(&s, 8) as i64;
    if m < 1 || m > 12 || d < 1 || d > 31 {
        return None;
    }
    Some(count_days(y, m, d))
}

/// The days from 1970-01-01 to day `d` of month `m` of year `y`.
fn count_days(written: i64, m: i64, d: i64) -> (r: i64)
    requires
        0 <= written <= 9999,
        1 <= m <= 12,
        1 <= d <= 31,
    ensures
        r == day_number(written as int, m as int, d as int),
        -800_000 < r < 3_000_000,
{
    let y: i64 = if m <= 2 { written - 1 } else { written };
    let era: i64 = floor_div(y, 400);
    let yoe: i64 = y - era * 400;
    let mp: i64 = (m + 9) % 12;
    let doy: i64 = (153 * mp + 2) / 5 + d - 1;
    let doe: i64 = yoe * 365 + yoe / 4 - yoe / 100 + doy;
    proof {
        lemma_era(era as int, yoe as int);
        assert(yoe + era * 400 == y);
        assert(march_year(written as int, m as int) == y);
        assert(month_start(m as int) == (153 * mp + 2) / 5);
    }
    era * 146_097 + doe - 719_468
}

/// The days that have gone since the end of the day `until`; below zero while it lasts, and zero
/// where one of the texts is no date.
pub open spec fn days_past(until: Seq<char>, today: Seq<char>) -> int {
    match (text_day(until), text_day(today)) {
        (Some(u), Some(t)) => t - u - 1,
        _ => 0,
    }
}

/// Whole days between the end of the `until` day and `today`. Positive: overdue by that many days;
/// negative: that many days left. A text that is no date gives zero.
pub fn days_from_now(until: &str, today: &str) -> (r: i64)
    ensures
        r == days_past(until@, today@),
        -4_000_000 < r < 4_000_000,
{
    match (days_from_civil(until), days_from_civil(today)) {
        (Some(u), Some(t)) => t - u - 1,
        _ => 0,
    }
}

/// Two digits, written with a leading zero.
proof fn lemma_two(n: int)
    requires
        0 <= n < 100,
    ensures
        padded(n, 2) == seq![digit((n / 10) as nat), digit((n % 10) as nat)],
{
    reveal_with_fuel(decimal, 2);
    assert(padded(n, 2) =~= seq![digit((n / 10) as nat), digit((n % 10) as nat)]);
}

/// Four digits, written with leading zeros.
proof fn lemma_four(n: int)
    requires
        0 <= n < 10_000,
    ensures
        padded(n, 4) == seq![
            digit((n / 1000) as nat),
            digit((n / 100 % 10) as nat),
            digit((n / 10 % 10) as nat),
            digit((n % 10) as nat),
        ],
{
    reveal_with_fuel(decimal, 4);
    assert(n / 10 / 10 == n / 100);
    assert(n / 100 / 10 == n / 1000);
    assert(padded(n, 4) =~= seq![
        digit((n / 1000) as nat),
        digit((n / 100 % 10) as nat),
        digit((n / 10 % 10) as nat),
        digit((n % 10) as nat),
    ]);
}

/// Reading undoes writing: the text of a calendar date of a four-digit year counts as the day that
/// the date falls on.
pub proof fn dates_read_back(y: int, m: int, d: int)
    requires
        is_calendar_date(y, m, d),
        0 <= y <= 9999,
    ensures
        text_day(date_text(y, m, d)) == Some(day_number(y, m, d)),
{
    reveal_strlit("-");
    lemma_four(y);
    lemma_two(m);
    lemma_two(d);
    let t = date_text(y, m, d);
    assert(t =~= seq![
        digit((y / 1000) as nat),
        digit((y / 100 % 10) as nat),
        digit((y / 10 % 10) as nat),
        digit((y % 10) as nat),
        '-',
        digit((m / 10) as nat),
        digit((m % 10) as nat),
        '-',
        digit((d / 10) as nat),
        digit((d % 10) as nat),
    ]);
    assert(two_digits(t, 0) == 10 * (y / 1000) + y / 100 % 10);
    assert(two_digits(t, 2) == 10 * (y / 10 % 10) + y % 10);
    assert(two_digits(t, 5) == m);
    assert(two_digits(t, 8) == d);
    assert(100 * two_digits(t, 0) + two_digits(t, 2) == y);
    assert(is_date(t));
}

} // verus!
