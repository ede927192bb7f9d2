//! Sunset dates encoded inside a `@deprecated` reason.
//!
//! Some schemas write the convention `[until YYYY-MM-DD]`, e.g.
//!
//! ```graphql
//! incomeCoupons: [IncomeCoupon!]! @deprecated(reason: "[until 2026-08-18] no longer used")
//! ```
//!
//! Once that date has passed the field is *expired*: it was scheduled for removal and is overdue.
//! The marker is `[`, optional white space, the word `until` in any case, white space, the date,
//! optional white space and `]`; the leftmost one counts.

use vstd::prelude::*;

use crate::text::{
    ascii_lower, chars_of, digit_value, is_ascii_digit, is_digit, lower_ascii, skip_white,
    skip_whitespace, slice_string, value_of_digit,
};

verus! {

/// The word `until`, in any case, stands in `s` at `i`.
pub open spec fn keyword_at(s: Seq<char>, i: int) -> bool {
    &&& 0 <= i && i + 5 <= s.len()
    &&& ascii_lower(s[i]) == 'u' && ascii_lower(s[i + 1]) == 'n' && ascii_lower(s[i + 2]) == 't'
    &&& ascii_lower(s[i + 3]) == 'i' && ascii_lower(s[i + 4]) == 'l'
}

/// Ten characters of the shape `dddd-dd-dd` stand in `s` at `i`.
pub open spec fn iso_date_at(s: Seq<char>, i: int) -> bool {
    &&& 0 <= i && i + 10 <= s.len()
    &&& is_digit(s[i]) && is_digit(s[i + 1]) && is_digit(s[i + 2]) && is_digit(s[i + 3])
    &&& s[i + 4] == '-' && is_digit(s[i + 5]) && is_digit(s[i + 6])
    &&& s[i + 7] == '-' && is_digit(s[i + 8]) && is_digit(s[i + 9])
}

/// Where the date of a marker starts whose `[` stands just before `i`.
pub open spec fn marker_date(s: Seq<char>, i: int) -> int {
    skip_white(s, skip_white(s, i) + 5)
}

/// Where a marker ends, past its `]`, whose `[` stands just before `i`.
pub open spec fn marker_end(s: Seq<char>, i: int) -> int {
    skip_white(s, marker_date(s, i) + 10) + 1
}

/// An until marker stands in `s`, its `[` just before `i`.
pub open spec fn is_marker(s: Seq<char>, i: int) -> bool {
    &&& keyword_at(s, skip_white(s, i))
    &&& marker_date(s, i) > skip_white(s, i) + 5
    &&& iso_date_at(s, marker_date(s, i))
    &&& marker_end(s, i) <= s.len() && s[marker_end(s, i) - 1] == ']'
}

/// The first place from `i` on where a marker's `[` stands, or the length of `s`.
pub open spec fn first_marker(s: Seq<char>, i: int) -> int
    decreases s.len() - i,
{
    if i >= s.len() || i < 0 {
        s.len() as int
    } else if s[i] == '[' && is_marker(s, i + 1) {
        i
    } else {
        first_marker(s, i + 1)
    }
}

/// The date of the leftmost marker.
pub open spec fn until_date(s: Seq<char>) -> Option<Seq<char>> {
    let m = first_marker(s, 0);
    if m < s.len() {
        Some(s.subrange(marker_date(s, m + 1), marker_date(s, m + 1) + 10))
    } else {
        None
    }
}

/// The date of the leftmost marker of a reason, where there is a reason.
pub open spec fn until_of(reason: Option<Seq<char>>) -> Option<Seq<char>> {
    match reason {
        Some(s) => until_date(s),
        None => None,
    }
}

/// Whether ten characters of the shape `dddd-dd-dd` stand at `i`; shape only.
pub(crate) fn is_iso_date_shape(s: &Vec<char>, i: usize) -> (r: bool)
    requires
        i <= s@.len(),
    ensures
        r == iso_date_at(s@, i as int),
{
    if s.len() - i < 10 {
        return false;
    }
    is_ascii_digit(s[i]) && is_ascii_digit(s[i + 1]) && is_ascii_digit(s[i + 2]) && is_ascii_digit(
        s[i + 3],
    ) && s[i + 4] == '-' && is_ascii_digit(s[i + 5]) && is_ascii_digit(s[i + 6]) && s[i + 7] == '-'
        && is_ascii_digit(s[i + 8]) && is_ascii_digit(s[i + 9])
}

fn is_keyword(s: &Vec<char>, i: usize) -> (r: bool)
    requires
        i <= s@.len(),
    ensures
        r == keyword_at(s@, i as int),
{
    if s.len() - i < 5 {
        return false;
    }
    lower_ascii(s[i]) == 'u' && lower_ascii(s[i + 1]) == 'n' && lower_ascii(s[i + 2]) == 't'
        && lower_ascii(s[i + 3]) == 'i' && lower_ascii(s[i + 4]) == 'l'
}

/// Where the date of the marker at `i` starts and where the marker ends, if one stands there; `i`
/// is just past the opening `[`.
pub(crate) fn match_marker(s: &Vec<char>, i: usize) -> (r: Option<(usize, usize)>)
    requires
        i <= s@.len(),
    ensures
        r is Some <==> is_marker(s@, i as int),
        r matches Some((d, e)) ==> d == marker_date(s@, i as int) && e == marker_end(s@, i as int),
{
    let n: usize = s.len();
    let k: usize = skip_whitespace(s, i);
    if !is_keyword(s, k) {
        return None;
    }
    let d: usize = skip_whitespace(s, k + 5);
    if d == k + 5 {
        return None;
    }
    if !is_iso_date_shape(s, d) {
        return None;
    }
    let e: usize = skip_whitespace(s, d + 10);
    if e < n && s[e] == ']' {
        Some((d, e + 1))
    } else {
        None
    }
}

/// Where the leftmost marker's `[` stands, or the length of `s`.
pub(crate) fn find_marker(s: &Vec<char>) -> (r: usize)
    ensures
        r == first_marker(s@, 0),
        r < s@.len() ==> s@[r as int] == '[' && is_marker(s@, r + 1),
        r <= s@.len(),
{
    let mut i: usize = 0;
    while i < s.len()
        invariant
            i <= s@.len(),
            first_marker(s@, 0) == first_marker(s@, i as int),
        decreases s@.len() - i,
    {
        if s[i] == '[' {
            if match_marker(s, i + 1).is_some() {
                return i;
            }
        }
        i = i + 1;
    }
    i
}

/// Extracts the `YYYY-MM-DD` sunset date from a deprecation reason. Returns `None` when the reason
/// carries no `[until …]` marker.
pub fn parse_until(reason: Option<&str>) -> (r: Option<String>)
    ensures
        r.deep_view() == until_of(reason.deep_view()),
{
    match reason {
        None => None,
        Some(text) => {
            let s = chars_of(text);
            let m: usize = find_marker(&s);
            if m < s.len() {
                match match_marker(&s, m + 1) {
                    Some((d, _)) => Some(slice_string(&s, d, d + 10)),
                    None => None,
                }
            } else {
                None
            }
        },
    }
}

/// The number that two digits at `i` write.
pub open spec fn two_digits(s: Seq<char>, i: int) -> int {
    10 * digit_value(s[i]) + digit_value(s[i + 1])
}

/// Year, month and day of a date as one number that grows with the date.
pub open spec fn date_key(s: Seq<char>) -> int {
    1_000_000 * two_digits(s, 0) + 10_000 * two_digits(s, 2) + 100 * two_digits(s, 5) + two_digits(
        s,
        8,
    )
}

/// A date in shape, with a month of the year and a day that some month has.
pub open spec fn is_date(s: Seq<char>) -> bool {
    &&& s.len() == 10
    &&& iso_date_at(s, 0)
    &&& 1 <= two_digits(s, 5) <= 12
    &&& 1 <= two_digits(s, 8) <= 31
}

/// The date `until` lies strictly before `today`.
pub open spec fn expired(until: Option<Seq<char>>, today: Seq<char>) -> bool {
    match until {
        Some(u) => is_date(u) && is_date(today) && date_key(u) < date_key(today),
        None => false,
    }
}

pub(crate) fn read_two(s: &Vec<char>, i: usize) -> (r: u32)
    requires
        i + 2 <= s.len(),
        is_digit(s@[i as int]),
        is_digit(s@[i + 1]),
    ensures
        r == two_digits(s@, i as int),
        r <= 99,
{
    10 * value_of_digit(s[i]) + value_of_digit(s[i + 1])
}

/// The key of a valid date.
fn valid_date(text: &str) -> (r: Option<u32>)
    ensures
        r is Some <==> is_date(text@),
        r matches Some(k) ==> k == date_key(text@),
{
    let s = chars_of(text);
    if s.len() != 10 || !is_iso_date_shape(&s, 0) {
        return None;
    }
    let month: u32 = read_two(&s, 5);
    let day: u32 = read_two(&s, 8);
    if 1 <= month && month <= 12 && 1 <= day && day <= 31 {
        Some(1_000_000 * read_two(&s, 0) + 10_000 * read_two(&s, 2) + 100 * month + day)
    } else {
        None
    }
}

/// True when `until` (a `YYYY-MM-DD` date) lies strictly before `today` (also `YYYY-MM-DD`).
///
/// The marker means the end of that calendar day: a field marked `[until 2026-08-18]` only counts
/// as expired once 2026-08-18 is fully over. Malformed input on either side yields `false`.
pub fn is_until_expired(until: Option<&str>, today: &str) -> (r: bool)
    ensures
        r == expired(until.deep_view(), today@),
{
    match until {
        None => false,
        Some(u) => match (valid_date(u), valid_date(today)) {
            (Some(a), Some(b)) => a < b,
            _ => false,
        },
    }
}

/// Once expired, always expired: a date that has passed on one day has passed on every later one.
pub proof fn expiry_lasts(until: Seq<char>, today: Seq<char>, later: Seq<char>)
    requires
        expired(Some(until), today),
        is_date(later),
        date_key(today) <= date_key(later),
    ensures
        expired(Some(until), later),
{
}

/// The date that a marker gives has the shape of a date.
pub proof fn until_date_has_date_shape(reason: Seq<char>)
    ensures
        until_date(reason) matches Some(d) ==> d.len() == 10 && iso_date_at(d, 0),
{
    lemma_first_marker(reason, 0);
}

proof fn lemma_first_marker(s: Seq<char>, i: int)
    requires
        0 <= i,
    ensures
        first_marker(s, i) < s.len() ==> i <= first_marker(s, i) && is_marker(s, first_marker(s, i) + 1),
    decreases s.len() - i,
{
    if i < s.len() && !(s[i] == '[' && is_marker(s, i + 1)) {
        lemma_first_marker(s, i + 1);
    }
}

} // verus!
