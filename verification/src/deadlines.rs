//! How the sidebar words a sunset date.

use vstd::prelude::*;

use crate::dates::{days_from_now, days_past};
use crate::text::{
    chars_of, decimal, digits_string, skip_white, skip_whitespace, slice_string, trim, trimmed,
};
use crate::until::{find_marker, first_marker, marker_end, match_marker};

verus! {

/// The three sections of the deprecated list.
#[derive(Debug, Clone, Copy, PartialEq, Eq, Structural)]
pub enum Variant {
    Expired,
    Upcoming,
    Undated,
}

impl Variant {
    /// Section title.
    pub open spec fn heading(self) -> Seq<char> {
        match self {
            Variant::Expired => "EXPIRED"@,
            Variant::Upcoming => "UPCOMING"@,
            Variant::Undated => "DEPRECATED"@,
        }
    }

    /// Section title.
    pub fn title(self) -> (r: &'static str)
        ensures
            r@ == self.heading(),
    {
        match self {
            Variant::Expired => "EXPIRED",
            Variant::Upcoming => "UPCOMING",
            Variant::Undated => "DEPRECATED",
        }
    }
}

/// The digits with a comma before each three that end them.
pub open spec fn grouped(digits: Seq<char>) -> Seq<char>
    decreases digits.len(),
{
    if digits.len() <= 3 {
        digits
    } else {
        grouped(digits.take(digits.len() - 3)).push(',') + digits.skip(digits.len() - 3)
    }
}

/// A number with its digits in groups of three.
pub open spec fn grouped_number(n: int) -> Seq<char> {
    if n < 0 {
        seq!['-'] + grouped(decimal((-n) as nat))
    } else {
        grouped(decimal(n as nat))
    }
}

fn group_chars(digits: &Vec<char>, end: usize) -> (r: String)
    requires
        end <= digits@.len(),
    ensures
        r@ == grouped(digits@.take(end as int)),
    decreases end,
{
    let ghost part = digits@.take(end as int);
    if end <= 3 {
        let r = slice_string(digits, 0, end);
        assert(digits@.subrange(0, end as int) =~= part);
        r
    } else {
        let mut r = group_chars(digits, end - 3);
        assert(part.take(part.len() - 3) =~= digits@.take(end - 3));
        r.push(',');
        let tail = slice_string(digits, end - 3, end);
        assert(digits@.subrange(end - 3, end as int) =~= part.skip(part.len() - 3));
        r.append(tail.as_str());
        r
    }
}

/// `20683` as `20,683`.
pub fn group_digits(n: i64) -> (r: String)
    requires
        n > i64::MIN,
    ensures
        r@ == grouped_number(n as int),
{
    let digits = if n < 0 { digits_string((-n) as u64) } else { digits_string(n as u64) };
    let chars = chars_of(&digits);
    let text = group_chars(&chars, chars.len());
    assert(chars@.take(chars@.len() as int) =~= chars@);
    if n < 0 {
        let mut r = String::new();
        r.push('-');
        r.append(text.as_str());
        assert(r@ =~= grouped_number(n as int));
        r
    } else {
        text
    }
}

/// A reason without its leftmost until marker and the white space after that, trimmed.
pub open spec fn without_marker(reason: Seq<char>) -> Seq<char> {
    let m = first_marker(reason, 0);
    if m < reason.len() {
        trim(reason.take(m) + reason.skip(skip_white(reason, marker_end(reason, m + 1))))
    } else {
        trim(reason)
    }
}

/// Drops the `[until YYYY-MM-DD]` marker from a reason: the leftmost one, with the white space
/// after it. What is left is trimmed.
pub fn strip_until(reason: &str) -> (r: String)
    ensures
        r@ == without_marker(reason@),
{
    let s = chars_of(reason);
    let m: usize = find_marker(&s);
    if m < s.len() {
        match match_marker(&s, m + 1) {
            Some((_, end)) => {
                let from: usize = skip_whitespace(&s, end);
                let mut left = slice_string(&s, 0, m);
                assert(s@.subrange(0, m as int) =~= reason@.take(m as int));
                let right = slice_string(&s, from, s.len());
                assert(s@.subrange(from as int, s@.len() as int) =~= reason@.skip(from as int));
                left.append(right.as_str());
                trimmed(left.as_str())
            },
            None => trimmed(reason),
        }
    } else {
        trimmed(reason)
    }
}

/// How far past or short of its date a member is.
pub open spec fn when_text(variant: Variant, days: int) -> Seq<char> {
    match variant {
        Variant::Expired => if days > 0 {
            grouped_number(days) + "d overdue"@
        } else {
            "overdue"@
        },
        _ => if days < 0 {
            "in "@ + grouped_number(-days) + "d"@
        } else {
            "due today"@
        },
    }
}

/// The second line of a row: how far past or short of its date the member is, joined with its
/// reason. A member without a date shows its reason alone.
pub open spec fn meta_text(
    variant: Variant,
    until: Option<Seq<char>>,
    reason: Option<Seq<char>>,
    today: Seq<char>,
) -> Seq<char> {
    if variant == Variant::Undated {
        match reason {
            Some(r) => r,
            None => "deprecated"@,
        }
    } else {
        let date = match until {
            Some(u) => u,
            None => Seq::empty(),
        };
        let when = when_text(variant, days_past(date, today));
        match reason {
            Some(r) => when + " · "@ + without_marker(r),
            None => when,
        }
    }
}

fn when_string(variant: Variant, days: i64) -> (r: String)
    requires
        -4_000_000 < days < 4_000_000,
        variant != Variant::Undated,
    ensures
        r@ == when_text(variant, days as int),
{
    match variant {
        Variant::Expired => if days > 0 {
            let mut r = group_digits(days);
            r.append("d overdue");
            r
        } else {
            "overdue".to_owned()
        },
        _ => if days < 0 {
            let mut r = "in ".to_owned();
            r.append(group_digits(-days).as_str());
            r.append("d");
            r
        } else {
            "due today".to_owned()
        },
    }
}

/// The second line of a row of the deprecated list.
pub fn meta_line(variant: Variant, until: Option<&str>, reason: Option<&str>, today: &str) -> (r:
    String)
    ensures
        r@ == meta_text(variant, until.deep_view(), reason.deep_view(), today@),
{
    match variant {
        Variant::Undated => match reason {
            Some(r) => r.to_owned(),
            None => "deprecated".to_owned(),
        },
        _ => {
            let date: &str = match until {
                Some(u) => u,
                None => "",
            };
            proof {
                reveal_strlit("");
                assert(""@ =~= Seq::<char>::empty());
            }
            let mut when = when_string(variant, days_from_now(date, today));
            match reason {
                Some(r) => {
                    when.append(" · ");
                    when.append(strip_until(r).as_str());
                },
                None => {},
            }
            when
        },
    }
}

} // verus!
