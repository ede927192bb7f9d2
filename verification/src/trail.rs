//! Focus on the canvas: which card is in the middle, the way back, what a click on a row does, and
//! the status line.

use vstd::prelude::*;

use crate::cards::{Card, RowModel};
use crate::text::{chars_of, decimal, decimal_string, slice_string};
use crate::words::{one_line, spaced, words};

verus! {

/// How many steps back are remembered.
pub const HISTORY_LIMIT: usize = 64;

/// How many of them are listed.
pub const LISTED: usize = 8;

/// How much of a description the status line shows.
pub const EXCERPT: usize = 120;

// ── focus and the way back ─────────────────────────────────────────────────

/// The focused card and the cards that were focused before it, the latest last.
#[derive(Debug, PartialEq, Eq)]
pub struct Trail {
    pub focus: Option<u32>,
    pub history: Vec<u32>,
    /// The next card is reached by going back, and leaves no step behind.
    pub going_back: bool,
}

/// The steps with one more behind them; the oldest goes where there are too many.
pub open spec fn remembered(history: Seq<u32>, step: u32) -> Seq<u32> {
    if history.len() < 64 {
        history.push(step)
    } else {
        history.push(step).skip(1)
    }
}

impl Trail {
    /// No more steps are kept than the limit.
    pub open spec fn well_formed(self) -> bool {
        self.history@.len() <= 64
    }

    /// Nothing focused yet.
    pub fn new() -> (r: Self)
        ensures
            r.focus is None,
            r.history@ == Seq::<u32>::empty(),
            !r.going_back,
            r.well_formed(),
    {
        Trail { focus: None, history: Vec::new(), going_back: false }
    }

    /// Focuses a card. The card that had the focus becomes a step back, unless it is the same card
    /// or the way led back.
    pub fn center_on(&mut self, card: u32)
        requires
            old(self).well_formed(),
        ensures
            final(self).well_formed(),
            final(self).focus == Some(card),
            !final(self).going_back,
            final(self).history@ == (match old(self).focus {
                Some(f) => if old(self).going_back || f == card {
                    old(self).history@
                } else {
                    remembered(old(self).history@, f)
                },
                None => old(self).history@,
            }),
    {
        if !self.going_back {
            match self.focus {
                Some(f) => {
                    if f != card {
                        let ghost before = self.history@;
                        self.history.push(f);
                        if self.history.len() > HISTORY_LIMIT {
                            self.history.remove(0);
                            assert(self.history@ =~= before.push(f).skip(1));
                        }
                    }
                },
                None => {},
            }
        }
        self.going_back = false;
        self.focus = Some(card);
    }

    /// Takes one step back: the card to focus next, where there is one.
    pub fn go_back(&mut self) -> (r: Option<u32>)
        requires
            old(self).well_formed(),
        ensures
            final(self).well_formed(),
            final(self).focus == old(self).focus,
            old(self).history@.len() == 0 ==> r is None && final(self).history@ == old(self).history@
                && final(self).going_back == old(self).going_back,
            old(self).history@.len() > 0 ==> r == Some(old(self).history@.last())
                && final(self).history@ == old(self).history@.drop_last() && final(self).going_back,
    {
        match self.history.pop() {
            Some(card) => {
                self.going_back = true;
                Some(card)
            },
            None => None,
        }
    }

    /// Forgets everything: another slice is shown.
    pub fn reset(&mut self)
        ensures
            final(self).focus is None,
            final(self).history@ == Seq::<u32>::empty(),
            !final(self).going_back,
            final(self).well_formed(),
    {
        self.focus = None;
        self.history.clear();
        self.going_back = false;
    }

    /// The latest steps, the latest first.
    pub fn history_entries(&self) -> (r: Vec<u32>)
        ensures
            r@.len() == (if self.history@.len() < 8 {
                self.history@.len()
            } else {
                8
            }),
            forall|i: int|
                0 <= i < r@.len() ==> #[trigger] r@[i] == self.history@[self.history@.len() - 1 - i],
    {
        let n: usize = self.history.len();
        let mut out: Vec<u32> = Vec::new();
        let mut i: usize = 0;
        while i < n && i < LISTED
            invariant
                i <= n == self.history@.len(),
                i <= LISTED,
                out@.len() == i,
                forall|k: int| 0 <= k < i ==> #[trigger] out@[k] == self.history@[n - 1 - k],
            decreases n - i,
        {
            out.push(self.history[n - 1 - i]);
            i = i + 1;
        }
        out
    }
}

/// Going back undoes going on: after focusing another card, the way back leads to the card that had
/// the focus, and the steps before it are as they were, where there was room for one more.
pub proof fn going_back_undoes_going_on(history: Seq<u32>, from: u32)
    requires
        history.len() < 64,
    ensures
        remembered(history, from).last() == from,
        remembered(history, from).drop_last() == history,
{
    assert(history.push(from).drop_last() =~= history);
}

// ── clicks ─────────────────────────────────────────────────────────────────

/// What a click on a body row does.
#[derive(Debug, Clone, Copy, PartialEq, Eq, Structural)]
pub enum RowClick {
    /// Focus another card.
    Navigate(u32),
    /// Pin the row.
    Pin,
}

/// A click on the type of a row, or anywhere on a row without a type, goes to what the row leads to;
/// elsewhere it pins the row, and so does a click on a row that leads nowhere.
pub open spec fn click_on(target: Option<u32>, has_type: bool, on_type: bool) -> RowClick {
    match target {
        Some(t) => if on_type || !has_type {
            RowClick::Navigate(t)
        } else {
            RowClick::Pin
        },
        None => RowClick::Pin,
    }
}

/// What a click on a body row does; `on_type` says whether it fell on the right-aligned type.
pub fn row_click(target: Option<u32>, has_type: bool, on_type: bool) -> (r: RowClick)
    ensures
        r == click_on(target, has_type, on_type),
{
    match target {
        Some(t) => if on_type || !has_type {
            RowClick::Navigate(t)
        } else {
            RowClick::Pin
        },
        None => RowClick::Pin,
    }
}

// ── the status line ────────────────────────────────────────────────────────

/// What the pointer is over.
pub enum Over<'a> {
    Nothing,
    Header(&'a Card),
    Row(&'a Card, usize),
    Implements(&'a Card, usize),
    MemberOfUnion(&'a Card, usize),
}

impl<'a> Over<'a> {
    /// The row is one of the card's.
    pub open spec fn is_there(self) -> bool {
        match self {
            Over::Row(c, i) => i < c.rows@.len(),
            Over::Implements(c, i) => i < c.implements@.len(),
            Over::MemberOfUnion(c, i) => i < c.member_of_unions@.len(),
            _ => true,
        }
    }
}

/// The start of a description on one line, in quotes.
pub open spec fn excerpt(description: Seq<char>) -> Seq<char> {
    let line = spaced(words(description));
    if line.len() > 120 {
        "   “"@ + line.take(120) + "…”"@
    } else {
        "   “"@ + line + "”"@
    }
}

/// A row by name: `Type.field: Return`, or `Type::VALUE` for a row without a type.
pub open spec fn row_name(card: Seq<char>, r: RowModel) -> Seq<char> {
    if r.right.len() == 0 {
        card + "::"@ + r.left
    } else {
        card + "."@ + r.left + ": "@ + r.right
    }
}

/// A row by name, and the start of its description.
pub open spec fn row_text(card: Seq<char>, r: RowModel) -> Seq<char> {
    match r.description {
        Some(d) => row_name(card, r) + excerpt(d),
        None => row_name(card, r),
    }
}

/// What the pointer is over, in words.
pub open spec fn over_text(over: Over) -> Seq<char> {
    match over {
        Over::Nothing => Seq::empty(),
        Over::Header(c) => "   —   "@ + c.kind_label@ + " "@ + c.name@,
        Over::Row(c, i) => "   —   "@ + row_text(c.name@, c.rows@[i as int].deep_view()),
        Over::Implements(c, i) => "   —   "@ + c.name@ + " implements "@ + c.implements@[i as int]@,
        Over::MemberOfUnion(c, i) => "   —   "@ + c.name@ + " in union "@
            + c.member_of_unions@[i as int]@,
    }
}

/// The share of documented things in percent; all where there is nothing to document.
pub open spec fn percent(documented: int, total: int) -> int {
    if total > 0 {
        documented * 100 / total
    } else {
        100
    }
}

/// How well the schema is documented.
pub open spec fn coverage_text(documented: nat, total: nat) -> Seq<char> {
    "  ·  desc "@ + decimal(documented) + "/"@ + decimal(total) + " ("@ + decimal(
        percent(documented as int, total as int) as nat,
    ) + "%)"@
}

/// The status line: schema, counts, zoom, overlay marks, frame time and coverage as far as they are
/// given, and what the pointer is over.
pub open spec fn status_text(
    schema: Seq<char>,
    types: nat,
    edges: nat,
    zoom: Seq<char>,
    marks: nat,
    frame: Option<Seq<char>>,
    coverage: Option<(usize, usize)>,
    over: Over,
) -> Seq<char> {
    schema + "  ·  "@ + decimal(types) + " types  ·  "@ + decimal(edges) + " edges  ·  "@ + zoom
        + "%"@ + (if marks > 0 {
        "  ·  overlay +"@ + decimal(marks)
    } else {
        Seq::empty()
    }) + (match frame {
        Some(ms) => "  ·  "@ + ms + "ms"@,
        None => Seq::empty(),
    }) + (match coverage {
        Some((d, t)) => coverage_text(d as nat, t as nat),
        None => Seq::empty(),
    }) + over_text(over)
}

fn excerpt_string(description: &str) -> (r: String)
    ensures
        r@ == excerpt(description@),
{
    let line = one_line(description);
    let v = chars_of(line.as_str());
    let mut r = "   “".to_owned();
    if v.len() > EXCERPT {
        let head = slice_string(&v, 0, EXCERPT);
        assert(v@.subrange(0, 120) =~= v@.take(120));
        r.append(head.as_str());
        r.append("…”");
    } else {
        r.append(line.as_str());
        r.append("”");
    }
    r
}

/// A row by name.
pub(crate) fn row_label(card: &Card, i: usize) -> (r: String)
    requires
        i < card.rows@.len(),
    ensures
        r@ == row_name(card.name@, card.rows@[i as int].deep_view()),
{
    let row = &card.rows[i];
    let mut r = card.name.as_str().to_owned();
    if row.right.as_str().unicode_len() == 0 {
        r.append("::");
        r.append(row.left.as_str());
    } else {
        r.append(".");
        r.append(row.left.as_str());
        r.append(": ");
        r.append(row.right.as_str());
    }
    r
}

fn over_string(over: &Over) -> (r: String)
    requires
        over.is_there(),
    ensures
        r@ == over_text(*over),
{
    match over {
        Over::Nothing => {
            let r = String::new();
            assert(r@ =~= over_text(*over));
            r
        },
        Over::Header(c) => {
            let mut r = "   —   ".to_owned();
            r.append(c.kind_label);
            r.append(" ");
            r.append(c.name.as_str());
            r
        },
        Over::Row(c, i) => {
            let row = &c.rows[*i];
            let mut r = "   —   ".to_owned();
            let ghost lead = r@;
            r.append(row_label(c, *i).as_str());
            match &row.description {
                Some(d) => r.append(excerpt_string(d.as_str()).as_str()),
                None => {},
            }
            assert(r@ =~= lead + row_text(c.name@, row.deep_view()));
            r
        },
        Over::Implements(c, i) => {
            let mut r = "   —   ".to_owned();
            r.append(c.name.as_str());
            r.append(" implements ");
            r.append(c.implements[*i].as_str());
            r
        },
        Over::MemberOfUnion(c, i) => {
            let mut r = "   —   ".to_owned();
            r.append(c.name.as_str());
            r.append(" in union ");
            r.append(c.member_of_unions[*i].as_str());
            r
        },
    }
}

/// The share of documented things in percent.
fn percent_of(documented: usize, total: usize) -> (r: usize)
    requires
        documented <= total,
    ensures
        r == percent(documented as int, total as int),
{
    if total == 0 {
        return 100;
    }
    let share: u128 = documented as u128 * 100 / total as u128;
    assert(documented * 100 / total as int <= 100) by (nonlinear_arith)
        requires
            0 <= documented <= total,
            0 < total,
    ;
    share as usize
}

fn marks_string(marks: usize) -> (r: String)
    ensures
        r@ == (if marks > 0 {
            "  ·  overlay +"@ + decimal(marks as nat)
        } else {
            Seq::empty()
        }),
{
    if marks == 0 {
        return String::new();
    }
    let mut r = "  ·  overlay +".to_owned();
    r.append(decimal_string(marks).as_str());
    r
}

fn frame_string(frame: Option<&str>) -> (r: String)
    ensures
        r@ == (match frame.deep_view() {
            Some(ms) => "  ·  "@ + ms + "ms"@,
            None => Seq::empty(),
        }),
{
    match frame {
        Some(ms) => {
            let mut r = "  ·  ".to_owned();
            r.append(ms);
            r.append("ms");
            r
        },
        None => String::new(),
    }
}

fn coverage_string(coverage: Option<(usize, usize)>) -> (r: String)
    requires
        coverage matches Some((d, t)) ==> d <= t,
    ensures
        r@ == (match coverage {
            Some((d, t)) => coverage_text(d as nat, t as nat),
            None => Seq::empty(),
        }),
{
    match coverage {
        Some((documented, total)) => {
            let mut r = "  ·  desc ".to_owned();
            r.append(decimal_string(documented).as_str());
            r.append("/");
            r.append(decimal_string(total).as_str());
            r.append(" (");
            r.append(decimal_string(percent_of(documented, total)).as_str());
            r.append("%)");
            r
        },
        None => String::new(),
    }
}

/// The status line under the canvas. `zoom` is the zoom in percent and `frame` the time of a frame
/// in milliseconds, both as text; `coverage` is given in investigate mode.
pub fn status_line(
    schema: &str,
    types: usize,
    edges: usize,
    zoom: &str,
    marks: usize,
    frame: Option<&str>,
    coverage: Option<(usize, usize)>,
    over: &Over,
) -> (r: String)
    requires
        over.is_there(),
        coverage matches Some((d, t)) ==> d <= t,
    ensures
        r@ == status_text(
            schema@,
            types as nat,
            edges as nat,
            zoom@,
            marks as nat,
            frame.deep_view(),
            coverage,
            *over,
        ),
{
    let mut r = schema.to_owned();
    r.append("  ·  ");
    r.append(decimal_string(types).as_str());
    r.append(" types  ·  ");
    r.append(decimal_string(edges).as_str());
    r.append(" edges  ·  ");
    r.append(zoom);
    r.append("%");
    r.append(marks_string(marks).as_str());
    r.append(frame_string(frame).as_str());
    r.append(coverage_string(coverage).as_str());
    r.append(over_string(over).as_str());
    r
}

} // verus!
