//! What a key press does to a text that is being edited: in the multi-line editor and in the search
//! box. Reading and writing the clipboard, repainting and the like are left to the caller, who
//! hands the clipboard's text in and gets told what to do.

use vstd::prelude::*;

use crate::carets::{breaks, cursor_line_col, last_line, offset_for_line_col, place_of};
use crate::text::{chars_of, same};
use crate::textedit::{
    after, before, between, boundaries_step_back, byte_len, first_boundary,
    has_backspaced, has_deleted, has_deleted_forward,
    has_inserted, has_moved, insertion_keeps_both_sides, is_boundary, last_boundary, lemma_boundary_place, lemma_cut,
    lemma_encode_adds, lemma_first_boundary_is, lemma_last_boundary_is, lemma_seam,
    lemma_take_grows, len_of, replaced, TextEdit,
};

verus! {

/// A key press: the key's name, the modifiers, the text that it types, and what the clipboard holds.
pub struct Press<'a> {
    pub key: &'a str,
    /// The platform's command key is down.
    pub command: bool,
    pub shift: bool,
    pub control: bool,
    pub typed: Option<&'a str>,
    pub clipboard: Option<&'a str>,
}

/// What is left to do after a key press.
#[derive(Debug, PartialEq, Eq)]
pub enum Reply {
    /// Nothing: the key means nothing here.
    Ignored,
    /// The text was handed in.
    Submitted,
    /// The text is to be put on the clipboard; nothing else changed.
    Copied(String),
    /// The text was taken out and is to be put on the clipboard.
    Taken(String),
    /// The text may have changed.
    Changed,
    /// Only the caret moved.
    Moved,
}

// ── what steps do ──────────────────────────────────────────────────────────

/// The caret moved one character to the left.
pub open spec fn has_stepped_left(old: TextEdit, new: TextEdit, select: bool) -> bool {
    exists|to: int| #[trigger]
        has_moved(old, new, to, select) && (if old.cursor == 0 {
            to == 0
        } else {
            last_boundary(old.text@, old.cursor as int, to)
        })
}

/// The caret moved one character to the right.
pub open spec fn has_stepped_right(old: TextEdit, new: TextEdit, select: bool) -> bool {
    exists|to: int| #[trigger]
        has_moved(old, new, to, select) && (if old.cursor == byte_len(old.text@) {
            to == byte_len(old.text@)
        } else {
            first_boundary(old.text@, old.cursor as int, to)
        })
}

/// Without a selection, deleting forward at the end changes nothing; elsewhere exactly the one
/// character behind the caret goes, and the caret stays.
pub proof fn delete_forward_takes_one_character(old: TextEdit, new: TextEdit)
    requires
        old.well_formed(),
        old.anchor is None,
        has_deleted_forward(old, new),
    ensures
        new.cursor == old.cursor,
        new.anchor is None,
        old.cursor == byte_len(old.text@) ==> new.text@ == old.text@,
        old.cursor != byte_len(old.text@) ==> {
            &&& after(old.text@, old.cursor as int).len() > 0
            &&& new.text@ == before(old.text@, old.cursor as int) + after(
                old.text@,
                old.cursor as int,
            ).drop_first()
        },
{
    let text = old.text@;
    let at = old.cursor as int;
    let k = lemma_boundary_place(text, at);
    lemma_cut(text, at);
    if at < byte_len(text) {
        let n = choose|n: int| #[trigger]
            first_boundary(text, at, n) && new.text@ == replaced(text, at, n, Seq::empty());
        lemma_first_boundary_is(text, k, n);
        let m = lemma_boundary_place(text, n);
        lemma_place_is(text, m, k + 1);
        assert(text.skip(k + 1) =~= text.skip(k).drop_first());
        assert(new.text@ =~= before(text, at) + after(text, n));
    }
}

proof fn lemma_place_is(text: Seq<char>, i: int, j: int)
    requires
        0 <= i <= text.len(),
        0 <= j <= text.len(),
        byte_len(text.take(i)) == byte_len(text.take(j)),
    ensures
        i == j,
{
    if i < j {
        lemma_take_grows(text, i, j);
    } else if j < i {
        lemma_take_grows(text, j, i);
    }
}

/// Deleting forward leaves the text and the caret as a step to the right and a backspace do.
pub proof fn delete_forward_is_step_and_backspace(
    old: TextEdit,
    new: TextEdit,
    stepped: TextEdit,
    erased: TextEdit,
)
    requires
        old.well_formed(),
        old.anchor is None,
        old.cursor < byte_len(old.text@),
        has_deleted_forward(old, new),
        has_stepped_right(old, stepped, false),
        has_backspaced(stepped, erased),
    ensures
        erased.text@ == new.text@,
        erased.cursor == new.cursor,
        erased.anchor == new.anchor,
{
    let text = old.text@;
    let at = old.cursor as int;
    let k = lemma_boundary_place(text, at);
    let n = choose|n: int| #[trigger]
        first_boundary(text, at, n) && new.text@ == replaced(text, at, n, Seq::empty());
    let to = choose|to: int| #[trigger]
        has_moved(old, stepped, to, false) && first_boundary(text, at, to);
    lemma_first_boundary_is(text, k, n);
    lemma_first_boundary_is(text, k, to);
    boundaries_step_back(text, at, n, erased.cursor as int);
}

/// A character put in and erased again leaves the text and the caret as they were.
pub proof fn backspace_undoes_a_character(old: TextEdit, typed: TextEdit, new: TextEdit, c: char)
    requires
        old.well_formed(),
        old.selected() is None,
        has_inserted(old, typed, seq![c]),
        has_backspaced(typed, new),
    ensures
        new.text@ == old.text@,
        new.cursor == old.cursor,
        new.anchor is None,
{
    let text = old.text@;
    let at = old.cursor as int;
    let k = lemma_boundary_place(text, at);
    let now = typed.text@;
    insertion_keeps_both_sides(text, at, seq![c]);
    assert(now =~= text.take(k) + seq![c] + text.skip(k));
    assert(now.take(k) =~= text.take(k));
    assert(now.take(k + 1) =~= text.take(k) + seq![c]);
    lemma_encode_adds(text.take(k), seq![c]);
    lemma_take_grows(now, k, k + 1);
    if typed.selected() is None {
        lemma_last_boundary_is(now, k + 1, new.cursor as int);
    }
}

/// The line of the caret.
pub open spec fn caret_line(e: TextEdit) -> nat {
    breaks(before(e.text@, e.cursor as int))
}

/// The column of the caret.
pub open spec fn caret_column(e: TextEdit) -> int {
    before(e.text@, e.cursor as int).len() - last_line(before(e.text@, e.cursor as int))
}

/// The byte offset where the caret's line starts.
pub open spec fn caret_line_start(e: TextEdit) -> int {
    let p = before(e.text@, e.cursor as int);
    byte_len(p.take(last_line(p)))
}

/// The byte offset of a line and column.
pub open spec fn offset_at(text: Seq<char>, line: nat, col: int) -> int {
    byte_len(text.take(place_of(text, line, col)))
}

/// A character that types nothing: one of the two control ranges.
pub open spec fn is_control(c: char) -> bool {
    c as u32 <= 0x1f || 0x7f <= c as u32 <= 0x9f
}

/// The key types a text: one without control characters.
pub open spec fn types(typed: Option<Seq<char>>) -> bool {
    typed matches Some(t) && forall|i: int| 0 <= i < t.len() ==> !is_control(#[trigger] t[i])
}

#[verifier::loop_isolation(false)]
fn is_typed(typed: Option<&str>) -> (r: bool)
    ensures
        r == types(typed.deep_view()),
{
    match typed {
        Some(t) => {
            let v = chars_of(t);
            let mut i: usize = 0;
            while i < v.len()
                invariant
                    i <= v@.len(),
                    forall|k: int| 0 <= k < i ==> !is_control(#[trigger] v@[k]),
                decreases v@.len() - i,
            {
                let n: u32 = v[i] as u32;
                if n <= 0x1f || (0x7f <= n && n <= 0x9f) {
                    proof {
                        let whole = typed.deep_view()->0;
                        assert(whole =~= v@);
                        assert(is_control(whole[i as int]));
                    }
                    return false;
                }
                i = i + 1;
            }
            true
        },
        None => false,
    }
}

// ── the multi-line editor ──────────────────────────────────────────────────

/// What a key does in the multi-line editor.
pub open spec fn editor_answers(old: TextEdit, new: TextEdit, p: Press, r: Reply) -> bool {
    let k = p.key@;
    if k == "enter"@ && p.command {
        r == Reply::Submitted && new == old
    } else if k == "enter"@ {
        r == Reply::Changed && has_inserted(old, new, "\n"@)
    } else if k == "tab"@ {
        r == Reply::Changed && has_inserted(old, new, "  "@)
    } else if k == "backspace"@ {
        r == Reply::Changed && has_backspaced(old, new)
    } else if k == "delete"@ {
        r == Reply::Changed && has_deleted_forward(old, new)
    } else if k == "left"@ {
        r == Reply::Moved && if p.command {
            has_moved(old, new, caret_line_start(old), p.shift)
        } else {
            has_stepped_left(old, new, p.shift)
        }
    } else if k == "right"@ {
        r == Reply::Moved && if p.command {
            has_moved(
                old,
                new,
                offset_at(old.text@, caret_line(old), usize::MAX as int),
                p.shift,
            )
        } else {
            has_stepped_right(old, new, p.shift)
        }
    } else if k == "up"@ {
        r == Reply::Moved && if p.command || caret_line(old) == 0 {
            has_moved(old, new, 0, p.shift)
        } else {
            has_moved(
                old,
                new,
                offset_at(old.text@, (caret_line(old) - 1) as nat, caret_column(old)),
                p.shift,
            )
        }
    } else if k == "down"@ {
        r == Reply::Moved && if p.command {
            has_moved(old, new, byte_len(old.text@), p.shift)
        } else {
            has_moved(
                old,
                new,
                offset_at(old.text@, caret_line(old) + 1, caret_column(old)),
                p.shift,
            )
        }
    } else if k == "a"@ && p.command {
        &&& r == Reply::Moved
        &&& new.text@ == old.text@
        &&& new.cursor == byte_len(old.text@)
        &&& new.anchor == Some(0usize)
    } else if k == "c"@ && p.command {
        new == old && match old.selected() {
            Some((low, high)) => r matches Reply::Copied(t) && t@ == between(
                old.text@,
                low as int,
                high as int,
            ),
            None => r == Reply::Ignored,
        }
    } else if k == "x"@ && p.command {
        match old.selected() {
            Some((low, high)) => {
                &&& r matches Reply::Taken(t) && t@ == between(old.text@, low as int, high as int)
                &&& has_deleted(old, new, low as int, high as int)
            },
            None => r == Reply::Moved && new == old,
        }
    } else if k == "v"@ && p.command {
        match p.clipboard {
            Some(t) => r == Reply::Changed && has_inserted(old, new, t@),
            None => r == Reply::Moved && new == old,
        }
    } else if !p.command && !p.control && types(p.typed.deep_view()) {
        r == Reply::Changed && has_inserted(old, new, p.typed->0@)
    } else {
        r == Reply::Ignored && new == old
    }
}

/// What a key press does in the multi-line editor.
///
/// The editor stays well-formed, but for a backspace beside an anchor that is collapsed onto the
/// caret: such an anchor stays where it is.
pub fn editor_press(edit: &mut TextEdit, p: &Press) -> (r: Reply)
    requires
        old(edit).well_formed(),
        old(edit).text@.len() < usize::MAX,
    ensures
        editor_answers(*old(edit), *final(edit), *p, r),
        p.key@ == "backspace"@ && old(edit).anchor == Some(old(edit).cursor) && old(edit).cursor > 0
            || final(edit).well_formed(),
{
    let ghost start = *edit;
    if same(p.key, "enter") {
        if p.command {
            return Reply::Submitted;
        }
        edit.insert("\n");
        return Reply::Changed;
    }
    if same(p.key, "tab") {
        edit.insert("  ");
        return Reply::Changed;
    }
    if same(p.key, "backspace") {
        edit.backspace();
        return Reply::Changed;
    }
    if same(p.key, "delete") {
        edit.delete_forward();
        return Reply::Changed;
    }
    if same(p.key, "left") {
        if p.command {
            let to: usize = cursor_line_col(edit.text.as_str(), edit.cursor).1;
            edit.move_cursor(to, p.shift);
        } else {
            step_left(edit, p.shift);
        }
        return Reply::Moved;
    }
    if same(p.key, "right") {
        if p.command {
            let line: usize = cursor_line_col(edit.text.as_str(), edit.cursor).0;
            let to: usize = offset_for_line_col(edit.text.as_str(), line, usize::MAX);
            edit.move_cursor(to, p.shift);
        } else {
            step_right(edit, p.shift);
        }
        return Reply::Moved;
    }
    if same(p.key, "up") {
        let (line, _, col) = cursor_line_col(edit.text.as_str(), edit.cursor);
        let to: usize = if p.command || line == 0 {
            0
        } else {
            offset_for_line_col(edit.text.as_str(), line - 1, col)
        };
        proof {
            lemma_ends(edit.text@);
        }
        edit.move_cursor(to, p.shift);
        return Reply::Moved;
    }
    if same(p.key, "down") {
        let (line, _, col) = cursor_line_col(edit.text.as_str(), edit.cursor);
        proof {
            lemma_breaks_within(edit.text@, edit.cursor as int);
        }
        let to: usize = if p.command {
            len_of(edit.text.as_str())
        } else {
            offset_for_line_col(edit.text.as_str(), line + 1, col)
        };
        proof {
            lemma_ends(edit.text@);
        }
        edit.move_cursor(to, p.shift);
        return Reply::Moved;
    }
    if p.command && same(p.key, "a") {
        let len: usize = len_of(edit.text.as_str());
        proof {
            lemma_ends(edit.text@);
        }
        edit.anchor = Some(0);
        edit.cursor = len;
        return Reply::Moved;
    }
    if p.command && same(p.key, "c") {
        return match edit.selected_text() {
            Some(t) => Reply::Copied(t.to_owned()),
            None => Reply::Ignored,
        };
    }
    if p.command && same(p.key, "x") {
        let taken: Option<String> = match edit.selected_text() {
            Some(t) => Some(t.to_owned()),
            None => None,
        };
        edit.delete_selection();
        return match taken {
            Some(t) => Reply::Taken(t),
            None => Reply::Moved,
        };
    }
    if p.command && same(p.key, "v") {
        return match p.clipboard {
            Some(t) => {
                edit.insert(t);
                Reply::Changed
            },
            None => Reply::Moved,
        };
    }
    if p.command || p.control || !is_typed(p.typed) {
        return Reply::Ignored;
    }
    match p.typed {
        Some(t) => {
            edit.insert(t);
            Reply::Changed
        },
        None => Reply::Ignored,
    }
}

proof fn lemma_ends(text: Seq<char>)
    ensures
        is_boundary(text, 0),
        is_boundary(text, byte_len(text)),
{
    let none = Seq::<char>::empty();
    lemma_seam(none, text);
    assert(none + text =~= text);
    lemma_seam(text, none);
    assert(text + none =~= text);
    assert(byte_len(none) == 0);
}

/// A text has no more line breaks than characters, and its parts no more than it has.
proof fn lemma_breaks_within(text: Seq<char>, at: int)
    requires
        is_boundary(text, at),
    ensures
        breaks(before(text, at)) <= text.len(),
{
    lemma_cut(text, at);
    lemma_breaks(before(text, at));
}

proof fn lemma_breaks(s: Seq<char>)
    ensures
        breaks(s) <= s.len(),
    decreases s.len(),
{
    if s.len() > 0 {
        lemma_breaks(s.drop_last());
    }
}

fn step_left(edit: &mut TextEdit, select: bool)
    requires
        old(edit).well_formed(),
    ensures
        has_stepped_left(*old(edit), *final(edit), select),
        final(edit).well_formed(),
{
    let ghost start = *edit;
    proof {
        lemma_cut(edit.text@, edit.cursor as int);
        lemma_ends(edit.text@);
    }
    let to: usize = edit.prev_boundary(edit.cursor);
    edit.move_cursor(to, select);
    assert(has_moved(start, *edit, to as int, select));
}

fn step_right(edit: &mut TextEdit, select: bool)
    requires
        old(edit).well_formed(),
    ensures
        has_stepped_right(*old(edit), *final(edit), select),
        final(edit).well_formed(),
{
    let ghost start = *edit;
    proof {
        lemma_cut(edit.text@, edit.cursor as int);
        lemma_ends(edit.text@);
    }
    let to: usize = edit.next_boundary(edit.cursor);
    edit.move_cursor(to, select);
    assert(has_moved(start, *edit, to as int, select));
}

// ── the pointer ────────────────────────────────────────────────────────────

/// A press puts the caret at `at` and drops the selection.
pub fn press_at(edit: &mut TextEdit, at: usize)
    requires
        is_boundary(old(edit).text@, at as int),
    ensures
        final(edit).text@ == old(edit).text@,
        final(edit).cursor == at,
        final(edit).anchor is None,
        final(edit).well_formed(),
{
    edit.anchor = None;
    edit.cursor = at;
}

/// Dragging draws the selection from where the caret was to `at`.
pub fn drag_to(edit: &mut TextEdit, at: usize)
    requires
        old(edit).well_formed(),
        is_boundary(old(edit).text@, at as int),
    ensures
        final(edit).text@ == old(edit).text@,
        final(edit).cursor == at,
        final(edit).anchor == (if old(edit).anchor is None {
            Some(old(edit).cursor)
        } else {
            old(edit).anchor
        }),
        final(edit).well_formed(),
{
    if edit.anchor.is_none() {
        edit.anchor = Some(edit.cursor);
    }
    edit.cursor = at;
}

/// Letting go keeps the selection, but drops an empty one.
pub fn release(edit: &mut TextEdit)
    requires
        old(edit).well_formed(),
    ensures
        final(edit).text@ == old(edit).text@,
        final(edit).cursor == old(edit).cursor,
        final(edit).anchor == (if old(edit).anchor == Some(old(edit).cursor) {
            None
        } else {
            old(edit).anchor
        }),
        final(edit).selected() == old(edit).selected(),
        final(edit).well_formed(),
{
    match edit.anchor {
        Some(a) => {
            if a == edit.cursor {
                edit.anchor = None;
            }
        },
        None => {},
    }
}

// ── the search box ─────────────────────────────────────────────────────────

/// What is left to do after a key press in the search box.
#[derive(Debug, PartialEq, Eq)]
pub enum SearchReply {
    /// Nothing: the key means nothing here.
    Ignored,
    /// The text is to be put on the clipboard; nothing else changed.
    Copied(String),
    /// The text was taken out and is to be put on the clipboard; the search is to be run again.
    Taken(String),
    /// The search is to be run again.
    Changed,
    /// The box was emptied and loses the focus; the search is to be run again.
    Left,
    /// Only the caret or the selection moved.
    Moved,
    /// This hit is the active one now.
    Active(usize),
    /// This hit was picked.
    Picked(usize),
}

/// What a key does in the search box, with `active` the active one of `hits` hits.
pub open spec fn search_answers(
    old: TextEdit,
    new: TextEdit,
    p: Press,
    active: usize,
    hits: usize,
    r: SearchReply,
) -> bool {
    let k = p.key@;
    if p.command {
        if k == "a"@ {
            &&& r == SearchReply::Moved
            &&& new.text@ == old.text@
            &&& byte_len(old.text@) == 0 ==> new.cursor == old.cursor && new.anchor == old.anchor
            &&& byte_len(old.text@) > 0 ==> new.cursor == byte_len(old.text@) && new.anchor
                == Some(0usize)
        } else if k == "c"@ {
            new == old && match old.selected() {
                Some((low, high)) => r matches SearchReply::Copied(t) && t@ == between(
                    old.text@,
                    low as int,
                    high as int,
                ),
                None => r == SearchReply::Ignored,
            }
        } else if k == "x"@ {
            match old.selected() {
                Some((low, high)) => {
                    &&& r matches SearchReply::Taken(t) && t@ == between(
                        old.text@,
                        low as int,
                        high as int,
                    )
                    &&& has_deleted(old, new, low as int, high as int)
                },
                None => r == SearchReply::Ignored && new == old,
            }
        } else if k == "v"@ {
            match p.clipboard {
                Some(t) => r == SearchReply::Changed && has_inserted(old, new, t@),
                None => r == SearchReply::Ignored && new == old,
            }
        } else if k == "left"@ {
            r == SearchReply::Moved && has_moved(old, new, 0, p.shift)
        } else if k == "right"@ {
            r == SearchReply::Moved && has_moved(old, new, byte_len(old.text@), p.shift)
        } else {
            r == SearchReply::Ignored && new == old
        }
    } else if p.control {
        r == SearchReply::Ignored && new == old
    } else if k == "backspace"@ {
        r == SearchReply::Changed && has_backspaced(old, new)
    } else if k == "delete"@ {
        r == SearchReply::Changed && has_deleted_forward(old, new)
    } else if k == "left"@ {
        r == SearchReply::Moved && has_stepped_left(old, new, p.shift)
    } else if k == "right"@ {
        r == SearchReply::Moved && has_stepped_right(old, new, p.shift)
    } else if k == "home"@ {
        r == SearchReply::Moved && has_moved(old, new, 0, p.shift)
    } else if k == "end"@ {
        r == SearchReply::Moved && has_moved(old, new, byte_len(old.text@), p.shift)
    } else if k == "escape"@ {
        &&& r == SearchReply::Left
        &&& new.text@ == Seq::<char>::empty()
        &&& new.cursor == 0
        &&& new.anchor is None
    } else if k == "up"@ {
        new == old && r == SearchReply::Active(if active > 0 {
            (active - 1) as usize
        } else {
            0
        })
    } else if k == "down"@ {
        new == old && r == SearchReply::Active(
            if active + 1 < hits {
                (active + 1) as usize
            } else if hits > 0 {
                (hits - 1) as usize
            } else {
                0
            },
        )
    } else if k == "enter"@ {
        new == old && r == SearchReply::Picked(active)
    } else if types(p.typed.deep_view()) {
        r == SearchReply::Changed && has_inserted(old, new, p.typed->0@)
    } else if p.typed is Some {
        r == SearchReply::Moved && new == old
    } else {
        r == SearchReply::Ignored && new == old
    }
}

/// What a key press does in the search box. Up, down and enter drive the list of hits, not the text:
/// there is only one line to move within.
///
/// The box stays well-formed, but for a backspace beside an anchor that is collapsed onto the
/// caret: such an anchor stays where it is.
pub fn search_press(edit: &mut TextEdit, p: &Press, active: usize, hits: usize) -> (r: SearchReply)
    requires
        old(edit).well_formed(),
    ensures
        search_answers(*old(edit), *final(edit), *p, active, hits, r),
        p.key@ == "backspace"@ && old(edit).anchor == Some(old(edit).cursor) && old(edit).cursor > 0
            || final(edit).well_formed(),
{
    proof {
        lemma_ends(edit.text@);
    }
    if p.command {
        if same(p.key, "a") {
            edit.select_all();
            return SearchReply::Moved;
        }
        if same(p.key, "c") {
            return match edit.selected_text() {
                Some(t) => SearchReply::Copied(t.to_owned()),
                None => SearchReply::Ignored,
            };
        }
        if same(p.key, "x") {
            let taken: Option<String> = match edit.selected_text() {
                Some(t) => Some(t.to_owned()),
                None => None,
            };
            edit.delete_selection();
            return match taken {
                Some(t) => SearchReply::Taken(t),
                None => SearchReply::Ignored,
            };
        }
        if same(p.key, "v") {
            return match p.clipboard {
                Some(t) => {
                    edit.insert(t);
                    SearchReply::Changed
                },
                None => SearchReply::Ignored,
            };
        }
        if same(p.key, "left") {
            edit.move_cursor(0, p.shift);
            return SearchReply::Moved;
        }
        if same(p.key, "right") {
            let end: usize = len_of(edit.text.as_str());
            edit.move_cursor(end, p.shift);
            return SearchReply::Moved;
        }
        return SearchReply::Ignored;
    }
    if p.control {
        return SearchReply::Ignored;
    }
    if same(p.key, "backspace") {
        edit.backspace();
        return SearchReply::Changed;
    }
    if same(p.key, "delete") {
        edit.delete_forward();
        return SearchReply::Changed;
    }
    if same(p.key, "left") {
        step_left(edit, p.shift);
        return SearchReply::Moved;
    }
    if same(p.key, "right") {
        step_right(edit, p.shift);
        return SearchReply::Moved;
    }
    if same(p.key, "home") {
        edit.move_cursor(0, p.shift);
        return SearchReply::Moved;
    }
    if same(p.key, "end") {
        let end: usize = len_of(edit.text.as_str());
        edit.move_cursor(end, p.shift);
        return SearchReply::Moved;
    }
    if same(p.key, "escape") {
        edit.clear();
        return SearchReply::Left;
    }
    if same(p.key, "up") {
        return SearchReply::Active(if active > 0 { active - 1 } else { 0 });
    }
    if same(p.key, "down") {
        return SearchReply::Active(
            if hits > 0 && active < hits - 1 {
                active + 1
            } else if hits > 0 {
                hits - 1
            } else {
                0
            },
        );
    }
    if same(p.key, "enter") {
        return SearchReply::Picked(active);
    }
    if is_typed(p.typed) {
        match p.typed {
            Some(t) => {
                edit.insert(t);
            },
            None => {},
        }
        return SearchReply::Changed;
    }
    if p.typed.is_some() {
        SearchReply::Moved
    } else {
        SearchReply::Ignored
    }
}

} // verus!
