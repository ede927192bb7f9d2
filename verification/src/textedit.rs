//! A caret and a selection over one `String`, plus the edits that move them.
//!
//! The rules are the fiddly part: byte offsets that must land on char boundaries, and a selection
//! that edits replace.

use vstd::prelude::*;
use vstd::string::StringSliceAdditionalSpecFns;
use vstd::utf8::{
    decode_utf8, decode_utf8_encode_utf8, decode_utf8_split, encode_scalar, encode_utf8,
    encode_utf8_decode_utf8, encode_utf8_first_scalar, encode_utf8_valid_utf8, is_char_boundary,
    is_char_boundary_iff_not_is_continuation_byte, is_char_boundary_start_end_of_seq,
    length_of_first_scalar, pop_first_scalar, valid_utf8, valid_utf8_split,
};

verus! {

/// A text being edited.
#[derive(Debug, PartialEq, Eq)]
pub struct TextEdit {
    pub text: String,
    /// Caret byte offset. Always on a char boundary.
    pub cursor: usize,
    /// Selection anchor byte offset; `None` when nothing is selected. The selected range is
    /// anchor..cursor in either direction.
    pub anchor: Option<usize>,
}

// ── texts by byte offset ───────────────────────────────────────────────────

/// How many bytes the text takes.
pub open spec fn byte_len(text: Seq<char>) -> int {
    encode_utf8(text).len() as int
}

/// The byte offset `at` falls between two characters of the text, or at either end.
pub open spec fn is_boundary(text: Seq<char>, at: int) -> bool {
    is_char_boundary(encode_utf8(text), at)
}

/// The characters between two byte offsets.
pub open spec fn between(text: Seq<char>, from: int, to: int) -> Seq<char> {
    decode_utf8(encode_utf8(text).subrange(from, to))
}

/// The characters before a byte offset.
pub open spec fn before(text: Seq<char>, at: int) -> Seq<char> {
    between(text, 0, at)
}

/// The characters from a byte offset on.
pub open spec fn after(text: Seq<char>, at: int) -> Seq<char> {
    between(text, at, byte_len(text))
}

/// The text with what lies between two byte offsets replaced by `with`.
pub open spec fn replaced(text: Seq<char>, from: int, to: int, with: Seq<char>) -> Seq<char> {
    before(text, from) + with + after(text, to)
}

pub(crate) proof fn lemma_encode_adds(a: Seq<char>, b: Seq<char>)
    ensures
        encode_utf8(a + b) == encode_utf8(a) + encode_utf8(b),
    decreases a.len(),
{
    if a.len() == 0 {
        assert(a + b =~= b);
        assert(encode_utf8(a) + encode_utf8(b) =~= encode_utf8(b));
    } else {
        lemma_encode_adds(a.drop_first(), b);
        assert((a + b).drop_first() =~= a.drop_first() + b);
        assert((a + b)[0] == a[0]);
        assert(encode_utf8(a + b) =~= encode_utf8(a) + encode_utf8(b));
    }
}

/// Where two texts meet is a boundary of both together.
pub(crate) proof fn lemma_seam(a: Seq<char>, b: Seq<char>)
    ensures
        is_boundary(a + b, byte_len(a)),
    decreases a.len(),
{
    let bytes = encode_utf8(a + b);
    encode_utf8_valid_utf8(a + b);
    lemma_encode_adds(a, b);
    if a.len() == 0 {
        is_char_boundary_start_end_of_seq(bytes);
    } else {
        let rest = a.drop_first();
        lemma_seam(rest, b);
        encode_utf8_first_scalar(a + b);
        assert((a + b).drop_first() =~= rest + b);
        assert((a + b)[0] == a[0]);
        let w = encode_scalar(a[0] as u32).len();
        assert(length_of_first_scalar(bytes) == w);
        assert(pop_first_scalar(bytes) =~= encode_utf8(rest + b));
        assert(byte_len(a) == w + byte_len(rest));
        lemma_encode_adds(rest, b);
        encode_utf8_valid_utf8(rest + b);
    }
}

/// A text cut at a boundary is its two sides.
pub(crate) proof fn lemma_cut(text: Seq<char>, at: int)
    requires
        is_boundary(text, at),
    ensures
        0 <= at <= byte_len(text),
        text == before(text, at) + after(text, at),
        encode_utf8(before(text, at)) == encode_utf8(text).subrange(0, at),
        encode_utf8(after(text, at)) == encode_utf8(text).subrange(at, byte_len(text)),
        byte_len(before(text, at)) == at,
{
    let bytes = encode_utf8(text);
    encode_utf8_valid_utf8(text);
    encode_utf8_decode_utf8(text);
    lemma_boundary_within(bytes, at);
    valid_utf8_split(bytes, at);
    decode_utf8_split(bytes, at);
    decode_utf8_encode_utf8(bytes.subrange(0, at));
    decode_utf8_encode_utf8(bytes.subrange(at, bytes.len() as int));
}

proof fn lemma_boundary_within(bytes: Seq<u8>, at: int)
    requires
        valid_utf8(bytes),
        is_char_boundary(bytes, at),
    ensures
        0 <= at <= bytes.len(),
    decreases bytes.len(),
{
    if at != 0 {
        assert(!(at < 0 || bytes.len() < at));
    }
}

/// A boundary stays one in the part of the text up to a later boundary.
proof fn lemma_inner_boundary(bytes: Seq<u8>, inner: int, outer: int)
    requires
        valid_utf8(bytes),
        is_char_boundary(bytes, inner),
        is_char_boundary(bytes, outer),
        inner <= outer,
    ensures
        valid_utf8(bytes.subrange(0, outer)),
        is_char_boundary(bytes.subrange(0, outer), inner),
{
    lemma_boundary_within(bytes, inner);
    lemma_boundary_within(bytes, outer);
    valid_utf8_split(bytes, outer);
    let part = bytes.subrange(0, outer);
    if inner < outer {
        is_char_boundary_iff_not_is_continuation_byte(bytes, inner);
        is_char_boundary_iff_not_is_continuation_byte(part, inner);
        assert(part[inner] == bytes[inner]);
    } else {
        is_char_boundary_start_end_of_seq(part);
    }
}

pub(crate) fn len_of(s: &str) -> (r: usize)
    ensures
        r == byte_len(s@),
{
    s.as_bytes().len()
}

/// The two sides of a boundary.
pub(crate) fn cut<'a>(s: &'a str, at: usize) -> (r: (&'a str, &'a str))
    requires
        is_boundary(s@, at as int),
    ensures
        r.0@ == before(s@, at as int),
        r.1@ == after(s@, at as int),
{
    let (a, b) = s.split_at(at);
    proof {
        encode_utf8_decode_utf8(a@);
        encode_utf8_decode_utf8(b@);
    }
    (a, b)
}

/// Builds the text with what lies between two boundaries replaced.
fn replace(s: &str, from: usize, to: usize, with: &str) -> (r: String)
    requires
        is_boundary(s@, from as int),
        is_boundary(s@, to as int),
    ensures
        r@ == replaced(s@, from as int, to as int, with@),
        byte_len(r@) == from + byte_len(with@) + (byte_len(s@) - to),
        from + byte_len(with@) <= usize::MAX,
        is_boundary(r@, from as int),
        is_boundary(r@, from + byte_len(with@)),
{
    let (head, _) = cut(s, from);
    let (_, tail) = cut(s, to);
    let mut out = head.to_owned();
    out.append(with);
    out.append(tail);
    let len: usize = len_of(out.as_str());
    proof {
        lemma_cut(s@, from as int);
        lemma_cut(s@, to as int);
        lemma_encode_adds(head@ + with@, tail@);
        lemma_encode_adds(head@, with@);
        lemma_seam(head@ + with@, tail@);
        assert(out@ =~= head@ + (with@ + tail@));
        lemma_seam(head@, with@ + tail@);
    }
    out
}

// ── editing ────────────────────────────────────────────────────────────────

impl TextEdit {
    /// The caret and the anchor are on char boundaries of the text.
    pub open spec fn well_formed(self) -> bool {
        &&& is_boundary(self.text@, self.cursor as int)
        &&& self.anchor matches Some(a) ==> is_boundary(self.text@, a as int)
    }

    /// The selected byte range.
    pub open spec fn selected(self) -> Option<(usize, usize)> {
        match self.anchor {
            Some(a) => if a == self.cursor {
                None
            } else if a < self.cursor {
                Some((a, self.cursor))
            } else {
                Some((self.cursor, a))
            },
            None => None,
        }
    }

    /// Empties the buffer.
    pub fn clear(&mut self)
        ensures
            final(self).text@ == Seq::<char>::empty(),
            final(self).cursor == 0,
            final(self).anchor is None,
            final(self).well_formed(),
    {
        self.text = String::new();
        self.cursor = 0;
        self.anchor = None;
        proof {
            encode_utf8_valid_utf8(self.text@);
            is_char_boundary_start_end_of_seq(encode_utf8(self.text@));
        }
    }

    /// Replaces the whole buffer, parking the caret at the end.
    pub fn set_text(&mut self, text: String)
        ensures
            final(self).text@ == text@,
            final(self).cursor == byte_len(text@),
            final(self).anchor is None,
            final(self).well_formed(),
    {
        self.cursor = len_of(text.as_str());
        self.text = text;
        self.anchor = None;
        proof {
            encode_utf8_valid_utf8(self.text@);
            is_char_boundary_start_end_of_seq(encode_utf8(self.text@));
        }
    }

    /// The selected byte range, low..high. `None` when the anchor is absent or collapsed onto the
    /// caret.
    pub fn selection(&self) -> (r: Option<(usize, usize)>)
        ensures
            r == self.selected(),
    {
        match self.anchor {
            Some(a) => if a == self.cursor {
                None
            } else if a < self.cursor {
                Some((a, self.cursor))
            } else {
                Some((self.cursor, a))
            },
            None => None,
        }
    }

    /// The selected characters.
    pub fn selected_text(&self) -> (r: Option<&str>)
        requires
            self.well_formed(),
        ensures
            match (r, self.selected()) {
                (Some(t), Some((s, e))) => t@ == between(self.text@, s as int, e as int),
                (None, None) => true,
                _ => false,
            },
    {
        match self.selection() {
            Some((s, e)) => {
                let (head, _) = cut(self.text.as_str(), e);
                proof {
                    let bytes = encode_utf8(self.text@);
                    encode_utf8_valid_utf8(self.text@);
                    lemma_cut(self.text@, e as int);
                    lemma_inner_boundary(bytes, s as int, e as int);
                    assert(bytes.subrange(0, e as int).subrange(s as int, e as int)
                        =~= bytes.subrange(s as int, e as int));
                }
                let (_, middle) = cut(head, s);
                Some(middle)
            },
            None => None,
        }
    }

    /// Selects everything; nothing where there is nothing.
    pub fn select_all(&mut self)
        ensures
            final(self).text@ == old(self).text@,
            old(self).text@.len() == 0 ==> *final(self) == *old(self),
            old(self).text@.len() > 0 ==> final(self).anchor == Some(0usize) && final(self).cursor
                == byte_len(old(self).text@) && final(self).well_formed(),
    {
        if self.text.as_str().is_empty() {
            return;
        }
        self.anchor = Some(0);
        self.cursor = len_of(self.text.as_str());
        proof {
            encode_utf8_valid_utf8(self.text@);
            is_char_boundary_start_end_of_seq(encode_utf8(self.text@));
        }
    }

    /// Deletes the selection. Returns whether anything was deleted, so callers can fall back to a
    /// single-character delete.
    pub fn delete_selection(&mut self) -> (r: bool)
        requires
            old(self).well_formed(),
        ensures
            r == (old(self).selected() is Some),
            !r ==> *final(self) == *old(self),
            old(self).selected() matches Some((s, e)) ==> final(self).text@ == replaced(
                old(self).text@,
                s as int,
                e as int,
                Seq::empty(),
            ) && final(self).cursor == s && final(self).anchor is None,
            final(self).well_formed(),
    {
        match self.selection() {
            Some((s, e)) => {
                let nothing = String::new();
                self.text = replace(self.text.as_str(), s, e, nothing.as_str());
                self.cursor = s;
                self.anchor = None;
                true
            },
            None => false,
        }
    }

    /// Inserts at the caret, replacing the selection if there is one.
    pub fn insert(&mut self, s: &str)
        requires
            old(self).well_formed(),
        ensures
            final(self).well_formed(),
            has_inserted(*old(self), *final(self), s@),
    {
        let ghost start = self.text@;
        let at = self.cursor;
        let chosen = self.selection();
        self.delete_selection();
        let ghost mid = self.text@;
        let text = replace(self.text.as_str(), self.cursor, self.cursor, s);
        proof {
            if chosen is Some {
                let (low, high) = chosen->0;
                lemma_cut(start, low as int);
                lemma_cut(start, high as int);
                let (head, tail) = (before(start, low as int), after(start, high as int));
                assert(mid =~= head + tail);
                lemma_sides(head, tail);
            }
        }
        self.text = text;
        let len: usize = len_of(s);
        self.cursor = self.cursor + len;
    }

    /// Deletes the selection, else the character before the caret.
    ///
    /// An anchor that is collapsed onto the caret stays where it is when the character before it
    /// goes, and may then be on no boundary.
    pub fn backspace(&mut self)
        requires
            old(self).well_formed(),
        ensures
            has_backspaced(*old(self), *final(self)),
            is_boundary(final(self).text@, final(self).cursor as int),
            old(self).anchor != Some(old(self).cursor) || old(self).cursor == 0
                ==> final(self).well_formed(),
    {
        if self.delete_selection() || self.cursor == 0 {
            return;
        }
        proof {
            lemma_cut(self.text@, self.cursor as int);
        }
        let p = self.prev_boundary(self.cursor);
        let nothing = String::new();
        self.text = replace(self.text.as_str(), p, self.cursor, nothing.as_str());
        self.cursor = p;
    }

    /// Deletes the selection, else the character after the caret.
    pub fn delete_forward(&mut self)
        requires
            old(self).well_formed(),
        ensures
            has_deleted_forward(*old(self), *final(self)),
            final(self).well_formed(),
    {
        if self.delete_selection() || self.cursor >= len_of(self.text.as_str()) {
            return;
        }
        let ghost start = *self;
        let n = self.next_boundary(self.cursor);
        let nothing = String::new();
        self.text = replace(self.text.as_str(), self.cursor, n, nothing.as_str());
        assert(first_boundary(start.text@, start.cursor as int, n as int));
    }

    /// The last boundary before `from`; 0 where there is none.
    pub fn prev_boundary(&self, from: usize) -> (r: usize)
        ensures
            clamped(self.text@, from as int) == 0 ==> r == 0,
            clamped(self.text@, from as int) > 0 ==> last_boundary(
                self.text@,
                clamped(self.text@, from as int),
                r as int,
            ),
    {
        let len: usize = len_of(self.text.as_str());
        let start: usize = if from < len { from } else { len };
        let mut i: usize = start;
        proof {
            encode_utf8_valid_utf8(self.text@);
            is_char_boundary_start_end_of_seq(encode_utf8(self.text@));
        }
        while i > 0
            invariant
                i <= start,
                start == clamped(self.text@, from as int),
                is_boundary(self.text@, 0),
                forall|j: int| i <= j < start ==> !#[trigger] is_boundary(self.text@, j),
            decreases i,
        {
            i = i - 1;
            if self.text.as_str().is_char_boundary(i) {
                return i;
            }
        }
        0
    }

    /// The first boundary behind `from`; the end where there is none.
    pub fn next_boundary(&self, from: usize) -> (r: usize)
        ensures
            clamped(self.text@, from as int) == byte_len(self.text@) ==> r == byte_len(self.text@),
            clamped(self.text@, from as int) < byte_len(self.text@) ==> first_boundary(
                self.text@,
                clamped(self.text@, from as int),
                r as int,
            ),
    {
        let len: usize = len_of(self.text.as_str());
        let start: usize = if from < len { from } else { len };
        let mut i: usize = start;
        proof {
            encode_utf8_valid_utf8(self.text@);
            is_char_boundary_start_end_of_seq(encode_utf8(self.text@));
        }
        while i < len
            invariant
                start <= i <= len,
                len == byte_len(self.text@),
                start == clamped(self.text@, from as int),
                is_boundary(self.text@, len as int),
                forall|j: int| start < j <= i ==> !#[trigger] is_boundary(self.text@, j),
            decreases len - i,
        {
            i = i + 1;
            if self.text.as_str().is_char_boundary(i) {
                return i;
            }
        }
        len
    }

    /// Moves the caret. `select` extends the selection, dropping the anchor when it is not set;
    /// without it the selection collapses.
    pub fn move_cursor(&mut self, to: usize, select: bool)
        ensures
            has_moved(*old(self), *final(self), to as int, select),
            old(self).well_formed() && (is_boundary(old(self).text@, to as int) || to >= byte_len(
                old(self).text@,
            )) ==> final(self).well_formed(),
    {
        if select {
            if self.anchor.is_none() {
                self.anchor = Some(self.cursor);
            }
        } else {
            self.anchor = None;
        }
        let len: usize = len_of(self.text.as_str());
        self.cursor = if to < len { to } else { len };
        proof {
            encode_utf8_valid_utf8(self.text@);
            is_char_boundary_start_end_of_seq(encode_utf8(self.text@));
        }
    }
}

impl Default for TextEdit {
    /// An empty buffer.
    fn default() -> (r: Self)
        ensures
            r.text@ == Seq::<char>::empty(),
            r.cursor == 0,
            r.anchor is None,
            r.well_formed(),
    {
        let r = TextEdit { text: String::new(), cursor: 0, anchor: None };
        proof {
            encode_utf8_valid_utf8(r.text@);
            is_char_boundary_start_end_of_seq(encode_utf8(r.text@));
        }
        r
    }
}

/// An offset kept within the text.
pub open spec fn clamped(text: Seq<char>, at: int) -> int {
    if at < byte_len(text) { at } else { byte_len(text) }
}

/// `r` is the last boundary before `from`.
pub open spec fn last_boundary(text: Seq<char>, from: int, r: int) -> bool {
    &&& 0 <= r < from
    &&& is_boundary(text, r)
    &&& forall|j: int| r < j < from ==> !#[trigger] is_boundary(text, j)
}

/// `r` is the first boundary behind `from`.
pub open spec fn first_boundary(text: Seq<char>, from: int, r: int) -> bool {
    &&& from < r <= byte_len(text)
    &&& is_boundary(text, r)
    &&& forall|j: int| from < j < r ==> !#[trigger] is_boundary(text, j)
}

// ── what edits do ──────────────────────────────────────────────────────────

/// `s` was inserted at the caret, in place of the selection.
pub open spec fn has_inserted(old: TextEdit, new: TextEdit, s: Seq<char>) -> bool {
    match old.selected() {
        Some((low, high)) => new.text@ == replaced(old.text@, low as int, high as int, s)
            && new.cursor == low + byte_len(s) && new.anchor is None,
        None => new.text@ == replaced(old.text@, old.cursor as int, old.cursor as int, s)
            && new.cursor == old.cursor + byte_len(s) && new.anchor == old.anchor,
    }
}

/// The selection was deleted.
pub open spec fn has_deleted(old: TextEdit, new: TextEdit, low: int, high: int) -> bool {
    new.text@ == replaced(old.text@, low, high, Seq::empty()) && new.cursor == low
        && new.anchor is None
}

/// The selection, or else the character before the caret, was deleted.
pub open spec fn has_backspaced(old: TextEdit, new: TextEdit) -> bool {
    match old.selected() {
        Some((low, high)) => has_deleted(old, new, low as int, high as int),
        None => new.anchor == old.anchor && if old.cursor == 0 {
            new.text@ == old.text@ && new.cursor == 0
        } else {
            &&& last_boundary(old.text@, old.cursor as int, new.cursor as int)
            &&& new.text@ == replaced(
                old.text@,
                new.cursor as int,
                old.cursor as int,
                Seq::empty(),
            )
        },
    }
}

/// The selection, or else the character behind the caret, was deleted.
pub open spec fn has_deleted_forward(old: TextEdit, new: TextEdit) -> bool {
    match old.selected() {
        Some((low, high)) => has_deleted(old, new, low as int, high as int),
        None => new.cursor == old.cursor && new.anchor == old.anchor && if old.cursor >= byte_len(
            old.text@,
        ) {
            new.text@ == old.text@
        } else {
            exists|n: int| #[trigger]
                first_boundary(old.text@, old.cursor as int, n) && new.text@ == replaced(
                    old.text@,
                    old.cursor as int,
                    n,
                    Seq::empty(),
                )
        },
    }
}

/// The caret moved to `to`; with `select` it drew the selection along.
pub open spec fn has_moved(old: TextEdit, new: TextEdit, to: int, select: bool) -> bool {
    &&& new.text@ == old.text@
    &&& new.cursor == clamped(old.text@, to)
    &&& new.anchor == (if !select {
        None
    } else if old.anchor is None {
        Some(old.cursor)
    } else {
        old.anchor
    })
}

// ── laws ───────────────────────────────────────────────────────────────────

/// Cutting two texts put together where they meet gives them back.
proof fn lemma_sides(a: Seq<char>, b: Seq<char>)
    ensures
        is_boundary(a + b, byte_len(a)),
        before(a + b, byte_len(a)) == a,
        after(a + b, byte_len(a)) == b,
{
    lemma_seam(a, b);
    lemma_encode_adds(a, b);
    let bytes = encode_utf8(a + b);
    assert(bytes.subrange(0, byte_len(a)) =~= encode_utf8(a));
    assert(bytes.subrange(byte_len(a), bytes.len() as int) =~= encode_utf8(b));
    encode_utf8_decode_utf8(a);
    encode_utf8_decode_utf8(b);
}

/// What stands before the caret stays when something is inserted there, what stands behind it
/// follows, and the caret is between the two.
pub proof fn insertion_keeps_both_sides(text: Seq<char>, at: int, s: Seq<char>)
    requires
        is_boundary(text, at),
    ensures
        before(replaced(text, at, at, s), at) == before(text, at),
        after(replaced(text, at, at, s), at + byte_len(s)) == after(text, at),
        replaced(replaced(text, at, at, s), at, at + byte_len(s), Seq::empty()) == text,
{
    lemma_cut(text, at);
    let (head, tail) = (before(text, at), after(text, at));
    let now = replaced(text, at, at, s);
    assert(now =~= head + (s + tail));
    lemma_sides(head, s + tail);
    assert(now =~= (head + s) + tail);
    lemma_sides(head + s, tail);
    lemma_encode_adds(head, s);
    assert(replaced(now, at, at + byte_len(s), Seq::empty()) =~= head + tail);
}

/// The boundary before the one behind a boundary is that boundary, and the one behind the one before
/// it is too.
pub proof fn boundaries_step_back(text: Seq<char>, at: int, near: int, back: int)
    requires
        is_boundary(text, at),
    ensures
        first_boundary(text, at, near) && last_boundary(text, near, back) ==> back == at,
        at <= byte_len(text) && last_boundary(text, at, near) && first_boundary(text, near, back)
            ==> back == at,
{
}

/// The more characters, the more bytes.
pub(crate) proof fn lemma_take_grows(text: Seq<char>, i: int, j: int)
    requires
        0 <= i < j <= text.len(),
    ensures
        byte_len(text.take(i)) < byte_len(text.take(j)),
{
    let more = text.subrange(i, j);
    assert(text.take(j) =~= text.take(i) + more);
    lemma_encode_adds(text.take(i), more);
    encode_utf8_valid_utf8(more);
    encode_utf8_first_scalar(more);
    assert(encode_utf8(more).len() > 0);
}

/// The characters before a boundary, counted.
pub(crate) proof fn lemma_boundary_place(text: Seq<char>, at: int) -> (k: int)
    requires
        is_boundary(text, at),
    ensures
        0 <= k <= text.len(),
        before(text, at) == text.take(k),
        after(text, at) == text.skip(k),
        at == byte_len(text.take(k)),
        at == byte_len(text) <==> k == text.len(),
{
    lemma_cut(text, at);
    let k = before(text, at).len() as int;
    assert(text.take(k) =~= before(text, at));
    assert(text.skip(k) =~= after(text, at));
    assert(text.take(text.len() as int) =~= text);
    if k < text.len() {
        lemma_take_grows(text, k, text.len() as int);
    }
    k
}

/// The boundary behind the first `k` characters is that of the first `k + 1`.
pub(crate) proof fn lemma_first_boundary_is(text: Seq<char>, k: int, n: int)
    requires
        0 <= k < text.len(),
        first_boundary(text, byte_len(text.take(k)), n),
    ensures
        n == byte_len(text.take(k + 1)),
{
    let m = lemma_boundary_place(text, n);
    if m < k {
        lemma_take_grows(text, m, k);
    }
    lemma_take_grows(text, k, k + 1);
    assert(text =~= text.take(k + 1) + text.skip(k + 1));
    lemma_seam(text.take(k + 1), text.skip(k + 1));
    if m > k + 1 {
        lemma_take_grows(text, k + 1, m);
    }
}

/// The boundary before the first `k` characters end is that of the first `k - 1`.
pub(crate) proof fn lemma_last_boundary_is(text: Seq<char>, k: int, p: int)
    requires
        0 < k <= text.len(),
        last_boundary(text, byte_len(text.take(k)), p),
    ensures
        p == byte_len(text.take(k - 1)),
{
    let m = lemma_boundary_place(text, p);
    if m > k {
        lemma_take_grows(text, k, m);
    }
    lemma_take_grows(text, k - 1, k);
    assert(text =~= text.take(k - 1) + text.skip(k - 1));
    lemma_seam(text.take(k - 1), text.skip(k - 1));
    if m < k - 1 {
        lemma_take_grows(text, m, k - 1);
    }
}

} // verus!
