//! Lines and columns of a caret in a text. A line ends at a line break; columns count characters.

use vstd::prelude::*;

use crate::highlight::{lemma_one_more, width_of};
use crate::text::chars_of;
use crate::textedit::{
    after, before, byte_len, cut, is_boundary, lemma_cut, lemma_encode_adds, lemma_seam, len_of,
};

verus! {

/// How many line breaks the text holds.
pub open spec fn breaks(s: Seq<char>) -> nat
    decreases s.len(),
{
    if s.len() == 0 {
        0
    } else {
        breaks(s.drop_last()) + (if s.last() == '\n' {
            1nat
        } else {
            0
        })
    }
}

/// The place behind the last line break, or 0.
pub open spec fn last_line(s: Seq<char>) -> int
    decreases s.len(),
{
    if s.len() == 0 {
        0
    } else if s.last() == '\n' {
        s.len() as int
    } else {
        last_line(s.drop_last())
    }
}

/// The first line break from `i` on, or the end of the text.
pub open spec fn line_end(s: Seq<char>, i: int) -> int
    decreases s.len() - i,
{
    if 0 <= i < s.len() && s[i] != '\n' {
        line_end(s, i + 1)
    } else {
        i
    }
}

/// Where line `n` begins, or -1 where the text has no such line.
pub open spec fn line_begin(s: Seq<char>, n: nat) -> int
    decreases n,
{
    if n == 0 {
        0
    } else {
        let b = line_begin(s, (n - 1) as nat);
        if b < 0 || line_end(s, b) >= s.len() {
            -1
        } else {
            line_end(s, b) + 1
        }
    }
}

/// The place of column `col` of line `n`: the end of the line where it is shorter, and the end of
/// the text where there is no such line.
pub open spec fn place_of(s: Seq<char>, n: nat, col: int) -> int {
    let b = line_begin(s, n);
    if b < 0 {
        s.len() as int
    } else if b + col < line_end(s, b) {
        b + col
    } else {
        line_end(s, b)
    }
}

proof fn lemma_line_end(s: Seq<char>, i: int)
    requires
        0 <= i <= s.len(),
    ensures
        i <= line_end(s, i) <= s.len(),
        forall|k: int| i <= k < line_end(s, i) ==> s[k] != '\n',
        line_end(s, i) < s.len() ==> s[line_end(s, i)] == '\n',
    decreases s.len() - i,
{
    if i < s.len() && s[i] != '\n' {
        lemma_line_end(s, i + 1);
    }
}

proof fn lemma_line_end_is(s: Seq<char>, i: int, k: int)
    requires
        0 <= i <= k < s.len(),
        s[k] == '\n',
        forall|j: int| i <= j < k ==> s[j] != '\n',
    ensures
        line_end(s, i) == k,
    decreases k - i,
{
    if i < k {
        lemma_line_end_is(s, i + 1, k);
    }
}

proof fn lemma_line_begin(s: Seq<char>, n: nat)
    ensures
        -1 <= line_begin(s, n) <= s.len(),
    decreases n,
{
    if n > 0 {
        lemma_line_begin(s, (n - 1) as nat);
        let b = line_begin(s, (n - 1) as nat);
        if b >= 0 {
            lemma_line_end(s, b);
        }
    }
}

proof fn lemma_last_line(s: Seq<char>)
    ensures
        0 <= last_line(s) <= s.len(),
        forall|k: int| last_line(s) <= k < s.len() ==> s[k] != '\n',
        breaks(s) <= s.len(),
    decreases s.len(),
{
    if s.len() > 0 {
        lemma_last_line(s.drop_last());
        if s.last() != '\n' {
            let r = s.drop_last();
            assert forall|k: int| last_line(s) <= k < s.len() implies s[k] != '\n' by {
                if k < r.len() {
                    assert(r[k] == s[k]);
                }
            }
        }
    }
}

/// The line of a place begins where the last break before it ends.
proof fn lemma_line_of(s: Seq<char>, k: int)
    requires
        0 <= k <= s.len(),
    ensures
        line_begin(s, breaks(s.take(k))) == last_line(s.take(k)),
    decreases k,
{
    let p = s.take(k);
    if k == 0 {
    } else {
        let q = s.take(k - 1);
        assert(p.drop_last() =~= q);
        lemma_line_of(s, k - 1);
        lemma_last_line(q);
        if p.last() == '\n' {
            let b = last_line(q);
            assert forall|j: int| b <= j < k - 1 implies s[j] != '\n' by {
                assert(q[j] == s[j]);
            }
            lemma_line_end_is(s, b, k - 1);
        }
    }
}

/// Line and column find the caret again: the place at the line and column of a caret is the caret.
pub proof fn line_and_column_find_the_caret(s: Seq<char>, k: int)
    requires
        0 <= k <= s.len(),
    ensures
        place_of(s, breaks(s.take(k)), k - last_line(s.take(k))) == k,
{
    let p = s.take(k);
    lemma_line_of(s, k);
    lemma_last_line(p);
    let b = last_line(p);
    lemma_line_end(s, b);
    if line_end(s, b) < k {
        assert(p[line_end(s, b)] == s[line_end(s, b)]);
    }
}

/// Line, byte offset of the line's start, and column of a caret at byte offset `cursor`.
pub fn cursor_line_col(text: &str, cursor: usize) -> (r: (usize, usize, usize))
    requires
        is_boundary(text@, cursor as int),
    ensures
        ({
            let p = before(text@, cursor as int);
            &&& r.0 == breaks(p)
            &&& r.1 == byte_len(p.take(last_line(p)))
            &&& r.2 == p.len() - last_line(p)
            &&& is_boundary(text@, r.1 as int)
            &&& r.1 <= cursor
        }),
{
    let (head, _) = cut(text, cursor);
    let v = chars_of(head);
    let bytes: usize = len_of(head);
    let mut line: usize = 0;
    let mut start: usize = 0;
    let mut col: usize = 0;
    let mut at: usize = 0;
    let mut i: usize = 0;
    assert(v@.take(0) =~= Seq::<char>::empty());
    assert(v@.take(0).take(0) =~= Seq::<char>::empty());
    while i < v.len()
        invariant
            i <= v@.len(),
            v@ == head@,
            bytes == byte_len(head@),
            line == breaks(v@.take(i as int)),
            line <= i,
            start == byte_len(v@.take(i as int).take(last_line(v@.take(i as int)))),
            col == i - last_line(v@.take(i as int)),
            at == byte_len(v@.take(i as int)),
            0 <= last_line(v@.take(i as int)) <= i,
        decreases v@.len() - i,
    {
        let ghost seen = v@.take(i as int);
        let ghost now = v@.take(i as int + 1);
        assert(now.drop_last() =~= seen);
        proof {
            lemma_one_more(v@, i as int);
            lemma_last_line(now);
        }
        at = at + width_of(v[i]);
        if v[i] == '\n' {
            line = line + 1;
            start = at;
            col = 0;
            assert(now.take(now.len() as int) =~= now);
        } else {
            col = col + 1;
            assert(now.take(last_line(seen)) =~= seen.take(last_line(seen)));
        }
        i = i + 1;
    }
    assert(v@.take(i as int) =~= v@);
    proof {
        let p = before(text@, cursor as int);
        let a = p.take(last_line(p));
        lemma_cut(text@, cursor as int);
        let rest = p.skip(last_line(p)) + after(text@, cursor as int);
        assert(text@ =~= a + rest);
        lemma_seam(a, rest);
        assert(p =~= a + p.skip(last_line(p)));
        lemma_encode_adds(a, p.skip(last_line(p)));
    }
    (line, start, col)
}

/// How many lines the text has.
pub fn line_count(text: &str) -> (r: usize)
    requires
        text@.len() < usize::MAX,
    ensures
        r == breaks(text@) + 1,
{
    let v = chars_of(text);
    let mut count: usize = 0;
    let mut i: usize = 0;
    assert(v@.take(0) =~= Seq::<char>::empty());
    while i < v.len()
        invariant
            i <= v@.len(),
            count == breaks(v@.take(i as int)),
            count <= i,
        decreases v@.len() - i,
    {
        assert(v@.take(i as int + 1).drop_last() =~= v@.take(i as int));
        if v[i] == '\n' {
            count = count + 1;
        }
        i = i + 1;
    }
    assert(v@.take(i as int) =~= v@);
    count + 1
}

/// The place of line `n`, or the end where there is no such line; the second part says whether there
/// is one.
fn find_line(v: &Vec<char>, n: usize) -> (r: (usize, bool))
    ensures
        r.1 == (line_begin(v@, n as nat) >= 0),
        r.1 ==> r.0 == line_begin(v@, n as nat),
        r.0 <= v@.len(),
{
    let mut at: usize = 0;
    let mut k: usize = 0;
    while k < n
        invariant
            k <= n,
            at <= v@.len(),
            at == line_begin(v@, k as nat),
        decreases n - k,
    {
        let end: usize = find_end(v, at);
        if end >= v.len() {
            proof {
                lemma_no_line(v@, k as nat + 1, n as nat);
            }
            return (v.len(), false);
        }
        at = end + 1;
        k = k + 1;
    }
    (at, true)
}

proof fn lemma_no_line(s: Seq<char>, k: nat, n: nat)
    requires
        k <= n,
        line_begin(s, k) < 0,
    ensures
        line_begin(s, n) < 0,
    decreases n - k,
{
    if k < n {
        lemma_no_line(s, k, (n - 1) as nat);
    }
}

fn find_end(v: &Vec<char>, from: usize) -> (r: usize)
    requires
        from <= v@.len(),
    ensures
        r == line_end(v@, from as int),
        from <= r <= v@.len(),
{
    let mut i: usize = from;
    while i < v.len() && v[i] != '\n'
        invariant
            from <= i <= v@.len(),
            line_end(v@, from as int) == line_end(v@, i as int),
        decreases v@.len() - i,
    {
        i = i + 1;
    }
    i
}

/// The byte offset of column `col` of line `line`: the end of the line where it is shorter, and the
/// end of the text where there is no such line.
pub fn offset_for_line_col(text: &str, line: usize, col: usize) -> (r: usize)
    ensures
        r == byte_len(text@.take(place_of(text@, line as nat, col as int))),
        is_boundary(text@, r as int),
{
    let v = chars_of(text);
    let n: usize = v.len();
    let bytes: usize = len_of(text);
    let (begin, there) = find_line(&v, line);
    let place: usize = if !there {
        n
    } else {
        let end: usize = find_end(&v, begin);
        if col < end - begin {
            begin + col
        } else {
            end
        }
    };
    assert(place == place_of(text@, line as nat, col as int));
    let mut at: usize = 0;
    let mut i: usize = 0;
    assert(v@.take(0) =~= Seq::<char>::empty());
    while i < place
        invariant
            i <= place <= v@.len(),
            v@ == text@,
            bytes == byte_len(text@),
            at == byte_len(v@.take(i as int)),
        decreases place - i,
    {
        proof {
            lemma_one_more(v@, i as int);
        }
        at = at + width_of(v[i]);
        i = i + 1;
    }
    proof {
        let a = text@.take(place as int);
        assert(text@ =~= a + text@.skip(place as int));
        lemma_seam(a, text@.skip(place as int));
    }
    at
}

// ── selections ─────────────────────────────────────────────────────────────

/// The part of a line that a selection from `from` to `to` covers, for a line of `len` bytes that
/// begins at `start`: an empty line that the selection runs through has an empty part.
pub open spec fn band_on(start: int, len: int, from: int, to: int) -> Option<(int, int)> {
    let low = if from > start {
        from
    } else {
        start
    };
    let high = if to < start + len {
        to
    } else {
        start + len
    };
    if low < high || (from <= start && to > start + len) {
        Some((low, if high > low {
            high
        } else {
            low
        }))
    } else {
        None
    }
}

/// The part of a line that a selection covers.
pub fn selection_band(start: usize, len: usize, from: usize, to: usize) -> (r: Option<
    (usize, usize),
>)
    requires
        start + len <= usize::MAX,
    ensures
        (match r {
            Some((low, high)) => Some((low as int, high as int)),
            None => None,
        }) == band_on(start as int, len as int, from as int, to as int),
{
    let end: usize = start + len;
    let low: usize = if from > start { from } else { start };
    let high: usize = if to < end { to } else { end };
    if low < high || (from <= start && to > end) {
        Some((low, if high > low { high } else { low }))
    } else {
        None
    }
}

/// A band lies on its line.
pub proof fn bands_stay_on_their_lines(start: int, len: int, from: int, to: int)
    requires
        len >= 0,
    ensures
        band_on(start, len, from, to) matches Some((low, high)) ==> start <= low <= high <= start
            + len,
{
}

} // verus!
