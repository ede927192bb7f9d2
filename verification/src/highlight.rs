//! Coloring of SDL lines and of search hits, in runs of bytes.

use vstd::prelude::*;
use vstd::utf8::{encode_scalar, encode_utf8};

use crate::scan::{continues_name, name_run, starts_name};
use crate::text::{chars_of, is_ascii_digit, is_digit, same, slice_string, stands, stands_at};
use crate::textedit::{byte_len, lemma_encode_adds, len_of};

verus! {

/// The palette entries that the highlighter uses.
#[derive(Debug, Clone, Copy, PartialEq, Eq, Structural)]
pub enum Ink {
    /// Comments and punctuation.
    Muted,
    /// Strings.
    Green,
    /// Directives and digits.
    Amber,
    /// Keywords.
    Keyword,
    /// Type names.
    TypeName,
    /// Other words.
    Text,
    /// The overlay's removal marker.
    Red,
}

/// The words that are painted as keywords.
pub open spec fn is_keyword(w: Seq<char>) -> bool {
    w == "type"@ || w == "interface"@ || w == "enum"@ || w == "union"@ || w == "input"@ || w
        == "scalar"@ || w == "schema"@ || w == "extend"@ || w == "implements"@ || w == "directive"@
        || w == "query"@ || w == "mutation"@ || w == "subscription"@ || w == "fragment"@
}

/// Where a string that is closed by `quote` ends, from `i` on: past the first `quote`, or at the end
/// of the line.
pub open spec fn closing(s: Seq<char>, quote: Seq<char>, i: int) -> int
    decreases s.len() - i,
{
    if i >= s.len() || i < 0 {
        s.len() as int
    } else if stands_at(s, quote, i) {
        i + quote.len()
    } else {
        closing(s, quote, i + 1)
    }
}

/// Where the token at `i` ends, and its color.
pub open spec fn token(s: Seq<char>, i: int) -> (int, Ink) {
    let c = s[i];
    if c == '#' {
        (s.len() as int, Ink::Muted)
    } else if c == '"' {
        if stands_at(s, "\"\"\""@, i) {
            (closing(s, "\"\"\""@, i + 3), Ink::Green)
        } else {
            (closing(s, "\""@, i + 1), Ink::Green)
        }
    } else if c == '@' {
        (name_run(s, i + 1), Ink::Amber)
    } else if starts_name(c) {
        let e = name_run(s, i);
        (
            e,
            if is_keyword(s.subrange(i, e)) {
                Ink::Keyword
            } else if 'A' <= c <= 'Z' {
                Ink::TypeName
            } else {
                Ink::Text
            },
        )
    } else if c == '-' && i + 1 < s.len() && !is_digit(s[i + 1]) {
        (i + 1, Ink::Red)
    } else if is_digit(c) {
        (i + 1, Ink::Amber)
    } else {
        (i + 1, Ink::Muted)
    }
}

/// The color of each character from `i` on.
pub open spec fn inks(s: Seq<char>, i: int) -> Seq<Ink>
    decreases s.len() - i,
{
    if i < 0 || i >= s.len() || token(s, i).0 <= i || token(s, i).0 > s.len() {
        Seq::empty()
    } else {
        Seq::new((token(s, i).0 - i) as nat, |k: int| token(s, i).1) + inks(s, token(s, i).0)
    }
}

/// How many bytes a character takes.
pub open spec fn width(c: char) -> int {
    encode_scalar(c as u32).len() as int
}

/// Runs of equal color, in bytes, over the first characters of `s`.
pub open spec fn runs_of(s: Seq<char>, colors: Seq<Ink>) -> Seq<(int, Ink)>
    decreases colors.len(),
{
    if colors.len() == 0 {
        Seq::empty()
    } else {
        grown(runs_of(s, colors.drop_last()), width(s[colors.len() - 1]), colors.last())
    }
}

/// The runs with `len` bytes of a color behind them.
pub open spec fn grown(runs: Seq<(int, Ink)>, len: int, ink: Ink) -> Seq<(int, Ink)> {
    if runs.len() > 0 && runs.last().1 == ink {
        runs.update(runs.len() - 1, (runs.last().0 + len, ink))
    } else {
        runs.push((len, ink))
    }
}

/// The bytes of all runs together.
pub open spec fn total(runs: Seq<(int, Ink)>) -> int
    decreases runs.len(),
{
    if runs.len() == 0 {
        0
    } else {
        total(runs.drop_last()) + runs.last().0
    }
}

/// The colored runs of a line.
pub open spec fn line_runs(s: Seq<char>) -> Seq<(int, Ink)> {
    runs_of(s, inks(s, 0))
}

// ── laws ───────────────────────────────────────────────────────────────────

proof fn lemma_name_run(s: Seq<char>, i: int)
    requires
        0 <= i <= s.len(),
    ensures
        i <= name_run(s, i) <= s.len(),
        i < s.len() && continues_name(s[i]) ==> i < name_run(s, i),
    decreases s.len() - i,
{
    if i < s.len() && continues_name(s[i]) {
        lemma_name_run(s, i + 1);
    }
}

proof fn lemma_closing(s: Seq<char>, quote: Seq<char>, i: int)
    requires
        0 <= i <= s.len(),
    ensures
        i <= closing(s, quote, i) <= s.len(),
    decreases s.len() - i,
{
    if i < s.len() && !stands_at(s, quote, i) {
        lemma_closing(s, quote, i + 1);
    }
}

/// A token takes at least one character and stays within the line.
proof fn lemma_token(s: Seq<char>, i: int)
    requires
        0 <= i < s.len(),
    ensures
        i < token(s, i).0 <= s.len(),
{
    reveal_strlit("\"\"\"");
    reveal_strlit("\"");
    let c = s[i];
    if c == '"' {
        if stands_at(s, "\"\"\""@, i) {
            lemma_closing(s, "\"\"\""@, i + 3);
        } else {
            lemma_closing(s, "\""@, i + 1);
        }
    } else if c == '@' {
        lemma_name_run(s, i + 1);
    } else if starts_name(c) {
        lemma_name_run(s, i);
    }
}

/// Every character has a color.
proof fn lemma_inks(s: Seq<char>, i: int)
    requires
        0 <= i <= s.len(),
    ensures
        inks(s, i).len() == s.len() - i,
    decreases s.len() - i,
{
    if i < s.len() {
        lemma_token(s, i);
        lemma_inks(s, token(s, i).0);
    }
}

proof fn lemma_total_grown(runs: Seq<(int, Ink)>, len: int, ink: Ink)
    ensures
        total(grown(runs, len, ink)) == total(runs) + len,
{
    let now = grown(runs, len, ink);
    if runs.len() > 0 && runs.last().1 == ink {
        assert(now.drop_last() =~= runs.drop_last());
    } else {
        assert(now.drop_last() =~= runs);
    }
}

proof fn lemma_total_runs(s: Seq<char>, colors: Seq<Ink>)
    requires
        colors.len() <= s.len(),
    ensures
        total(runs_of(s, colors)) == byte_len(s.take(colors.len() as int)),
    decreases colors.len(),
{
    let n = colors.len() as int;
    if n == 0 {
        assert(s.take(0) =~= Seq::<char>::empty());
    } else {
        lemma_total_runs(s, colors.drop_last());
        lemma_total_grown(runs_of(s, colors.drop_last()), width(s[n - 1]), colors.last());
        lemma_one_more(s, n - 1);
    }
}

/// One more character is that many more bytes.
pub(crate) proof fn lemma_one_more(s: Seq<char>, k: int)
    requires
        0 <= k < s.len(),
    ensures
        byte_len(s.take(k + 1)) == byte_len(s.take(k)) + width(s[k]),
        byte_len(s.take(k + 1)) <= byte_len(s),
        1 <= width(s[k]) <= 4,
{
    let one = seq![s[k]];
    assert(s.take(k + 1) =~= s.take(k) + one);
    lemma_encode_adds(s.take(k), one);
    assert(one.drop_first() =~= Seq::<char>::empty());
    assert(encode_utf8(one) =~= encode_scalar(s[k] as u32) + encode_utf8(one.drop_first()));
    assert(encode_utf8(one.drop_first()).len() == 0);
    assert(s =~= s.take(k + 1) + s.skip(k + 1));
    lemma_encode_adds(s.take(k + 1), s.skip(k + 1));
}

/// The runs tile the line: together they are exactly as many bytes as the line has, none is empty,
/// and no two neighbours have one color.
pub proof fn runs_tile_the_line(s: Seq<char>)
    ensures
        total(line_runs(s)) == byte_len(s),
        forall|i: int| 0 <= i < line_runs(s).len() ==> (#[trigger] line_runs(s)[i]).0 > 0,
        forall|i: int|
            0 <= i && i + 1 < line_runs(s).len() ==> (#[trigger] line_runs(s)[i]).1
                != line_runs(s)[i + 1].1,
{
    lemma_inks(s, 0);
    lemma_total_runs(s, inks(s, 0));
    assert(s.take(s.len() as int) =~= s);
    lemma_runs_shape(s, inks(s, 0));
}

proof fn lemma_runs_shape(s: Seq<char>, colors: Seq<Ink>)
    requires
        colors.len() <= s.len(),
    ensures
        forall|i: int| 0 <= i < runs_of(s, colors).len() ==> (#[trigger] runs_of(s, colors)[i]).0
            > 0,
        forall|i: int|
            0 <= i && i + 1 < runs_of(s, colors).len() ==> (#[trigger] runs_of(s, colors)[i]).1
                != runs_of(s, colors)[i + 1].1,
    decreases colors.len(),
{
    if colors.len() > 0 {
        let rest = colors.drop_last();
        lemma_runs_shape(s, rest);
        lemma_one_more(s, colors.len() - 1);
        let before = runs_of(s, rest);
        let now = runs_of(s, colors);
        assert forall|i: int| 0 <= i < now.len() implies (#[trigger] now[i]).0 > 0 by {
            if i < before.len() {
                assert(before[i].0 > 0);
            }
        }
        assert forall|i: int| 0 <= i && i + 1 < now.len() implies (#[trigger] now[i]).1 != now[i
            + 1].1 by {
            if i + 1 < before.len() {
                assert(before[i].1 != before[i + 1].1);
            } else {
                assert(before[i] == before.last());
            }
        }
    }
}

// ── scanning ───────────────────────────────────────────────────────────────

/// How many bytes a character takes.
pub fn width_of(c: char) -> (r: usize)
    ensures
        r == width(c),
        1 <= r <= 4,
{
    let n: u32 = c as u32;
    if n <= 0x7f {
        1
    } else if n <= 0x7ff {
        2
    } else if n <= 0xffff {
        3
    } else {
        4
    }
}

fn continues(c: char) -> (r: bool)
    ensures
        r == continues_name(c),
{
    c == '_' || ('a' <= c && c <= 'z') || ('A' <= c && c <= 'Z') || ('0' <= c && c <= '9')
}

fn starts(c: char) -> (r: bool)
    ensures
        r == starts_name(c),
{
    c == '_' || ('a' <= c && c <= 'z') || ('A' <= c && c <= 'Z')
}

fn end_of_name(s: &Vec<char>, from: usize) -> (r: usize)
    requires
        from <= s@.len(),
    ensures
        r == name_run(s@, from as int),
        from <= r <= s@.len(),
{
    let mut i: usize = from;
    while i < s.len() && continues(s[i])
        invariant
            from <= i <= s@.len(),
            name_run(s@, from as int) == name_run(s@, i as int),
        decreases s@.len() - i,
    {
        i = i + 1;
    }
    i
}

fn end_of_string(s: &Vec<char>, quote: &Vec<char>, from: usize) -> (r: usize)
    requires
        from <= s@.len(),
        quote@.len() > 0,
    ensures
        r == closing(s@, quote@, from as int),
{
    let mut i: usize = from;
    while i < s.len()
        invariant
            from <= i <= s@.len(),
            closing(s@, quote@, from as int) == closing(s@, quote@, i as int),
        decreases s@.len() - i,
    {
        if stands(s, quote, i) {
            return i + quote.len();
        }
        i = i + 1;
    }
    i
}

fn keyword(w: &str) -> (r: bool)
    ensures
        r == is_keyword(w@),
{
    same(w, "type") || same(w, "interface") || same(w, "enum") || same(w, "union") || same(
        w,
        "input",
    ) || same(w, "scalar") || same(w, "schema") || same(w, "extend") || same(w, "implements")
        || same(w, "directive") || same(w, "query") || same(w, "mutation") || same(
        w,
        "subscription",
    ) || same(w, "fragment")
}

/// Reads the token at `i`.
fn read_token(s: &Vec<char>, i: usize) -> (r: (usize, Ink))
    requires
        i < s@.len(),
    ensures
        r.0 == token(s@, i as int).0,
        r.1 == token(s@, i as int).1,
        i < r.0 <= s@.len(),
{
    proof {
        lemma_token(s@, i as int);
        reveal_strlit("\"\"\"");
        reveal_strlit("\"");
    }
    let n: usize = s.len();
    let c: char = s[i];
    if c == '#' {
        (n, Ink::Muted)
    } else if c == '"' {
        let three = chars_of("\"\"\"");
        let one = chars_of("\"");
        if stands(s, &three, i) {
            (end_of_string(s, &three, i + 3), Ink::Green)
        } else {
            (end_of_string(s, &one, i + 1), Ink::Green)
        }
    } else if c == '@' {
        (end_of_name(s, i + 1), Ink::Amber)
    } else if starts(c) {
        let e: usize = end_of_name(s, i);
        let word = slice_string(s, i, e);
        let ink = if keyword(word.as_str()) {
            Ink::Keyword
        } else if 'A' <= c && c <= 'Z' {
            Ink::TypeName
        } else {
            Ink::Text
        };
        (e, ink)
    } else if c == '-' && i < n - 1 && !is_ascii_digit(s[i + 1]) {
        (i + 1, Ink::Red)
    } else if is_ascii_digit(c) {
        (i + 1, Ink::Amber)
    } else {
        (i + 1, Ink::Muted)
    }
}

/// The model of runs.
pub open spec fn run_models(runs: Seq<(usize, Ink)>) -> Seq<(int, Ink)> {
    runs.map_values(|r: (usize, Ink)| (r.0 as int, r.1))
}

fn push_run(runs: &mut Vec<(usize, Ink)>, len: usize, ink: Ink)
    requires
        old(runs)@.len() > 0 ==> old(runs)@.last().0 + len <= usize::MAX,
    ensures
        run_models(final(runs)@) == grown(run_models(old(runs)@), len as int, ink),
{
    let ghost before = runs@;
    let n: usize = runs.len();
    if n > 0 && runs[n - 1].1 == ink {
        let more: usize = runs[n - 1].0 + len;
        runs.set(n - 1, (more, ink));
        assert(run_models(runs@) =~= grown(run_models(before), len as int, ink));
    } else {
        runs.push((len, ink));
        assert(run_models(runs@) =~= grown(run_models(before), len as int, ink));
    }
}

/// The last run is no longer than all together.
proof fn lemma_last_run(s: Seq<char>, colors: Seq<Ink>)
    requires
        colors.len() <= s.len(),
        runs_of(s, colors).len() > 0,
    ensures
        runs_of(s, colors).last().0 <= total(runs_of(s, colors)),
{
    let runs = runs_of(s, colors);
    lemma_runs_shape(s, colors);
    lemma_total_positive(runs.drop_last());
}

proof fn lemma_total_positive(runs: Seq<(int, Ink)>)
    requires
        forall|i: int| 0 <= i < runs.len() ==> (#[trigger] runs[i]).0 > 0,
    ensures
        total(runs) >= 0,
    decreases runs.len(),
{
    if runs.len() > 0 {
        let rest = runs.drop_last();
        assert(forall|i: int| 0 <= i < rest.len() ==> #[trigger] rest[i] == runs[i]);
        lemma_total_positive(rest);
    }
}

/// Splits one SDL line into runs of bytes of one color: comments, strings, keywords, directives,
/// type names and punctuation.
pub fn highlight(line: &str) -> (r: Vec<(usize, Ink)>)
    ensures
        run_models(r@) == line_runs(line@),
{
    let s = chars_of(line);
    let bytes: usize = len_of(line);
    let n: usize = s.len();
    let ghost colors = inks(s@, 0);
    proof {
        lemma_inks(s@, 0);
    }
    let mut runs: Vec<(usize, Ink)> = Vec::new();
    let mut i: usize = 0;
    assert(colors.take(0) =~= Seq::<Ink>::empty());
    assert(run_models(runs@) =~= runs_of(s@, colors.take(0)));
    assert(colors.skip(0) =~= colors);
    while i < n
        invariant
            i <= n == s@.len(),
            s@ == line@,
            bytes == byte_len(line@),
            colors == inks(s@, 0),
            colors.len() == n,
            colors.skip(i as int) == inks(s@, i as int),
            run_models(runs@) == runs_of(s@, colors.take(i as int)),
        decreases n - i,
    {
        let (end, ink) = read_token(&s, i);
        let ghost tail = inks(s@, i as int);
        let ghost piece = Seq::new((end - i) as nat, |k: int| ink);
        assert(tail =~= piece + inks(s@, end as int));
        assert forall|k: int| i <= k < end implies #[trigger] colors[k] == ink by {
            assert(colors[k] == colors.skip(i as int)[k - i]);
            assert(tail[k - i] == piece[k - i]);
        }
        assert(colors.skip(end as int) =~= inks(s@, end as int)) by {
            assert(colors.skip(end as int) =~= colors.skip(i as int).skip(end - i));
            assert((piece + inks(s@, end as int)).skip(end - i) =~= inks(s@, end as int));
        }
        let mut k: usize = i;
        while k < end
            invariant
                i <= k <= end <= n,
                n == s@.len(),
                s@ == line@,
                bytes == byte_len(line@),
                colors.len() == n,
                forall|j: int| i <= j < end ==> #[trigger] colors[j] == ink,
                run_models(runs@) == runs_of(s@, colors.take(k as int)),
            decreases end - k,
        {
            let w: usize = width_of(s[k]);
            proof {
                let seen = colors.take(k as int);
                assert(colors.take(k as int + 1).drop_last() =~= seen);
                assert(colors.take(k as int + 1).last() == ink);
                lemma_one_more(s@, k as int);
                lemma_total_runs(s@, seen);
                if runs@.len() > 0 {
                    lemma_last_run(s@, seen);
                    assert(run_models(runs@).last() == (runs@.last().0 as int, runs@.last().1));
                }
            }
            push_run(&mut runs, w, ink);
            k = k + 1;
        }
        i = end;
    }
    assert(colors.take(i as int) =~= colors);
    runs
}

// ── search hits ────────────────────────────────────────────────────────────

/// The byte ranges of the marked characters among the first `k`, neighbours in one range.
pub open spec fn marked_ranges(s: Seq<char>, marked: Set<int>, k: int) -> Seq<(int, int)>
    decreases k,
{
    if k <= 0 {
        Seq::empty()
    } else {
        let before = marked_ranges(s, marked, k - 1);
        let from = byte_len(s.take(k - 1));
        let to = byte_len(s.take(k));
        if !marked.contains(k - 1) {
            before
        } else if before.len() > 0 && before.last().1 == from {
            before.update(before.len() - 1, (before.last().0, to))
        } else {
            before.push((from, to))
        }
    }
}

/// The listed places.
pub open spec fn listed(places: Seq<usize>) -> Set<int> {
    Set::new(|k: int| exists|i: int| 0 <= i < places.len() && #[trigger] places[i] == k)
}

#[verifier::loop_isolation(false)]
fn lists(places: &Vec<usize>, k: usize) -> (r: bool)
    ensures
        r == listed(places@).contains(k as int),
{
    let mut i: usize = 0;
    while i < places.len()
        invariant
            i <= places@.len(),
            forall|j: int| 0 <= j < i ==> #[trigger] places@[j] != k,
        decreases places@.len() - i,
    {
        if places[i] == k {
            assert(places@[i as int] == k);
            return true;
        }
        i = i + 1;
    }
    false
}

/// The model of ranges.
pub open spec fn range_models(ranges: Seq<(usize, usize)>) -> Seq<(int, int)> {
    ranges.map_values(|r: (usize, usize)| (r.0 as int, r.1 as int))
}

/// Turns the places of matched characters into byte ranges; neighbours are merged, and places past
/// the end are left out.
pub fn char_byte_ranges(text: &str, places: &Vec<usize>) -> (r: Vec<(usize, usize)>)
    ensures
        range_models(r@) == marked_ranges(text@, listed(places@), text@.len() as int),
{
    let s = chars_of(text);
    let bytes: usize = len_of(text);
    let ghost marked = listed(places@);
    let mut out: Vec<(usize, usize)> = Vec::new();
    let mut at: usize = 0;
    let mut k: usize = 0;
    assert(s@.take(0) =~= Seq::<char>::empty());
    assert(range_models(out@) =~= marked_ranges(s@, marked, 0));
    while k < s.len()
        invariant
            k <= s@.len(),
            s@ == text@,
            bytes == byte_len(text@),
            marked == listed(places@),
            at == byte_len(s@.take(k as int)),
            range_models(out@) == marked_ranges(s@, marked, k as int),
        decreases s@.len() - k,
    {
        proof {
            lemma_one_more(s@, k as int);
        }
        let end: usize = at + width_of(s[k]);
        if lists(places, k) {
            let ghost before = out@;
            let n: usize = out.len();
            if n > 0 && out[n - 1].1 == at {
                let from: usize = out[n - 1].0;
                assert(range_models(before).last() == (from as int, at as int));
                out.set(n - 1, (from, end));
                assert(range_models(out@) =~= range_models(before).update(
                    n - 1,
                    (from as int, end as int),
                ));
            } else {
                if n > 0 {
                    assert(range_models(before).last() == (
                        before.last().0 as int,
                        before.last().1 as int,
                    ));
                }
                out.push((at, end));
                assert(range_models(out@) =~= range_models(before).push((at as int, end as int)));
            }
        }
        at = end;
        k = k + 1;
    }
    out
}

} // verus!
