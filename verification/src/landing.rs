//! What the landing screen says of a schema file.

use vstd::prelude::*;

use crate::dates::{falls_on, format_stamp, stamp_text};
use crate::scan::{split_chars, split_on, texts};
use crate::text::{chars_of, decimal, decimal_string, skip_white, skip_whitespace, stands, stands_at};

verus! {

/// The lines of a text; a break at its end starts no further line.
pub open spec fn lines(s: Seq<char>) -> Seq<Seq<char>> {
    let pieces = split_on(s, '\n');
    if pieces.last().len() == 0 {
        pieces.drop_last()
    } else {
        pieces
    }
}

/// The line starts with `keyword`, white space before it aside.
pub open spec fn opens_with(line: Seq<char>, keyword: Seq<char>) -> bool {
    stands_at(line, keyword, skip_white(line, 0))
}

/// How many lines start with `keyword`.
pub open spec fn lines_with(lines: Seq<Seq<char>>, keyword: Seq<char>) -> nat
    decreases lines.len(),
{
    if lines.len() == 0 {
        0
    } else {
        lines_with(lines.drop_last(), keyword) + (if opens_with(lines.last(), keyword) {
            1nat
        } else {
            0
        })
    }
}

/// A count and what it counts, and a dot behind them; nothing where there is nothing to count.
pub open spec fn counted(n: nat, word: Seq<char>) -> Seq<char> {
    if n > 0 {
        decimal(n) + word + " · "@
    } else {
        Seq::empty()
    }
}

/// The summary of a schema: how many types, enums and unions it declares, as far as it has any, and
/// how many lines it has.
pub open spec fn summary(sdl: Seq<char>) -> Seq<char> {
    let all = lines(sdl);
    counted(lines_with(all, "type "@), " types"@) + counted(lines_with(all, "enum "@), " enums"@)
        + counted(lines_with(all, "union "@), " unions"@) + decimal(all.len()) + " lines"@
}

/// Splits a text into its lines.
fn split_lines(sdl: &str) -> (r: Vec<Vec<char>>)
    ensures
        texts(r@) == lines(sdl@),
{
    let v = chars_of(sdl);
    let mut pieces = split_chars(&v, '\n');
    let n: usize = pieces.len();
    let ghost all = texts(pieces@);
    assert(all.last() == pieces@[n - 1]@);
    if pieces[n - 1].len() == 0 {
        pieces.pop();
        assert(texts(pieces@) =~= all.drop_last());
    }
    pieces
}

fn count_lines(list: &Vec<Vec<char>>, keyword: &str) -> (r: usize)
    ensures
        r == lines_with(texts(list@), keyword@),
{
    let ghost all = texts(list@);
    let k = chars_of(keyword);
    let mut count: usize = 0;
    let mut i: usize = 0;
    assert(all.take(0) =~= Seq::<Seq<char>>::empty());
    while i < list.len()
        invariant
            i <= list@.len(),
            all == texts(list@),
            k@ == keyword@,
            count == lines_with(all.take(i as int), keyword@),
            count <= i,
        decreases list@.len() - i,
    {
        assert(all[i as int] == list@[i as int]@);
        assert(all.take(i as int + 1).drop_last() =~= all.take(i as int));
        let at: usize = skip_whitespace(&list[i], 0);
        if stands(&list[i], &k, at) {
            count = count + 1;
        }
        i = i + 1;
    }
    assert(all.take(i as int) =~= all);
    count
}

fn push_counted(out: &mut String, n: usize, word: &str)
    ensures
        final(out)@ == old(out)@ + counted(n as nat, word@),
{
    let ghost before = out@;
    if n > 0 {
        out.append(decimal_string(n).as_str());
        out.append(word);
        out.append(" · ");
        assert(out@ =~= before + counted(n as nat, word@));
    } else {
        assert(out@ =~= before + counted(n as nat, word@));
    }
}

/// `12 types · 3 enums · 1 unions · 240 lines`: what a schema declares, line by line.
pub fn summarize(sdl: &str) -> (r: String)
    ensures
        r@ == summary(sdl@),
{
    let list = split_lines(sdl);
    let mut out = String::new();
    push_counted(&mut out, count_lines(&list, "type "), " types");
    push_counted(&mut out, count_lines(&list, "enum "), " enums");
    push_counted(&mut out, count_lines(&list, "union "), " unions");
    out.append(decimal_string(list.len()).as_str());
    out.append(" lines");
    assert(texts(list@).len() == list@.len());
    assert(out@ =~= summary(sdl@));
    out
}

/// The two lines under a remembered schema: when it was last changed, and what it declares. A file
/// without a time is missing, and one without text unreadable.
pub fn entry_meta(modified: Option<i64>, text: Option<&str>) -> (r: (String, String))
    requires
        modified matches Some(secs) ==> secs > i64::MIN,
    ensures
        match modified {
            Some(secs) => exists|y: int, m: int, d: int| #[trigger]
                falls_on(secs as int / 86_400, y, m, d) && r.0@ == "updated "@ + stamp_text(
                    y,
                    m,
                    d,
                    secs as int % 86_400,
                ),
            None => r.0@ == "missing"@,
        },
        r.1@ == (match text {
            Some(t) => summary(t@),
            None => "unreadable"@,
        }),
{
    let stamp = match modified {
        Some(secs) => {
            let mut s = "updated ".to_owned();
            s.append(format_stamp(secs).as_str());
            s
        },
        None => "missing".to_owned(),
    };
    let stats = match text {
        Some(t) => summarize(t),
        None => "unreadable".to_owned(),
    };
    (stamp, stats)
}

} // verus!
