//! Line scanners for overlay text: names, definition heads, members and string literals.

use vstd::prelude::*;

use crate::text::{is_white, skip_white, skip_whitespace, stands, stands_at, trim, trim_bounds, white};
use crate::types::NodeKind;

verus! {

/// The characters `from..to` of `v`.
pub fn part(v: &Vec<char>, from: usize, to: usize) -> (r: Vec<char>)
    requires
        from <= to <= v@.len(),
    ensures
        r@ == v@.subrange(from as int, to as int),
{
    let mut out: Vec<char> = Vec::new();
    let mut i: usize = from;
    while i < to
        invariant
            from <= i <= to <= v@.len(),
            out@ == v@.subrange(from as int, i as int),
        decreases to - i,
    {
        out.push(v[i]);
        assert(v@.subrange(from as int, i as int + 1) =~= v@.subrange(from as int, i as int).push(
            v@[i as int],
        ));
        i = i + 1;
    }
    out
}

/// `v` without the white space at either end.
pub fn trimmed_part(v: &Vec<char>) -> (r: Vec<char>)
    ensures
        r@ == trim(v@),
{
    let (i, j) = trim_bounds(v);
    part(v, i, j)
}

// ── names ──────────────────────────────────────────────────────────────────

/// A character that a name can start with.
pub open spec fn starts_name(c: char) -> bool {
    c == '_' || 'a' <= c <= 'z' || 'A' <= c <= 'Z'
}

/// A character that a name can go on with.
pub open spec fn continues_name(c: char) -> bool {
    starts_name(c) || '0' <= c <= '9'
}

/// The first place from `i` on that holds no character of a name.
pub open spec fn name_run(s: Seq<char>, i: int) -> int
    decreases s.len() - i,
{
    if 0 <= i < s.len() && continues_name(s[i]) { name_run(s, i + 1) } else { i }
}

/// Where the name that starts at `i` ends, if one starts there.
pub open spec fn name_end(s: Seq<char>, i: int) -> Option<int> {
    if 0 <= i < s.len() && starts_name(s[i]) { Some(name_run(s, i + 1)) } else { None }
}

/// The end of the word that goes on at `i`.
fn word_end(s: &Vec<char>, i: usize) -> (r: usize)
    requires
        i <= s@.len(),
    ensures
        r == name_run(s@, i as int),
        i <= r <= s@.len(),
{
    let mut j: usize = i;
    while j < s.len() && is_name_char(s[j])
        invariant
            i <= j <= s@.len(),
            name_run(s@, i as int) == name_run(s@, j as int),
        decreases s@.len() - j,
    {
        j = j + 1;
    }
    j
}

fn is_name_start(c: char) -> (r: bool)
    ensures
        r == starts_name(c),
{
    c == '_' || ('a' <= c && c <= 'z') || ('A' <= c && c <= 'Z')
}

fn is_name_char(c: char) -> (r: bool)
    ensures
        r == continues_name(c),
{
    is_name_start(c) || ('0' <= c && c <= '9')
}

/// End index (exclusive) of a GraphQL name starting at `i`, if there is one.
pub fn ident_end(s: &Vec<char>, i: usize) -> (r: Option<usize>)
    ensures
        match r {
            Some(e) => name_end(s@, i as int) == Some(e as int) && i < e <= s@.len(),
            None => name_end(s@, i as int) is None,
        },
{
    if i >= s.len() {
        return None;
    }
    if !is_name_start(s[i]) {
        return None;
    }
    Some(word_end(s, i + 1))
}

// ── removal lines ──────────────────────────────────────────────────────────

/// Reads a removal line: `-email`, `- email` or `-User.email`, with nothing after it.
pub open spec fn remove_line(t: Seq<char>) -> Option<(Seq<char>, Option<Seq<char>>)> {
    if t.len() == 0 || t[0] != '-' {
        None
    } else {
        let i = skip_white(t, 1);
        match name_end(t, i) {
            None => None,
            Some(e) => if e < t.len() && t[e] == '.' {
                match name_end(t, e + 1) {
                    Some(e2) => if e2 == t.len() {
                        Some((t.subrange(i, e), Some(t.subrange(e + 1, e2))))
                    } else {
                        None
                    },
                    None => None,
                }
            } else if e == t.len() {
                Some((t.subrange(i, e), None))
            } else {
                None
            },
        }
    }
}

/// Reads a removal line.
pub fn parse_remove_line(t: &Vec<char>) -> (r: Option<(Vec<char>, Option<Vec<char>>)>)
    ensures
        match r {
            Some((first, second)) => remove_line(t@) == Some(
                (
                    first@,
                    match second {
                        Some(m) => Some(m@),
                        None => None,
                    },
                ),
            ),
            None => remove_line(t@) is None,
        },
{
    if t.len() == 0 || t[0] != '-' {
        return None;
    }
    let i: usize = skip_whitespace(t, 1);
    match ident_end(t, i) {
        None => None,
        Some(e) => {
            if e < t.len() && t[e] == '.' {
                match ident_end(t, e + 1) {
                    Some(e2) => {
                        if e2 == t.len() {
                            Some((part(t, i, e), Some(part(t, e + 1, e2))))
                        } else {
                            None
                        }
                    },
                    None => None,
                }
            } else if e == t.len() {
                Some((part(t, i, e), None))
            } else {
                None
            }
        },
    }
}

// ── definition heads ───────────────────────────────────────────────────────

/// `word` stands at `i` with white space after it.
pub open spec fn spaced_word(t: Seq<char>, word: Seq<char>, i: int) -> bool {
    stands_at(t, word, i) && i + word.len() < t.len() && is_white(t[i + word.len()])
}

/// The definition keyword at `i`, white space after it.
pub open spec fn keyword_kind(t: Seq<char>, i: int) -> Option<NodeKind> {
    if spaced_word(t, NodeKind::Object.keyword(), i) {
        Some(NodeKind::Object)
    } else if spaced_word(t, NodeKind::Interface.keyword(), i) {
        Some(NodeKind::Interface)
    } else if spaced_word(t, NodeKind::Input.keyword(), i) {
        Some(NodeKind::Input)
    } else if spaced_word(t, NodeKind::Enum.keyword(), i) {
        Some(NodeKind::Enum)
    } else if spaced_word(t, NodeKind::Union.keyword(), i) {
        Some(NodeKind::Union)
    } else if spaced_word(t, NodeKind::Scalar.keyword(), i) {
        Some(NodeKind::Scalar)
    } else {
        None
    }
}

/// Reads the head of a type definition or extension: whether it is an extension, its kind and its
/// name.
pub open spec fn def_line(t: Seq<char>) -> Option<(bool, NodeKind, Seq<char>)> {
    let is_extend = spaced_word(t, "extend"@, 0);
    let i = if is_extend { skip_white(t, "extend"@.len() as int) } else { 0 };
    match keyword_kind(t, i) {
        None => None,
        Some(kind) => {
            let k = skip_white(t, i + kind.keyword().len());
            match name_end(t, k) {
                None => None,
                Some(e) => Some((is_extend, kind, t.subrange(k, e))),
            }
        },
    }
}

fn has_spaced_word(t: &Vec<char>, word: &str, i: usize) -> (r: Option<usize>)
    requires
        i <= t@.len(),
    ensures
        match r {
            Some(e) => spaced_word(t@, word@, i as int) && e == i + word@.len() && e < t@.len(),
            None => !spaced_word(t@, word@, i as int),
        },
{
    let n: usize = t.len();
    let w = crate::text::chars_of(word);
    if !stands(t, &w, i) {
        return None;
    }
    let e: usize = i + w.len();
    if e < n && white(t[e]) {
        Some(e)
    } else {
        None
    }
}

fn find_keyword(t: &Vec<char>, i: usize) -> (r: Option<(NodeKind, usize)>)
    requires
        i <= t@.len(),
    ensures
        match r {
            Some((k, e)) => keyword_kind(t@, i as int) == Some(k) && e == i + k.keyword().len() && e
                < t@.len(),
            None => keyword_kind(t@, i as int) is None,
        },
{
    if let Some(e) = has_spaced_word(t, NodeKind::Object.sdl_keyword(), i) {
        return Some((NodeKind::Object, e));
    }
    if let Some(e) = has_spaced_word(t, NodeKind::Interface.sdl_keyword(), i) {
        return Some((NodeKind::Interface, e));
    }
    if let Some(e) = has_spaced_word(t, NodeKind::Input.sdl_keyword(), i) {
        return Some((NodeKind::Input, e));
    }
    if let Some(e) = has_spaced_word(t, NodeKind::Enum.sdl_keyword(), i) {
        return Some((NodeKind::Enum, e));
    }
    if let Some(e) = has_spaced_word(t, NodeKind::Union.sdl_keyword(), i) {
        return Some((NodeKind::Union, e));
    }
    if let Some(e) = has_spaced_word(t, NodeKind::Scalar.sdl_keyword(), i) {
        return Some((NodeKind::Scalar, e));
    }
    None
}

/// Reads the head of a type definition or extension.
pub fn parse_def_line(t: &Vec<char>) -> (r: Option<(bool, NodeKind, Vec<char>)>)
    ensures
        match r {
            Some((x, k, n)) => def_line(t@) == Some((x, k, n@)),
            None => def_line(t@) is None,
        },
{
    let mut is_extend: bool = false;
    let mut i: usize = 0;
    if let Some(e) = has_spaced_word(t, "extend", 0) {
        is_extend = true;
        i = skip_whitespace(t, e);
    }
    match find_keyword(t, i) {
        None => None,
        Some((kind, e)) => {
            let k: usize = skip_whitespace(t, e);
            match ident_end(t, k) {
                None => None,
                Some(end) => Some((is_extend, kind, part(t, k, end))),
            }
        },
    }
}

// ── string literals ────────────────────────────────────────────────────────

/// Past the opening quote, a string without line breaks closes exactly at the end of `s`.
pub open spec fn closes_at_end(s: Seq<char>, i: int) -> bool
    decreases s.len() - i,
{
    if i < 0 || i >= s.len() {
        false
    } else if s[i] == '"' {
        i == s.len() - 1
    } else if s[i] == '\\' {
        i + 1 < s.len() && closes_at_end(s, i + 2)
    } else {
        closes_at_end(s, i + 1)
    }
}

/// A one-line, non-block string and nothing else.
pub open spec fn simple_string(t: Seq<char>) -> bool {
    t.len() >= 2 && t[0] == '"' && closes_at_end(t, 1)
}

/// Whether `t` is a one-line, non-block string and nothing else.
pub fn is_simple_string_literal(t: &Vec<char>) -> (r: bool)
    ensures
        r == simple_string(t@),
{
    if t.len() < 2 || t[0] != '"' {
        return false;
    }
    let mut i: usize = 1;
    while i < t.len()
        invariant
            1 <= i <= t@.len() + 1,
            t@.len() >= 2,
            t@[0] == '"',
            closes_at_end(t@, 1) == closes_at_end(t@, i as int),
        decreases t@.len() + 1 - i,
    {
        if t[i] == '"' {
            return i == t.len() - 1;
        }
        if t[i] == '\\' {
            if i + 1 < t.len() {
                i = i + 2;
            } else {
                return false;
            }
        } else {
            i = i + 1;
        }
    }
    false
}

/// Three quotes stand at `i`.
pub open spec fn triple_at(s: Seq<char>, i: int) -> bool {
    0 <= i && i + 3 <= s.len() && s[i] == '"' && s[i + 1] == '"' && s[i + 2] == '"'
}

/// The first place from `i` on where three quotes stand, or the length of `s`.
pub open spec fn next_triple(s: Seq<char>, i: int) -> int
    decreases s.len() - i,
{
    if i < 0 || i >= s.len() {
        s.len() as int
    } else if triple_at(s, i) {
        i
    } else {
        next_triple(s, i + 1)
    }
}

/// Whether three quotes stand at `i`.
pub fn is_triple(s: &Vec<char>, i: usize) -> (r: bool)
    ensures
        r == triple_at(s@, i as int),
{
    i < s.len() && s.len() - i >= 3 && s[i] == '"' && s[i + 1] == '"' && s[i + 2] == '"'
}

/// The first place from `from` on where three quotes stand.
pub fn find_triple(s: &Vec<char>, from: usize) -> (r: Option<usize>)
    requires
        from <= s@.len(),
    ensures
        match r {
            Some(i) => i == next_triple(s@, from as int) && from <= i && triple_at(s@, i as int),
            None => next_triple(s@, from as int) == s@.len(),
        },
{
    let mut i: usize = from;
    while i < s.len()
        invariant
            from <= i <= s@.len(),
            next_triple(s@, from as int) == next_triple(s@, i as int),
        decreases s@.len() - i,
    {
        if is_triple(s, i) {
            return Some(i);
        }
        i = i + 1;
    }
    None
}

/// Where a string ends, past its closing quote, from inside it at `i`; an open one ends with the
/// line.
pub open spec fn string_end(s: Seq<char>, i: int) -> int
    decreases s.len() - i,
{
    if i < 0 || i >= s.len() {
        s.len() as int
    } else if s[i] == '\\' {
        if i + 1 < s.len() { string_end(s, i + 2) } else { s.len() as int }
    } else if s[i] == '"' {
        i + 1
    } else {
        string_end(s, i + 1)
    }
}

/// The code of a line from `i` on, comments and strings left out, and whether a block string is
/// open at its end.
pub open spec fn code_from(s: Seq<char>, i: int, in_block: bool) -> (Seq<char>, bool)
    decreases s.len() - i,
    when 0 <= i
{
    if i >= s.len() {
        (Seq::empty(), in_block)
    } else if in_block {
        let e = next_triple(s, i);
        if i <= e && triple_at(s, e) { code_from(s, e + 3, false) } else { (Seq::empty(), true) }
    } else if s[i] == '#' {
        (Seq::empty(), false)
    } else if triple_at(s, i) {
        code_from(s, i + 3, true)
    } else if s[i] == '"' {
        let e = string_end(s, i + 1);
        if i < e <= s.len() { code_from(s, e, false) } else { (Seq::empty(), false) }
    } else {
        let (rest, open) = code_from(s, i + 1, false);
        (seq![s[i]] + rest, open)
    }
}

/// The code of a line, comments and strings left out.
pub open spec fn code_of(line: Seq<char>, in_block: bool) -> Seq<char> {
    code_from(line, 0, in_block).0
}

/// Whether a block string is open after a line.
pub open spec fn open_after(line: Seq<char>, in_block: bool) -> bool {
    code_from(line, 0, in_block).1
}

/// Strips comments and string bodies from one line, so brace counting and keyword matching only
/// ever see code. `in_block` carries an open `"""` across lines.
pub fn strip_literals(line: &Vec<char>, in_block: bool) -> (r: (Vec<char>, bool))
    ensures
        r.0@ == code_of(line@, in_block),
        r.1 == open_after(line@, in_block),
{
    let n: usize = line.len();
    let mut out: Vec<char> = Vec::new();
    let mut open: bool = in_block;
    let mut i: usize = 0;
    assert(out@ + code_from(line@, 0, open).0 =~= code_of(line@, in_block));
    while i < n
        invariant
            n == line@.len(),
            i <= n,
            out@ + code_from(line@, i as int, open).0 == code_of(line@, in_block),
            code_from(line@, i as int, open).1 == open_after(line@, in_block),
        decreases n - i,
    {
        if open {
            match find_triple(line, i) {
                None => {
                    assert(out@ + Seq::<char>::empty() =~= out@);
                    return (out, true);
                },
                Some(e) => {
                    open = false;
                    i = e + 3;
                },
            }
        } else {
            let c: char = line[i];
            if c == '#' {
                assert(out@ + Seq::<char>::empty() =~= out@);
                return (out, false);
            }
            if is_triple(line, i) {
                open = true;
                i = i + 3;
            } else if c == '"' {
                let ghost start = i as int;
                let mut j: usize = i + 1;
                let mut closed: bool = false;
                while !closed && j < n
                    invariant
                        n == line@.len(),
                        start < j <= n,
                        !closed ==> string_end(line@, start + 1) == string_end(line@, j as int),
                        closed ==> string_end(line@, start + 1) == j,
                    decreases n - j, !closed as int,
                {
                    if line[j] == '\\' {
                        if n - j >= 2 {
                            j = j + 2;
                        } else {
                            j = n;
                        }
                    } else if line[j] == '"' {
                        j = j + 1;
                        closed = true;
                    } else {
                        j = j + 1;
                    }
                }
                i = j;
            } else {
                let ghost rest = code_from(line@, i as int + 1, false).0;
                let ghost before = out@;
                out.push(c);
                assert(before + (seq![c] + rest) =~= out@ + rest);
                i = i + 1;
            }
        }
    }
    assert(out@ + Seq::<char>::empty() =~= out@);
    (out, open)
}

/// A line's code is no longer than the line.
pub proof fn lemma_code_len(s: Seq<char>, i: int, in_block: bool)
    requires
        0 <= i,
    ensures
        code_from(s, i, in_block).0.len() <= if i < s.len() { s.len() - i } else { 0 },
    decreases s.len() - i,
{
    if i < s.len() {
        if in_block {
            let e = next_triple(s, i);
            if i <= e && triple_at(s, e) {
                lemma_code_len(s, e + 3, false);
            }
        } else if s[i] == '#' {
        } else if triple_at(s, i) {
            lemma_code_len(s, i + 3, true);
        } else if s[i] == '"' {
            let e = string_end(s, i + 1);
            if i < e <= s.len() {
                lemma_code_len(s, e, false);
            }
        } else {
            lemma_code_len(s, i + 1, false);
        }
    }
}

// ── inline members ─────────────────────────────────────────────────────────

/// The first place of `c` in `s`, or the length of `s`.
pub open spec fn first_char(s: Seq<char>, c: char) -> int
    decreases s.len(),
{
    if s.len() == 0 {
        0
    } else {
        let before = first_char(s.drop_last(), c);
        if before < s.len() - 1 || s.last() == c { before } else { s.len() as int }
    }
}

/// The last place of `c` in `s`, or -1.
pub open spec fn last_char(s: Seq<char>, c: char) -> int
    decreases s.len(),
{
    if s.len() == 0 {
        -1
    } else if s.last() == c {
        s.len() - 1
    } else {
        last_char(s.drop_last(), c)
    }
}

/// The first place of `c`.
pub fn find_char(s: &Vec<char>, c: char) -> (r: Option<usize>)
    ensures
        match r {
            Some(i) => i == first_char(s@, c) && i < s@.len(),
            None => first_char(s@, c) == s@.len(),
        },
{
    let mut i: usize = 0;
    assert(s@.take(0) =~= Seq::<char>::empty());
    while i < s.len()
        invariant
            i <= s@.len(),
            first_char(s@.take(i as int), c) == i,
        decreases s@.len() - i,
    {
        assert(s@.take(i as int + 1).drop_last() =~= s@.take(i as int));
        if s[i] == c {
            proof {
                lemma_first_char_stays(s@, c, i as int + 1);
            }
            return Some(i);
        }
        i = i + 1;
    }
    assert(s@.take(i as int) =~= s@);
    None
}

proof fn lemma_first_char_stays(s: Seq<char>, c: char, i: int)
    requires
        0 <= i <= s.len(),
        first_char(s.take(i), c) < i,
    ensures
        first_char(s, c) == first_char(s.take(i), c),
    decreases s.len() - i,
{
    if i < s.len() {
        assert(s.take(i + 1).drop_last() =~= s.take(i));
        lemma_first_char_stays(s, c, i + 1);
    } else {
        assert(s.take(i) =~= s);
    }
}

/// The last place of `c`.
pub fn rfind_char(s: &Vec<char>, c: char) -> (r: Option<usize>)
    ensures
        match r {
            Some(i) => i == last_char(s@, c) && i < s@.len(),
            None => last_char(s@, c) == -1,
        },
{
    let mut i: usize = s.len();
    assert(s@.take(i as int) =~= s@);
    while i > 0
        invariant
            i <= s@.len(),
            last_char(s@, c) == last_char(s@.take(i as int), c),
        decreases i,
    {
        assert(s@.take(i as int).drop_last() =~= s@.take(i as int - 1));
        assert(s@.take(i as int).last() == s@[i - 1]);
        i = i - 1;
        if s[i] == c {
            return Some(i);
        }
    }
    None
}

/// The word `i..e` of `s` declares a member, `last` being the character of code before it: it is a
/// name, and no type (after `:`), directive (after `@`), variable (after `$`) or removed name (after
/// `-`); after `=` it is a default value unless a type follows it.
pub open spec fn declares(s: Seq<char>, i: int, e: int, last: char) -> bool {
    &&& starts_name(s[i])
    &&& last != ':' && last != '@' && last != '$' && last != '-'
    &&& last == '=' ==> skip_white(s, e) < s.len() && s[skip_white(s, e)] == ':'
}

/// The member names that `s` declares from `i` on, in a block that is `depth` braces deep there, with
/// `nested` brackets open and `last` as the character of code before `i`. Members stand one brace
/// deep and outside brackets; commas separate them no more than white space does. The brace that
/// closes the block ends the reading.
pub open spec fn members_from(
    s: Seq<char>,
    i: int,
    depth: nat,
    nested: nat,
    last: char,
) -> Seq<Seq<char>>
    decreases s.len() - i,
{
    if i < 0 || i >= s.len() {
        Seq::empty()
    } else {
        let c = s[i];
        if continues_name(c) {
            proof {
                lemma_name_run(s, i + 1);
            }
            let e = name_run(s, i + 1);
            let rest = members_from(s, e, depth, nested, s[e - 1]);
            if depth == 1 && nested == 0 && declares(s, i, e, last) {
                seq![s.subrange(i, e)] + rest
            } else {
                rest
            }
        } else if c == '{' {
            members_from(s, i + 1, depth + 1, nested, c)
        } else if c == '}' {
            if depth <= 1 {
                Seq::empty()
            } else {
                members_from(s, i + 1, (depth - 1) as nat, nested, c)
            }
        } else if c == '(' || c == '[' {
            members_from(s, i + 1, depth, nested + 1, c)
        } else if c == ')' || c == ']' {
            members_from(s, i + 1, depth, if nested > 0 { (nested - 1) as nat } else { 0 }, c)
        } else if is_white(c) || c == ',' {
            members_from(s, i + 1, depth, nested, last)
        } else {
            members_from(s, i + 1, depth, nested, c)
        }
    }
}

pub proof fn lemma_name_run(s: Seq<char>, i: int)
    ensures
        i <= name_run(s, i),
        0 <= i <= s.len() ==> name_run(s, i) <= s.len(),
    decreases s.len() - i,
{
    if 0 <= i < s.len() && continues_name(s[i]) {
        lemma_name_run(s, i + 1);
    }
}

/// The member names that a definition line with its body inline declares: those of the block that
/// its first `{` opens.
pub open spec fn inline_members(code: Seq<char>) -> Seq<Seq<char>> {
    members_from(code, first_char(code, '{') + 1, 1, 0, '{')
}

fn is_declaration(s: &Vec<char>, i: usize, e: usize, last: char) -> (r: bool)
    requires
        i < e <= s@.len(),
    ensures
        r == declares(s@, i as int, e as int, last),
{
    if !is_name_start(s[i]) || last == ':' || last == '@' || last == '$' || last == '-' {
        return false;
    }
    if last == '=' {
        let k: usize = skip_whitespace(s, e);
        return k < s.len() && s[k] == ':';
    }
    true
}

/// Member names declared in the code of a block from `from` on, `depth` braces deep and with
/// `nested` brackets open: on a line inside a block, or after the brace that opens it.
pub fn find_members(code: &Vec<char>, from: usize, depth: u128, nested: u128, before: char) -> (r: Vec<
    Vec<char>,
>)
    requires
        depth + usize::MAX <= u128::MAX,
        nested + usize::MAX <= u128::MAX,
    ensures
        texts(r@) == members_from(code@, from as int, depth as nat, nested as nat, before),
{
    let n: usize = code.len();
    let ghost all = members_from(code@, from as int, depth as nat, nested as nat, before);
    let mut out: Vec<Vec<char>> = Vec::new();
    let mut deep: u128 = depth;
    let mut open: u128 = nested;
    let mut last: char = before;
    let mut i: usize = from;
    assert(texts(out@) + all =~= all);
    while i < n
        invariant
            n == code@.len(),
            n <= usize::MAX,
            all == members_from(code@, from as int, depth as nat, nested as nat, before),
            i <= n ==> deep + (n - i) <= u128::MAX && open + (n - i) <= u128::MAX,
            texts(out@) + members_from(code@, i as int, deep as nat, open as nat, last) == all,
        decreases n - i,
    {
        let c: char = code[i];
        let ghost rest = members_from(code@, i as int, deep as nat, open as nat, last);
        if is_name_char(c) {
            let e: usize = word_end(code, i + 1);
            if deep == 1 && open == 0 && is_declaration(code, i, e, last) {
                let ghost listed = texts(out@);
                let name = part(code, i, e);
                out.push(name);
                let ghost tail = members_from(
                    code@,
                    e as int,
                    deep as nat,
                    open as nat,
                    code@[e - 1],
                );
                assert(texts(out@) =~= listed.push(name@));
                assert(rest == seq![name@] + tail);
                assert(texts(out@) + tail =~= listed + rest);
            }
            last = code[e - 1];
            i = e;
        } else {
            if c == '{' {
                deep = deep + 1;
            } else if c == '}' {
                if deep <= 1 {
                    assert(rest == Seq::<Seq<char>>::empty());
                    assert(texts(out@) + rest =~= texts(out@));
                    return out;
                }
                deep = deep - 1;
            } else if c == '(' || c == '[' {
                open = open + 1;
            } else if c == ')' || c == ']' {
                if open > 0 {
                    open = open - 1;
                }
            }
            if !white(c) && c != ',' {
                last = c;
            }
            i = i + 1;
        }
    }
    assert(texts(out@) + Seq::<Seq<char>>::empty() =~= texts(out@));
    out
}

/// The texts of a list of character vectors.
pub open spec fn texts(v: Seq<Vec<char>>) -> Seq<Seq<char>> {
    v.map_values(|x: Vec<char>| x@)
}

/// Member names declared on a definition line that carries its body inline: `extend type User {
/// name: String! }`, `enum S { A B }`. What an argument list, a list or a default value holds is no
/// member.
pub fn inline_member_names(code: &Vec<char>) -> (r: Vec<Vec<char>>)
    ensures
        texts(r@) == inline_members(code@),
{
    match find_char(code, '{') {
        None => {
            let out: Vec<Vec<char>> = Vec::new();
            assert(texts(out@) =~= Seq::<Seq<char>>::empty());
            out
        },
        Some(open) => {
            let n: usize = code.len();
            assert(open < n);
            find_members(code, open + 1, 1, 0, '{')
        },
    }
}

// ── splitting and joining ──────────────────────────────────────────────────

/// The pieces of `s` between the separators.
pub open spec fn split_on(s: Seq<char>, sep: char) -> Seq<Seq<char>>
    decreases s.len(),
{
    if s.len() == 0 {
        seq![Seq::empty()]
    } else {
        let before = split_on(s.drop_last(), sep);
        if s.last() == sep {
            before.push(Seq::empty())
        } else {
            before.update(before.len() - 1, before.last().push(s.last()))
        }
    }
}

/// The lines with line breaks between them.
pub open spec fn join_lines(lines: Seq<Seq<char>>) -> Seq<char>
    decreases lines.len(),
{
    if lines.len() == 0 {
        Seq::empty()
    } else if lines.len() == 1 {
        lines[0]
    } else {
        join_lines(lines.drop_last()).push('\n') + lines.last()
    }
}

/// Splits at every separator.
pub fn split_chars(s: &Vec<char>, sep: char) -> (r: Vec<Vec<char>>)
    ensures
        texts(r@) == split_on(s@, sep),
        r@.len() >= 1,
{
    let n: usize = s.len();
    let mut done: Vec<Vec<char>> = Vec::new();
    let mut current: Vec<char> = Vec::new();
    let mut i: usize = 0;
    assert(s@.take(0) =~= Seq::<char>::empty());
    assert(texts(done@).push(current@) =~= split_on(s@.take(0), sep));
    while i < n
        invariant
            n == s@.len(),
            i <= n,
            texts(done@).push(current@) == split_on(s@.take(i as int), sep),
        decreases n - i,
    {
        let c: char = s[i];
        let ghost before = texts(done@);
        let ghost cur = current@;
        assert(s@.take(i as int + 1).drop_last() =~= s@.take(i as int));
        assert(split_on(s@.take(i as int), sep).last() == cur);
        if c == sep {
            let mut next: Vec<char> = Vec::new();
            std::mem::swap(&mut next, &mut current);
            done.push(next);
            assert(texts(done@) =~= before.push(cur));
            assert(current@ =~= Seq::<char>::empty());
            assert(texts(done@).push(current@) =~= before.push(cur).push(Seq::<char>::empty()));
        } else {
            current.push(c);
            assert(before.push(cur).update(before.len() as int, cur.push(c)) =~= before.push(current@));
        }
        i = i + 1;
    }
    assert(s@.take(i as int) =~= s@);
    let ghost before = texts(done@);
    done.push(current);
    assert(texts(done@) =~= before.push(current@));
    done
}

/// Joins lines with line breaks between them.
pub fn join_chars(lines: &Vec<Vec<char>>) -> (r: Vec<char>)
    ensures
        r@ == join_lines(texts(lines@)),
{
    let ghost all = texts(lines@);
    let mut out: Vec<char> = Vec::new();
    let mut i: usize = 0;
    assert(all.take(0) =~= Seq::<Seq<char>>::empty());
    while i < lines.len()
        invariant
            i <= lines@.len(),
            all == texts(lines@),
            out@ == join_lines(all.take(i as int)),
        decreases lines@.len() - i,
    {
        assert(all.take(i as int + 1).drop_last() =~= all.take(i as int));
        assert(all[i as int] == lines@[i as int]@);
        if i > 0 {
            out.push('\n');
        }
        let ghost head = out@;
        append_chars(&mut out, &lines[i]);
        proof {
            if i == 0 {
                assert(head + all[0] =~= all[0]);
            }
        }
        i = i + 1;
    }
    assert(all.take(i as int) =~= all);
    out
}

/// Appends characters.
pub fn append_chars(to: &mut Vec<char>, more: &Vec<char>)
    ensures
        final(to)@ == old(to)@ + more@,
{
    let ghost base = to@;
    let mut i: usize = 0;
    assert(base + more@.take(0) =~= base);
    while i < more.len()
        invariant
            i <= more@.len(),
            to@ == base + more@.take(i as int),
        decreases more@.len() - i,
    {
        to.push(more[i]);
        assert(base + more@.take(i as int + 1) =~= (base + more@.take(i as int)).push(more@[i as int]));
        i = i + 1;
    }
    assert(more@.take(i as int) =~= more@);
}

/// A text split at its line breaks and joined again is the text.
pub proof fn split_then_join(s: Seq<char>)
    ensures
        split_on(s, '\n').len() >= 1,
        join_lines(split_on(s, '\n')) == s,
    decreases s.len(),
{
    if s.len() > 0 {
        let rest = s.drop_last();
        split_then_join(rest);
        let before = split_on(rest, '\n');
        let all = split_on(s, '\n');
        if s.last() == '\n' {
            assert(all.drop_last() =~= before);
            assert(join_lines(all) =~= s);
        } else {
            assert(all.drop_last() =~= before.drop_last());
            assert(rest.push(s.last()) =~= s);
            if all.len() == 1 {
                assert(join_lines(all) =~= s);
            } else {
                let head = join_lines(before.drop_last()).push('\n');
                assert(head + before.last().push(s.last()) =~= (head + before.last()).push(s.last()));
            }
        }
    }
}

/// Lines without line breaks, joined and split again, are the lines.
pub proof fn join_then_split(lines: Seq<Seq<char>>)
    requires
        lines.len() >= 1,
        forall|k: int| 0 <= k < lines.len() ==> !(#[trigger] lines[k]).contains('\n'),
    ensures
        split_on(join_lines(lines), '\n') == lines,
    decreases lines.len(),
{
    if lines.len() == 1 {
        lemma_split_tail(Seq::empty(), lines[0]);
        assert(Seq::<char>::empty() + lines[0] =~= lines[0]);
        let r = split_on(lines[0], '\n');
        assert(split_on(Seq::<char>::empty(), '\n') =~= seq![Seq::<char>::empty()]);
        assert(Seq::<char>::empty() + lines[0] =~= lines[0]);
        assert(r =~= lines);
    } else {
        let rest = lines.drop_last();
        assert forall|k: int| 0 <= k < rest.len() implies !(#[trigger] rest[k]).contains('\n') by {
            assert(rest[k] == lines[k]);
        }
        join_then_split(rest);
        let head = join_lines(rest).push('\n');
        assert(head.drop_last() =~= join_lines(rest));
        assert(split_on(head, '\n') =~= rest.push(Seq::empty()));
        assert(!lines[lines.len() - 1].contains('\n'));
        lemma_split_tail(head, lines.last());
        assert(Seq::<char>::empty() + lines.last() =~= lines.last());
        assert(split_on(head + lines.last(), '\n') =~= lines);
    }
}

/// Text without line breaks goes to the last line.
proof fn lemma_split_tail(head: Seq<char>, tail: Seq<char>)
    requires
        !tail.contains('\n'),
    ensures
        split_on(head, '\n').len() >= 1,
        split_on(head + tail, '\n') == split_on(head, '\n').update(
            split_on(head, '\n').len() - 1,
            split_on(head, '\n').last() + tail,
        ),
    decreases tail.len(),
{
    split_then_join(head);
    let base = split_on(head, '\n');
    if tail.len() == 0 {
        assert(head + tail =~= head);
        assert(base.last() + tail =~= base.last());
        assert(base.update(base.len() - 1, base.last()) =~= base);
    } else {
        let t = tail.drop_last();
        assert(!t.contains('\n')) by {
            if t.contains('\n') {
                let k = choose|k: int| 0 <= k < t.len() && t[k] == '\n';
                assert(tail[k] == '\n');
            }
        }
        lemma_split_tail(head, t);
        assert((head + tail).drop_last() =~= head + t);
        assert(tail.last() != '\n') by {
            assert(tail[tail.len() - 1] == tail.last());
        }
        let mid = split_on(head + t, '\n');
        assert((base.last() + t).push(tail.last()) =~= base.last() + tail);
        assert(mid.update(mid.len() - 1, mid.last().push(tail.last())) =~= base.update(
            base.len() - 1,
            base.last() + tail,
        ));
    }
}

/// No piece of a text split at its line breaks holds one.
pub proof fn lemma_split_no_breaks(s: Seq<char>, k: int)
    requires
        0 <= k < split_on(s, '\n').len(),
    ensures
        !split_on(s, '\n')[k].contains('\n'),
    decreases s.len(),
{
    if s.len() > 0 {
        let rest = s.drop_last();
        let before = split_on(rest, '\n');
        split_then_join(rest);
        if s.last() == '\n' {
            if k < before.len() {
                lemma_split_no_breaks(rest, k);
            }
        } else {
            lemma_split_no_breaks(rest, k);
            if k == before.len() - 1 {
                let line = before.last();
                let grown = line.push(s.last());
                if grown.contains('\n') {
                    let j = choose|j: int| 0 <= j < grown.len() && grown[j] == '\n';
                    assert(line[j] == '\n');
                }
            }
        }
    }
}

} // verus!
