//! What rewriting makes of the lines of an overlay, told of the lines as they are written.

use vstd::prelude::*;

use crate::document::{schema_document, DefinitionModel, KindModel};
use crate::overlay::{
    after_code, after_definition, after_line, as_extension, block_code, declared, deduped,
    holds_members, lemma_after_code_lines, member_names, members_of, prepared, removal_key,
    rewritten, scanned, standing_removals, start_state, without_empty_blocks, ScanState,
};
use crate::scan::{
    code_from, code_of, def_line, first_char, join_lines, join_then_split, keyword_kind, last_char,
    name_end, name_run, open_after, remove_line, spaced_word, split_on,
};
use crate::text::{is_white, skip_white, stands_at, trim, trim_end, trim_start};
use crate::types::{NodeKind, RemovalModel};

verus! {

/// A letter, a digit or an underscore.
pub open spec fn is_name_letter(c: char) -> bool {
    c == '_' || 'a' <= c <= 'z' || 'A' <= c <= 'Z' || '0' <= c <= '9'
}

/// A name: letters, digits and underscores, no digit first.
pub open spec fn is_name(s: Seq<char>) -> bool {
    &&& s.len() > 0
    &&& !('0' <= s[0] <= '9')
    &&& forall|k: int| 0 <= k < s.len() ==> is_name_letter(#[trigger] s[k])
}

/// Nothing but white space.
pub open spec fn is_blank_text(s: Seq<char>) -> bool {
    forall|k: int| 0 <= k < s.len() ==> is_white(#[trigger] s[k])
}

/// Neither strings nor comments.
pub open spec fn is_plain_code(s: Seq<char>) -> bool {
    forall|k: int| 0 <= k < s.len() ==> (#[trigger] s[k]) != '"' && s[k] != '#'
}

/// One of the six words that definitions start with.
pub open spec fn is_definition_word(word: Seq<char>) -> bool {
    word == "type"@ || word == "interface"@ || word == "input"@ || word == "enum"@ || word
        == "union"@ || word == "scalar"@
}

// ── reading a line ─────────────────────────────────────────────────────────

proof fn lemma_code_plain(s: Seq<char>, i: int, p: int)
    requires
        0 <= i <= p <= s.len(),
        forall|k: int| i <= k < p ==> (#[trigger] s[k]) != '"' && s[k] != '#',
    ensures
        code_from(s, i, false).0 == s.subrange(i, p) + code_from(s, p, false).0,
        code_from(s, i, false).1 == code_from(s, p, false).1,
    decreases p - i,
{
    if i < p {
        lemma_code_plain(s, i + 1, p);
        assert(s[i] != '"' && s[i] != '#');
        assert(s.subrange(i, p) =~= seq![s[i]] + s.subrange(i + 1, p));
        assert(code_from(s, i, false).0 =~= s.subrange(i, p) + code_from(s, p, false).0);
    } else {
        assert(s.subrange(i, p) =~= Seq::<char>::empty());
        assert(Seq::<char>::empty() + code_from(s, p, false).0 =~= code_from(s, p, false).0);
    }
}

proof fn lemma_all_code(s: Seq<char>)
    requires
        is_plain_code(s),
    ensures
        code_of(s, false) == s,
        !open_after(s, false),
{
    lemma_code_plain(s, 0, s.len() as int);
    assert(s.subrange(0, s.len() as int) =~= s);
    assert(s + Seq::<char>::empty() =~= s);
}

proof fn lemma_trim_start_at(s: Seq<char>, k: int)
    requires
        0 <= k < s.len(),
        forall|x: int| 0 <= x < k ==> is_white(#[trigger] s[x]),
        !is_white(s[k]),
    ensures
        trim_start(s) == s.skip(k),
    decreases k,
{
    if k > 0 {
        let rest = s.drop_first();
        assert forall|x: int| 0 <= x < k - 1 implies is_white(#[trigger] rest[x]) by {
            assert(rest[x] == s[x + 1]);
        }
        lemma_trim_start_at(rest, k - 1);
        assert(rest.skip(k - 1) =~= s.skip(k));
        assert(is_white(s[0]));
    } else {
        assert(s.skip(0) =~= s);
    }
}

proof fn lemma_trim_end_keeps(s: Seq<char>, k: int)
    requires
        0 <= k < s.len(),
        !is_white(s[k]),
    ensures
        k < trim_end(s).len() <= s.len(),
        trim_end(s) == s.take(trim_end(s).len() as int),
    decreases s.len(),
{
    if is_white(s.last()) {
        let rest = s.drop_last();
        lemma_trim_end_keeps(rest, k);
        assert(rest.take(trim_end(rest).len() as int) =~= s.take(trim_end(rest).len() as int));
    } else {
        assert(s.take(s.len() as int) =~= s);
    }
}

proof fn lemma_trim_holds(s: Seq<char>, k: int)
    requires
        0 <= k < s.len(),
        !is_white(s[k]),
    ensures
        trim(s).len() > 0,
    decreases s.len(),
{
    if is_white(s[0]) {
        assert(s.drop_first()[k - 1] == s[k]);
        lemma_trim_holds(s.drop_first(), k - 1);
    } else {
        lemma_trim_end_keeps(s, k);
    }
}

proof fn lemma_skip_to(s: Seq<char>, i: int, j: int)
    requires
        0 <= i <= j <= s.len(),
        forall|x: int| i <= x < j ==> is_white(#[trigger] s[x]),
        j < s.len() ==> !is_white(s[j]),
    ensures
        skip_white(s, i) == j,
    decreases j - i,
{
    if i < j {
        lemma_skip_to(s, i + 1, j);
        assert(is_white(s[i]));
    }
}

proof fn lemma_run_to(s: Seq<char>, i: int, j: int)
    requires
        0 <= i <= j <= s.len(),
        forall|x: int| i <= x < j ==> is_name_letter(#[trigger] s[x]),
        j < s.len() ==> !is_name_letter(s[j]),
    ensures
        name_run(s, i) == j,
    decreases j - i,
{
    if i < j {
        lemma_run_to(s, i + 1, j);
        assert(is_name_letter(s[i]));
    }
}

proof fn lemma_name_at(s: Seq<char>, i: int, name: Seq<char>)
    requires
        0 <= i,
        i + name.len() <= s.len(),
        s.subrange(i, i + name.len()) == name,
        is_name(name),
        i + name.len() < s.len() ==> !is_name_letter(s[i + name.len()]),
    ensures
        name_end(s, i) == Some(i + name.len()),
        !is_white(s[i]),
{
    assert forall|x: int| i <= x < i + name.len() implies is_name_letter(#[trigger] s[x]) by {
        assert(name[x - i] == s[x]);
    }
    assert(name[0] == s[i]);
    lemma_run_to(s, i + 1, i + name.len());
}

/// The kind that a word stands for.
spec fn kind_of_word(word: Seq<char>) -> NodeKind {
    if word == "type"@ {
        NodeKind::Object
    } else if word == "interface"@ {
        NodeKind::Interface
    } else if word == "input"@ {
        NodeKind::Input
    } else if word == "enum"@ {
        NodeKind::Enum
    } else if word == "union"@ {
        NodeKind::Union
    } else {
        NodeKind::Scalar
    }
}

proof fn lemma_words()
    ensures
        "type"@ == seq!['t', 'y', 'p', 'e'],
        "interface"@ == seq!['i', 'n', 't', 'e', 'r', 'f', 'a', 'c', 'e'],
        "input"@ == seq!['i', 'n', 'p', 'u', 't'],
        "enum"@ == seq!['e', 'n', 'u', 'm'],
        "union"@ == seq!['u', 'n', 'i', 'o', 'n'],
        "scalar"@ == seq!['s', 'c', 'a', 'l', 'a', 'r'],
        "extend"@ == seq!['e', 'x', 't', 'e', 'n', 'd'],
{
    reveal_strlit("type");
    reveal_strlit("interface");
    reveal_strlit("input");
    reveal_strlit("enum");
    reveal_strlit("union");
    reveal_strlit("scalar");
    reveal_strlit("extend");
    assert("type"@ =~= seq!['t', 'y', 'p', 'e']);
    assert("interface"@ =~= seq!['i', 'n', 't', 'e', 'r', 'f', 'a', 'c', 'e']);
    assert("input"@ =~= seq!['i', 'n', 'p', 'u', 't']);
    assert("enum"@ =~= seq!['e', 'n', 'u', 'm']);
    assert("union"@ =~= seq!['u', 'n', 'i', 'o', 'n']);
    assert("scalar"@ =~= seq!['s', 'c', 'a', 'l', 'a', 'r']);
    assert("extend"@ =~= seq!['e', 'x', 't', 'e', 'n', 'd']);
}

/// What stands at `i`, letter by letter.
proof fn lemma_letters(t: Seq<char>, word: Seq<char>, i: int)
    requires
        stands_at(t, word, i),
    ensures
        forall|x: int| 0 <= x < word.len() ==> #[trigger] word[x] == t[i + x],
{
    assert forall|x: int| 0 <= x < word.len() implies #[trigger] word[x] == t[i + x] by {
        assert(t.subrange(i, i + word.len())[x] == t[i + x]);
    }
}

proof fn lemma_keyword(t: Seq<char>, word: Seq<char>, i: int)
    requires
        is_definition_word(word),
        spaced_word(t, word, i),
    ensures
        keyword_kind(t, i) == Some(kind_of_word(word)),
        kind_of_word(word).keyword() == word,
        !spaced_word(t, "extend"@, i),
        !is_white(t[i]),
        t[i] != '-',
        word.len() > 0,
        is_plain_code(word),
{
    lemma_words();
    lemma_letters(t, word, i);
    assert(word[0] == t[i]);
    assert(word[1] == t[i + 1]);
    assert(word[2] == t[i + 2]);
    assert forall|other: Seq<char>| is_definition_word(other) && other != word
        implies !#[trigger] spaced_word(t, other, i) by {
        if spaced_word(t, other, i) {
            lemma_letters(t, other, i);
            assert(other[0] == t[i]);
            assert(other[1] == t[i + 1]);
            assert(other[2] == t[i + 2]);
        }
    }
    if spaced_word(t, "extend"@, i) {
        lemma_letters(t, "extend"@, i);
        assert("extend"@[0] == t[i]);
        assert("extend"@[1] == t[i + 1]);
    }
    assert(is_definition_word("type"@) && is_definition_word("interface"@) && is_definition_word(
        "input"@,
    ) && is_definition_word("enum"@) && is_definition_word("union"@) && is_definition_word(
        "scalar"@,
    ));
    assert("type"@[0] == 't' && "interface"@[2] == 't' && "input"@[2] == 'p' && "enum"@[0] == 'e'
        && "union"@[0] == 'u' && "scalar"@[0] == 's');
}

/// The line `indent word gap name rest` has this code: the same up to where `rest` begins.
pub open spec fn definition_text(
    indent: Seq<char>,
    word: Seq<char>,
    gap: Seq<char>,
    name: Seq<char>,
    rest: Seq<char>,
) -> Seq<char> {
    indent + word + gap + name + rest
}

/// A definition as it is written: white space, one of the six words, white space, a name, and then
/// anything that does not go on with the name.
pub open spec fn is_definition_text(
    indent: Seq<char>,
    word: Seq<char>,
    gap: Seq<char>,
    name: Seq<char>,
    rest: Seq<char>,
) -> bool {
    &&& is_blank_text(indent)
    &&& is_definition_word(word)
    &&& is_blank_text(gap)
    &&& gap.len() > 0
    &&& is_name(name)
    &&& rest.len() > 0 ==> !is_name_letter(rest[0])
}

/// The trimmed code of a definition starts with its word, and with its name behind the gap.
proof fn lemma_head(
    indent: Seq<char>,
    word: Seq<char>,
    gap: Seq<char>,
    name: Seq<char>,
    more: Seq<char>,
)
    requires
        is_definition_text(indent, word, gap, name, more),
    ensures
        ({
            let code = indent + word + gap + name + more;
            let t = trim(code);
            &&& remove_line(t) is None
            &&& def_line(t) == Some((false, kind_of_word(word), name))
        }),
{
    let code = indent + word + gap + name + more;
    let d = indent.len() as int;
    let w = word.len() as int;
    let g = gap.len() as int;
    let m = name.len() as int;
    lemma_words();
    assert(w > 0);
    assert forall|x: int| 0 <= x < w implies code[d + x] == #[trigger] word[x] by {}
    assert(!is_white(word[0]));
    assert forall|x: int| 0 <= x < d implies is_white(#[trigger] code[x]) by {
        assert(code[x] == indent[x]);
    }
    assert(code[d] == word[0]);
    lemma_trim_start_at(code, d);
    let s = code.skip(d);
    assert(s.subrange(w + g, w + g + m) =~= name);
    let end = w + g + m - 1;
    assert(is_name_letter(name[m - 1]));
    assert(s[end] == name[m - 1]);
    lemma_trim_end_keeps(s, end);
    let t = trim(code);
    let e = t.len() as int;
    assert(t == s.take(e));
    assert(t.subrange(0, w) =~= word);
    assert(stands_at(t, word, 0));
    assert(t[w] == gap[0]);
    assert(is_white(gap[0]));
    assert(spaced_word(t, word, 0));
    lemma_keyword(t, word, 0);
    assert(t.subrange(w + g, w + g + m) =~= name);
    if w + g + m < t.len() {
        assert(t[w + g + m] == more[0]);
    }
    lemma_name_at(t, w + g, name);
    assert forall|x: int| w <= x < w + g implies is_white(#[trigger] t[x]) by {
        assert(t[x] == gap[x - w]);
    }
    lemma_skip_to(t, w, w + g);
}

proof fn lemma_as_extension(
    indent: Seq<char>,
    word: Seq<char>,
    gap: Seq<char>,
    name: Seq<char>,
    rest: Seq<char>,
)
    requires
        is_definition_text(indent, word, gap, name, rest),
    ensures
        as_extension(definition_text(indent, word, gap, name, rest)) == indent + "extend "@ + word
            + gap + name + rest,
{
    let line = definition_text(indent, word, gap, name, rest);
    let d = indent.len() as int;
    lemma_words();
    assert(word.len() > 0 && !is_white(word[0]));
    assert(line[d] == word[0]);
    assert forall|x: int| 0 <= x < d implies is_white(#[trigger] line[x]) by {
        assert(line[x] == indent[x]);
    }
    lemma_skip_to(line, 0, d);
    assert(line.subrange(0, d) =~= indent);
    assert(line.subrange(d, line.len() as int) =~= word + gap + name + rest);
    assert(as_extension(line) =~= indent + "extend "@ + word + gap + name + rest);
}

/// The code of the line of a definition: what stands before `p` places of `rest`, and some more.
proof fn lemma_definition_code(
    indent: Seq<char>,
    word: Seq<char>,
    gap: Seq<char>,
    name: Seq<char>,
    rest: Seq<char>,
    p: int,
) -> (more: Seq<char>)
    requires
        is_definition_text(indent, word, gap, name, rest),
        0 <= p <= rest.len(),
        is_plain_code(rest.take(p)),
    ensures
        code_of(definition_text(indent, word, gap, name, rest), false) == indent + word + gap + name
            + (rest.take(p) + more),
        p == rest.len() ==> more.len() == 0,
        p == rest.len() ==> !open_after(definition_text(indent, word, gap, name, rest), false),
{
    let line = definition_text(indent, word, gap, name, rest);
    let head = indent + word + gap + name;
    let q = head.len() + p;
    lemma_words();
    assert forall|k: int| 0 <= k < q implies (#[trigger] line[k]) != '"' && line[k] != '#' by {
        let d = indent.len();
        let w = word.len();
        let g = gap.len();
        if k < d {
            assert(line[k] == indent[k]);
        } else if k < d + w {
            assert(line[k] == word[k - d]);
            assert(is_name(word));
        } else if k < d + w + g {
            assert(line[k] == gap[k - d - w]);
        } else if k < head.len() {
            assert(line[k] == name[k - d - w - g]);
        } else {
            assert(line[k] == rest.take(p)[k - head.len()]);
        }
    }
    lemma_code_plain(line, 0, q);
    let more = code_from(line, q, false).0;
    assert(line.subrange(0, q) =~= head + rest.take(p));
    assert(code_of(line, false) =~= head + (rest.take(p) + more));
    more
}

// ── laws ───────────────────────────────────────────────────────────────────

/// A definition of a type that the schema declares becomes an extension, whichever of the five words
/// it starts with: a `type`, `interface`, `input` or `enum` whose brace opens on the line, or a
/// `union` with its `=` there. The line keeps its white space, gets `extend `, and goes on as it was.
/// A `scalar` that the schema declares has nothing to add: its line is emptied. The definition of a
/// type that the schema does not declare stays as it is.
///
/// `p` is how far into `rest` the brace or the equals sign stands, with no string and no comment
/// before it. The line stands outside all blocks and block strings.
pub proof fn known_definitions_are_extended(
    st: ScanState,
    base: Map<Seq<char>, Seq<Seq<char>>>,
    i: usize,
    indent: Seq<char>,
    word: Seq<char>,
    gap: Seq<char>,
    name: Seq<char>,
    rest: Seq<char>,
    p: int,
)
    requires
        i < st.lines.len(),
        st.lines[i as int] == indent + word + gap + name + rest,
        st.depth == 0,
        !st.in_block,
        is_definition_text(indent, word, gap, name, rest),
        if word == "scalar"@ {
            rest.len() > 0 ==> rest[0] != '"' && rest[0] != '#'
        } else {
            0 <= p < rest.len() && is_plain_code(rest.take(p)) && rest[p] == (if word == "union"@ {
                '='
            } else {
                '{'
            })
        },
    ensures
        base.dom().contains(name) && word != "scalar"@ ==> after_line(st, base, i).lines[i as int]
            == indent + "extend "@ + word + gap + name + rest,
        base.dom().contains(name) && word == "scalar"@ ==> after_line(st, base, i).lines[i as int]
            == Seq::<char>::empty(),
        !base.dom().contains(name) ==> after_line(st, base, i).lines == st.lines,
{
    let line = st.lines[i as int];
    let code = code_of(line, st.in_block);
    let read = ScanState { in_block: open_after(line, st.in_block), ..st };
    let kind = kind_of_word(word);
    lemma_words();
    assert(line == definition_text(indent, word, gap, name, rest));
    lemma_as_extension(indent, word, gap, name, rest);
    let q: int = if word != "scalar"@ {
        p + 1
    } else if rest.len() > 0 {
        1
    } else {
        0
    };
    if word == "scalar"@ {
        assert(is_plain_code(rest.take(q)));
    } else {
        assert(rest.take(q) =~= rest.take(p).push(rest[p]));
        assert forall|k: int| 0 <= k < q implies (#[trigger] rest.take(q)[k]) != '"' && rest.take(
            q,
        )[k] != '#' by {
            if k < p {
                assert(rest.take(q)[k] == rest.take(p)[k]);
            }
        }
    }
    let more0 = lemma_definition_code(indent, word, gap, name, rest, q);
    let more = rest.take(q) + more0;
    if q > 0 {
        assert(more[0] == rest[0]);
    }
    if word != "scalar"@ {
        assert(code[indent.len() + word.len() + gap.len() + name.len() + p] == rest[p]);
    }
    lemma_head(indent, word, gap, name, more);
    let defined = after_definition(read, base, code, false, kind, name, i);
    lemma_after_code_lines(defined, code, i);
    assert("type"@[0] == 't' && "interface"@[2] == 't' && "input"@[2] == 'p' && "enum"@[0] == 'e'
        && "union"@[0] == 'u' && "scalar"@[0] == 's');
}

// ── one line, from end to end ──────────────────────────────────────────────

proof fn lemma_one_line(text: Seq<char>)
    requires
        !text.contains('\n'),
    ensures
        split_on(text, '\n') == seq![text],
        join_lines(seq![text]) == text,
{
    let lines = seq![text];
    assert forall|k: int| 0 <= k < lines.len() implies !(#[trigger] lines[k]).contains('\n') by {}
    join_then_split(lines);
}

/// Every block that the scan of the first line closes is that line alone.
spec fn on_first_line(st: ScanState) -> bool {
    &&& st.open_line matches Some(o) ==> o == 0
    &&& st.def_line matches Some(d) ==> d == 0
    &&& forall|b: int| 0 <= b < st.blocks.len() ==> #[trigger] st.blocks[b] == (0usize, 0usize)
}

proof fn lemma_first_line(st: ScanState, code: Seq<char>)
    requires
        on_first_line(st),
    ensures
        on_first_line(after_code(st, code, 0)),
    decreases code.len(),
{
    if code.len() > 0 {
        lemma_first_line(st, code.drop_last());
    }
}

proof fn lemma_kept_blocks(lines: Seq<Seq<char>>, blocks: Seq<(usize, usize)>)
    requires
        forall|b: int| 0 <= b < blocks.len() ==> #[trigger] blocks[b] == (0usize, 0usize),
        holds_members(lines, 0, 0),
    ensures
        without_empty_blocks(lines, blocks) == lines,
    decreases blocks.len(),
{
    if blocks.len() > 0 {
        let rest = blocks.drop_last();
        assert forall|b: int| 0 <= b < rest.len() implies #[trigger] rest[b] == (0usize, 0usize) by {
            assert(rest[b] == blocks[b]);
        }
        lemma_kept_blocks(lines, rest);
        assert(blocks[blocks.len() - 1] == (0usize, 0usize));
    }
}

proof fn lemma_first_at_most(s: Seq<char>, c: char, j: int)
    requires
        0 <= j < s.len(),
        s[j] == c,
    ensures
        0 <= first_char(s, c) <= j,
    decreases s.len(),
{
    let rest = s.drop_last();
    if j < rest.len() {
        assert(rest[j] == c);
        lemma_first_at_most(rest, c, j);
    } else {
        lemma_first_range(rest, c);
    }
}

proof fn lemma_first_range(s: Seq<char>, c: char)
    ensures
        0 <= first_char(s, c) <= s.len(),
        !s.contains(c) ==> first_char(s, c) == s.len(),
    decreases s.len(),
{
    if s.len() > 0 {
        let rest = s.drop_last();
        lemma_first_range(rest, c);
        if !s.contains(c) {
            assert(s[s.len() - 1] != c);
            if rest.contains(c) {
                let k = choose|k: int| 0 <= k < rest.len() && rest[k] == c;
                assert(s[k] == c);
            }
        }
    }
}

/// A line of plain code holds members where it opens no brace, or ends in one and has something
/// between.
proof fn lemma_line_holds(line: Seq<char>, j: int, k: int)
    requires
        is_plain_code(line),
        !line.contains('{') || (0 <= j < k < line.len() - 1 && line[j] == '{' && !is_white(line[k])
            && line.last() == '}'),
    ensures
        holds_members(seq![line], 0, 0),
{
    let lines = seq![line];
    lemma_all_code(line);
    let empty = Seq::<Seq<char>>::empty();
    assert(block_code(lines, 0, -1) == (empty, false));
    assert(block_code(lines, 0, 0).0 == empty.push(line));
    assert(empty.push(line) =~= seq![line]);
    let code = join_lines(block_code(lines, 0, 0).0);
    assert(code == line);
    if line.contains('{') {
        lemma_first_at_most(line, '{', j);
        let open = first_char(line, '{');
        let close = last_char(line, '}');
        assert(close == line.len() - 1);
        let inner = line.subrange(open + 1, close);
        assert(inner[k - open - 1] == line[k]);
        lemma_trim_holds(inner, k - open - 1);
    } else {
        lemma_first_range(line, '{');
    }
}

/// What the line of a definition is rewritten to: an extension where the schema knows the type, and
/// the line itself where it does not.
spec fn rewritten_line(
    known: bool,
    indent: Seq<char>,
    word: Seq<char>,
    gap: Seq<char>,
    name: Seq<char>,
    rest: Seq<char>,
) -> Seq<char> {
    if known {
        indent + "extend "@ + word + gap + name + rest
    } else {
        indent + word + gap + name + rest
    }
}

/// A definition written on one line, from end to end. `type`, `interface`, `input` and `enum` have
/// their members in braces, `union` has its behind an equals sign. Where the schema declares the type,
/// `extend ` is put before the definition and nothing else changes, so that the type grows instead of
/// being declared twice; where it does not, the definition stays as it is. Either way nothing is
/// removed and nothing is warned of.
pub proof fn one_line_definitions_are_rewritten(
    base: Map<Seq<char>, Seq<Seq<char>>>,
    indent: Seq<char>,
    word: Seq<char>,
    gap: Seq<char>,
    name: Seq<char>,
    rest: Seq<char>,
    j: int,
    k: int,
)
    requires
        is_definition_text(indent, word, gap, name, rest),
        word != "scalar"@,
        is_plain_code(rest),
        !(indent + word + gap + name + rest).contains('\n'),
        if word == "union"@ {
            0 <= j < rest.len() && rest[j] == '=' && !rest.contains('{')
        } else {
            0 <= j < k < rest.len() - 1 && rest[j] == '{' && !is_white(rest[k]) && rest.last() == '}'
        },
    ensures
        base.dom().contains(name) ==> rewritten(indent + word + gap + name + rest, base).sdl == indent
            + "extend "@ + word + gap + name + rest,
        !base.dom().contains(name) ==> rewritten(indent + word + gap + name + rest, base).sdl == indent
            + word + gap + name + rest,
        rewritten(indent + word + gap + name + rest, base).removals.len() == 0,
        rewritten(indent + word + gap + name + rest, base).warnings.len() == 0,
{
    let overlay = indent + word + gap + name + rest;
    let known = base.dom().contains(name);
    let now = rewritten_line(known, indent, word, gap, name, rest);
    lemma_words();
    lemma_one_line(overlay);
    let st = start_state(overlay);
    let n = split_on(overlay, '\n').len();
    assert(n == 1);
    assert(st.lines[0] == overlay);
    assert(overlay == definition_text(indent, word, gap, name, rest));
    let more = lemma_definition_code(indent, word, gap, name, rest, rest.len() as int);
    assert(rest.take(rest.len() as int) =~= rest);
    assert(rest + more =~= rest);
    let code = code_of(overlay, false);
    assert(code == overlay);
    lemma_head(indent, word, gap, name, rest);
    lemma_as_extension(indent, word, gap, name, rest);
    let kind = kind_of_word(word);
    assert("type"@[0] == 't' && "interface"@[2] == 't' && "input"@[2] == 'p' && "enum"@[0] == 'e'
        && "union"@[0] == 'u' && "scalar"@[0] == 's');
    let at = indent.len() + word.len() + gap.len() + name.len() + j;
    assert(code[at] == rest[j]);
    let read = ScanState { in_block: open_after(overlay, false), ..st };
    let defined = after_definition(read, base, code, false, kind, name, 0);
    lemma_after_code_lines(defined, code, 0);
    lemma_first_line(defined, code);
    lemma_after_code_quiet(defined, code);
    assert(scanned(overlay, base, 0) == st);
    let done = scanned(overlay, base, 1);
    assert(done == after_code(defined, code, 0));
    assert(done.lines =~= seq![now]);
    lemma_plain_now(known, indent, word, gap, name, rest);
    let d: int = if known { 7 } else { 0 };
    reveal_strlit("extend ");
    let from = indent.len() + d + word.len() + gap.len() + name.len();
    assert(now.len() == from + rest.len());
    assert forall|x: int| 0 <= x < rest.len() implies now[from + x] == #[trigger] rest[x] by {}
    if word == "union"@ {
        lemma_no_brace(known, indent, word, gap, name, rest);
        lemma_line_holds(now, 0, 0);
    } else {
        assert(now.last() == rest.last());
        assert(now[from + j] == rest[j] && now[from + k] == rest[k]);
        lemma_line_holds(now, from + j, from + k);
    }
    lemma_kept_blocks(done.lines, done.blocks);
    lemma_join_one(now);
}

proof fn lemma_join_one(line: Seq<char>)
    ensures
        join_lines(seq![line]) == line,
{
}

/// Counting braces asks for no removal and warns of nothing.
proof fn lemma_after_code_quiet(st: ScanState, code: Seq<char>)
    ensures
        after_code(st, code, 0).asked == st.asked,
        after_code(st, code, 0).warnings == st.warnings,
    decreases code.len(),
{
    if code.len() > 0 {
        lemma_after_code_quiet(st, code.drop_last());
    }
}

proof fn lemma_now_at(
    known: bool,
    indent: Seq<char>,
    word: Seq<char>,
    gap: Seq<char>,
    name: Seq<char>,
    rest: Seq<char>,
    x: int,
)
    requires
        is_definition_text(indent, word, gap, name, rest),
        0 <= x < rewritten_line(known, indent, word, gap, name, rest).len(),
    ensures
        ({
            let c = rewritten_line(known, indent, word, gap, name, rest)[x];
            is_white(c) || is_name_letter(c) || rest.contains(c)
        }),
{
    let now = rewritten_line(known, indent, word, gap, name, rest);
    lemma_words();
    reveal_strlit("extend ");
    let d = indent.len();
    let e: nat = if known { 7 } else { 0 };
    let w = word.len();
    let g = gap.len();
    let m = name.len();
    if x < d {
        assert(now[x] == indent[x]);
    } else if x < d + e {
        assert(now[x] == "extend "@[x - d]);
    } else if x < d + e + w {
        assert(is_name(word));
        assert(now[x] == word[x - d - e]);
    } else if x < d + e + w + g {
        assert(now[x] == gap[x - d - e - w]);
    } else if x < d + e + w + g + m {
        assert(now[x] == name[x - d - e - w - g]);
    } else {
        assert(now[x] == rest[x - d - e - w - g - m]);
    }
}

proof fn lemma_plain_now(
    known: bool,
    indent: Seq<char>,
    word: Seq<char>,
    gap: Seq<char>,
    name: Seq<char>,
    rest: Seq<char>,
)
    requires
        is_definition_text(indent, word, gap, name, rest),
        is_plain_code(rest),
    ensures
        is_plain_code(rewritten_line(known, indent, word, gap, name, rest)),
{
    let now = rewritten_line(known, indent, word, gap, name, rest);
    assert forall|x: int| 0 <= x < now.len() implies (#[trigger] now[x]) != '"' && now[x] != '#' by {
        lemma_now_at(known, indent, word, gap, name, rest, x);
        if rest.contains(now[x]) {
            let y = choose|y: int| 0 <= y < rest.len() && rest[y] == now[x];
            assert(rest[y] != '"' && rest[y] != '#');
        }
    }
}

proof fn lemma_no_brace(
    known: bool,
    indent: Seq<char>,
    word: Seq<char>,
    gap: Seq<char>,
    name: Seq<char>,
    rest: Seq<char>,
)
    requires
        is_definition_text(indent, word, gap, name, rest),
        !rest.contains('{'),
    ensures
        !rewritten_line(known, indent, word, gap, name, rest).contains('{'),
{
    let now = rewritten_line(known, indent, word, gap, name, rest);
    if now.contains('{') {
        let x = choose|x: int| 0 <= x < now.len() && now[x] == '{';
        lemma_now_at(known, indent, word, gap, name, rest, x);
    }
}

/// An overlay of one line over a schema: the schema, an empty line, and the definition, turned into an
/// extension where the schema declares the type.
pub proof fn one_line_overlays_are_joined(
    schema: Seq<char>,
    indent: Seq<char>,
    word: Seq<char>,
    gap: Seq<char>,
    name: Seq<char>,
    rest: Seq<char>,
    j: int,
    k: int,
)
    requires
        is_definition_text(indent, word, gap, name, rest),
        word != "scalar"@,
        is_plain_code(rest),
        !(indent + word + gap + name + rest).contains('\n'),
        if word == "union"@ {
            0 <= j < rest.len() && rest[j] == '=' && !rest.contains('{')
        } else {
            0 <= j < k < rest.len() - 1 && rest[j] == '{' && !is_white(rest[k]) && rest.last() == '}'
        },
    ensures
        declared(schema).dom().contains(name) ==> prepared(
            schema,
            indent + word + gap + name + rest,
        ).sdl == schema + "\n\n"@ + (indent + "extend "@ + word + gap + name + rest),
        !declared(schema).dom().contains(name) ==> prepared(
            schema,
            indent + word + gap + name + rest,
        ).sdl == schema + "\n\n"@ + (indent + word + gap + name + rest),
        prepared(schema, indent + word + gap + name + rest).removals.len() == 0,
{
    let overlay = indent + word + gap + name + rest;
    let base = declared(schema);
    let known = base.dom().contains(name);
    one_line_definitions_are_rewritten(base, indent, word, gap, name, rest, j, k);
    let now = rewritten_line(known, indent, word, gap, name, rest);
    lemma_words();
    reveal_strlit("extend ");
    let d = indent.len() as int;
    assert(overlay[d] == word[0]);
    lemma_trim_holds(overlay, d);
    let e: int = if known { d + 7 } else { d };
    assert(now[e] == word[0]);
    lemma_trim_holds(now, e);
}

// ── removals ───────────────────────────────────────────────────────────────

/// What a removal line names: a type, or a member of one.
pub open spec fn removal_name(first: Seq<char>, second: Option<Seq<char>>) -> Seq<char> {
    match second {
        Some(m) => first + "."@ + m,
        None => first,
    }
}

/// A removal as it is written: white space, a dash, white space, a name or two with a dot between.
pub open spec fn is_removal_text(
    indent: Seq<char>,
    gap: Seq<char>,
    first: Seq<char>,
    second: Option<Seq<char>>,
) -> bool {
    &&& is_blank_text(indent)
    &&& is_blank_text(gap)
    &&& is_name(first)
    &&& second matches Some(m) ==> is_name(m)
}

proof fn lemma_removal_line(
    indent: Seq<char>,
    gap: Seq<char>,
    first: Seq<char>,
    second: Option<Seq<char>>,
)
    requires
        is_removal_text(indent, gap, first, second),
    ensures
        ({
            let line = indent + "-"@ + gap + removal_name(first, second);
            &&& is_plain_code(line)
            &&& remove_line(trim(line)) == Some((first, second))
        }),
{
    reveal_strlit("-");
    reveal_strlit(".");
    let name = removal_name(first, second);
    let line = indent + "-"@ + gap + name;
    let d = indent.len() as int;
    let g = gap.len() as int;
    let f = first.len() as int;
    assert(line[d] == '-');
    assert forall|x: int| 0 <= x < d implies is_white(#[trigger] line[x]) by {
        assert(line[x] == indent[x]);
    }
    lemma_trim_start_at(line, d);
    let s = line.skip(d);
    assert(is_name_letter(name.last())) by {
        match second {
            Some(m) => {
                assert(name.last() == m[m.len() - 1]);
            },
            None => {
                assert(name.last() == first[f - 1]);
            },
        }
    }
    assert(s.last() == name.last());
    lemma_trim_end_keeps(s, s.len() - 1);
    let t = trim(line);
    assert(t == s.take(s.len() as int));
    assert(t =~= s);
    assert forall|x: int| 1 <= x < 1 + g implies is_white(#[trigger] t[x]) by {
        assert(t[x] == gap[x - 1]);
    }
    assert(t.subrange(1 + g, 1 + g + f) =~= first);
    match second {
        Some(m) => {
            assert(t[1 + g + f] == '.');
            lemma_name_at(t, 1 + g, first);
            assert(t.subrange(1 + g + f + 1, t.len() as int) =~= m);
            lemma_name_at(t, 1 + g + f + 1, m);
        },
        None => {
            lemma_name_at(t, 1 + g, first);
        },
    }
    lemma_skip_to(t, 1, 1 + g);
    assert forall|x: int| 0 <= x < line.len() implies (#[trigger] line[x]) != '"' && line[x] != '#' by {
        if x < d {
            assert(line[x] == indent[x]);
        } else if x == d {
        } else if x < d + 1 + g {
            assert(line[x] == gap[x - d - 1]);
        } else if x < d + 1 + g + f {
            assert(line[x] == first[x - d - 1 - g]);
        } else if x > d + 1 + g + f {
            assert(line[x] == second->0[x - d - 1 - g - f - 1]);
        } else {
            assert(line[x] == '.');
        }
    }
}

/// A removal line asks for what it names and leaves an empty line: `-Type.member` wherever it stands,
/// `-Type` outside all blocks, and `-member` inside the block of a type for that member of it.
pub proof fn removal_lines_ask(
    st: ScanState,
    base: Map<Seq<char>, Seq<Seq<char>>>,
    i: usize,
    indent: Seq<char>,
    gap: Seq<char>,
    first: Seq<char>,
    second: Option<Seq<char>>,
)
    requires
        i < st.lines.len(),
        st.lines[i as int] == indent + "-"@ + gap + removal_name(first, second),
        !st.in_block,
        is_removal_text(indent, gap, first, second),
    ensures
        after_line(st, base, i).lines == st.lines.update(i as int, Seq::empty()),
        second is Some ==> after_line(st, base, i).asked == st.asked.push(
            RemovalModel { type_: first, member: second },
        ),
        second is None && st.depth == 0 ==> after_line(st, base, i).asked == st.asked.push(
            RemovalModel { type_: first, member: None },
        ),
        second is None && st.depth > 0 && st.current is Some ==> after_line(st, base, i).asked
            == st.asked.push(RemovalModel { type_: st.current->0, member: Some(first) }),
        second is None && st.depth > 0 && st.current is None ==> after_line(st, base, i).asked
            == st.asked && after_line(st, base, i).warnings.len() == st.warnings.len() + 1,
{
    lemma_removal_line(indent, gap, first, second);
    lemma_all_code(st.lines[i as int]);
}

/// An overlay of one removal removes exactly what it names and adds nothing to the schema.
pub proof fn one_line_removals_remove(
    base: Map<Seq<char>, Seq<Seq<char>>>,
    indent: Seq<char>,
    gap: Seq<char>,
    first: Seq<char>,
    second: Option<Seq<char>>,
)
    requires
        is_removal_text(indent, gap, first, second),
        !(indent + "-"@ + gap + removal_name(first, second)).contains('\n'),
    ensures
        ({
            let r = rewritten(indent + "-"@ + gap + removal_name(first, second), base);
            &&& r.removals == seq![RemovalModel { type_: first, member: second }]
            &&& r.sdl.len() == 0
            &&& r.warnings.len() == 0
        }),
{
    let overlay = indent + "-"@ + gap + removal_name(first, second);
    lemma_one_line(overlay);
    let st = start_state(overlay);
    assert(st.lines[0] == overlay);
    removal_lines_ask(st, base, 0, indent, gap, first, second);
    lemma_removal_line(indent, gap, first, second);
    lemma_all_code(overlay);
    assert(scanned(overlay, base, 0) == st);
    let done = scanned(overlay, base, 1);
    assert(done == after_line(st, base, 0));
    let r = RemovalModel { type_: first, member: second };
    assert(done.asked =~= seq![r]);
    assert(done.asked.drop_last() =~= Seq::<RemovalModel>::empty());
    assert(done.asked.last() == r);
    assert(done.words == st.words.insert(removal_key(r), false));
    let none = Seq::<RemovalModel>::empty();
    assert(standing_removals(done.asked.drop_last(), done.words) == none);
    assert(standing_removals(done.asked, done.words) =~= seq![r]);
    assert(crate::overlay::replacements(done.asked.drop_last(), done.words, base) == none);
    assert(crate::overlay::replacements(done.asked, done.words, base) == none);
    assert(rewritten(overlay, base).removals =~= seq![r]);
    assert(done.lines =~= seq![Seq::<char>::empty()]);
    assert(done.blocks.len() == 0);
    lemma_join_one(Seq::<char>::empty());
}

// ── what a schema declares ─────────────────────────────────────────────────

/// The definition declares a member of that name: a field, a value or a member of a union.
pub open spec fn declares_member(k: KindModel, name: Seq<char>) -> bool {
    match k {
        KindModel::Object { implements, fields } => exists|x: int|
            0 <= x < fields.len() && (#[trigger] fields[x]).name == name,
        KindModel::Interface { implements, fields } => exists|x: int|
            0 <= x < fields.len() && (#[trigger] fields[x]).name == name,
        KindModel::Input { fields } => exists|x: int|
            0 <= x < fields.len() && (#[trigger] fields[x]).name == name,
        KindModel::Enum { values } => exists|x: int|
            0 <= x < values.len() && (#[trigger] values[x]).name == name,
        KindModel::Union { members } => exists|x: int|
            0 <= x < members.len() && #[trigger] members[x] == name,
        KindModel::Scalar => false,
    }
}

/// A schema declares exactly the types that its document defines, of whatever kind, with exactly the
/// members of the last definition of each. `k` is the last definition of `name`, where there is one.
pub proof fn schemas_declare_what_they_define(
    sdl: Seq<char>,
    doc: Seq<DefinitionModel>,
    name: Seq<char>,
    member: Seq<char>,
    k: int,
)
    requires
        trim(sdl).len() > 0,
        schema_document(sdl) == Ok::<Seq<DefinitionModel>, Seq<char>>(doc),
    ensures
        declared(sdl).dom().contains(name) <==> exists|j: int| #[trigger] defines_at(doc, j, name),
        is_last_definition(doc, k, name) ==> (declared(sdl)[name].contains(member)
            <==> declares_member(doc[k]->Type_0.kind, member)),
{
    lemma_known(doc, name);
    if is_last_definition(doc, k, name) {
        lemma_known_members(doc, name, member, k);
    }
}

/// The definition at `k` is one of the type `name`, no extension.
pub open spec fn defines_at(doc: Seq<DefinitionModel>, k: int, name: Seq<char>) -> bool {
    0 <= k < doc.len() && (doc[k] matches DefinitionModel::Type(t) && !t.extend && t.name == name)
}

/// The definition at `k` is the last one of the type `name`.
pub open spec fn is_last_definition(doc: Seq<DefinitionModel>, k: int, name: Seq<char>) -> bool {
    defines_at(doc, k, name) && forall|j: int| k < j ==> !#[trigger] defines_at(doc, j, name)
}

proof fn lemma_known(doc: Seq<DefinitionModel>, name: Seq<char>)
    ensures
        members_of(doc).dom().contains(name) <==> exists|k: int| #[trigger] defines_at(doc, k, name),
    decreases doc.len(),
{
    if doc.len() > 0 {
        let less = doc.drop_last();
        lemma_known(less, name);
        let end = doc.len() - 1;
        if defines_at(doc, end, name) {
        } else if members_of(doc).dom().contains(name) {
            let k = choose|k: int| #[trigger] defines_at(less, k, name);
            assert(defines_at(doc, k, name));
        } else if exists|k: int| #[trigger] defines_at(doc, k, name) {
            let k = choose|k: int| #[trigger] defines_at(doc, k, name);
            assert(defines_at(less, k, name));
        }
    }
}

proof fn lemma_known_members(
    doc: Seq<DefinitionModel>,
    name: Seq<char>,
    member: Seq<char>,
    k: int,
)
    requires
        is_last_definition(doc, k, name),
    ensures
        members_of(doc)[name].contains(member) <==> declares_member(doc[k]->Type_0.kind, member),
    decreases doc.len(),
{
    let less = doc.drop_last();
    let end = doc.len() - 1;
    if k < end {
        assert(less[k] == doc[k]);
        assert(is_last_definition(less, k, name)) by {
            assert(defines_at(less, k, name));
            assert forall|j: int| k < j implies !#[trigger] defines_at(less, j, name) by {
                assert(!defines_at(doc, j, name));
            }
        }
        lemma_known_members(less, name, member, k);
        assert(!defines_at(doc, end, name));
    } else {
        let kind = doc[end]->Type_0.kind;
        lemma_deduped(member_names(kind), member);
        lemma_member_names(kind, member);
    }
}

proof fn lemma_member_names(k: KindModel, name: Seq<char>)
    ensures
        member_names(k).contains(name) <==> declares_member(k, name),
{
    let names = member_names(k);
    if names.contains(name) {
        let x = choose|x: int| 0 <= x < names.len() && names[x] == name;
        match k {
            KindModel::Object { implements, fields } => {
                assert(fields[x].name == name);
            },
            KindModel::Interface { implements, fields } => {
                assert(fields[x].name == name);
            },
            KindModel::Input { fields } => {
                assert(fields[x].name == name);
            },
            KindModel::Enum { values } => {
                assert(values[x].name == name);
            },
            KindModel::Union { members } => {
                assert(members[x] == name);
            },
            KindModel::Scalar => {},
        }
    }
    if declares_member(k, name) {
        let x = match k {
            KindModel::Object { implements, fields } => choose|x: int|
                0 <= x < fields.len() && (#[trigger] fields[x]).name == name,
            KindModel::Interface { implements, fields } => choose|x: int|
                0 <= x < fields.len() && (#[trigger] fields[x]).name == name,
            KindModel::Input { fields } => choose|x: int|
                0 <= x < fields.len() && (#[trigger] fields[x]).name == name,
            KindModel::Enum { values } => choose|x: int|
                0 <= x < values.len() && (#[trigger] values[x]).name == name,
            KindModel::Union { members } => choose|x: int|
                0 <= x < members.len() && #[trigger] members[x] == name,
            KindModel::Scalar => 0,
        };
        assert(names[x] == name);
    }
}

proof fn lemma_deduped(names: Seq<Seq<char>>, name: Seq<char>)
    ensures
        deduped(names).contains(name) <==> names.contains(name),
    decreases names.len(),
{
    if names.len() > 0 {
        let less = names.drop_last();
        lemma_deduped(less, name);
        let rest = deduped(less);
        let all = deduped(names);
        assert(names[names.len() - 1] == names.last());
        if all.contains(name) {
            let k = choose|k: int| 0 <= k < all.len() && all[k] == name;
            if k < rest.len() {
                assert(rest[k] == name);
                let j = choose|j: int| 0 <= j < less.len() && less[j] == name;
                assert(names[j] == name);
            }
        }
        if names.contains(name) {
            let j = choose|j: int| 0 <= j < names.len() && names[j] == name;
            if j < less.len() {
                assert(less[j] == name);
                let k = choose|k: int| 0 <= k < rest.len() && rest[k] == name;
                assert(all[k] == name);
            } else if !rest.contains(name) {
                assert(all[rest.len() as int] == name);
            }
        }
    }
}

} // verus!
