//! SDL overlays: extra SDL laid over a loaded schema.
//!
//! The document that gets parsed is the schema, a blank line and the overlay, so `extend type Query
//! { … }` grows the real `Query` node and new types link up with existing ones. Two things that
//! joining texts cannot express are handled by rewriting the overlay first:
//!
//! - **Augmenting.** A bare `type User { … }` that names a type the schema declares becomes `extend
//!   type User { … }`, so a pasted type merges instead of colliding.
//! - **Removing.** SDL has no syntax for taking something away, so a line of the form `-name` is
//!   lifted out of the text and becomes a [`SchemaRemoval`].
//!
//! Both read top to bottom: for any one name, the last line that mentions it wins, so `-meh` above
//! a `meh: Meh!` is just a rewrite while `-meh` below it is a deletion.

use vstd::prelude::*;

use crate::document::{
    read_document, schema_document, Definition, DefinitionModel, FieldDecl, FieldDeclModel,
    InputDecl, InputModel, KindDecl, KindModel, ValueDecl, ValueDeclModel,
};
use crate::extensions::add_members;
use crate::lists::{copy_names, has_name, Table};
use crate::scan::{
    append_chars, code_of, def_line, find_char, first_char, inline_member_names, inline_members,
    is_simple_string_literal, join_chars, join_lines, join_then_split, last_char,
    find_members, lemma_split_no_breaks, members_from, open_after, parse_def_line,
    parse_remove_line, part, remove_line, rfind_char, simple_string, split_chars, split_on,
    split_then_join, strip_literals, texts, trimmed_part,
};
use crate::text::{
    chars_of, decimal, decimal_string, ends_with, is_white, skip_white, skip_whitespace, stands,
    stands_at, string_of, trim, trim_bounds,
};
use crate::types::{NodeKind, RemovalModel, SchemaRemoval};

verus! {

/// Base plus rewritten overlay, ready to be read as a graph.
#[derive(Debug, PartialEq, Eq)]
pub struct PreparedOverlay {
    /// The document to parse.
    pub sdl: String,
    /// What the overlay's `-name` lines asked to delete, in source order.
    pub removals: Vec<SchemaRemoval>,
    /// Problems in the overlay's own shorthand: a `-name` that could not be attached to a type.
    /// Whether a removal resolves is decided later, by the graph build.
    pub warnings: Vec<String>,
}

/// Model of a [`PreparedOverlay`].
#[verifier::ext_equal]
pub struct PreparedModel {
    pub sdl: Seq<char>,
    pub removals: Seq<RemovalModel>,
    pub warnings: Seq<Seq<char>>,
}

impl DeepView for PreparedOverlay {
    type V = PreparedModel;

    open spec fn deep_view(&self) -> PreparedModel {
        PreparedModel {
            sdl: self.sdl@,
            removals: self.removals.deep_view(),
            warnings: self.warnings.deep_view(),
        }
    }
}

/// Member names of one declared type, in declaration order, each once.
pub type MemberNames = Vec<String>;

// ── what a schema declares ─────────────────────────────────────────────────

/// The names of declared fields.
pub open spec fn declared_field_names(fields: Seq<FieldDeclModel>) -> Seq<Seq<char>> {
    fields.map_values(|f: FieldDeclModel| f.name)
}

/// The names of declared input fields.
pub open spec fn declared_input_names(fields: Seq<InputModel>) -> Seq<Seq<char>> {
    fields.map_values(|f: InputModel| f.name)
}

/// The names of declared enum values.
pub open spec fn declared_value_names(values: Seq<ValueDeclModel>) -> Seq<Seq<char>> {
    values.map_values(|v: ValueDeclModel| v.name)
}

/// The member names of a declaration: fields, enum values or union members.
pub open spec fn member_names(k: KindModel) -> Seq<Seq<char>> {
    match k {
        KindModel::Object { fields, .. } => declared_field_names(fields),
        KindModel::Interface { fields, .. } => declared_field_names(fields),
        KindModel::Input { fields } => declared_input_names(fields),
        KindModel::Enum { values } => declared_value_names(values),
        KindModel::Union { members } => members,
        KindModel::Scalar => Seq::empty(),
    }
}

/// Each name once, where it first stands.
pub open spec fn deduped(names: Seq<Seq<char>>) -> Seq<Seq<char>> {
    add_members(Seq::empty(), names)
}

/// The member names of every declared type, later declarations winning; extensions do not count.
pub open spec fn members_of(doc: Seq<DefinitionModel>) -> Map<Seq<char>, Seq<Seq<char>>>
    decreases doc.len(),
{
    if doc.len() == 0 {
        Map::empty()
    } else {
        let before = members_of(doc.drop_last());
        match doc.last() {
            DefinitionModel::Type(t) => if t.extend {
                before
            } else {
                before.insert(t.name, deduped(member_names(t.kind)))
            },
            _ => before,
        }
    }
}

/// The member names of every type that a text declares; nothing where it is blank or no schema.
pub open spec fn declared(sdl: Seq<char>) -> Map<Seq<char>, Seq<Seq<char>>> {
    if trim(sdl).len() == 0 {
        Map::empty()
    } else {
        match schema_document(sdl) {
            Ok(doc) => members_of(doc),
            Err(_) => Map::empty(),
        }
    }
}

fn dedup(names: &Vec<String>) -> (r: Vec<String>)
    ensures
        r.deep_view() == deduped(names.deep_view()),
{
    let ghost all = names.deep_view();
    let mut out: Vec<String> = Vec::new();
    let mut i: usize = 0;
    assert(all.take(0) =~= Seq::<Seq<char>>::empty());
    assert(out.deep_view() =~= Seq::<Seq<char>>::empty());
    while i < names.len()
        invariant
            i <= names@.len(),
            all == names.deep_view(),
            out.deep_view() == add_members(Seq::empty(), all.take(i as int)),
        decreases names@.len() - i,
    {
        assert(all[i as int] == names@[i as int]@);
        assert(all.take(i as int + 1).drop_last() =~= all.take(i as int));
        if !has_name(&out, names[i].as_str()) {
            let ghost before = out.deep_view();
            out.push(names[i].clone());
            assert(out.deep_view() =~= before.push(all[i as int]));
        }
        i = i + 1;
    }
    assert(all.take(i as int) =~= all);
    out
}

fn names_of_fields(fields: &Vec<FieldDecl>) -> (r: Vec<String>)
    ensures
        r.deep_view() == declared_field_names(fields.deep_view()),
{
    let ghost want = declared_field_names(fields.deep_view());
    let mut out: Vec<String> = Vec::new();
    let mut i: usize = 0;
    while i < fields.len()
        invariant
            i <= fields@.len(),
            want == declared_field_names(fields.deep_view()),
            out.deep_view() == want.take(i as int),
        decreases fields@.len() - i,
    {
        let ghost before = out.deep_view();
        out.push(fields[i].name.clone());
        assert(want[i as int] == fields@[i as int].name@);
        assert(out.deep_view() =~= before.push(want[i as int]));
        assert(want.take(i as int + 1) =~= before.push(want[i as int]));
        i = i + 1;
    }
    assert(out.deep_view() =~= want);
    out
}

fn names_of_inputs(fields: &Vec<InputDecl>) -> (r: Vec<String>)
    ensures
        r.deep_view() == declared_input_names(fields.deep_view()),
{
    let ghost want = declared_input_names(fields.deep_view());
    let mut out: Vec<String> = Vec::new();
    let mut i: usize = 0;
    while i < fields.len()
        invariant
            i <= fields@.len(),
            want == declared_input_names(fields.deep_view()),
            out.deep_view() == want.take(i as int),
        decreases fields@.len() - i,
    {
        let ghost before = out.deep_view();
        out.push(fields[i].name.clone());
        assert(want[i as int] == fields@[i as int].name@);
        assert(out.deep_view() =~= before.push(want[i as int]));
        assert(want.take(i as int + 1) =~= before.push(want[i as int]));
        i = i + 1;
    }
    assert(out.deep_view() =~= want);
    out
}

fn names_of_values(values: &Vec<ValueDecl>) -> (r: Vec<String>)
    ensures
        r.deep_view() == declared_value_names(values.deep_view()),
{
    let ghost want = declared_value_names(values.deep_view());
    let mut out: Vec<String> = Vec::new();
    let mut i: usize = 0;
    while i < values.len()
        invariant
            i <= values@.len(),
            want == declared_value_names(values.deep_view()),
            out.deep_view() == want.take(i as int),
        decreases values@.len() - i,
    {
        let ghost before = out.deep_view();
        out.push(values[i].name.clone());
        assert(want[i as int] == values@[i as int].name@);
        assert(out.deep_view() =~= before.push(want[i as int]));
        assert(want.take(i as int + 1) =~= before.push(want[i as int]));
        i = i + 1;
    }
    assert(out.deep_view() =~= want);
    out
}

fn names_of_kind(k: &KindDecl) -> (r: Vec<String>)
    ensures
        r.deep_view() == member_names(k.deep_view()),
{
    match k {
        KindDecl::Object { fields, .. } => names_of_fields(fields),
        KindDecl::Interface { fields, .. } => names_of_fields(fields),
        KindDecl::Input { fields } => names_of_inputs(fields),
        KindDecl::Enum { values } => names_of_values(values),
        KindDecl::Union { members } => copy_names(members),
        KindDecl::Scalar => {
            let r: Vec<String> = Vec::new();
            assert(r.deep_view() =~= Seq::<Seq<char>>::empty());
            r
        },
    }
}

/// The member names of every type that a document declares.
pub fn document_members(doc: &Vec<Definition>) -> (r: Table<MemberNames>)
    ensures
        r.well_formed(),
        r.map() == members_of(doc.deep_view()),
{
    let ghost all = doc.deep_view();
    let mut out: Table<MemberNames> = Table::new();
    let mut i: usize = 0;
    assert(all.take(0) =~= Seq::<DefinitionModel>::empty());
    while i < doc.len()
        invariant
            i <= doc@.len(),
            all == doc.deep_view(),
            out.well_formed(),
            out.map() == members_of(all.take(i as int)),
        decreases doc@.len() - i,
    {
        assert(all.take(i as int + 1).drop_last() =~= all.take(i as int));
        assert(all[i as int] == doc@[i as int].deep_view());
        if let Definition::Type(t) = &doc[i] {
            if !t.extend {
                let names = names_of_kind(&t.kind);
                out.insert(t.name.as_str(), dedup(&names));
            }
        }
        i = i + 1;
    }
    assert(all.take(i as int) =~= all);
    out
}

/// What an SDL document declares: every type name mapped to its member names. The keys are the
/// types an overlay augments rather than redefines; the values are what a `-Type` followed by a
/// fresh declaration has to clear out.
///
/// Unparseable input yields an empty map, which simply means nothing gets rewritten.
pub fn declared_members(sdl: &str) -> (r: Table<MemberNames>)
    ensures
        r.well_formed(),
        r.map() == declared(sdl@),
{
    let v = chars_of(sdl);
    let (from, to) = trim_bounds(&v);
    if from == to {
        assert(trim(sdl@).len() == 0);
        return Table::new();
    }
    assert(trim(sdl@).len() == to - from);
    match read_document(sdl) {
        Ok(doc) => document_members(&doc),
        Err(_) => Table::new(),
    }
}

/// Type names an SDL document declares, each once; see [`declared_members`].
pub fn declared_type_names(sdl: &str) -> (r: Vec<String>)
    ensures
        r.deep_view().no_duplicates(),
        forall|n: Seq<char>| #[trigger] r.deep_view().contains(n) <==> declared(sdl@).dom().contains(n),
{
    let t = declared_members(sdl);
    proof {
        t.lemma_names();
    }
    t.keys()
}

// ── joining ────────────────────────────────────────────────────────────────

/// Base and overlay as the single document that gets parsed.
pub open spec fn merged_sdl(base: Seq<char>, overlay: Seq<char>) -> Seq<char> {
    if trim(overlay).len() == 0 { base } else { base + "\n\n"@ + overlay }
}

/// Joins base and overlay SDL into the single document that gets parsed.
pub fn merge_sdl(base: &str, overlay: &str) -> (r: String)
    ensures
        r@ == merged_sdl(base@, overlay@),
{
    let v = chars_of(overlay);
    let (from, to) = trim_bounds(&v);
    let mut s = base.to_owned();
    if from == to {
        assert(trim(overlay@).len() == 0);
        return s;
    }
    assert(trim(overlay@).len() == to - from);
    s.append("\n\n");
    s.append(overlay);
    s
}

// ── descriptions and blocks ────────────────────────────────────────────────

/// The lines with `from..=to` made empty.
pub open spec fn blanked(lines: Seq<Seq<char>>, from: int, to: int) -> Seq<Seq<char>> {
    Seq::new(
        lines.len(),
        |k: int| if from <= k <= to { Seq::<char>::empty() } else { lines[k] },
    )
}

/// The last line before `i` that is not blank, or -1.
pub open spec fn last_filled(lines: Seq<Seq<char>>, i: int) -> int
    decreases i,
{
    if i <= 0 {
        -1
    } else if trim(lines[i - 1]).len() > 0 {
        i - 1
    } else {
        last_filled(lines, i - 1)
    }
}

/// Whether a line starts with three quotes, white space aside.
pub open spec fn opens_block(line: Seq<char>) -> bool {
    stands_at(trim(line), "\"\"\""@, 0)
}

/// The last line before `i` that starts with three quotes, or -1.
pub open spec fn last_opening(lines: Seq<Seq<char>>, i: int) -> int
    decreases i,
{
    if i <= 0 {
        -1
    } else if opens_block(lines[i - 1]) {
        i - 1
    } else {
        last_opening(lines, i - 1)
    }
}

/// The lines with the description just above line `i`, if there is one, made empty.
pub open spec fn without_description(lines: Seq<Seq<char>>, i: int) -> Seq<Seq<char>> {
    let j = last_filled(lines, i);
    if j < 0 {
        lines
    } else {
        let t = trim(lines[j]);
        if ends_with(t, "\"\"\""@) {
            if opens_block(lines[j]) && t.len() >= 6 {
                blanked(lines, j, j)
            } else {
                let k = last_opening(lines, j);
                if k < 0 { lines } else { blanked(lines, k, j) }
            }
        } else if simple_string(t) {
            blanked(lines, j, j)
        } else {
            lines
        }
    }
}

/// The code of lines `start..=end`, and whether a block string is open after them.
pub open spec fn block_code(lines: Seq<Seq<char>>, start: int, end: int) -> (Seq<Seq<char>>, bool)
    decreases end + 1 - start,
{
    if end < start {
        (Seq::empty(), false)
    } else {
        let (before, open) = block_code(lines, start, end - 1);
        (before.push(code_of(lines[end], open)), open_after(lines[end], open))
    }
}

/// Whether anything is left between a block's braces.
pub open spec fn holds_members(lines: Seq<Seq<char>>, start: int, end: int) -> bool {
    let code = join_lines(block_code(lines, start, end).0);
    let open = first_char(code, '{');
    let close = last_char(code, '}');
    if open >= code.len() || close < 0 || close < open {
        true
    } else {
        trim(code.subrange(open + 1, close)).len() > 0
    }
}

fn is_blank(line: &Vec<char>) -> (r: bool)
    ensures
        r == (trim(line@).len() == 0),
{
    let (i, j) = trim_bounds(line);
    assert(trim(line@).len() == j - i);
    i == j
}

fn blank_lines(lines: &mut Vec<Vec<char>>, from: usize, to: usize)
    requires
        from <= to < old(lines)@.len(),
    ensures
        texts(final(lines)@) == blanked(texts(old(lines)@), from as int, to as int),
        final(lines)@.len() == old(lines)@.len(),
{
    let ghost before = texts(lines@);
    let n: usize = lines.len();
    let mut k: usize = from;
    while k <= to
        invariant
            from <= k <= to + 1,
            to < n,
            n == lines@.len(),
            n == before.len(),
            forall|x: int|
                0 <= x < n ==> (#[trigger] lines@[x])@ == (if from <= x < k {
                    Seq::<char>::empty()
                } else {
                    before[x]
                }),
        decreases to + 1 - k,
    {
        lines.set(k, Vec::new());
        k = k + 1;
    }
    assert(texts(lines@) =~= blanked(before, from as int, to as int));
}

fn starts_block(line: &Vec<char>) -> (r: bool)
    ensures
        r == opens_block(line@),
{
    let t = trimmed_part(line);
    let q = chars_of("\"\"\"");
    stands(&t, &q, 0)
}

/// Blanks the description immediately above line `i`, if there is one. An extension may not carry
/// a description, so a pasted type that brought its doc comment along would otherwise become a
/// syntax error the moment it is rewritten into one.
fn blank_preceding_description(lines: &mut Vec<Vec<char>>, i: usize)
    requires
        i < old(lines)@.len(),
    ensures
        texts(final(lines)@) == without_description(texts(old(lines)@), i as int),
        final(lines)@.len() == old(lines)@.len(),
{
    let ghost before = texts(lines@);
    let mut j: usize = i;
    while j > 0 && is_blank(&lines[j - 1])
        invariant
            j <= i < lines@.len(),
            before == texts(lines@),
            last_filled(before, i as int) == last_filled(before, j as int),
        decreases j,
    {
        assert(before[j - 1] == lines@[j - 1]@);
        j = j - 1;
    }
    if j == 0 {
        return;
    }
    let j: usize = j - 1;
    assert(before[j as int] == lines@[j as int]@);
    assert(last_filled(before, i as int) == j);
    let t = trimmed_part(&lines[j]);
    let q = chars_of("\"\"\"");
    proof {
        reveal_strlit("\"\"\"");
    }
    if t.len() >= 3 && stands(&t, &q, t.len() - 3) {
        if starts_block(&lines[j]) && t.len() >= 6 {
            blank_lines(lines, j, j);
            return;
        }
        let mut k: usize = j;
        while k > 0 && !starts_block(&lines[k - 1])
            invariant
                k <= j < lines@.len(),
                before == texts(lines@),
                last_opening(before, j as int) == last_opening(before, k as int),
            decreases k,
        {
            assert(before[k - 1] == lines@[k - 1]@);
            k = k - 1;
        }
        if k == 0 {
            return;
        }
        assert(before[k - 1] == lines@[k - 1]@);
        blank_lines(lines, k - 1, j);
        return;
    }
    if is_simple_string_literal(&t) {
        blank_lines(lines, j, j);
    }
}

/// Whether anything is left between a block's braces. A block that removals emptied out cannot be
/// parsed, so it has to go.
fn block_has_members(lines: &Vec<Vec<char>>, start: usize, end: usize) -> (r: bool)
    requires
        start <= end < lines@.len(),
    ensures
        r == holds_members(texts(lines@), start as int, end as int),
{
    let ghost all = texts(lines@);
    let n: usize = lines.len();
    let mut stripped: Vec<Vec<char>> = Vec::new();
    let mut open: bool = false;
    let mut i: usize = start;
    assert(texts(stripped@) =~= block_code(all, start as int, start - 1).0);
    while i <= end
        invariant
            start <= i <= end + 1,
            end < n == lines@.len(),
            all == texts(lines@),
            texts(stripped@) == block_code(all, start as int, i - 1).0,
            open == block_code(all, start as int, i - 1).1,
        decreases end + 1 - i,
    {
        let ghost before = texts(stripped@);
        assert(all[i as int] == lines@[i as int]@);
        let (code, after) = strip_literals(&lines[i], open);
        stripped.push(code);
        assert(texts(stripped@) =~= before.push(code@));
        open = after;
        i = i + 1;
    }
    let code = join_chars(&stripped);
    match (find_char(&code, '{'), rfind_char(&code, '}')) {
        (Some(a), Some(b)) => {
            if b < a {
                true
            } else if b == a {
                proof {
                    lemma_char_places(code@, '{', '}');
                }
                true
            } else {
                let inner = part(&code, a + 1, b);
                !is_blank(&inner)
            }
        },
        _ => true,
    }
}

proof fn lemma_char_places(s: Seq<char>, a: char, b: char)
    requires
        a != b,
    ensures
        first_char(s, a) < s.len() ==> s[first_char(s, a)] == a && 0 <= first_char(s, a),
        last_char(s, b) >= 0 ==> s[last_char(s, b)] == b && last_char(s, b) < s.len(),
        0 <= first_char(s, a) <= s.len(),
        first_char(s, a) < s.len() && last_char(s, b) >= 0 ==> first_char(s, a) != last_char(s, b),
    decreases s.len(),
{
    if s.len() > 0 {
        lemma_char_places(s.drop_last(), a, b);
        assert(s.last() == s[s.len() - 1]);
    }
}

// ── rewriting ──────────────────────────────────────────────────────────────

/// Whether the lines at hand can list members of a union.
#[derive(Clone, Copy, PartialEq, Eq, Structural)]
pub enum Listing {
    /// No union is being declared.
    Over,
    /// The list may go on, with a `|` (or with the `=` that it starts with).
    Open,
    /// The last line ended in `=` or `|`, so that a member has to follow.
    Due,
}

/// What the overlay's lines have said so far.
#[verifier::ext_equal]
pub struct ScanState {
    /// The lines, rewritten up to the one in hand.
    pub lines: Seq<Seq<char>>,
    /// Removals in source order.
    pub asked: Seq<RemovalModel>,
    pub warnings: Seq<Seq<char>>,
    /// Whether a block string is open.
    pub in_block: bool,
    /// Brace nesting, counted over code only.
    pub depth: nat,
    /// Paren nesting: an argument list that spans lines holds no fields.
    pub parens: nat,
    /// Type whose block is open, for bare `-name` lines.
    pub current: Option<Seq<char>>,
    /// The member list of a union goes on, or may go on with the next line.
    pub listing: Listing,
    /// Line the enclosing top-level definition starts on.
    pub def_line: Option<usize>,
    /// First line of the top-level block that is open.
    pub open_line: Option<usize>,
    /// Top-level `{ … }` spans.
    pub blocks: Seq<(usize, usize)>,
    /// The last word on a type (`Foo`) or member (`Foo.bar`): true for a definition, false for a
    /// removal.
    pub words: Map<Seq<char>, bool>,
}

/// The key of a member: `Type.member`.
pub open spec fn member_key(type_: Seq<char>, member: Seq<char>) -> Seq<char> {
    type_ + "."@ + member
}

/// The key of what a removal targets.
pub open spec fn removal_key(r: RemovalModel) -> Seq<char> {
    match r.member {
        Some(m) => member_key(r.type_, m),
        None => r.type_,
    }
}

/// The words after the members `names` of `owner` were defined.
pub open spec fn define_members(
    words: Map<Seq<char>, bool>,
    owner: Seq<char>,
    names: Seq<Seq<char>>,
) -> Map<Seq<char>, bool>
    decreases names.len(),
{
    if names.len() == 0 {
        words
    } else {
        define_members(words, owner, names.drop_last()).insert(member_key(owner, names.last()), true)
    }
}

/// The pieces that hold more than white space, trimmed.
pub open spec fn filled_parts(parts: Seq<Seq<char>>) -> Seq<Seq<char>>
    decreases parts.len(),
{
    if parts.len() == 0 {
        Seq::empty()
    } else {
        let before = filled_parts(parts.drop_last());
        if trim(parts.last()).len() > 0 { before.push(trim(parts.last())) } else { before }
    }
}

/// The members that a union line lists after its `=`.
pub open spec fn union_members(code: Seq<char>) -> Seq<Seq<char>> {
    let eq = first_char(code, '=');
    if eq < code.len() {
        filled_parts(split_on(code.subrange(eq + 1, code.len() as int), '|'))
    } else {
        Seq::empty()
    }
}

/// The members that a further line of a union lists.
pub open spec fn more_members(code: Seq<char>) -> Seq<Seq<char>> {
    if code.contains('=') {
        union_members(code)
    } else {
        filled_parts(split_on(code, '|'))
    }
}

/// How a union's list stands after a line of it, `t` being the line's code without the white space
/// around it.
pub open spec fn listing_after(t: Seq<char>) -> Listing {
    if t.len() > 0 && (t.last() == '=' || t.last() == '|') {
        Listing::Due
    } else {
        Listing::Open
    }
}

/// The line goes on with the member list of a union.
pub open spec fn goes_on(listing: Listing, t: Seq<char>) -> bool {
    t.len() > 0 && match listing {
        Listing::Over => false,
        Listing::Open => t[0] == '|' || t[0] == '=',
        Listing::Due => true,
    }
}

/// The line with `extend ` put in after its indentation.
pub open spec fn as_extension(line: Seq<char>) -> Seq<char> {
    let indent = skip_white(line, 0);
    line.subrange(0, indent) + "extend "@ + line.subrange(indent, line.len() as int)
}

/// What a removal line targets, if that can be told: `-Type.member` anywhere, `-Type` outside
/// blocks, `-member` inside the block of a type.
pub open spec fn removal_of(
    st: ScanState,
    first: Seq<char>,
    second: Option<Seq<char>>,
) -> Option<RemovalModel> {
    match second {
        Some(m) => Some(RemovalModel { type_: first, member: Some(m) }),
        None => if st.depth == 0 {
            Some(RemovalModel { type_: first, member: None })
        } else {
            match st.current {
                Some(t) => Some(RemovalModel { type_: t, member: Some(first) }),
                None => None,
            }
        },
    }
}

/// The warning about a removal line outside any type.
pub open spec fn ignored_text(first: Seq<char>, line: nat) -> Seq<char> {
    "Ignoring \"-"@ + first + "\" on line "@ + decimal(line)
        + " — not inside a type block; write \"-Type."@ + first + "\" to remove a field"@
}

/// The state after a removal line.
pub open spec fn after_removal(
    st: ScanState,
    first: Seq<char>,
    second: Option<Seq<char>>,
    i: usize,
) -> ScanState {
    let lines = st.lines.update(i as int, Seq::empty());
    match removal_of(st, first, second) {
        Some(r) => ScanState {
            lines,
            asked: st.asked.push(r),
            words: st.words.insert(removal_key(r), false),
            ..st
        },
        None => ScanState {
            lines,
            warnings: st.warnings.push(ignored_text(first, i as nat + 1)),
            ..st
        },
    }
}

/// Whether a redeclaration of a known type is a scalar, which has nothing to merge.
pub open spec fn drops_line(
    base: Map<Seq<char>, Seq<Seq<char>>>,
    is_extend: bool,
    kind: NodeKind,
    name: Seq<char>,
) -> bool {
    !is_extend && base.dom().contains(name) && kind == NodeKind::Scalar
}

/// Whether a redeclaration of a known type becomes an extension: a union with its members on this
/// line, or another kind whose body opens on it.
pub open spec fn becomes_extension(
    base: Map<Seq<char>, Seq<Seq<char>>>,
    code: Seq<char>,
    is_extend: bool,
    kind: NodeKind,
    name: Seq<char>,
) -> bool {
    &&& !is_extend && base.dom().contains(name) && kind != NodeKind::Scalar
    &&& if kind == NodeKind::Union { code.contains('=') } else { code.contains('{') }
}

/// The state after the head of a definition, its braces not counted yet.
pub open spec fn after_definition(
    st: ScanState,
    base: Map<Seq<char>, Seq<Seq<char>>>,
    code: Seq<char>,
    is_extend: bool,
    kind: NodeKind,
    name: Seq<char>,
    i: usize,
) -> ScanState {
    let words1 = st.words.insert(name, true);
    let words2 = if kind == NodeKind::Union {
        define_members(words1, name, union_members(code))
    } else {
        words1
    };
    let lines = if drops_line(base, is_extend, kind, name) {
        st.lines.update(i as int, Seq::empty())
    } else if becomes_extension(base, code, is_extend, kind, name) {
        without_description(st.lines, i as int).update(i as int, as_extension(st.lines[i as int]))
    } else {
        st.lines
    };
    ScanState {
        lines,
        current: Some(name),
        def_line: Some(i),
        listing: if kind == NodeKind::Union { listing_after(trim(code)) } else { Listing::Over },
        words: define_members(words2, name, inline_members(code)),
        ..st
    }
}

/// The state after one character of code on line `i`.
pub open spec fn after_char(st: ScanState, c: char, i: usize) -> ScanState {
    if c == '{' {
        ScanState {
            open_line: if st.depth == 0 {
                match st.def_line {
                    Some(d) => Some(d),
                    None => Some(i),
                }
            } else {
                st.open_line
            },
            depth: st.depth + 1,
            ..st
        }
    } else if c == '}' {
        if st.depth <= 1 {
            ScanState {
                depth: 0,
                blocks: match st.open_line {
                    Some(o) => st.blocks.push((o, i)),
                    None => st.blocks,
                },
                open_line: None,
                current: None,
                def_line: None,
                ..st
            }
        } else {
            ScanState { depth: (st.depth - 1) as nat, ..st }
        }
    } else if c == '(' {
        ScanState { parens: st.parens + 1, ..st }
    } else if c == ')' {
        ScanState { parens: if st.parens > 0 { (st.parens - 1) as nat } else { 0 }, ..st }
    } else {
        st
    }
}

/// The state after the code of line `i`.
pub open spec fn after_code(st: ScanState, code: Seq<char>, i: usize) -> ScanState
    decreases code.len(),
{
    if code.len() == 0 {
        st
    } else {
        after_char(after_code(st, code.drop_last(), i), code.last(), i)
    }
}

/// The state after the members that a line inside the block of a type declares, or that a further
/// line of a union lists; its braces not counted yet.
pub open spec fn after_members(st: ScanState, code: Seq<char>) -> ScanState {
    let t = trim(code);
    match st.current {
        Some(owner) => if goes_on(st.listing, t) {
            ScanState {
                words: define_members(st.words, owner, more_members(code)),
                listing: listing_after(t),
                ..st
            }
        } else {
            ScanState {
                words: define_members(
                    st.words,
                    owner,
                    members_from(code, 0, st.depth, st.parens, ' '),
                ),
                listing: if t.len() == 0 { st.listing } else { Listing::Over },
                ..st
            }
        },
        None => st,
    }
}

/// The state after line `i`.
pub open spec fn after_line(
    st: ScanState,
    base: Map<Seq<char>, Seq<Seq<char>>>,
    i: usize,
) -> ScanState {
    let line = st.lines[i as int];
    let code = code_of(line, st.in_block);
    let t = trim(code);
    let read = ScanState { in_block: open_after(line, st.in_block), ..st };
    match remove_line(t) {
        Some((first, second)) => after_removal(read, first, second, i),
        None => match def_line(t) {
            Some((is_extend, kind, name)) if st.depth == 0 => {
                let defined = after_definition(read, base, code, is_extend, kind, name, i);
                if drops_line(base, is_extend, kind, name) {
                    defined
                } else {
                    after_code(defined, code, i)
                }
            },
            _ => after_code(after_members(read, code), code, i),
        },
    }
}

/// The state before the first line.
pub open spec fn start_state(overlay: Seq<char>) -> ScanState {
    ScanState {
        lines: split_on(overlay, '\n'),
        asked: Seq::empty(),
        warnings: Seq::empty(),
        in_block: false,
        depth: 0,
        parens: 0,
        current: None,
        listing: Listing::Over,
        def_line: None,
        open_line: None,
        blocks: Seq::empty(),
        words: Map::empty(),
    }
}

/// The state after the first `n` lines.
pub open spec fn scanned(
    overlay: Seq<char>,
    base: Map<Seq<char>, Seq<Seq<char>>>,
    n: nat,
) -> ScanState
    decreases n,
{
    if n == 0 {
        start_state(overlay)
    } else {
        after_line(scanned(overlay, base, (n - 1) as nat), base, (n - 1) as usize)
    }
}

/// The lines with every block that lost all its members made empty, description and all.
pub open spec fn without_empty_blocks(
    lines: Seq<Seq<char>>,
    blocks: Seq<(usize, usize)>,
) -> Seq<Seq<char>>
    decreases blocks.len(),
{
    if blocks.len() == 0 {
        lines
    } else {
        let before = without_empty_blocks(lines, blocks.drop_last());
        let (start, end) = blocks.last();
        if holds_members(before, start as int, end as int) {
            before
        } else {
            blanked(without_description(before, start as int), start as int, end as int)
        }
    }
}

/// Whether the last word on `key` is a removal.
pub open spec fn ends_removed(words: Map<Seq<char>, bool>, key: Seq<char>) -> bool {
    words.dom().contains(key) && !words[key]
}

/// Whether the last word on `key` is a definition.
pub open spec fn ends_defined(words: Map<Seq<char>, bool>, key: Seq<char>) -> bool {
    words.dom().contains(key) && words[key]
}

/// The removals that nothing below put back.
pub open spec fn standing_removals(
    asked: Seq<RemovalModel>,
    words: Map<Seq<char>, bool>,
) -> Seq<RemovalModel>
    decreases asked.len(),
{
    if asked.len() == 0 {
        Seq::empty()
    } else {
        let before = standing_removals(asked.drop_last(), words);
        if ends_removed(words, removal_key(asked.last())) {
            before.push(asked.last())
        } else {
            before
        }
    }
}

/// The removals of those members of a replaced type that its new declaration does not restate.
pub open spec fn cleared_members(
    type_: Seq<char>,
    members: Seq<Seq<char>>,
    words: Map<Seq<char>, bool>,
) -> Seq<RemovalModel>
    decreases members.len(),
{
    if members.len() == 0 {
        Seq::empty()
    } else {
        let before = cleared_members(type_, members.drop_last(), words);
        if ends_defined(words, member_key(type_, members.last())) {
            before
        } else {
            before.push(RemovalModel { type_, member: Some(members.last()) })
        }
    }
}

/// The removals that make a type dropped and declared again a replacement.
pub open spec fn replacements(
    asked: Seq<RemovalModel>,
    words: Map<Seq<char>, bool>,
    base: Map<Seq<char>, Seq<Seq<char>>>,
) -> Seq<RemovalModel>
    decreases asked.len(),
{
    if asked.len() == 0 {
        Seq::empty()
    } else {
        let before = replacements(asked.drop_last(), words, base);
        let r = asked.last();
        if r.member is Some || ends_removed(words, removal_key(r)) || !base.dom().contains(r.type_) {
            before
        } else {
            before + cleared_members(r.type_, base[r.type_], words)
        }
    }
}

/// The overlay rewritten next to a schema that declares `base`.
pub open spec fn rewritten(
    overlay: Seq<char>,
    base: Map<Seq<char>, Seq<Seq<char>>>,
) -> PreparedModel {
    let st = scanned(overlay, base, split_on(overlay, '\n').len());
    PreparedModel {
        sdl: join_lines(without_empty_blocks(st.lines, st.blocks)),
        removals: standing_removals(st.asked, st.words) + replacements(st.asked, st.words, base),
        warnings: st.warnings,
    }
}

/// The overlay prepared over a schema; a blank one leaves the schema alone.
pub open spec fn prepared(base: Seq<char>, overlay: Seq<char>) -> PreparedModel {
    if trim(overlay).len() == 0 {
        PreparedModel { sdl: base, removals: Seq::empty(), warnings: Seq::empty() }
    } else {
        let r = rewritten(overlay, declared(base));
        PreparedModel { sdl: merged_sdl(base, r.sdl), ..r }
    }
}

/// The state of the scan; see [`ScanState`].
struct Scan {
    lines: Vec<Vec<char>>,
    asked: Vec<SchemaRemoval>,
    warnings: Vec<String>,
    in_block: bool,
    depth: u128,
    parens: u128,
    current: Option<String>,
    listing: Listing,
    def_line: Option<usize>,
    open_line: Option<usize>,
    blocks: Vec<(usize, usize)>,
    words: Table<bool>,
}

/// More characters than a line can hold.
const LINE_MAX: u128 = 0x1_0000_0000_0000_0000;

impl Scan {
    spec fn model(self) -> ScanState {
        ScanState {
            lines: texts(self.lines@),
            asked: self.asked.deep_view(),
            warnings: self.warnings.deep_view(),
            in_block: self.in_block,
            depth: self.depth as nat,
            parens: self.parens as nat,
            current: self.current.deep_view(),
            listing: self.listing,
            def_line: self.def_line,
            open_line: self.open_line,
            blocks: self.blocks@,
            words: self.words.map(),
        }
    }

    /// The words are kept once each, spans lie among the lines up to `i`, and nesting is no deeper
    /// than `room`.
    spec fn well_formed(self, i: int, room: int) -> bool {
        &&& self.words.well_formed()
        &&& self.depth <= room
        &&& self.parens <= room
        &&& i <= self.lines@.len()
        &&& self.def_line matches Some(d) ==> d < i
        &&& self.open_line matches Some(o) ==> o < i
        &&& forall|k: int|
            0 <= k < self.blocks@.len() ==> (#[trigger] self.blocks@[k]).0 <= self.blocks@[k].1
                && self.blocks@[k].1 < i
    }
}

fn key_of(type_: &str, member: &str) -> (r: String)
    ensures
        r@ == member_key(type_@, member@),
{
    let mut s = type_.to_owned();
    s.append(".");
    s.append(member);
    s
}

fn define_all(words: &mut Table<bool>, owner: &str, names: &Vec<Vec<char>>)
    requires
        old(words).well_formed(),
    ensures
        final(words).well_formed(),
        final(words).map() == define_members(old(words).map(), owner@, texts(names@)),
{
    let ghost base = words.map();
    let ghost all = texts(names@);
    let mut i: usize = 0;
    assert(all.take(0) =~= Seq::<Seq<char>>::empty());
    while i < names.len()
        invariant
            i <= names@.len(),
            all == texts(names@),
            words.well_formed(),
            words.map() == define_members(base, owner@, all.take(i as int)),
        decreases names@.len() - i,
    {
        assert(all.take(i as int + 1).drop_last() =~= all.take(i as int));
        assert(all[i as int] == names@[i as int]@);
        let key = key_of(owner, string_of(&names[i]).as_str());
        words.insert(key.as_str(), true);
        i = i + 1;
    }
    assert(all.take(i as int) =~= all);
}

fn list_members(rest: &Vec<char>) -> (r: Vec<Vec<char>>)
    ensures
        texts(r@) == filled_parts(split_on(rest@, '|')),
{
    let mut out: Vec<Vec<char>> = Vec::new();
    let parts = split_chars(rest, '|');
    let ghost all = texts(parts@);
    let mut i: usize = 0;
    assert(all.take(0) =~= Seq::<Seq<char>>::empty());
    assert(texts(out@) =~= Seq::<Seq<char>>::empty());
    while i < parts.len()
        invariant
            i <= parts@.len(),
            all == texts(parts@),
            texts(out@) == filled_parts(all.take(i as int)),
        decreases parts@.len() - i,
    {
        assert(all.take(i as int + 1).drop_last() =~= all.take(i as int));
        assert(all[i as int] == parts@[i as int]@);
        let t = trimmed_part(&parts[i]);
        if t.len() > 0 {
            let ghost before = texts(out@);
            out.push(t);
            assert(texts(out@) =~= before.push(t@));
        }
        i = i + 1;
    }
    assert(all.take(i as int) =~= all);
    out
}

fn find_union_members(code: &Vec<char>) -> (r: Vec<Vec<char>>)
    ensures
        texts(r@) == union_members(code@),
{
    let n: usize = code.len();
    match find_char(code, '=') {
        None => {
            let out: Vec<Vec<char>> = Vec::new();
            assert(texts(out@) =~= Seq::<Seq<char>>::empty());
            out
        },
        Some(eq) => {
            let rest = part(code, eq + 1, n);
            list_members(&rest)
        },
    }
}

fn find_more_members(code: &Vec<char>) -> (r: Vec<Vec<char>>)
    ensures
        texts(r@) == more_members(code@),
{
    if has_char(code, '=') {
        find_union_members(code)
    } else {
        list_members(code)
    }
}

fn find_listing(t: &Vec<char>) -> (r: Listing)
    ensures
        r == listing_after(t@),
{
    let n: usize = t.len();
    if n > 0 && (t[n - 1] == '=' || t[n - 1] == '|') {
        Listing::Due
    } else {
        Listing::Open
    }
}

fn lists_more(listing: Listing, t: &Vec<char>) -> (r: bool)
    ensures
        r == goes_on(listing, t@),
{
    t.len() > 0 && match listing {
        Listing::Over => false,
        Listing::Open => t[0] == '|' || t[0] == '=',
        Listing::Due => true,
    }
}

fn extension_line(line: &Vec<char>) -> (r: Vec<char>)
    ensures
        r@ == as_extension(line@),
{
    let indent: usize = skip_whitespace(line, 0);
    let mut out = part(line, 0, indent);
    let word = chars_of("extend ");
    append_chars(&mut out, &word);
    let rest = part(line, indent, line.len());
    append_chars(&mut out, &rest);
    out
}

fn set_line(lines: &mut Vec<Vec<char>>, i: usize, line: Vec<char>)
    requires
        i < old(lines)@.len(),
    ensures
        texts(final(lines)@) == texts(old(lines)@).update(i as int, line@),
        final(lines)@.len() == old(lines)@.len(),
{
    let ghost before = texts(lines@);
    lines.set(i, line);
    assert(texts(lines@) =~= before.update(i as int, line@));
}

fn has_char(code: &Vec<char>, c: char) -> (r: bool)
    ensures
        r == code@.contains(c),
{
    let mut i: usize = 0;
    while i < code.len()
        invariant
            i <= code@.len(),
            forall|k: int| 0 <= k < i ==> code@[k] != c,
        decreases code@.len() - i,
    {
        if code[i] == c {
            assert(code@[i as int] == c);
            return true;
        }
        i = i + 1;
    }
    false
}

fn ignored_warning(first: &str, line: usize) -> (r: String)
    requires
        line < usize::MAX,
    ensures
        r@ == ignored_text(first@, line as nat + 1),
{
    let mut s = "Ignoring \"-".to_owned();
    s.append(first);
    s.append("\" on line ");
    s.append(decimal_string(line + 1).as_str());
    s.append(" — not inside a type block; write \"-Type.");
    s.append(first);
    s.append("\" to remove a field");
    s
}

fn scan_removal(
    st: Scan,
    first: Vec<char>,
    second: Option<Vec<char>>,
    i: usize,
    Ghost(room): Ghost<int>,
) -> (r: Scan)
    requires
        st.well_formed(i as int, room),
        i < st.lines@.len(),
        st.lines@.len() <= usize::MAX,
    ensures
        r.well_formed(i + 1, room),
        r.lines@.len() == st.lines@.len(),
        r.model() == after_removal(
            st.model(),
            first@,
            match second {
                Some(m) => Some(m@),
                None => None,
            },
            i,
        ),
{
    let ghost before = st.model();
    let mut st = st;
    let name = string_of(&first);
    let removal: Option<SchemaRemoval> = match &second {
        Some(m) => Some(SchemaRemoval::member(name.as_str(), string_of(m).as_str())),
        None => {
            if st.depth == 0 {
                Some(SchemaRemoval::type_only(name.as_str()))
            } else {
                match &st.current {
                    Some(t) => Some(SchemaRemoval::member(t.as_str(), name.as_str())),
                    None => None,
                }
            }
        },
    };
    set_line(&mut st.lines, i, Vec::new());
    assert(texts(st.lines@) =~= before.lines.update(i as int, Seq::empty()));
    match removal {
        Some(r) => {
            let key = match &r.member {
                Some(m) => key_of(r.type_.as_str(), m.as_str()),
                None => r.type_.clone(),
            };
            st.words.insert(key.as_str(), false);
            st.asked.push(r);
            assert(st.asked.deep_view() =~= before.asked.push(r.deep_view()));
        },
        None => {
            st.warnings.push(ignored_warning(name.as_str(), i));
            assert(st.warnings.deep_view() =~= before.warnings.push(
                ignored_text(first@, i as nat + 1),
            ));
        },
    }
    st
}

fn scan_definition(
    st: Scan,
    base: &Table<MemberNames>,
    code: &Vec<char>,
    is_extend: bool,
    kind: NodeKind,
    name: Vec<char>,
    i: usize,
    Ghost(room): Ghost<int>,
) -> (r: (Scan, bool))
    requires
        base.well_formed(),
        st.well_formed(i as int, room),
        i < st.lines@.len(),
    ensures
        r.0.well_formed(i + 1, room),
        r.0.lines@.len() == st.lines@.len(),
        r.1 == drops_line(base.map(), is_extend, kind, name@),
        r.0.model() == after_definition(
            st.model(),
            base.map(),
            code@,
            is_extend,
            kind,
            name@,
            i,
        ),
{
    let ghost before = st.model();
    let mut st = st;
    let owner = string_of(&name);
    st.words.insert(owner.as_str(), true);
    if kind == NodeKind::Union {
        let members = find_union_members(code);
        define_all(&mut st.words, owner.as_str(), &members);
    }
    let members = inline_member_names(code);
    define_all(&mut st.words, owner.as_str(), &members);
    let known: bool = !is_extend && base.has(owner.as_str());
    let mut dropped: bool = false;
    if known {
        if kind == NodeKind::Scalar {
            dropped = true;
            set_line(&mut st.lines, i, Vec::new());
            assert(texts(st.lines@) =~= before.lines.update(i as int, Seq::empty()));
        } else {
            let extendable: bool = if kind == NodeKind::Union {
                has_char(code, '=')
            } else {
                has_char(code, '{')
            };
            if extendable {
                assert(before.lines[i as int] == st.lines@[i as int]@);
                let line = extension_line(&st.lines[i]);
                blank_preceding_description(&mut st.lines, i);
                set_line(&mut st.lines, i, line);
            }
        }
    }
    st.current = Some(owner);
    st.def_line = Some(i);
    let t = trimmed_part(code);
    st.listing = if kind == NodeKind::Union { find_listing(&t) } else { Listing::Over };
    (st, dropped)
}

fn scan_char(st: Scan, c: char, i: usize, Ghost(room): Ghost<int>) -> (r: Scan)
    requires
        st.well_formed(i + 1, room),
        room < u128::MAX,
    ensures
        r.well_formed(i + 1, room + 1),
        r.lines@.len() == st.lines@.len(),
        r.model() == after_char(st.model(), c, i),
{
    let ghost before = st.model();
    let mut st = st;
    if c == '{' {
        if st.depth == 0 {
            st.open_line = match st.def_line {
                Some(d) => Some(d),
                None => Some(i),
            };
        }
        st.depth = st.depth + 1;
    } else if c == '}' {
        if st.depth <= 1 {
            st.depth = 0;
            if let Some(o) = st.open_line {
                st.blocks.push((o, i));
            }
            st.open_line = None;
            st.current = None;
            st.def_line = None;
        } else {
            st.depth = st.depth - 1;
        }
    } else if c == '(' {
        st.parens = st.parens + 1;
    } else if c == ')' {
        if st.parens > 0 {
            st.parens = st.parens - 1;
        }
    }
    st
}

fn scan_code(st: Scan, code: &Vec<char>, i: usize) -> (r: Scan)
    requires
        st.well_formed(i + 1, i * LINE_MAX),
        code@.len() <= usize::MAX,
    ensures
        r.well_formed(i + 1, (i + 1) * LINE_MAX),
        r.lines@.len() == st.lines@.len(),
        r.model() == after_code(st.model(), code@, i),
{
    let ghost before = st.model();
    let mut st = st;
    let ghost count = st.lines@.len();
    let mut k: usize = 0;
    assert(code@.take(0) =~= Seq::<char>::empty());
    assert(i * LINE_MAX + 0 == i * LINE_MAX);
    while k < code.len()
        invariant
            k <= code@.len() <= usize::MAX,
            st.well_formed(i + 1, i * LINE_MAX + k),
            st.lines@.len() == count,
            st.model() == after_code(before, code@.take(k as int), i),
        decreases code@.len() - k,
    {
        assert(code@.take(k as int + 1).drop_last() =~= code@.take(k as int));
        st = scan_char(st, code[k], i, Ghost(i * LINE_MAX + k));
        k = k + 1;
    }
    assert(code@.take(k as int) =~= code@);
    st
}

fn scan_line(st: Scan, base: &Table<MemberNames>, i: usize) -> (r: Scan)
    requires
        base.well_formed(),
        st.well_formed(i as int, i * LINE_MAX),
        i < st.lines@.len() <= usize::MAX,
    ensures
        r.well_formed(i + 1, (i + 1) * LINE_MAX),
        r.lines@.len() == st.lines@.len(),
        r.model() == after_line(st.model(), base.map(), i),
{
    let ghost before = st.model();
    let mut st = st;
    assert(before.lines[i as int] == st.lines@[i as int]@);
    let (code, open) = strip_literals(&st.lines[i], st.in_block);
    let count: usize = code.len();
    st.in_block = open;
    let t = trimmed_part(&code);
    match parse_remove_line(&t) {
        Some((first, second)) => scan_removal(st, first, second, i, Ghost(i * LINE_MAX)),
        None => {
            if st.depth == 0 {
                if let Some((is_extend, kind, name)) = parse_def_line(&t) {
                    let (next, dropped) = scan_definition(
                        st,
                        base,
                        &code,
                        is_extend,
                        kind,
                        name,
                        i,
                        Ghost(i * LINE_MAX),
                    );
                    if dropped {
                        return next;
                    }
                    return scan_code(next, &code, i);
                }
            }
            if let Some(owner) = &st.current {
                if lists_more(st.listing, &t) {
                    let members = find_more_members(&code);
                    define_all(&mut st.words, owner.as_str(), &members);
                    st.listing = find_listing(&t);
                } else {
                    let members = find_members(&code, 0, st.depth, st.parens, ' ');
                    define_all(&mut st.words, owner.as_str(), &members);
                    if t.len() > 0 {
                        st.listing = Listing::Over;
                    }
                }
            }
            scan_code(st, &code, i)
        },
    }
}

fn scan_overlay(overlay: &Vec<char>, base: &Table<MemberNames>) -> (r: Scan)
    requires
        base.well_formed(),
    ensures
        r.words.well_formed(),
        r.lines@.len() == split_on(overlay@, '\n').len(),
        forall|k: int|
            0 <= k < r.blocks@.len() ==> (#[trigger] r.blocks@[k]).0 <= r.blocks@[k].1 && r.blocks@[k].1
                < r.lines@.len(),
        r.model() == scanned(overlay@, base.map(), split_on(overlay@, '\n').len()),
{
    let lines = split_chars(overlay, '\n');
    let n: usize = lines.len();
    let mut st = Scan {
        lines,
        asked: Vec::new(),
        warnings: Vec::new(),
        in_block: false,
        depth: 0,
        parens: 0,
        current: None,
        listing: Listing::Over,
        def_line: None,
        open_line: None,
        blocks: Vec::new(),
        words: Table::new(),
    };
    assert(st.asked.deep_view() =~= Seq::<RemovalModel>::empty());
    assert(st.warnings.deep_view() =~= Seq::<Seq<char>>::empty());
    assert(st.blocks@ =~= Seq::<(usize, usize)>::empty());
    assert(st.model() =~= start_state(overlay@));
    let mut i: usize = 0;
    while i < n
        invariant
            i <= n,
            base.well_formed(),
            st.lines@.len() == n == split_on(overlay@, '\n').len(),
            st.well_formed(i as int, i * LINE_MAX),
            st.model() == scanned(overlay@, base.map(), i as nat),
        decreases n - i,
    {
        st = scan_line(st, base, i);
        i = i + 1;
    }
    st
}

fn drop_empty_blocks(lines: Vec<Vec<char>>, blocks: &Vec<(usize, usize)>) -> (r: Vec<Vec<char>>)
    requires
        forall|k: int|
            0 <= k < blocks@.len() ==> (#[trigger] blocks@[k]).0 <= blocks@[k].1 && blocks@[k].1
                < lines@.len(),
    ensures
        texts(r@) == without_empty_blocks(texts(lines@), blocks@),
{
    let ghost base = texts(lines@);
    let ghost n = lines@.len();
    let mut lines = lines;
    let mut i: usize = 0;
    assert(blocks@.take(0) =~= Seq::<(usize, usize)>::empty());
    while i < blocks.len()
        invariant
            i <= blocks@.len(),
            lines@.len() == n,
            forall|k: int|
                0 <= k < blocks@.len() ==> (#[trigger] blocks@[k]).0 <= blocks@[k].1 && blocks@[k].1 < n,
            texts(lines@) == without_empty_blocks(base, blocks@.take(i as int)),
        decreases blocks@.len() - i,
    {
        assert(blocks@.take(i as int + 1).drop_last() =~= blocks@.take(i as int));
        let (start, end) = blocks[i];
        assert(blocks@[i as int] == (start, end));
        if !block_has_members(&lines, start, end) {
            blank_preceding_description(&mut lines, start);
            blank_lines(&mut lines, start, end);
        }
        i = i + 1;
    }
    assert(blocks@.take(i as int) =~= blocks@);
    lines
}

fn copy_removal(r: &SchemaRemoval) -> (c: SchemaRemoval)
    ensures
        c.deep_view() == r.deep_view(),
{
    SchemaRemoval { type_: r.type_.clone(), member: crate::lists::copy_text(&r.member) }
}

fn is_word(words: &Table<bool>, key: &str, defined: bool) -> (r: bool)
    requires
        words.well_formed(),
    ensures
        r == (words.map().dom().contains(key@) && words.map()[key@] == defined),
{
    match words.get(key) {
        Some(w) => *w == defined,
        None => false,
    }
}

fn key_of_removal(r: &SchemaRemoval) -> (k: String)
    ensures
        k@ == removal_key(r.deep_view()),
{
    match &r.member {
        Some(m) => key_of(r.type_.as_str(), m.as_str()),
        None => r.type_.clone(),
    }
}

fn keep_standing(asked: &Vec<SchemaRemoval>, words: &Table<bool>) -> (r: Vec<SchemaRemoval>)
    requires
        words.well_formed(),
    ensures
        r.deep_view() == standing_removals(asked.deep_view(), words.map()),
{
    let ghost all = asked.deep_view();
    let mut out: Vec<SchemaRemoval> = Vec::new();
    let mut i: usize = 0;
    assert(all.take(0) =~= Seq::<RemovalModel>::empty());
    assert(out.deep_view() =~= Seq::<RemovalModel>::empty());
    while i < asked.len()
        invariant
            i <= asked@.len(),
            all == asked.deep_view(),
            words.well_formed(),
            out.deep_view() == standing_removals(all.take(i as int), words.map()),
        decreases asked@.len() - i,
    {
        assert(all.take(i as int + 1).drop_last() =~= all.take(i as int));
        assert(all[i as int] == asked@[i as int].deep_view());
        if is_word(words, key_of_removal(&asked[i]).as_str(), false) {
            let ghost before = out.deep_view();
            out.push(copy_removal(&asked[i]));
            assert(out.deep_view() =~= before.push(all[i as int]));
        }
        i = i + 1;
    }
    assert(all.take(i as int) =~= all);
    out
}

fn push_cleared(
    type_: &str,
    members: &Vec<String>,
    words: &Table<bool>,
    out: &mut Vec<SchemaRemoval>,
)
    requires
        words.well_formed(),
    ensures
        final(out).deep_view() == old(out).deep_view() + cleared_members(
            type_@,
            members.deep_view(),
            words.map(),
        ),
{
    let ghost base = out.deep_view();
    let ghost all = members.deep_view();
    let mut i: usize = 0;
    assert(all.take(0) =~= Seq::<Seq<char>>::empty());
    assert(base + Seq::<RemovalModel>::empty() =~= base);
    while i < members.len()
        invariant
            i <= members@.len(),
            all == members.deep_view(),
            words.well_formed(),
            out.deep_view() == base + cleared_members(type_@, all.take(i as int), words.map()),
        decreases members@.len() - i,
    {
        assert(all.take(i as int + 1).drop_last() =~= all.take(i as int));
        assert(all[i as int] == members@[i as int]@);
        if !is_word(words, key_of(type_, members[i].as_str()).as_str(), true) {
            let ghost before = out.deep_view();
            let r = SchemaRemoval::member(type_, members[i].as_str());
            out.push(r);
            assert(out.deep_view() =~= before.push(r.deep_view()));
            assert(out.deep_view() =~= base + cleared_members(
                type_@,
                all.take(i as int + 1),
                words.map(),
            ));
        }
        i = i + 1;
    }
    assert(all.take(i as int) =~= all);
}

fn push_replacements(
    asked: &Vec<SchemaRemoval>,
    words: &Table<bool>,
    base: &Table<MemberNames>,
    out: &mut Vec<SchemaRemoval>,
)
    requires
        words.well_formed(),
        base.well_formed(),
    ensures
        final(out).deep_view() == old(out).deep_view() + replacements(
            asked.deep_view(),
            words.map(),
            base.map(),
        ),
{
    let ghost first = out.deep_view();
    let ghost all = asked.deep_view();
    let mut i: usize = 0;
    assert(all.take(0) =~= Seq::<RemovalModel>::empty());
    assert(first + Seq::<RemovalModel>::empty() =~= first);
    while i < asked.len()
        invariant
            i <= asked@.len(),
            all == asked.deep_view(),
            words.well_formed(),
            base.well_formed(),
            out.deep_view() == first + replacements(all.take(i as int), words.map(), base.map()),
        decreases asked@.len() - i,
    {
        assert(all.take(i as int + 1).drop_last() =~= all.take(i as int));
        assert(all[i as int] == asked@[i as int].deep_view());
        let r = &asked[i];
        if r.member.is_none() && !is_word(words, key_of_removal(r).as_str(), false) {
            if let Some(members) = base.get(r.type_.as_str()) {
                push_cleared(r.type_.as_str(), members, words, out);
                assert(out.deep_view() =~= first + replacements(
                    all.take(i as int + 1),
                    words.map(),
                    base.map(),
                ));
            }
        }
        i = i + 1;
    }
    assert(all.take(i as int) =~= all);
}

/// Rewrites overlay SDL into something parseable next to the schema that declares `base_members`:
/// bare redefinitions of known types become extensions, and `-name` lines are lifted out into
/// removals.
///
/// Lines are blanked rather than deleted, so line numbers keep matching the editor. The overlay
/// reads top to bottom: for any one name the last line that mentions it decides its fate.
///
/// ```text
/// type Foo {
///   meh: Meh!    # define
///   -meh         # …then drop it
///   meh: Meh!    # …then define it again: this is what stands
/// }
/// ```
pub fn rewrite_overlay(overlay: &str, base_members: &Table<MemberNames>) -> (r: PreparedOverlay)
    requires
        base_members.well_formed(),
    ensures
        r.deep_view() == rewritten(overlay@, base_members.map()),
{
    let text = chars_of(overlay);
    let st = scan_overlay(&text, base_members);
    let mut removals = keep_standing(&st.asked, &st.words);
    push_replacements(&st.asked, &st.words, base_members, &mut removals);
    let lines = drop_empty_blocks(st.lines, &st.blocks);
    let sdl = string_of(&join_chars(&lines));
    PreparedOverlay { sdl, removals, warnings: st.warnings }
}

/// Builds the document to parse from a schema and the SDL laid over it.
pub fn prepare_overlay(base: &str, overlay: &str) -> (r: PreparedOverlay)
    ensures
        r.deep_view() == prepared(base@, overlay@),
{
    let v = chars_of(overlay);
    let (from, to) = trim_bounds(&v);
    if from == to {
        assert(trim(overlay@).len() == 0);
        let r = PreparedOverlay {
            sdl: base.to_owned(),
            removals: Vec::new(),
            warnings: Vec::new(),
        };
        assert(r.removals.deep_view() =~= Seq::<RemovalModel>::empty());
        assert(r.warnings.deep_view() =~= Seq::<Seq<char>>::empty());
        return r;
    }
    assert(trim(overlay@).len() == to - from);
    let members = declared_members(base);
    let r = rewrite_overlay(overlay, &members);
    PreparedOverlay {
        sdl: merge_sdl(base, r.sdl.as_str()),
        removals: r.removals,
        warnings: r.warnings,
    }
}

// ── laws ───────────────────────────────────────────────────────────────────

/// Rewriting never changes how many lines the overlay has.
pub proof fn rewriting_keeps_the_line_count(
    overlay: Seq<char>,
    base: Map<Seq<char>, Seq<Seq<char>>>,
)
    requires
        split_on(overlay, '\n').len() <= usize::MAX,
    ensures
        split_on(rewritten(overlay, base).sdl, '\n').len() == split_on(overlay, '\n').len(),
{
    let n = split_on(overlay, '\n').len();
    let st = scanned(overlay, base, n);
    split_then_join(overlay);
    lemma_scanned_lines(overlay, base, n);
    lemma_blocks_lines(st.lines, st.blocks);
    join_then_split(without_empty_blocks(st.lines, st.blocks));
}

spec fn unbroken(lines: Seq<Seq<char>>) -> bool {
    forall|k: int| 0 <= k < lines.len() ==> !(#[trigger] lines[k]).contains('\n')
}

proof fn lemma_blanked(lines: Seq<Seq<char>>, from: int, to: int)
    requires
        unbroken(lines),
    ensures
        unbroken(blanked(lines, from, to)),
        blanked(lines, from, to).len() == lines.len(),
{
    let b = blanked(lines, from, to);
    assert forall|k: int| 0 <= k < b.len() implies !(#[trigger] b[k]).contains('\n') by {
        assert(!lines[k].contains('\n'));
    }
}

proof fn lemma_described(lines: Seq<Seq<char>>, i: int)
    requires
        unbroken(lines),
    ensures
        unbroken(without_description(lines, i)),
        without_description(lines, i).len() == lines.len(),
{
    let j = last_filled(lines, i);
    lemma_blanked(lines, j, j);
    lemma_blanked(lines, last_opening(lines, j), j);
}

proof fn lemma_blocks_lines(lines: Seq<Seq<char>>, blocks: Seq<(usize, usize)>)
    requires
        unbroken(lines),
    ensures
        unbroken(without_empty_blocks(lines, blocks)),
        without_empty_blocks(lines, blocks).len() == lines.len(),
    decreases blocks.len(),
{
    if blocks.len() > 0 {
        lemma_blocks_lines(lines, blocks.drop_last());
        let before = without_empty_blocks(lines, blocks.drop_last());
        let (start, end) = blocks.last();
        lemma_described(before, start as int);
        lemma_blanked(without_description(before, start as int), start as int, end as int);
    }
}

pub(crate) proof fn lemma_after_code_lines(st: ScanState, code: Seq<char>, i: usize)
    ensures
        after_code(st, code, i).lines == st.lines,
    decreases code.len(),
{
    if code.len() > 0 {
        lemma_after_code_lines(st, code.drop_last(), i);
    }
}

proof fn lemma_extension_unbroken(line: Seq<char>)
    requires
        !line.contains('\n'),
    ensures
        !as_extension(line).contains('\n'),
{
    lemma_skip_white(line, 0);
    let indent = skip_white(line, 0);
    let r = as_extension(line);
    reveal_strlit("extend ");
    if r.contains('\n') {
        let k = choose|k: int| 0 <= k < r.len() && r[k] == '\n';
        if k < indent {
            assert(line[k] == '\n');
        } else if k >= indent + 7 {
            assert(line[k - 7] == '\n');
        }
    }
}

proof fn lemma_skip_white(s: Seq<char>, i: int)
    requires
        0 <= i <= s.len(),
    ensures
        i <= skip_white(s, i) <= s.len(),
    decreases s.len() - i,
{
    if i < s.len() && is_white(s[i]) {
        lemma_skip_white(s, i + 1);
    }
}

proof fn lemma_scanned_lines(overlay: Seq<char>, base: Map<Seq<char>, Seq<Seq<char>>>, n: nat)
    requires
        n <= split_on(overlay, '\n').len() <= usize::MAX,
    ensures
        unbroken(scanned(overlay, base, n).lines),
        scanned(overlay, base, n).lines.len() == split_on(overlay, '\n').len(),
    decreases n,
{
    if n == 0 {
        assert forall|k: int| 0 <= k < split_on(overlay, '\n').len() implies !(#[trigger] split_on(
            overlay,
            '\n',
        )[k]).contains('\n') by {
            lemma_split_no_breaks(overlay, k);
        }
    } else {
        let m = (n - 1) as nat;
        lemma_scanned_lines(overlay, base, m);
        let st = scanned(overlay, base, m);
        let i = m as usize;
        let line = st.lines[i as int];
        let code = code_of(line, st.in_block);
        let t = trim(code);
        let read = ScanState { in_block: open_after(line, st.in_block), ..st };
        lemma_described(st.lines, i as int);
        assert(!line.contains('\n'));
        lemma_extension_unbroken(line);
        lemma_after_code_lines(read, code, i);
        if let Some((is_extend, kind, name)) = def_line(t) {
            let defined = after_definition(read, base, code, is_extend, kind, name, i);
            lemma_after_code_lines(defined, code, i);
        }
        lemma_after_code_lines(after_members(read, code), code, i);
    }
}

proof fn lemma_after_code_words(st: ScanState, code: Seq<char>, i: usize)
    ensures
        after_code(st, code, i).words == st.words,
    decreases code.len(),
{
    if code.len() > 0 {
        lemma_after_code_words(st, code.drop_last(), i);
    }
}

proof fn lemma_defined(
    words: Map<Seq<char>, bool>,
    owner: Seq<char>,
    names: Seq<Seq<char>>,
    name: Seq<char>,
)
    requires
        names.contains(name),
    ensures
        ends_defined(define_members(words, owner, names), member_key(owner, name)),
    decreases names.len(),
{
    let k = choose|k: int| 0 <= k < names.len() && names[k] == name;
    if k < names.len() - 1 {
        assert(names.drop_last()[k] == name);
        lemma_defined(words, owner, names.drop_last(), name);
    }
}

/// Every member that a line declares is mentioned by it: the line of a block, wherever on the line the
/// member stands, the line that opens the block, and a further line of a union alike. Right after
/// the line, the last word on that member is its definition.
pub proof fn declared_members_are_mentioned(
    st: ScanState,
    base: Map<Seq<char>, Seq<Seq<char>>>,
    i: usize,
    member: Seq<char>,
)
    requires
        remove_line(trim(code_of(st.lines[i as int], st.in_block))) is None,
    ensures
        ({
            let code = code_of(st.lines[i as int], st.in_block);
            let words = after_line(st, base, i).words;
            match def_line(trim(code)) {
                Some((_, _, name)) if st.depth == 0 => inline_members(code).contains(member)
                    ==> ends_defined(words, member_key(name, member)),
                _ => st.current matches Some(owner) ==> (if goes_on(st.listing, trim(code)) {
                    more_members(code)
                } else {
                    members_from(code, 0, st.depth, st.parens, ' ')
                }).contains(member) ==> ends_defined(words, member_key(owner, member)),
            }
        }),
{
    let line = st.lines[i as int];
    let code = code_of(line, st.in_block);
    let t = trim(code);
    let read = ScanState { in_block: open_after(line, st.in_block), ..st };
    match def_line(t) {
        Some((is_extend, kind, name)) if st.depth == 0 => {
            let defined = after_definition(read, base, code, is_extend, kind, name, i);
            lemma_after_code_words(defined, code, i);
            if inline_members(code).contains(member) {
                let words1 = st.words.insert(name, true);
                let words2 = if kind == NodeKind::Union {
                    define_members(words1, name, union_members(code))
                } else {
                    words1
                };
                lemma_defined(words2, name, inline_members(code), member);
            }
        },
        _ => {
            lemma_after_code_words(after_members(read, code), code, i);
            if let Some(owner) = st.current {
                let names = if goes_on(st.listing, t) {
                    more_members(code)
                } else {
                    members_from(code, 0, st.depth, st.parens, ' ')
                };
                if names.contains(member) {
                    lemma_defined(st.words, owner, names, member);
                }
            }
        },
    }
}

/// The last line that mentions a name decides: a removal that stands is one whose target nothing
/// below defined again, unless it clears a type that was dropped and declared anew.
pub proof fn standing_removals_are_last_words(
    overlay: Seq<char>,
    base: Map<Seq<char>, Seq<Seq<char>>>,
    r: RemovalModel,
)
    requires
        rewritten(overlay, base).removals.contains(r),
    ensures
        ({
            let words = scanned(overlay, base, split_on(overlay, '\n').len()).words;
            &&& !ends_defined(words, removal_key(r))
            &&& !ends_removed(words, removal_key(r)) ==> r.member is Some && base.dom().contains(
                r.type_,
            ) && base[r.type_].contains(r.member->0)
        }),
{
    let st = scanned(overlay, base, split_on(overlay, '\n').len());
    let standing = standing_removals(st.asked, st.words);
    let more = replacements(st.asked, st.words, base);
    let all = standing + more;
    let k = choose|k: int| 0 <= k < all.len() && all[k] == r;
    if k < standing.len() {
        assert(standing[k] == r);
        lemma_standing(st.asked, st.words, r);
    } else {
        assert(more[k - standing.len()] == r);
        lemma_replacements(st.asked, st.words, base, r);
    }
}

/// A removal that was asked for stands where nothing below it defined its target again.
pub proof fn last_removals_stand(
    overlay: Seq<char>,
    base: Map<Seq<char>, Seq<Seq<char>>>,
    r: RemovalModel,
)
    requires
        scanned(overlay, base, split_on(overlay, '\n').len()).asked.contains(r),
        ends_removed(
            scanned(overlay, base, split_on(overlay, '\n').len()).words,
            removal_key(r),
        ),
    ensures
        rewritten(overlay, base).removals.contains(r),
{
    let st = scanned(overlay, base, split_on(overlay, '\n').len());
    let standing = standing_removals(st.asked, st.words);
    let all = rewritten(overlay, base).removals;
    lemma_stands(st.asked, st.words, r);
    let k = choose|k: int| 0 <= k < standing.len() && standing[k] == r;
    assert(all[k] == r);
}

proof fn lemma_stands(asked: Seq<RemovalModel>, words: Map<Seq<char>, bool>, r: RemovalModel)
    requires
        asked.contains(r),
        ends_removed(words, removal_key(r)),
    ensures
        standing_removals(asked, words).contains(r),
    decreases asked.len(),
{
    let before = standing_removals(asked.drop_last(), words);
    let all = standing_removals(asked, words);
    let k = choose|k: int| 0 <= k < asked.len() && asked[k] == r;
    if k < asked.len() - 1 {
        assert(asked.drop_last()[k] == r);
        lemma_stands(asked.drop_last(), words, r);
        let j = choose|j: int| 0 <= j < before.len() && before[j] == r;
        assert(all[j] == r);
    } else {
        assert(all[before.len() as int] == r);
    }
}

proof fn lemma_standing(asked: Seq<RemovalModel>, words: Map<Seq<char>, bool>, r: RemovalModel)
    requires
        standing_removals(asked, words).contains(r),
    ensures
        ends_removed(words, removal_key(r)),
    decreases asked.len(),
{
    if asked.len() > 0 {
        let before = standing_removals(asked.drop_last(), words);
        let all = standing_removals(asked, words);
        let k = choose|k: int| 0 <= k < all.len() && all[k] == r;
        if k < before.len() {
            assert(before[k] == r);
            lemma_standing(asked.drop_last(), words, r);
        }
    }
}

proof fn lemma_cleared(
    type_: Seq<char>,
    members: Seq<Seq<char>>,
    words: Map<Seq<char>, bool>,
    r: RemovalModel,
)
    requires
        cleared_members(type_, members, words).contains(r),
    ensures
        r.type_ == type_ && r.member is Some && members.contains(r.member->0),
        !ends_defined(words, removal_key(r)),
    decreases members.len(),
{
    if members.len() > 0 {
        let before = cleared_members(type_, members.drop_last(), words);
        let all = cleared_members(type_, members, words);
        let k = choose|k: int| 0 <= k < all.len() && all[k] == r;
        if k < before.len() {
            assert(before[k] == r);
            lemma_cleared(type_, members.drop_last(), words, r);
            let j = choose|j: int| 0 <= j < members.len() - 1 && members.drop_last()[j] == r.member->0;
            assert(members[j] == r.member->0);
        } else {
            assert(members[members.len() - 1] == r.member->0);
        }
    }
}

proof fn lemma_replacements(
    asked: Seq<RemovalModel>,
    words: Map<Seq<char>, bool>,
    base: Map<Seq<char>, Seq<Seq<char>>>,
    r: RemovalModel,
)
    requires
        replacements(asked, words, base).contains(r),
    ensures
        !ends_defined(words, removal_key(r)),
        r.member is Some && base.dom().contains(r.type_) && base[r.type_].contains(r.member->0),
    decreases asked.len(),
{
    if asked.len() > 0 {
        let before = replacements(asked.drop_last(), words, base);
        let all = replacements(asked, words, base);
        let k = choose|k: int| 0 <= k < all.len() && all[k] == r;
        let last = asked.last();
        if k < before.len() {
            assert(before[k] == r);
            lemma_replacements(asked.drop_last(), words, base, r);
        } else {
            let more = cleared_members(last.type_, base[last.type_], words);
            assert(more[k - before.len()] == r);
            lemma_cleared(last.type_, base[last.type_], words, r);
        }
    }
}

} // verus!
