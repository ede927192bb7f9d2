//! Type and field search: fuzzy on names, prose on descriptions and deprecation reasons, and the
//! `"Type.field"` dotted mode.

use vstd::prelude::*;

use crate::extensions::or_empty;
use crate::matching::{
    as_ints, fit_prose, fit_score, fuzzy, fuzzy_score, make_snippet, prose, prose_has_room,
    prose_match, snippet_of, FuzzyMatch, FuzzyModel, ProseMatch, Snippet, SnippetModel, MAX_SCORE,
};
use crate::scan::{find_char, first_char};
use crate::text::{chars_of, slice_string, trim, trimmed};
use crate::types::{
    EnumValue, FieldModel, GraphField, GraphNodeData, NodeKind, NodeModel, ParsedGraph, ValueModel,
};

verus! {

/// How many results a search gives at most.
pub const MAX_RESULTS: usize = 80;

/// What a hit on the name of a type counts more than one on the name of a row.
pub const NAME_BONUS: i32 = 3;

/// What an excerpt is taken from.
#[derive(Debug, Clone, Copy, PartialEq, Eq, Structural)]
pub enum SnippetKind {
    Description,
    DeprecationReason,
}

/// One hit.
#[derive(Debug, PartialEq)]
pub struct SearchResult {
    /// Index into `ParsedGraph::nodes`.
    pub node_index: usize,
    /// The name of the type.
    pub node_name: String,
    pub type_kind: NodeKind,
    pub field_name: Option<String>,
    pub field_type: Option<String>,
    /// Index of the field/value row on the node, when the hit is a row.
    pub row_index: Option<usize>,
    pub score: i32,
    pub match_indices: Vec<usize>,
    /// Set in `"Type.field"` mode: highlight on the type name.
    pub type_match_indices: Option<Vec<usize>>,
    pub snippet: Option<Snippet>,
    pub snippet_kind: Option<SnippetKind>,
}

/// Model of a [`SearchResult`].
#[verifier::ext_equal]
pub struct ResultModel {
    pub node_index: int,
    pub node_name: Seq<char>,
    pub type_kind: NodeKind,
    pub field_name: Option<Seq<char>>,
    pub field_type: Option<Seq<char>>,
    pub row_index: Option<int>,
    pub score: int,
    pub match_indices: Seq<int>,
    pub type_match_indices: Option<Seq<int>>,
    pub snippet: Option<SnippetModel>,
    pub snippet_kind: Option<SnippetKind>,
}

impl DeepView for SearchResult {
    type V = ResultModel;

    open spec fn deep_view(&self) -> ResultModel {
        ResultModel {
            node_index: self.node_index as int,
            node_name: self.node_name@,
            type_kind: self.type_kind,
            field_name: self.field_name.deep_view(),
            field_type: self.field_type.deep_view(),
            row_index: match self.row_index {
                Some(i) => Some(i as int),
                None => None,
            },
            score: self.score as int,
            match_indices: as_ints(self.match_indices@),
            type_match_indices: match self.type_match_indices {
                Some(v) => Some(as_ints(v@)),
                None => None,
            },
            snippet: self.snippet.deep_view(),
            snippet_kind: self.snippet_kind,
        }
    }
}

// ── rows ───────────────────────────────────────────────────────────────────

/// A field or enum value as search sees it.
pub struct SearchRow<'a> {
    pub name: &'a String,
    pub field_type: Option<&'a String>,
    pub description: &'a Option<String>,
    pub reason: &'a Option<String>,
}

/// Model of a [`SearchRow`].
#[verifier::ext_equal]
pub struct RowModel {
    pub name: Seq<char>,
    pub field_type: Option<Seq<char>>,
    pub description: Option<Seq<char>>,
    pub reason: Option<Seq<char>>,
}

impl<'a> DeepView for SearchRow<'a> {
    type V = RowModel;

    open spec fn deep_view(&self) -> RowModel {
        RowModel {
            name: self.name@,
            field_type: match self.field_type {
                Some(t) => Some(t@),
                None => None,
            },
            description: self.description.deep_view(),
            reason: self.reason.deep_view(),
        }
    }
}

/// A field as a row.
pub open spec fn field_row(f: FieldModel) -> RowModel {
    RowModel {
        name: f.name,
        field_type: Some(f.type_),
        description: f.description,
        reason: f.deprecation_reason,
    }
}

/// An enum value as a row.
pub open spec fn value_row(v: ValueModel) -> RowModel {
    RowModel {
        name: v.name,
        field_type: None,
        description: v.description,
        reason: v.deprecation_reason,
    }
}

/// The rows of a node: its fields, then its values.
pub open spec fn search_rows(n: NodeModel) -> Seq<RowModel> {
    or_empty(n.fields).map_values(|f: FieldModel| field_row(f)) + or_empty(n.values).map_values(
        |v: ValueModel| value_row(v),
    )
}

fn rows_to_search<'a>(n: &'a GraphNodeData) -> (r: Vec<SearchRow<'a>>)
    ensures
        r.deep_view() == search_rows(n.deep_view()),
{
    let ghost fs = or_empty(n.deep_view().fields).map_values(|f: FieldModel| field_row(f));
    let ghost vs = or_empty(n.deep_view().values).map_values(|v: ValueModel| value_row(v));
    let mut out: Vec<SearchRow<'a>> = Vec::new();
    if let Some(fields) = &n.fields {
        let mut i: usize = 0;
        while i < fields.len()
            invariant
                i <= fields@.len(),
                fs == fields.deep_view().map_values(|f: FieldModel| field_row(f)),
                out.deep_view() == fs.take(i as int),
            decreases fields@.len() - i,
        {
            let ghost before = out.deep_view();
            let f: &'a GraphField = &fields[i];
            assert(fields.deep_view()[i as int] == f.deep_view());
            out.push(
                SearchRow {
                    name: &f.name,
                    field_type: Some(&f.type_),
                    description: &f.description,
                    reason: &f.deprecation_reason,
                },
            );
            assert(out.deep_view() =~= before.push(fs[i as int]));
            assert(fs.take(i as int + 1) =~= before.push(fs[i as int]));
            i = i + 1;
        }
    }
    assert(out.deep_view() =~= fs);
    if let Some(values) = &n.values {
        let mut i: usize = 0;
        assert(fs + vs.take(0) =~= fs);
        while i < values.len()
            invariant
                i <= values@.len(),
                vs == values.deep_view().map_values(|v: ValueModel| value_row(v)),
                out.deep_view() == fs + vs.take(i as int),
            decreases values@.len() - i,
        {
            let ghost before = out.deep_view();
            let v: &'a EnumValue = &values[i];
            assert(values.deep_view()[i as int] == v.deep_view());
            out.push(
                SearchRow {
                    name: &v.name,
                    field_type: None,
                    description: &v.description,
                    reason: &v.deprecation_reason,
                },
            );
            assert(out.deep_view() =~= before.push(vs[i as int]));
            assert(fs + vs.take(i as int + 1) =~= before.push(vs[i as int]));
            i = i + 1;
        }
    }
    assert(out.deep_view() =~= fs + vs);
    out
}

// ── hits ───────────────────────────────────────────────────────────────────

/// A hit on a type, nothing highlighted.
pub open spec fn bare_result(index: int, n: NodeModel, score: int) -> ResultModel {
    ResultModel {
        node_index: index,
        node_name: n.name,
        type_kind: n.kind,
        field_name: None,
        field_type: None,
        row_index: None,
        score,
        match_indices: Seq::empty(),
        type_match_indices: None,
        snippet: None,
        snippet_kind: None,
    }
}

/// A hit on the row at `row_index`, nothing highlighted.
pub open spec fn row_result(
    index: int,
    n: NodeModel,
    score: int,
    row_index: int,
    row: RowModel,
) -> ResultModel {
    ResultModel {
        field_name: Some(row.name),
        field_type: row.field_type,
        row_index: Some(row_index),
        ..bare_result(index, n, score)
    }
}

/// The prose hit in a description, else in a deprecation reason, with the excerpt that shows it.
pub open spec fn prose_hit(
    q: Seq<char>,
    description: Option<Seq<char>>,
    reason: Option<Seq<char>>,
) -> Option<(int, SnippetModel, SnippetKind)> {
    match prose(q, description) {
        Some(m) => Some(
            (
                m.score,
                snippet_of(description->0, m.index, q.len() as int),
                SnippetKind::Description,
            ),
        ),
        None => match prose(q, reason) {
            Some(m) => Some(
                (
                    m.score,
                    snippet_of(reason->0, m.index, q.len() as int),
                    SnippetKind::DeprecationReason,
                ),
            ),
            None => None,
        },
    }
}

/// The hit on a type: by name, which counts a little more than a row, else in its description.
pub open spec fn type_hit(q: Seq<char>, index: int, n: NodeModel) -> Option<ResultModel> {
    match fuzzy(q, n.name) {
        Some(m) => Some(
            ResultModel { match_indices: m.indices, ..bare_result(index, n, m.score + NAME_BONUS) },
        ),
        None => match prose_hit(q, n.description, None) {
            Some((score, snippet, kind)) => Some(
                ResultModel {
                    snippet: Some(snippet),
                    snippet_kind: Some(kind),
                    ..bare_result(index, n, score)
                },
            ),
            None => None,
        },
    }
}

/// The hit on a row: by name, else in its prose.
pub open spec fn row_hit(
    q: Seq<char>,
    index: int,
    n: NodeModel,
    row_index: int,
    row: RowModel,
) -> Option<ResultModel> {
    match fuzzy(q, row.name) {
        Some(m) => Some(
            ResultModel {
                match_indices: m.indices,
                ..row_result(index, n, m.score, row_index, row)
            },
        ),
        None => match prose_hit(q, row.description, row.reason) {
            Some((score, snippet, kind)) => Some(
                ResultModel {
                    snippet: Some(snippet),
                    snippet_kind: Some(kind),
                    ..row_result(index, n, score, row_index, row)
                },
            ),
            None => None,
        },
    }
}

/// The hit on a row in dotted mode, where the type's name matched with `m`.
pub open spec fn dotted_hit(
    m: FuzzyModel,
    field_part: Seq<char>,
    index: int,
    n: NodeModel,
    row_index: int,
    row: RowModel,
) -> Option<ResultModel> {
    match fuzzy(field_part, row.name) {
        Some(f) => Some(
            ResultModel {
                match_indices: f.indices,
                type_match_indices: Some(m.indices),
                ..row_result(index, n, m.score + f.score, row_index, row)
            },
        ),
        None => None,
    }
}

/// `found`, and `hit` behind it where there is one.
pub open spec fn with_hit(found: Seq<ResultModel>, hit: Option<ResultModel>) -> Seq<ResultModel> {
    match hit {
        Some(r) => found.push(r),
        None => found,
    }
}

/// The hits on `rows`, behind `found`.
pub open spec fn row_hits(
    q: Seq<char>,
    index: int,
    n: NodeModel,
    rows: Seq<RowModel>,
    found: Seq<ResultModel>,
) -> Seq<ResultModel>
    decreases rows.len(),
{
    if rows.len() == 0 {
        found
    } else {
        with_hit(
            row_hits(q, index, n, rows.drop_last(), found),
            row_hit(q, index, n, rows.len() - 1, rows.last()),
        )
    }
}

/// The hits on `rows` in dotted mode, behind `found`.
pub open spec fn dotted_hits(
    m: FuzzyModel,
    field_part: Seq<char>,
    index: int,
    n: NodeModel,
    rows: Seq<RowModel>,
    found: Seq<ResultModel>,
) -> Seq<ResultModel>
    decreases rows.len(),
{
    if rows.len() == 0 {
        found
    } else {
        with_hit(
            dotted_hits(m, field_part, index, n, rows.drop_last(), found),
            dotted_hit(m, field_part, index, n, rows.len() - 1, rows.last()),
        )
    }
}

/// Every hit in graph order: for each type the type itself, then its rows.
pub open spec fn plain_hits(q: Seq<char>, nodes: Seq<NodeModel>) -> Seq<ResultModel>
    decreases nodes.len(),
{
    if nodes.len() == 0 {
        Seq::empty()
    } else {
        let n = nodes.last();
        let at = nodes.len() - 1;
        row_hits(
            q,
            at,
            n,
            search_rows(n),
            with_hit(plain_hits(q, nodes.drop_last()), type_hit(q, at, n)),
        )
    }
}

/// Every hit in dotted mode, in graph order: the matching rows of the types that match.
pub open spec fn all_dotted_hits(
    type_part: Seq<char>,
    field_part: Seq<char>,
    nodes: Seq<NodeModel>,
) -> Seq<ResultModel>
    decreases nodes.len(),
{
    if nodes.len() == 0 {
        Seq::empty()
    } else {
        let n = nodes.last();
        let before = all_dotted_hits(type_part, field_part, nodes.drop_last());
        match fuzzy(type_part, n.name) {
            Some(m) => dotted_hits(m, field_part, nodes.len() - 1, n, search_rows(n), before),
            None => before,
        }
    }
}

/// Something stands before the first dot.
pub open spec fn is_dotted(q: Seq<char>) -> bool {
    0 < first_char(q, '.') < q.len()
}

/// What stands before the first dot.
pub open spec fn type_part(q: Seq<char>) -> Seq<char> {
    q.subrange(0, first_char(q, '.'))
}

/// What stands behind the first dot.
pub open spec fn field_part(q: Seq<char>) -> Seq<char> {
    q.subrange(first_char(q, '.') + 1, q.len() as int)
}

/// Every hit of a trimmed query, in graph order.
pub open spec fn all_hits(q: Seq<char>, nodes: Seq<NodeModel>) -> Seq<ResultModel> {
    if q.len() == 0 {
        Seq::empty()
    } else if is_dotted(q) {
        all_dotted_hits(type_part(q), field_part(q), nodes)
    } else {
        plain_hits(q, nodes)
    }
}

// ── nothing appears twice ──────────────────────────────────────────────────

/// The row of a hit; -1 for a hit on the type itself.
pub open spec fn row_of(r: ResultModel) -> int {
    match r.row_index {
        Some(i) => i,
        None => -1,
    }
}

/// `a` is on an earlier type than `b`, or on an earlier row of the same type.
pub open spec fn comes_before(a: ResultModel, b: ResultModel) -> bool {
    a.node_index < b.node_index || (a.node_index == b.node_index && row_of(a) < row_of(b))
}

/// Every hit is before the row `row` of the type `index`, and they come in order.
spec fn in_graph_order(s: Seq<ResultModel>, index: int, row: int) -> bool {
    &&& forall|i: int|
        0 <= i < s.len() ==> (#[trigger] s[i]).node_index < index || (s[i].node_index == index
            && row_of(s[i]) < row)
    &&& forall|i: int, j: int|
        0 <= i < j < s.len() ==> comes_before(#[trigger] s[i], #[trigger] s[j])
}

proof fn lemma_row_hits_order(
    q: Seq<char>,
    index: int,
    n: NodeModel,
    rows: Seq<RowModel>,
    found: Seq<ResultModel>,
)
    requires
        in_graph_order(found, index, 0),
    ensures
        in_graph_order(row_hits(q, index, n, rows, found), index, rows.len() as int),
    decreases rows.len(),
{
    if rows.len() > 0 {
        lemma_row_hits_order(q, index, n, rows.drop_last(), found);
    }
}

proof fn lemma_dotted_hits_order(
    m: FuzzyModel,
    part: Seq<char>,
    index: int,
    n: NodeModel,
    rows: Seq<RowModel>,
    found: Seq<ResultModel>,
)
    requires
        in_graph_order(found, index, 0),
    ensures
        in_graph_order(dotted_hits(m, part, index, n, rows, found), index, rows.len() as int),
    decreases rows.len(),
{
    if rows.len() > 0 {
        lemma_dotted_hits_order(m, part, index, n, rows.drop_last(), found);
    }
}

proof fn lemma_plain_order(q: Seq<char>, nodes: Seq<NodeModel>)
    ensures
        in_graph_order(plain_hits(q, nodes), nodes.len() as int, -1),
    decreases nodes.len(),
{
    if nodes.len() > 0 {
        lemma_plain_order(q, nodes.drop_last());
        let at = nodes.len() - 1;
        let n = nodes.last();
        let start = with_hit(plain_hits(q, nodes.drop_last()), type_hit(q, at, n));
        assert(in_graph_order(start, at, 0));
        lemma_row_hits_order(q, at, n, search_rows(n), start);
    }
}

proof fn lemma_dotted_order(first: Seq<char>, second: Seq<char>, nodes: Seq<NodeModel>)
    ensures
        in_graph_order(all_dotted_hits(first, second, nodes), nodes.len() as int, -1),
    decreases nodes.len(),
{
    if nodes.len() > 0 {
        lemma_dotted_order(first, second, nodes.drop_last());
        let at = nodes.len() - 1;
        let n = nodes.last();
        let before = all_dotted_hits(first, second, nodes.drop_last());
        if fuzzy(first, n.name) is Some {
            assert(in_graph_order(before, at, 0));
            lemma_dotted_hits_order(
                fuzzy(first, n.name)->0,
                second,
                at,
                n,
                search_rows(n),
                before,
            );
        }
    }
}

/// Nothing appears twice: the hits come in graph order, each on a later type or row than the one
/// before it.
pub proof fn hits_are_distinct(q: Seq<char>, nodes: Seq<NodeModel>, i: int, j: int)
    requires
        0 <= i < j < all_hits(q, nodes).len(),
    ensures
        comes_before(all_hits(q, nodes)[i], all_hits(q, nodes)[j]),
{
    lemma_plain_order(q, nodes);
    lemma_dotted_order(type_part(q), field_part(q), nodes);
}

// ── ranking ────────────────────────────────────────────────────────────────

/// The first place in `s` with a score below `score`.
pub open spec fn place_below(s: Seq<ResultModel>, score: int) -> int
    decreases s.len(),
{
    if s.len() == 0 {
        0
    } else {
        let before = place_below(s.drop_last(), score);
        if before < s.len() - 1 || s.last().score < score { before } else { s.len() as int }
    }
}

/// `s` with `r` put before the first lower score.
pub open spec fn insert_result(s: Seq<ResultModel>, r: ResultModel) -> Seq<ResultModel> {
    s.insert(place_below(s, r.score), r)
}

/// The hits by score, highest first; hits of one score stay in graph order.
pub open spec fn by_score(s: Seq<ResultModel>) -> Seq<ResultModel>
    decreases s.len(),
{
    if s.len() == 0 {
        s
    } else {
        insert_result(by_score(s.drop_last()), s.last())
    }
}

/// At most the first [`MAX_RESULTS`] of `s`.
pub open spec fn capped(s: Seq<ResultModel>) -> Seq<ResultModel> {
    if s.len() > MAX_RESULTS { s.take(MAX_RESULTS as int) } else { s }
}

/// What a search finds.
pub open spec fn found(nodes: Seq<NodeModel>, query: Seq<char>) -> Seq<ResultModel> {
    capped(by_score(all_hits(trim(query), nodes)))
}

/// The hits of `s` with the score `score`, in order.
pub open spec fn with_score(s: Seq<ResultModel>, score: int) -> Seq<ResultModel>
    decreases s.len(),
{
    if s.len() == 0 {
        s
    } else if s.last().score == score {
        with_score(s.drop_last(), score).push(s.last())
    } else {
        with_score(s.drop_last(), score)
    }
}

/// No score is above an earlier one.
pub open spec fn is_descending(s: Seq<ResultModel>) -> bool {
    forall|i: int, j: int|
        0 <= i <= j < s.len() ==> (#[trigger] s[i]).score >= (#[trigger] s[j]).score
}

proof fn lemma_place_below(s: Seq<ResultModel>, score: int)
    ensures
        0 <= place_below(s, score) <= s.len(),
        forall|i: int| 0 <= i < place_below(s, score) ==> (#[trigger] s[i]).score >= score,
        place_below(s, score) < s.len() ==> s[place_below(s, score)].score < score,
    decreases s.len(),
{
    if s.len() > 0 {
        let rest = s.drop_last();
        lemma_place_below(rest, score);
        let p = place_below(s, score);
        assert forall|i: int| 0 <= i < p implies (#[trigger] s[i]).score >= score by {
            if i < rest.len() {
                assert(rest[i] == s[i]);
            }
        }
    }
}

proof fn lemma_place_below_is(s: Seq<ResultModel>, score: int, p: int)
    requires
        0 <= p <= s.len(),
        forall|i: int| 0 <= i < p ==> (#[trigger] s[i]).score >= score,
        p < s.len() ==> s[p].score < score,
    ensures
        place_below(s, score) == p,
{
    lemma_place_below(s, score);
}

proof fn lemma_with_score_adds(a: Seq<ResultModel>, b: Seq<ResultModel>, score: int)
    ensures
        with_score(a + b, score) == with_score(a, score) + with_score(b, score),
    decreases b.len(),
{
    if b.len() == 0 {
        assert(a + b =~= a);
        assert(with_score(a, score) + b =~= with_score(a, score));
    } else {
        assert((a + b).drop_last() =~= a + b.drop_last());
        assert((a + b).last() == b.last());
        lemma_with_score_adds(a, b.drop_last(), score);
        assert(with_score(a + b, score) =~= with_score(a, score) + with_score(b, score));
    }
}

proof fn lemma_with_score_none(s: Seq<ResultModel>, score: int)
    requires
        forall|i: int| 0 <= i < s.len() ==> (#[trigger] s[i]).score != score,
    ensures
        with_score(s, score).len() == 0,
    decreases s.len(),
{
    if s.len() > 0 {
        assert(s[s.len() - 1].score != score);
        assert forall|i: int| 0 <= i < s.drop_last().len() implies (#[trigger] s.drop_last()[i]).score
            != score by {
            assert(s.drop_last()[i] == s[i]);
        }
        lemma_with_score_none(s.drop_last(), score);
    }
}

proof fn lemma_insert_result(s: Seq<ResultModel>, r: ResultModel, score: int)
    requires
        is_descending(s),
    ensures
        is_descending(insert_result(s, r)),
        insert_result(s, r).len() == s.len() + 1,
        insert_result(s, r).to_multiset() == s.to_multiset().insert(r),
        with_score(insert_result(s, r), score) == with_score(s.push(r), score),
{
    let p = place_below(s, r.score);
    lemma_place_below(s, r.score);
    let t = insert_result(s, r);
    s.insert_ensures(p, r);
    assert forall|i: int, j: int| 0 <= i <= j < t.len() implies (#[trigger] t[i]).score >= (
    #[trigger] t[j]).score by {
        let a = if i < p { s[i] } else if i == p { r } else { s[i - 1] };
        let b = if j < p { s[j] } else if j == p { r } else { s[j - 1] };
        assert(t[i] == a && t[j] == b);
        if p < s.len() && j > p {
            assert(s[p].score >= s[j - 1].score);
        }
    }
    broadcast use vstd::seq_lib::group_to_multiset_ensures;

    assert(t.to_multiset() =~= s.to_multiset().insert(r));
    let head = s.take(p);
    let tail = s.skip(p);
    assert(t =~= head.push(r) + tail);
    assert(s =~= head + tail);
    lemma_with_score_adds(head.push(r), tail, score);
    lemma_with_score_adds(head, tail, score);
    assert(head.push(r).drop_last() =~= head);
    assert(s.push(r).drop_last() =~= s);
    if r.score == score {
        assert forall|i: int| 0 <= i < tail.len() implies (#[trigger] tail[i]).score != score by {
            assert(s[p].score >= s[p + i].score);
        }
        lemma_with_score_none(tail, score);
        assert(with_score(t, score) =~= with_score(s.push(r), score));
    }
}

/// Ranking sorts by score, highest first, loses and invents nothing, and keeps hits of one score in
/// graph order.
pub proof fn ranking_is_a_stable_sort(s: Seq<ResultModel>, score: int)
    ensures
        is_descending(by_score(s)),
        by_score(s).len() == s.len(),
        by_score(s).to_multiset() == s.to_multiset(),
        with_score(by_score(s), score) == with_score(s, score),
    decreases s.len(),
{
    if s.len() > 0 {
        broadcast use vstd::seq_lib::group_to_multiset_ensures;

        let rest = s.drop_last();
        ranking_is_a_stable_sort(rest, score);
        lemma_insert_result(by_score(rest), s.last(), score);
        assert(rest.push(s.last()) =~= s);
        assert(s.to_multiset() =~= rest.to_multiset().insert(s.last()));
        assert(by_score(rest).push(s.last()).drop_last() =~= by_score(rest));
    }
}

/// A search gives at most [`MAX_RESULTS`] results, highest score first.
pub proof fn results_are_capped_and_ranked(nodes: Seq<NodeModel>, query: Seq<char>)
    ensures
        found(nodes, query).len() <= MAX_RESULTS,
        is_descending(found(nodes, query)),
        all_hits(trim(query), nodes).len() <= MAX_RESULTS ==> found(nodes, query).len() == all_hits(
            trim(query),
            nodes,
        ).len(),
{
    ranking_is_a_stable_sort(all_hits(trim(query), nodes), 0);
}

// ── what is found ──────────────────────────────────────────────────────────

/// `r` is the hit on the row `k` of the type `i`.
pub open spec fn is_row_hit(q: Seq<char>, nodes: Seq<NodeModel>, i: int, k: int, r: ResultModel) -> bool {
    row_hit(q, i, nodes[i], k, search_rows(nodes[i])[k]) == Some(r)
}

/// `r` is the hit on a type or on one of its rows.
pub open spec fn is_plain_hit(q: Seq<char>, nodes: Seq<NodeModel>, r: ResultModel) -> bool {
    exists|i: int|
        #![trigger nodes[i]]
        0 <= i < nodes.len() && (type_hit(q, i, nodes[i]) == Some(r) || exists|k: int|
            0 <= k < search_rows(nodes[i]).len() && #[trigger] is_row_hit(q, nodes, i, k, r))
}

proof fn lemma_with_hit(s: Seq<ResultModel>, hit: Option<ResultModel>, r: ResultModel)
    ensures
        with_hit(s, hit).contains(r) <==> s.contains(r) || hit == Some(r),
{
    let t = with_hit(s, hit);
    if let Some(x) = hit {
        assert(t[s.len() as int] == x);
    }
    if s.contains(r) {
        let j = choose|j: int| 0 <= j < s.len() && s[j] == r;
        assert(t[j] == r);
    }
    if t.contains(r) {
        let j = choose|j: int| 0 <= j < t.len() && t[j] == r;
        if j < s.len() {
            assert(s[j] == r);
        }
    }
}

proof fn lemma_row_hits_are(
    q: Seq<char>,
    index: int,
    n: NodeModel,
    rows: Seq<RowModel>,
    start: Seq<ResultModel>,
    r: ResultModel,
)
    ensures
        row_hits(q, index, n, rows, start).contains(r) <==> start.contains(r) || exists|k: int|
            0 <= k < rows.len() && row_hit(q, index, n, k, #[trigger] rows[k]) == Some(r),
    decreases rows.len(),
{
    if rows.len() > 0 {
        let rest = rows.drop_last();
        let last = rows.len() - 1;
        lemma_row_hits_are(q, index, n, rest, start, r);
        lemma_with_hit(row_hits(q, index, n, rest, start), row_hit(q, index, n, last, rows.last()), r);
        assert(rows[last] == rows.last());
        if exists|k: int|
            0 <= k < rest.len() && row_hit(q, index, n, k, #[trigger] rest[k]) == Some(r) {
            let k = choose|k: int|
                0 <= k < rest.len() && row_hit(q, index, n, k, #[trigger] rest[k]) == Some(r);
            assert(rows[k] == rest[k]);
        }
        if exists|k: int|
            0 <= k < rows.len() && row_hit(q, index, n, k, #[trigger] rows[k]) == Some(r) {
            let k = choose|k: int|
                0 <= k < rows.len() && row_hit(q, index, n, k, #[trigger] rows[k]) == Some(r);
            if k < last {
                assert(rest[k] == rows[k]);
            }
        }
    }
}

proof fn lemma_plain_hits_are(q: Seq<char>, nodes: Seq<NodeModel>, r: ResultModel)
    ensures
        plain_hits(q, nodes).contains(r) <==> is_plain_hit(q, nodes, r),
    decreases nodes.len(),
{
    if nodes.len() > 0 {
        let rest = nodes.drop_last();
        let last = nodes.len() - 1;
        let n = nodes.last();
        let rows = search_rows(n);
        assert(nodes[last] == n);
        lemma_plain_hits_are(q, rest, r);
        lemma_with_hit(plain_hits(q, rest), type_hit(q, last, n), r);
        let start = with_hit(plain_hits(q, rest), type_hit(q, last, n));
        lemma_row_hits_are(q, last, n, rows, start, r);
        assert forall|i: int, k: int| 0 <= i < last implies is_row_hit(q, rest, i, k, r)
            == #[trigger] is_row_hit(q, nodes, i, k, r) by {}
        if is_plain_hit(q, rest, r) {
            let i = choose|i: int|
                #![trigger rest[i]]
                0 <= i < rest.len() && (type_hit(q, i, rest[i]) == Some(r) || exists|k: int|
                    0 <= k < search_rows(rest[i]).len() && #[trigger] is_row_hit(q, rest, i, k, r));
            assert(nodes[i] == rest[i]);
            if type_hit(q, i, rest[i]) != Some(r) {
                let k = choose|k: int|
                    0 <= k < search_rows(rest[i]).len() && #[trigger] is_row_hit(q, rest, i, k, r);
                assert(is_row_hit(q, nodes, i, k, r));
            }
        }
        if exists|k: int| 0 <= k < rows.len() && row_hit(q, last, n, k, #[trigger] rows[k]) == Some(r) {
            let k = choose|k: int|
                0 <= k < rows.len() && row_hit(q, last, n, k, #[trigger] rows[k]) == Some(r);
            assert(is_row_hit(q, nodes, last, k, r));
        }
        if is_plain_hit(q, nodes, r) {
            let i = choose|i: int|
                #![trigger nodes[i]]
                0 <= i < nodes.len() && (type_hit(q, i, nodes[i]) == Some(r) || exists|k: int|
                    0 <= k < search_rows(nodes[i]).len() && #[trigger] is_row_hit(q, nodes, i, k, r));
            if i < last {
                assert(rest[i] == nodes[i]);
                if type_hit(q, i, nodes[i]) != Some(r) {
                    let k = choose|k: int|
                        0 <= k < search_rows(nodes[i]).len() && #[trigger] is_row_hit(
                            q,
                            nodes,
                            i,
                            k,
                            r,
                        );
                    assert(is_row_hit(q, rest, i, k, r));
                }
                assert(is_plain_hit(q, rest, r));
            } else if type_hit(q, i, nodes[i]) != Some(r) {
                let k = choose|k: int|
                    0 <= k < search_rows(nodes[i]).len() && #[trigger] is_row_hit(q, nodes, i, k, r);
                assert(row_hit(q, last, n, k, rows[k]) == Some(r));
            }
        }
    }
}

/// A plain query whose results were not cut off finds the hits on the types and on their rows, and
/// nothing else.
pub proof fn plain_results_are_the_hits(nodes: Seq<NodeModel>, query: Seq<char>, r: ResultModel)
    requires
        trim(query).len() > 0,
        !is_dotted(trim(query)),
        found(nodes, query).len() < MAX_RESULTS,
    ensures
        found(nodes, query).contains(r) <==> is_plain_hit(trim(query), nodes, r),
{
    broadcast use vstd::seq_lib::group_to_multiset_ensures;

    let q = trim(query);
    let all = plain_hits(q, nodes);
    ranking_is_a_stable_sort(all, 0);
    lemma_plain_hits_are(q, nodes, r);
    assert(found(nodes, query) == by_score(all));
    assert(by_score(all).contains(r) <==> by_score(all).to_multiset().count(r) > 0);
    assert(all.contains(r) <==> all.to_multiset().count(r) > 0);
}

/// `r` is on the type `i` itself.
pub open spec fn is_on_type(r: ResultModel, i: int) -> bool {
    r.node_index == i && r.row_index is None
}

/// `r` is on the row `k` of the type `i`.
pub open spec fn is_on_row(r: ResultModel, i: int, k: int) -> bool {
    r.node_index == i && r.row_index == Some(k)
}

/// A plain query whose results were not cut off finds a type exactly where it matches its name or
/// else hits its description, once. A match of the name gives its own score and a little more.
pub proof fn types_are_found_by_name_or_description(nodes: Seq<NodeModel>, query: Seq<char>, i: int)
    requires
        trim(query).len() > 0,
        !is_dotted(trim(query)),
        found(nodes, query).len() < MAX_RESULTS,
        0 <= i < nodes.len(),
    ensures
        (exists|r: ResultModel| #[trigger] found(nodes, query).contains(r) && is_on_type(r, i)) <==> (
        fuzzy(trim(query), nodes[i].name) is Some || prose(trim(query), nodes[i].description) is Some),
        forall|r: ResultModel| #[trigger]
            found(nodes, query).contains(r) && is_on_type(r, i) ==> type_hit(
                trim(query),
                i,
                nodes[i],
            ) == Some(r),
        forall|r: ResultModel| #[trigger]
            found(nodes, query).contains(r) && is_on_type(r, i) ==> match fuzzy(
                trim(query),
                nodes[i].name,
            ) {
                Some(m) => r.score == m.score + NAME_BONUS && r.match_indices == m.indices,
                None => prose(trim(query), nodes[i].description) matches Some(p) && r.score
                    == p.score,
            },
{
    let q = trim(query);
    let results = found(nodes, query);
    assert forall|r: ResultModel| #[trigger] results.contains(r) && is_on_type(r, i) implies type_hit(
        q,
        i,
        nodes[i],
    ) == Some(r) by {
        plain_results_are_the_hits(nodes, query, r);
        let j = choose|j: int|
            #![trigger nodes[j]]
            0 <= j < nodes.len() && (type_hit(q, j, nodes[j]) == Some(r) || exists|k: int|
                0 <= k < search_rows(nodes[j]).len() && #[trigger] is_row_hit(q, nodes, j, k, r));
        if type_hit(q, j, nodes[j]) != Some(r) {
            let k = choose|k: int|
                0 <= k < search_rows(nodes[j]).len() && #[trigger] is_row_hit(q, nodes, j, k, r);
            assert(r.row_index == Some(k));
        }
    }
    if let Some(r) = type_hit(q, i, nodes[i]) {
        plain_results_are_the_hits(nodes, query, r);
        assert(results.contains(r) && is_on_type(r, i));
    }
}

/// A plain query whose results were not cut off finds a field or enum value exactly where it matches
/// its name, or else hits its description, or else its deprecation reason, once.
pub proof fn rows_are_found_by_name_or_prose(
    nodes: Seq<NodeModel>,
    query: Seq<char>,
    i: int,
    k: int,
)
    requires
        trim(query).len() > 0,
        !is_dotted(trim(query)),
        found(nodes, query).len() < MAX_RESULTS,
        0 <= i < nodes.len(),
        0 <= k < search_rows(nodes[i]).len(),
    ensures
        (exists|r: ResultModel| #[trigger] found(nodes, query).contains(r) && is_on_row(r, i, k)) <==> ({
            let row = search_rows(nodes[i])[k];
            fuzzy(trim(query), row.name) is Some || prose(trim(query), row.description) is Some || prose(
                trim(query),
                row.reason,
            ) is Some
        }),
        forall|r: ResultModel| #[trigger]
            found(nodes, query).contains(r) && is_on_row(r, i, k) ==> is_row_hit(
                trim(query),
                nodes,
                i,
                k,
                r,
            ),
{
    let q = trim(query);
    let results = found(nodes, query);
    assert forall|r: ResultModel| #[trigger] results.contains(r) && is_on_row(r, i, k) implies is_row_hit(
        q,
        nodes,
        i,
        k,
        r,
    ) by {
        plain_results_are_the_hits(nodes, query, r);
        let j = choose|j: int|
            #![trigger nodes[j]]
            0 <= j < nodes.len() && (type_hit(q, j, nodes[j]) == Some(r) || exists|m: int|
                0 <= m < search_rows(nodes[j]).len() && #[trigger] is_row_hit(q, nodes, j, m, r));
        assert(type_hit(q, j, nodes[j]) != Some(r));
        let m = choose|m: int|
            0 <= m < search_rows(nodes[j]).len() && #[trigger] is_row_hit(q, nodes, j, m, r);
        assert(r.row_index == Some(m));
    }
    if let Some(r) = row_hit(q, i, nodes[i], k, search_rows(nodes[i])[k]) {
        assert(is_row_hit(q, nodes, i, k, r));
        plain_results_are_the_hits(nodes, query, r);
        assert(results.contains(r) && is_on_row(r, i, k));
    }
}

/// `r` is the hit of a dotted query on the row `k` of the type `i`: the name of the type matches the
/// first part, and that of the row the second.
pub open spec fn is_dotted_hit(
    first: Seq<char>,
    second: Seq<char>,
    nodes: Seq<NodeModel>,
    i: int,
    k: int,
    r: ResultModel,
) -> bool {
    &&& 0 <= i < nodes.len()
    &&& 0 <= k < search_rows(nodes[i]).len()
    &&& fuzzy(first, nodes[i].name) matches Some(m) && dotted_hit(
        m,
        second,
        i,
        nodes[i],
        k,
        search_rows(nodes[i])[k],
    ) == Some(r)
}

proof fn lemma_dotted_hits_are(
    m: FuzzyModel,
    second: Seq<char>,
    index: int,
    n: NodeModel,
    rows: Seq<RowModel>,
    start: Seq<ResultModel>,
    r: ResultModel,
)
    ensures
        dotted_hits(m, second, index, n, rows, start).contains(r) <==> start.contains(r)
            || exists|k: int|
            0 <= k < rows.len() && dotted_hit(m, second, index, n, k, #[trigger] rows[k]) == Some(r),
    decreases rows.len(),
{
    if rows.len() > 0 {
        let rest = rows.drop_last();
        let last = rows.len() - 1;
        lemma_dotted_hits_are(m, second, index, n, rest, start, r);
        lemma_with_hit(
            dotted_hits(m, second, index, n, rest, start),
            dotted_hit(m, second, index, n, last, rows.last()),
            r,
        );
        assert(rows[last] == rows.last());
        if exists|k: int|
            0 <= k < rest.len() && dotted_hit(m, second, index, n, k, #[trigger] rest[k]) == Some(r) {
            let k = choose|k: int|
                0 <= k < rest.len() && dotted_hit(m, second, index, n, k, #[trigger] rest[k]) == Some(
                    r,
                );
            assert(rows[k] == rest[k]);
        }
        if exists|k: int|
            0 <= k < rows.len() && dotted_hit(m, second, index, n, k, #[trigger] rows[k]) == Some(r) {
            let k = choose|k: int|
                0 <= k < rows.len() && dotted_hit(m, second, index, n, k, #[trigger] rows[k]) == Some(
                    r,
                );
            if k < last {
                assert(rest[k] == rows[k]);
            }
        }
    }
}

proof fn lemma_all_dotted_are(
    first: Seq<char>,
    second: Seq<char>,
    nodes: Seq<NodeModel>,
    r: ResultModel,
)
    ensures
        all_dotted_hits(first, second, nodes).contains(r) <==> exists|i: int, k: int|
            #[trigger] is_dotted_hit(first, second, nodes, i, k, r),
    decreases nodes.len(),
{
    if nodes.len() > 0 {
        let rest = nodes.drop_last();
        let last = nodes.len() - 1;
        let n = nodes.last();
        let rows = search_rows(n);
        assert(nodes[last] == n);
        lemma_all_dotted_are(first, second, rest, r);
        assert forall|i: int, k: int| 0 <= i < last implies is_dotted_hit(first, second, rest, i, k, r)
            == #[trigger] is_dotted_hit(first, second, nodes, i, k, r) by {}
        if exists|i: int, k: int| #[trigger] is_dotted_hit(first, second, rest, i, k, r) {
            let (i, k) = choose|i: int, k: int|
                #[trigger] is_dotted_hit(first, second, rest, i, k, r);
            assert(is_dotted_hit(first, second, nodes, i, k, r));
        }
        if let Some(m) = fuzzy(first, n.name) {
            let before = all_dotted_hits(first, second, rest);
            lemma_dotted_hits_are(m, second, last, n, rows, before, r);
            if exists|k: int|
                0 <= k < rows.len() && dotted_hit(m, second, last, n, k, #[trigger] rows[k]) == Some(
                    r,
                ) {
                let k = choose|k: int|
                    0 <= k < rows.len() && dotted_hit(m, second, last, n, k, #[trigger] rows[k])
                        == Some(r);
                assert(is_dotted_hit(first, second, nodes, last, k, r));
            }
        }
        if exists|i: int, k: int| #[trigger] is_dotted_hit(first, second, nodes, i, k, r) {
            let (i, k) = choose|i: int, k: int|
                #[trigger] is_dotted_hit(first, second, nodes, i, k, r);
            if i < last {
                assert(is_dotted_hit(first, second, rest, i, k, r));
            } else {
                assert(rows[k] == search_rows(nodes[i])[k]);
            }
        }
    }
}

/// A `Type.field` query whose results were not cut off finds exactly the rows that match its second
/// part in the types that match its first; an empty second part matches every row.
pub proof fn dotted_results_are_rows_of_matching_types(
    nodes: Seq<NodeModel>,
    query: Seq<char>,
    r: ResultModel,
)
    requires
        is_dotted(trim(query)),
        found(nodes, query).len() < MAX_RESULTS,
    ensures
        found(nodes, query).contains(r) <==> exists|i: int, k: int|
            #[trigger] is_dotted_hit(
                type_part(trim(query)),
                field_part(trim(query)),
                nodes,
                i,
                k,
                r,
            ),
        field_part(trim(query)).len() == 0 ==> forall|name: Seq<char>| #[trigger]
            fuzzy(field_part(trim(query)), name) is Some,
{
    broadcast use vstd::seq_lib::group_to_multiset_ensures;

    let q = trim(query);
    let all = all_dotted_hits(type_part(q), field_part(q), nodes);
    ranking_is_a_stable_sort(all, 0);
    lemma_all_dotted_are(type_part(q), field_part(q), nodes, r);
    assert(found(nodes, query) == by_score(all));
    assert(by_score(all).contains(r) <==> by_score(all).to_multiset().count(r) > 0);
    assert(all.contains(r) <==> all.to_multiset().count(r) > 0);
}

// ── keeping the best ───────────────────────────────────────────────────────

/// Capping before or after one more hit comes to the same.
proof fn lemma_cap_then_insert(s: Seq<ResultModel>, r: ResultModel)
    ensures
        capped(insert_result(s, r)) == capped(insert_result(capped(s), r)),
{
    let p = place_below(s, r.score);
    lemma_place_below(s, r.score);
    s.insert_ensures(p, r);
    if s.len() > MAX_RESULTS {
        let t = s.take(MAX_RESULTS as int);
        let m = if p < MAX_RESULTS { p } else { MAX_RESULTS as int };
        lemma_place_below_is(t, r.score, m);
        t.insert_ensures(m, r);
        assert(capped(insert_result(s, r)) =~= capped(insert_result(t, r)));
    }
}

/// Puts `r` among the best hits so far.
fn add_result(best: &mut Vec<SearchResult>, r: SearchResult, Ghost(all): Ghost<Seq<ResultModel>>)
    requires
        old(best).deep_view() == capped(by_score(all)),
    ensures
        final(best).deep_view() == capped(by_score(all.push(r.deep_view()))),
{
    let ghost s = best.deep_view();
    let ghost x = r.deep_view();
    proof {
        assert(all.push(x).drop_last() =~= all);
        lemma_cap_then_insert(by_score(all), x);
    }
    let n: usize = best.len();
    let mut p: usize = 0;
    while p < n && best[p].score >= r.score
        invariant
            p <= n,
            n == best@.len(),
            s == best.deep_view(),
            forall|i: int| 0 <= i < p ==> (#[trigger] s[i]).score >= r.score,
        decreases n - p,
    {
        assert(s[p as int] == best@[p as int].deep_view());
        p = p + 1;
    }
    proof {
        if p < n {
            assert(s[p as int] == best@[p as int].deep_view());
        }
        lemma_place_below_is(s, x.score, p as int);
        s.insert_ensures(p as int, x);
    }
    if p < MAX_RESULTS {
        best.insert(p, r);
        assert(best.deep_view() =~= s.insert(p as int, x));
        if best.len() > MAX_RESULTS {
            let ghost whole = best.deep_view();
            best.pop();
            assert(best.deep_view() =~= whole.take(MAX_RESULTS as int));
        }
    } else {
        assert(capped(s.insert(p as int, x)) =~= s);
    }
}

// ── what can be searched ───────────────────────────────────────────────────

/// There is room for the score of a name, raised by `extra`, or of the prose tried where the name
/// misses.
pub open spec fn texts_fit(
    q: Seq<char>,
    name: Seq<char>,
    extra: int,
    description: Option<Seq<char>>,
    reason: Option<Seq<char>>,
) -> bool {
    match fuzzy(q, name) {
        Some(m) => m.score + extra <= MAX_SCORE,
        None => {
            &&& prose_has_room(prose(q, description))
            &&& prose(q, description) is None ==> prose_has_room(prose(q, reason))
        },
    }
}

/// A node can be searched for `q`.
pub open spec fn node_fits(q: Seq<char>, n: NodeModel) -> bool {
    &&& texts_fit(q, n.name, NAME_BONUS as int, n.description, None)
    &&& forall|i: int|
        0 <= i < search_rows(n).len() ==> texts_fit(
            q,
            (#[trigger] search_rows(n)[i]).name,
            0,
            search_rows(n)[i].description,
            search_rows(n)[i].reason,
        )
}

/// There is room for the score of a row in dotted mode, where the type's name scored `base`.
pub open spec fn row_fits(base: int, field_part: Seq<char>, name: Seq<char>) -> bool {
    fuzzy(field_part, name) matches Some(f) ==> f.score <= MAX_SCORE && base + f.score <= MAX_SCORE
}

/// A node can be searched in dotted mode.
pub open spec fn dotted_fits(type_part: Seq<char>, field_part: Seq<char>, n: NodeModel) -> bool {
    fuzzy(type_part, n.name) matches Some(m) ==> {
        &&& m.score <= MAX_SCORE
        &&& forall|i: int|
            0 <= i < search_rows(n).len() ==> row_fits(
                m.score,
                field_part,
                (#[trigger] search_rows(n)[i]).name,
            )
    }
}

/// The graph can be searched for `query`: every score stays within 32 bits.
pub open spec fn searchable(nodes: Seq<NodeModel>, query: Seq<char>) -> bool {
    let q = trim(query);
    q.len() > 0 ==> forall|i: int|
        0 <= i < nodes.len() ==> if is_dotted(q) {
            dotted_fits(type_part(q), field_part(q), #[trigger] nodes[i])
        } else {
            node_fits(q, nodes[i])
        }
}

// ── searching ──────────────────────────────────────────────────────────────

impl SearchResult {
    fn of(node_index: usize, node: &GraphNodeData, score: i32) -> (r: Self)
        ensures
            r.deep_view() == bare_result(node_index as int, node.deep_view(), score as int),
    {
        let r = SearchResult {
            node_index,
            node_name: node.name.clone(),
            type_kind: node.kind,
            field_name: None,
            field_type: None,
            row_index: None,
            score,
            match_indices: Vec::new(),
            type_match_indices: None,
            snippet: None,
            snippet_kind: None,
        };
        assert(as_ints(r.match_indices@) =~= Seq::<int>::empty());
        r
    }

    fn of_row<'a>(
        node_index: usize,
        node: &GraphNodeData,
        score: i32,
        row_index: usize,
        row: &SearchRow<'a>,
    ) -> (r: Self)
        ensures
            r.deep_view() == row_result(
                node_index as int,
                node.deep_view(),
                score as int,
                row_index as int,
                row.deep_view(),
            ),
    {
        let mut r = SearchResult::of(node_index, node, score);
        r.field_name = Some(row.name.clone());
        r.field_type = match row.field_type {
            Some(t) => Some(t.clone()),
            None => None,
        };
        r.row_index = Some(row_index);
        r
    }
}

fn copy_indices(v: &Vec<usize>) -> (r: Vec<usize>)
    ensures
        r@ == v@,
{
    let mut out: Vec<usize> = Vec::new();
    let mut i: usize = 0;
    while i < v.len()
        invariant
            i <= v@.len(),
            out@ == v@.take(i as int),
        decreases v@.len() - i,
    {
        out.push(v[i]);
        assert(v@.take(i as int + 1) =~= v@.take(i as int).push(v@[i as int]));
        i = i + 1;
    }
    assert(v@.take(i as int) =~= v@);
    out
}

fn prose_of(q: &str, text: &Option<String>) -> (r: Option<ProseMatch>)
    requires
        prose_has_room(prose(q@, text.deep_view())),
    ensures
        r.deep_view() == prose(q@, text.deep_view()),
        text matches Some(s) ==> r matches Some(m) ==> m.index <= s@.len(),
{
    match text {
        Some(s) => prose_match(q, Some(s.as_str())),
        None => prose_match(q, None),
    }
}

fn find_prose(
    q: &str,
    query_len: usize,
    description: &Option<String>,
    reason: &Option<String>,
) -> (r: Option<(i32, Snippet, SnippetKind)>)
    requires
        query_len == q@.len(),
        prose_has_room(prose(q@, description.deep_view())),
        prose(q@, description.deep_view()) is None ==> prose_has_room(
            prose(q@, reason.deep_view()),
        ),
    ensures
        match (r, prose_hit(q@, description.deep_view(), reason.deep_view())) {
            (Some(a), Some(b)) => a.0 as int == b.0 && a.1.deep_view() == b.1 && a.2 == b.2,
            (None, None) => true,
            _ => false,
        },
{
    let first = prose_of(q, description);
    if let Some(m) = first {
        if let Some(text) = description {
            let snippet = make_snippet(text.as_str(), m.index, query_len);
            return Some((m.score, snippet, SnippetKind::Description));
        }
    }
    let second = prose_of(q, reason);
    if let Some(m) = second {
        if let Some(text) = reason {
            let snippet = make_snippet(text.as_str(), m.index, query_len);
            return Some((m.score, snippet, SnippetKind::DeprecationReason));
        }
    }
    None
}

/// Adds a hit, where there is one, to the best so far.
fn add_hit(
    best: &mut Vec<SearchResult>,
    hit: Option<SearchResult>,
    Ghost(all): Ghost<Seq<ResultModel>>,
)
    requires
        old(best).deep_view() == capped(by_score(all)),
    ensures
        final(best).deep_view() == capped(by_score(with_hit(all, hit.deep_view()))),
{
    if let Some(r) = hit {
        add_result(best, r, Ghost(all));
    }
}

fn find_type(q: &str, query_len: usize, index: usize, n: &GraphNodeData) -> (r: Option<SearchResult>)
    requires
        query_len == q@.len(),
        texts_fit(q@, n.deep_view().name, NAME_BONUS as int, n.deep_view().description, None),
    ensures
        r.deep_view() == type_hit(q@, index as int, n.deep_view()),
{
    match fuzzy_score(q, n.name.as_str()) {
        Some(m) => {
            let mut r = SearchResult::of(index, n, m.score + NAME_BONUS);
            r.match_indices = m.indices;
            Some(r)
        },
        None => {
            let none: Option<String> = None;
            match find_prose(q, query_len, &n.description, &none) {
                Some((score, snippet, kind)) => {
                    let mut r = SearchResult::of(index, n, score);
                    r.snippet = Some(snippet);
                    r.snippet_kind = Some(kind);
                    Some(r)
                },
                None => None,
            }
        },
    }
}

fn find_row<'a>(
    q: &str,
    query_len: usize,
    index: usize,
    n: &GraphNodeData,
    row_index: usize,
    row: &SearchRow<'a>,
) -> (r: Option<SearchResult>)
    requires
        query_len == q@.len(),
        texts_fit(
            q@,
            row.deep_view().name,
            0,
            row.deep_view().description,
            row.deep_view().reason,
        ),
    ensures
        r.deep_view() == row_hit(
            q@,
            index as int,
            n.deep_view(),
            row_index as int,
            row.deep_view(),
        ),
{
    match fuzzy_score(q, row.name.as_str()) {
        Some(m) => {
            let mut r = SearchResult::of_row(index, n, m.score, row_index, row);
            r.match_indices = m.indices;
            Some(r)
        },
        None => match find_prose(q, query_len, row.description, row.reason) {
            Some((score, snippet, kind)) => {
                let mut r = SearchResult::of_row(index, n, score, row_index, row);
                r.snippet = Some(snippet);
                r.snippet_kind = Some(kind);
                Some(r)
            },
            None => None,
        },
    }
}

fn find_dotted<'a>(
    m: &FuzzyMatch,
    part: &str,
    index: usize,
    n: &GraphNodeData,
    row_index: usize,
    row: &SearchRow<'a>,
) -> (r: Option<SearchResult>)
    requires
        0 <= m.score,
        row_fits(m.score as int, part@, row.deep_view().name),
    ensures
        r.deep_view() == dotted_hit(
            m.deep_view(),
            part@,
            index as int,
            n.deep_view(),
            row_index as int,
            row.deep_view(),
        ),
{
    match fuzzy_score(part, row.name.as_str()) {
        Some(f) => {
            let mut r = SearchResult::of_row(index, n, m.score + f.score, row_index, row);
            r.match_indices = f.indices;
            r.type_match_indices = Some(copy_indices(&m.indices));
            Some(r)
        },
        None => None,
    }
}

fn search_plain(nodes: &Vec<GraphNodeData>, q: &str, query_len: usize) -> (r: Vec<SearchResult>)
    requires
        query_len == q@.len(),
        forall|i: int| 0 <= i < nodes@.len() ==> node_fits(q@, #[trigger] nodes.deep_view()[i]),
    ensures
        r.deep_view() == capped(by_score(plain_hits(q@, nodes.deep_view()))),
{
    let ghost all = nodes.deep_view();
    let mut best: Vec<SearchResult> = Vec::new();
    let mut i: usize = 0;
    assert(all.take(0) =~= Seq::<NodeModel>::empty());
    assert(best.deep_view() =~= Seq::<ResultModel>::empty());
    while i < nodes.len()
        invariant
            i <= nodes@.len(),
            all == nodes.deep_view(),
            query_len == q@.len(),
            forall|i: int| 0 <= i < nodes@.len() ==> node_fits(q@, #[trigger] all[i]),
            best.deep_view() == capped(by_score(plain_hits(q@, all.take(i as int)))),
        decreases nodes@.len() - i,
    {
        let node = &nodes[i];
        let ghost n = all[i as int];
        assert(n == node.deep_view());
        assert(node_fits(q@, n));
        assert(all.take(i as int + 1).drop_last() =~= all.take(i as int));
        let ghost before = plain_hits(q@, all.take(i as int));
        let hit = find_type(q, query_len, i, node);
        let ghost start = with_hit(before, hit.deep_view());
        add_hit(&mut best, hit, Ghost(before));
        let rows = rows_to_search(node);
        let ghost list = search_rows(n);
        assert(list.take(0) =~= Seq::<RowModel>::empty());
        let mut k: usize = 0;
        while k < rows.len()
            invariant
                k <= rows@.len(),
                n == node.deep_view(),
                list == search_rows(n),
                list == rows.deep_view(),
                query_len == q@.len(),
                node_fits(q@, n),
                best.deep_view() == capped(
                    by_score(row_hits(q@, i as int, n, list.take(k as int), start)),
                ),
            decreases rows@.len() - k,
        {
            assert(list[k as int] == rows@[k as int].deep_view());
            assert(list.take(k as int + 1).drop_last() =~= list.take(k as int));
            let hit = find_row(q, query_len, i, node, k, &rows[k]);
            add_hit(
                &mut best,
                hit,
                Ghost(row_hits(q@, i as int, n, list.take(k as int), start)),
            );
            k = k + 1;
        }
        assert(list.take(k as int) =~= list);
        i = i + 1;
    }
    assert(all.take(i as int) =~= all);
    best
}

fn search_dotted(nodes: &Vec<GraphNodeData>, first: &str, second: &str) -> (r: Vec<SearchResult>)
    requires
        forall|i: int|
            0 <= i < nodes@.len() ==> dotted_fits(
                first@,
                second@,
                #[trigger] nodes.deep_view()[i],
            ),
    ensures
        r.deep_view() == capped(by_score(all_dotted_hits(first@, second@, nodes.deep_view()))),
{
    let ghost all = nodes.deep_view();
    let mut best: Vec<SearchResult> = Vec::new();
    let mut i: usize = 0;
    assert(all.take(0) =~= Seq::<NodeModel>::empty());
    assert(best.deep_view() =~= Seq::<ResultModel>::empty());
    while i < nodes.len()
        invariant
            i <= nodes@.len(),
            all == nodes.deep_view(),
            forall|i: int|
                0 <= i < nodes@.len() ==> dotted_fits(first@, second@, #[trigger] all[i]),
            best.deep_view() == capped(
                by_score(all_dotted_hits(first@, second@, all.take(i as int))),
            ),
        decreases nodes@.len() - i,
    {
        let node = &nodes[i];
        let ghost n = all[i as int];
        assert(n == node.deep_view());
        assert(dotted_fits(first@, second@, n));
        assert(all.take(i as int + 1).drop_last() =~= all.take(i as int));
        let ghost before = all_dotted_hits(first@, second@, all.take(i as int));
        if let Some(m) = fuzzy_score(first, node.name.as_str()) {
            let rows = rows_to_search(node);
            let ghost list = search_rows(n);
            let ghost fm = m.deep_view();
            assert(list.take(0) =~= Seq::<RowModel>::empty());
            let mut k: usize = 0;
            while k < rows.len()
                invariant
                    k <= rows@.len(),
                    n == node.deep_view(),
                    fm == m.deep_view(),
                    0 <= m.score,
                    list == search_rows(n),
                    list == rows.deep_view(),
                    dotted_fits(first@, second@, n),
                    fuzzy(first@, n.name) == Some(fm),
                    best.deep_view() == capped(
                        by_score(
                            dotted_hits(fm, second@, i as int, n, list.take(k as int), before),
                        ),
                    ),
                decreases rows@.len() - k,
            {
                assert(list[k as int] == rows@[k as int].deep_view());
                assert(list.take(k as int + 1).drop_last() =~= list.take(k as int));
                let hit = find_dotted(&m, second, i, node, k, &rows[k]);
                add_hit(
                    &mut best,
                    hit,
                    Ghost(dotted_hits(fm, second@, i as int, n, list.take(k as int), before)),
                );
                k = k + 1;
            }
            assert(list.take(k as int) =~= list);
        }
        i = i + 1;
    }
    assert(all.take(i as int) =~= all);
    best
}

/// Full search over the graph: fuzzy on names, prose fallback on descriptions and deprecation
/// reasons (only when the name missed, so nothing appears twice), and `"Type.field"` dotted mode.
/// Sorted by score, capped at [`MAX_RESULTS`].
pub fn search_graph(graph: &ParsedGraph, query: &str) -> (r: Vec<SearchResult>)
    requires
        searchable(graph.deep_view().nodes, query@),
    ensures
        r.deep_view() == found(graph.deep_view().nodes, query@),
{
    let ghost nodes = graph.nodes.deep_view();
    let q = trimmed(query);
    let chars = chars_of(q.as_str());
    let n: usize = chars.len();
    if n == 0 {
        let none: Vec<SearchResult> = Vec::new();
        assert(none.deep_view() =~= Seq::<ResultModel>::empty());
        return none;
    }
    if let Some(dot) = find_char(&chars, '.') {
        if dot > 0 {
            let first = slice_string(&chars, 0, dot);
            let second = slice_string(&chars, dot + 1, n);
            assert forall|i: int| 0 <= i < graph.nodes@.len() implies dotted_fits(
                first@,
                second@,
                #[trigger] nodes[i],
            ) by {}
            return search_dotted(&graph.nodes, first.as_str(), second.as_str());
        }
    }
    assert forall|i: int| 0 <= i < graph.nodes@.len() implies node_fits(q@, #[trigger] nodes[i]) by {}
    search_plain(&graph.nodes, q.as_str(), n)
}

// ── searching whatever comes ───────────────────────────────────────────────

/// Whether there is room for the score of the prose match, and whether there is such a match.
fn prose_fits(q: &str, text: &Option<String>) -> (r: (bool, bool))
    ensures
        r.0 == prose_has_room(prose(q@, text.deep_view())),
        r.0 ==> r.1 == (prose(q@, text.deep_view()) is Some),
{
    let m = match text {
        Some(s) => fit_prose(q, Some(s.as_str())),
        None => fit_prose(q, None),
    };
    match m {
        Some(p) => (true, p.is_some()),
        None => (false, true),
    }
}

fn can_search_texts(
    q: &str,
    name: &String,
    extra: i32,
    description: &Option<String>,
    reason: &Option<String>,
) -> (r: bool)
    requires
        0 <= extra,
    ensures
        r == texts_fit(q@, name@, extra as int, description.deep_view(), reason.deep_view()),
{
    match fit_score(q, name.as_str()) {
        None => false,
        Some(Some(m)) => m.score <= MAX_SCORE - extra,
        Some(None) => {
            let (fits, hit) = prose_fits(q, description);
            if !fits {
                return false;
            }
            if hit {
                return true;
            }
            let (fits, _) = prose_fits(q, reason);
            fits
        },
    }
}

fn can_search_node(q: &str, node: &GraphNodeData) -> (r: bool)
    ensures
        r == node_fits(q@, node.deep_view()),
{
    let none: Option<String> = None;
    if !can_search_texts(q, &node.name, NAME_BONUS, &node.description, &none) {
        return false;
    }
    let rows = rows_to_search(node);
    let ghost list = search_rows(node.deep_view());
    let mut k: usize = 0;
    while k < rows.len()
        invariant
            k <= rows@.len(),
            list == search_rows(node.deep_view()),
            list == rows.deep_view(),
            forall|i: int|
                0 <= i < k ==> texts_fit(
                    q@,
                    (#[trigger] list[i]).name,
                    0,
                    list[i].description,
                    list[i].reason,
                ),
        decreases rows@.len() - k,
    {
        assert(list[k as int] == rows@[k as int].deep_view());
        let row = &rows[k];
        if !can_search_texts(q, row.name, 0, row.description, row.reason) {
            return false;
        }
        k = k + 1;
    }
    true
}

fn can_search_dotted(first: &str, second: &str, node: &GraphNodeData) -> (r: bool)
    ensures
        r == dotted_fits(first@, second@, node.deep_view()),
{
    let base: i32 = match fit_score(first, node.name.as_str()) {
        None => {
            return false;
        },
        Some(None) => {
            return true;
        },
        Some(Some(m)) => m.score,
    };
    let rows = rows_to_search(node);
    let ghost list = search_rows(node.deep_view());
    let mut k: usize = 0;
    while k < rows.len()
        invariant
            k <= rows@.len(),
            list == search_rows(node.deep_view()),
            list == rows.deep_view(),
            fuzzy(first@, node.deep_view().name) matches Some(m) && m.score == base,
            0 <= base,
            forall|i: int|
                0 <= i < k ==> row_fits(base as int, second@, (#[trigger] list[i]).name),
        decreases rows@.len() - k,
    {
        assert(list[k as int] == rows@[k as int].deep_view());
        match fit_score(second, rows[k].name.as_str()) {
            None => {
                return false;
            },
            Some(None) => {},
            Some(Some(f)) => {
                if f.score > MAX_SCORE - base {
                    return false;
                }
            },
        }
        k = k + 1;
    }
    true
}

/// Decides [`searchable`].
#[verifier::loop_isolation(false)]
pub fn can_search(graph: &ParsedGraph, query: &str) -> (r: bool)
    ensures
        r == searchable(graph.deep_view().nodes, query@),
{
    let ghost nodes = graph.nodes.deep_view();
    let ghost t = trim(query@);
    let q = trimmed(query);
    let chars = chars_of(q.as_str());
    let n: usize = chars.len();
    if n == 0 {
        return true;
    }
    if let Some(dot) = find_char(&chars, '.') {
        if dot > 0 {
            let first = slice_string(&chars, 0, dot);
            let second = slice_string(&chars, dot + 1, n);
            let mut i: usize = 0;
            while i < graph.nodes.len()
                invariant
                    i <= graph.nodes@.len(),
                    forall|k: int| 0 <= k < i ==> dotted_fits(first@, second@, #[trigger] nodes[k]),
                decreases graph.nodes@.len() - i,
            {
                assert(nodes[i as int] == graph.nodes@[i as int].deep_view());
                if !can_search_dotted(first.as_str(), second.as_str(), &graph.nodes[i]) {
                    assert(!dotted_fits(type_part(t), field_part(t), nodes[i as int]));
                    return false;
                }
                i = i + 1;
            }
            return true;
        }
    }
    let mut i: usize = 0;
    while i < graph.nodes.len()
        invariant
            i <= graph.nodes@.len(),
            forall|k: int| 0 <= k < i ==> node_fits(q@, #[trigger] nodes[k]),
        decreases graph.nodes@.len() - i,
    {
        assert(nodes[i as int] == graph.nodes@[i as int].deep_view());
        if !can_search_node(q.as_str(), &graph.nodes[i]) {
            assert(!node_fits(t, nodes[i as int]));
            return false;
        }
        i = i + 1;
    }
    true
}

/// Searches any graph for any query; `None` where a score would not fit in 32 bits.
pub fn search(graph: &ParsedGraph, query: &str) -> (r: Option<Vec<SearchResult>>)
    ensures
        r is Some <==> searchable(graph.deep_view().nodes, query@),
        r matches Some(v) ==> v.deep_view() == found(graph.deep_view().nodes, query@),
{
    if can_search(graph, query) {
        Some(search_graph(graph, query))
    } else {
        None
    }
}

} // verus!
