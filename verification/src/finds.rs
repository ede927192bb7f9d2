//! What a search finds, told of the types, fields and values themselves.

use vstd::prelude::*;

use crate::matching::{
    first_stand, fuzzy, lowered, matches_are_subsequences, prose, snippet_of, spells, text_lower,
};
use crate::scan::first_char;
use crate::search::{
    dotted_hit, dotted_results_are_rows_of_matching_types, field_part, found, is_dotted,
    is_dotted_hit, is_on_row, is_on_type, is_row_hit, rows_are_found_by_name_or_prose, search_rows,
    type_part, types_are_found_by_name_or_description, ResultModel, SnippetKind,
};
use crate::text::{stands_at, trim};
use crate::types::NodeModel;

verus! {

/// How many fields a type has.
pub open spec fn field_count(n: NodeModel) -> int {
    match n.fields {
        Some(f) => f.len() as int,
        None => 0,
    }
}

/// What a plain hit shows of what it found by its name, its description or its deprecation reason, in
/// that order: the letters of the name that matched, or an excerpt and what it is taken from.
pub open spec fn shows(
    q: Seq<char>,
    name: Seq<char>,
    bonus: int,
    description: Option<Seq<char>>,
    reason: Option<Seq<char>>,
    r: ResultModel,
) -> bool {
    if fuzzy(q, name) is Some {
        &&& r.score == fuzzy(q, name)->0.score + bonus
        &&& r.match_indices == fuzzy(q, name)->0.indices
        &&& r.snippet is None
        &&& r.snippet_kind is None
    } else if prose(q, description) is Some {
        &&& r.score == prose(q, description)->0.score
        &&& r.match_indices.len() == 0
        &&& r.snippet == Some(
            snippet_of(description->0, prose(q, description)->0.index, q.len() as int),
        )
        &&& r.snippet_kind == Some(SnippetKind::Description)
    } else {
        &&& prose(q, reason) is Some
        &&& r.score == prose(q, reason)->0.score
        &&& r.match_indices.len() == 0
        &&& r.snippet == Some(snippet_of(reason->0, prose(q, reason)->0.index, q.len() as int))
        &&& r.snippet_kind == Some(SnippetKind::DeprecationReason)
    }
}

/// A plain query finds a type exactly where it matches its name or hits its description. The hit
/// names the type, carries no row, and shows what matched; a match of the name counts three more.
pub proof fn a_type_is_found(nodes: Seq<NodeModel>, query: Seq<char>, i: int)
    requires
        trim(query).len() > 0,
        !trim(query).contains('.') || trim(query)[0] == '.',
        found(nodes, query).len() < 80,
        0 <= i < nodes.len(),
    ensures
        (exists|r: ResultModel| #[trigger] found(nodes, query).contains(r) && is_on_type(r, i)) <==> (
        fuzzy(trim(query), nodes[i].name) is Some || prose(trim(query), nodes[i].description) is Some),
        forall|r: ResultModel| #[trigger]
            found(nodes, query).contains(r) && r.node_index == i && r.row_index is None ==> {
                &&& r.node_name == nodes[i].name
                &&& r.type_kind == nodes[i].kind
                &&& r.field_name is None
                &&& r.field_type is None
                &&& r.type_match_indices is None
                &&& shows(trim(query), nodes[i].name, 3, nodes[i].description, None, r)
            },
{
    lemma_plain(trim(query));
    types_are_found_by_name_or_description(nodes, query, i);
    assert forall|r: ResultModel| #[trigger]
        found(nodes, query).contains(r) && r.node_index == i && r.row_index is None implies shows(
        trim(query),
        nodes[i].name,
        3,
        nodes[i].description,
        None,
        r,
    ) by {
        assert(is_on_type(r, i));
    }
}

/// A plain query finds the field `k` of a type exactly where it matches its name, hits its description
/// or hits its deprecation reason. The hit names the field and its type and shows what matched.
pub proof fn a_field_is_found(nodes: Seq<NodeModel>, query: Seq<char>, i: int, k: int)
    requires
        trim(query).len() > 0,
        !trim(query).contains('.') || trim(query)[0] == '.',
        found(nodes, query).len() < 80,
        0 <= i < nodes.len(),
        0 <= k < field_count(nodes[i]),
    ensures
        (exists|r: ResultModel| #[trigger] found(nodes, query).contains(r) && is_on_row(r, i, k)) <==> ({
            let f = nodes[i].fields->0[k];
            fuzzy(trim(query), f.name) is Some || prose(trim(query), f.description) is Some || prose(
                trim(query),
                f.deprecation_reason,
            ) is Some
        }),
        forall|r: ResultModel| #[trigger]
            found(nodes, query).contains(r) && r.node_index == i && r.row_index == Some(k) ==> {
                let f = nodes[i].fields->0[k];
                &&& r.node_name == nodes[i].name
                &&& r.type_kind == nodes[i].kind
                &&& r.field_name == Some(f.name)
                &&& r.field_type == Some(f.type_)
                &&& r.type_match_indices is None
                &&& shows(trim(query), f.name, 0, f.description, f.deprecation_reason, r)
            },
{
    let f = nodes[i].fields->0[k];
    lemma_plain(trim(query));
    let row = search_rows(nodes[i])[k];
    assert(row.name == f.name && row.description == f.description && row.reason
        == f.deprecation_reason && row.field_type == Some(f.type_));
    rows_are_found_by_name_or_prose(nodes, query, i, k);
    assert forall|r: ResultModel| #[trigger]
        found(nodes, query).contains(r) && r.node_index == i && r.row_index == Some(k) implies shows(
        trim(query),
        f.name,
        0,
        f.description,
        f.deprecation_reason,
        r,
    ) && r.field_name == Some(f.name) && r.field_type == Some(f.type_) && r.node_name
        == nodes[i].name && r.type_kind == nodes[i].kind && r.type_match_indices is None by {
        assert(is_on_row(r, i, k));
        assert(is_row_hit(trim(query), nodes, i, k, r));
    }
}

/// A plain query finds the value `k` of an enum exactly where it matches its name, hits its
/// description or hits its deprecation reason. The hit names the value and shows what matched; its
/// row comes behind those of the fields, of which an enum has none.
pub proof fn a_value_is_found(nodes: Seq<NodeModel>, query: Seq<char>, i: int, k: int)
    requires
        trim(query).len() > 0,
        !trim(query).contains('.') || trim(query)[0] == '.',
        found(nodes, query).len() < 80,
        0 <= i < nodes.len(),
        nodes[i].values is Some,
        0 <= k < nodes[i].values->0.len(),
    ensures
        (exists|r: ResultModel| #[trigger]
            found(nodes, query).contains(r) && is_on_row(r, i, field_count(nodes[i]) + k)) <==> ({
            let v = nodes[i].values->0[k];
            fuzzy(trim(query), v.name) is Some || prose(trim(query), v.description) is Some || prose(
                trim(query),
                v.deprecation_reason,
            ) is Some
        }),
        forall|r: ResultModel| #[trigger]
            found(nodes, query).contains(r) && r.node_index == i && r.row_index == Some(
                field_count(nodes[i]) + k,
            ) ==> {
                let v = nodes[i].values->0[k];
                &&& r.node_name == nodes[i].name
                &&& r.type_kind == nodes[i].kind
                &&& r.field_name == Some(v.name)
                &&& r.field_type is None
                &&& r.type_match_indices is None
                &&& shows(trim(query), v.name, 0, v.description, v.deprecation_reason, r)
            },
{
    let v = nodes[i].values->0[k];
    let at = field_count(nodes[i]) + k;
    lemma_plain(trim(query));
    let row = search_rows(nodes[i])[at];
    assert(row.name == v.name && row.description == v.description && row.reason
        == v.deprecation_reason && row.field_type is None);
    rows_are_found_by_name_or_prose(nodes, query, i, at);
    assert forall|r: ResultModel| #[trigger]
        found(nodes, query).contains(r) && r.node_index == i && r.row_index == Some(at) implies shows(
        trim(query),
        v.name,
        0,
        v.description,
        v.deprecation_reason,
        r,
    ) && r.field_name == Some(v.name) && r.field_type is None && r.node_name == nodes[i].name
        && r.type_kind == nodes[i].kind && r.type_match_indices is None by {
        assert(is_on_row(r, i, at));
        assert(is_row_hit(trim(query), nodes, i, at, r));
    }
}

/// The hit of `first.second` on a row: both names match, and the scores add up.
pub open spec fn shows_both(
    first: Seq<char>,
    second: Seq<char>,
    n: NodeModel,
    name: Seq<char>,
    r: ResultModel,
) -> bool {
    &&& r.node_name == n.name
    &&& r.type_kind == n.kind
    &&& r.field_name == Some(name)
    &&& r.score == fuzzy(first, n.name)->0.score + fuzzy(second, name)->0.score
    &&& r.match_indices == fuzzy(second, name)->0.indices
    &&& r.type_match_indices == Some(fuzzy(first, n.name)->0.indices)
    &&& r.snippet is None
    &&& r.snippet_kind is None
}

/// A query `first.second` finds the field `k` of a type exactly where `first` matches the name of the
/// type and `second` that of the field.
pub proof fn a_dotted_field_is_found(
    nodes: Seq<NodeModel>,
    query: Seq<char>,
    first: Seq<char>,
    second: Seq<char>,
    i: int,
    k: int,
)
    requires
        trim(query) == first.push('.') + second,
        first.len() > 0,
        !first.contains('.'),
        found(nodes, query).len() < 80,
        0 <= i < nodes.len(),
        0 <= k < field_count(nodes[i]),
    ensures
        (exists|r: ResultModel| #[trigger] found(nodes, query).contains(r) && is_on_row(r, i, k)) <==> (
        fuzzy(first, nodes[i].name) is Some && fuzzy(second, nodes[i].fields->0[k].name) is Some),
        forall|r: ResultModel| #[trigger]
            found(nodes, query).contains(r) && r.node_index == i && r.row_index == Some(k)
                ==> shows_both(first, second, nodes[i], nodes[i].fields->0[k].name, r)
                && r.field_type == Some(nodes[i].fields->0[k].type_),
{
    lemma_dotted(trim(query), first, second);
    let row = search_rows(nodes[i])[k];
    assert(row.name == nodes[i].fields->0[k].name && row.field_type == Some(
        nodes[i].fields->0[k].type_,
    ));
    lemma_dotted_row(nodes, query, first, second, i, k);
}

/// A query `first.second` finds the value `k` of an enum exactly where `first` matches the name of the
/// enum and `second` that of the value.
pub proof fn a_dotted_value_is_found(
    nodes: Seq<NodeModel>,
    query: Seq<char>,
    first: Seq<char>,
    second: Seq<char>,
    i: int,
    k: int,
)
    requires
        trim(query) == first.push('.') + second,
        first.len() > 0,
        !first.contains('.'),
        found(nodes, query).len() < 80,
        0 <= i < nodes.len(),
        nodes[i].values is Some,
        0 <= k < nodes[i].values->0.len(),
    ensures
        (exists|r: ResultModel| #[trigger]
            found(nodes, query).contains(r) && is_on_row(r, i, field_count(nodes[i]) + k)) <==> (fuzzy(
            first,
            nodes[i].name,
        ) is Some && fuzzy(second, nodes[i].values->0[k].name) is Some),
        forall|r: ResultModel| #[trigger]
            found(nodes, query).contains(r) && r.node_index == i && r.row_index == Some(
                field_count(nodes[i]) + k,
            ) ==> shows_both(first, second, nodes[i], nodes[i].values->0[k].name, r)
                && r.field_type is None,
{
    lemma_dotted(trim(query), first, second);
    let at = field_count(nodes[i]) + k;
    let row = search_rows(nodes[i])[at];
    assert(row.name == nodes[i].values->0[k].name && row.field_type is None);
    lemma_dotted_row(nodes, query, first, second, i, at);
}

proof fn lemma_dotted_row(
    nodes: Seq<NodeModel>,
    query: Seq<char>,
    first: Seq<char>,
    second: Seq<char>,
    i: int,
    k: int,
)
    requires
        is_dotted(trim(query)),
        type_part(trim(query)) == first,
        field_part(trim(query)) == second,
        found(nodes, query).len() < 80,
        0 <= i < nodes.len(),
        0 <= k < search_rows(nodes[i]).len(),
    ensures
        (exists|r: ResultModel| #[trigger] found(nodes, query).contains(r) && is_on_row(r, i, k)) <==> (
        fuzzy(first, nodes[i].name) is Some && fuzzy(second, search_rows(nodes[i])[k].name) is Some),
        forall|r: ResultModel| #[trigger]
            found(nodes, query).contains(r) && r.node_index == i && r.row_index == Some(k)
                ==> shows_both(first, second, nodes[i], search_rows(nodes[i])[k].name, r)
                && r.field_type == search_rows(nodes[i])[k].field_type,
{
    let row = search_rows(nodes[i])[k];
    assert forall|r: ResultModel| #[trigger]
        found(nodes, query).contains(r) && r.node_index == i && r.row_index == Some(k) implies shows_both(
        first,
        second,
        nodes[i],
        row.name,
        r,
    ) && r.field_type == row.field_type && fuzzy(first, nodes[i].name) is Some && fuzzy(
        second,
        row.name,
    ) is Some by {
        dotted_results_are_rows_of_matching_types(nodes, query, r);
        let (j, m) = choose|j: int, m: int| #[trigger] is_dotted_hit(first, second, nodes, j, m, r);
        assert(j == i && m == k);
    }
    if fuzzy(first, nodes[i].name) is Some && fuzzy(second, row.name) is Some {
        let r = dotted_hit(fuzzy(first, nodes[i].name)->0, second, i, nodes[i], k, row)->0;
        assert(is_dotted_hit(first, second, nodes, i, k, r));
        dotted_results_are_rows_of_matching_types(nodes, query, r);
        assert(found(nodes, query).contains(r) && is_on_row(r, i, k));
    }
}


proof fn lemma_plain(q: Seq<char>)
    requires
        q.len() > 0,
        !q.contains('.') || q[0] == '.',
    ensures
        !is_dotted(q),
{
    if q[0] == '.' {
        let rest = q.skip(1);
        let none = Seq::<char>::empty();
        assert(none.push('.') + rest =~= q);
        lemma_first_dot(none, rest);
    } else {
        lemma_no_first(q);
    }
}

proof fn lemma_no_first(q: Seq<char>)
    requires
        !q.contains('.'),
    ensures
        first_char(q, '.') == q.len(),
    decreases q.len(),
{
    if q.len() > 0 {
        let rest = q.drop_last();
        if rest.contains('.') {
            let k = choose|k: int| 0 <= k < rest.len() && rest[k] == '.';
            assert(q[k] == '.');
        }
        lemma_no_first(rest);
        assert(q[q.len() - 1] != '.');
    }
}

proof fn lemma_dotted(q: Seq<char>, first: Seq<char>, second: Seq<char>)
    requires
        q == first.push('.') + second,
        first.len() > 0,
        !first.contains('.'),
    ensures
        is_dotted(q),
        type_part(q) == first,
        field_part(q) == second,
{
    lemma_first_dot(first, second);
    assert(type_part(q) =~= first);
    assert(field_part(q) =~= second);
}

proof fn lemma_first_dot(first: Seq<char>, second: Seq<char>)
    requires
        !first.contains('.'),
    ensures
        first_char(first.push('.') + second, '.') == first.len(),
    decreases second.len(),
{
    let q = first.push('.') + second;
    if second.len() == 0 {
        assert(q.drop_last() =~= first);
        lemma_no_first(first);
    } else {
        assert(q.drop_last() =~= first.push('.') + second.drop_last());
        lemma_first_dot(first, second.drop_last());
    }
}

/// A query hits a text exactly where its letters stand in it in one piece, case aside: the lower case
/// of the query in the lower case of the text. No query hits where there is no text, and the empty
/// query hits nothing.
pub proof fn prose_is_hit_by_what_stands_in_it(query: Seq<char>, text: Seq<char>)
    ensures
        query.len() > 0 ==> (prose(query, Some(text)) is Some <==> exists|at: int|
            0 <= at && at + text_lower(query).len() <= text_lower(text).len() && #[trigger] text_lower(
                text,
            ).subrange(at, at + text_lower(query).len()) == text_lower(query)),
        query.len() == 0 ==> prose(query, Some(text)) is None,
        prose(query, None) is None,
{
    let (hay, needle) = (text_lower(text), text_lower(query));
    lemma_first_stand(hay, needle, 0);
    if exists|at: int|
        0 <= at && at + needle.len() <= hay.len() && #[trigger] hay.subrange(at, at + needle.len())
            == needle {
        let at = choose|at: int|
            0 <= at && at + needle.len() <= hay.len() && #[trigger] hay.subrange(
                at,
                at + needle.len(),
            ) == needle;
        assert(stands_at(hay, needle, at));
    }
    if let Some(at) = first_stand(hay, needle, 0) {
        assert(hay.subrange(at, at + needle.len()) == needle);
    }
}

proof fn lemma_first_stand(s: Seq<char>, part: Seq<char>, from: int)
    requires
        0 <= from,
    ensures
        match first_stand(s, part, from) {
            Some(at) => from <= at && stands_at(s, part, at) && forall|k: int|
                from <= k < at ==> !#[trigger] stands_at(s, part, k),
            None => forall|k: int| from <= k ==> !#[trigger] stands_at(s, part, k),
        },
    decreases s.len() + 1 - from,
{
    if from <= s.len() && !stands_at(s, part, from) {
        lemma_first_stand(s, part, from + 1);
    }
}

/// A query matches a name exactly where its letters stand in the name one after the other, case aside,
/// and the letters that it reports spell it. Where lower case would change the length of the name,
/// both are taken as they are written.
pub proof fn names_are_matched_by_their_letters(query: Seq<char>, name: Seq<char>)
    requires
        query.len() > 0,
    ensures
        lowered(name).len() == name.len() ==> (fuzzy(query, name) is Some <==> exists|
            places: Seq<int>,
        |
            #[trigger] spells(lowered(query), lowered(name), places)),
        lowered(name).len() == name.len() && fuzzy(query, name) is Some ==> spells(
            lowered(query),
            lowered(name),
            fuzzy(query, name)->0.indices,
        ),
        lowered(name).len() != name.len() ==> (fuzzy(query, name) is Some <==> exists|
            places: Seq<int>,
        |
            #[trigger] spells(query, name, places)),
{
    let n = query.len() as int;
    matches_are_subsequences(n, lowered(query), lowered(name), name);
    matches_are_subsequences(n, query, name, name);
}

} // verus!
