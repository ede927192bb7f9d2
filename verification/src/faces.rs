//! What cards and links show of a graph, told of the types, fields and edges themselves.

use vstd::prelude::*;

use crate::cards::{
    can_number, card_index, lemma_weight, row_total, rows_are_found_by_the_map, rows_of, KnobModel,
    RowKind, TypeColor,
};
use crate::changes::is_only;
use crate::edges::node_ids;
use crate::extensions::or_empty;
use crate::finds::field_count;
use crate::geometry::card_of;
use crate::lists::{lemma_last_place, lemma_last_place_is};
use crate::model::{
    bundle_place, bundles_of, degree_of, drawn_ends, links_of, BundleModel, EdgeGroup, LinkModel,
};
use crate::types::{EdgeKind, EdgeModel, GraphModel, NodeModel};
use crate::until::expired;
use crate::wires::is_standard_scalar;
use crate::words::{spaced, words};

verus! {

// ── cards ──────────────────────────────────────────────────────────────────

/// The row leads to the card of the type `id`: there is one exactly where the graph has that type, and
/// it is the card of the only node of that id.
pub open spec fn leads_to_type(target: Option<u32>, nodes: Seq<NodeModel>, id: Seq<char>) -> bool {
    &&& target is Some <==> exists|j: int| 0 <= j < nodes.len() && (#[trigger] nodes[j]).id == id
    &&& forall|j: int| #[trigger] is_only(nodes, id, j) ==> target == Some(j as u32)
}

/// The line under a row, on a single line: the description, or else the reason of a deprecated row.
pub open spec fn has_line(
    line: Option<Seq<char>>,
    shown: bool,
    description: Option<Seq<char>>,
    deprecated: bool,
    reason: Option<Seq<char>>,
) -> bool {
    let text = if description is Some {
        description
    } else if deprecated {
        reason
    } else {
        None
    };
    if shown && text is Some && spaced(words(text->0)).len() > 0 {
        line == Some(spaced(words(text->0)))
    } else {
        line is None
    }
}

proof fn lemma_target(nodes: Seq<NodeModel>, id: Seq<char>)
    requires
        nodes.len() <= u32::MAX,
    ensures
        leads_to_type(card_index(nodes, id), nodes, id),
{
    let ids = node_ids(nodes);
    lemma_last_place(ids, id);
    let p = crate::lists::last_place(ids, id);
    if p >= 0 {
        assert(nodes[p].id == ids[p]);
    }
    if exists|j: int| 0 <= j < nodes.len() && (#[trigger] nodes[j]).id == id {
        let j = choose|j: int| 0 <= j < nodes.len() && (#[trigger] nodes[j]).id == id;
        assert(ids[j] == id);
    }
    assert forall|j: int| #[trigger] is_only(nodes, id, j) implies card_index(nodes, id) == Some(
        j as u32,
    ) by {
        assert(ids[j] == id);
        assert forall|b: int| j < b < ids.len() implies #[trigger] ids[b] != id by {
            assert(nodes[b].id != id);
        }
        lemma_last_place_is(ids, id, j);
    }
}

proof fn lemma_fits(nodes: Seq<NodeModel>, i: int)
    requires
        can_number(nodes),
        0 <= i < nodes.len(),
    ensures
        nodes.len() <= u32::MAX,
        row_total(nodes[i]) <= u32::MAX,
{
    lemma_weight(nodes, nodes.len() as int);
    lemma_weight(nodes, i + 1);
    lemma_weight(nodes, i);
    assert(nodes.take(i + 1).drop_last() =~= nodes.take(i));
    assert(nodes.take(i + 1).last() == nodes[i]);
}

/// A field has a row on the card of its type, unless it gives a standard scalar and those are hidden.
/// The row shows its name, its type, its arguments, its description and its deprecation, and leads to
/// the type that it gives.
pub proof fn fields_are_on_cards(nodes: Seq<NodeModel>, i: int, knobs: KnobModel, k: int)
    requires
        can_number(nodes),
        0 <= i < nodes.len(),
        0 <= k < field_count(nodes[i]),
    ensures
        ({
            let c = card_of(nodes, i, knobs);
            let f = nodes[i].fields->0[k];
            if knobs.hide_primitive_fields && is_standard_scalar(f.base_type) {
                c.row_map[k] is None
            } else {
                c.row_map[k] matches Some(at) && at < c.rows.len() && {
                    let r = c.rows[at as int];
                    &&& r.kind == RowKind::Field
                    &&& r.left == f.name
                    &&& r.right == f.type_
                    &&& leads_to_type(r.target, nodes, f.base_type)
                    &&& r.deprecated == f.is_deprecated
                    &&& r.is_overlay == f.is_overlay
                    &&& r.description == f.description
                    &&& has_line(
                        r.description_line,
                        knobs.show_descriptions,
                        f.description,
                        f.is_deprecated,
                        f.deprecation_reason,
                    )
                    &&& r.deprecation_reason == f.deprecation_reason
                    &&& r.until_expired == expired(f.until, knobs.today)
                    &&& r.is_relay == f.is_relay_connection
                    &&& r.type_color == (if expired(f.until, knobs.today) {
                        TypeColor::Expired
                    } else if is_standard_scalar(f.base_type) {
                        TypeColor::BuiltinScalar
                    } else {
                        TypeColor::Normal
                    })
                    &&& match f.args {
                        Some(args) => r.args.len() == args.len() && forall|a: int|
                            0 <= a < args.len() ==> #[trigger] r.args[a] == (
                                args[a].name,
                                args[a].type_,
                            ),
                        None => r.args.len() == 0,
                    }
                }
            }
        }),
{
    lemma_fits(nodes, i);
    let f = nodes[i].fields->0[k];
    lemma_target(nodes, f.base_type);
    rows_are_found_by_the_map(nodes, nodes[i], knobs, k);
}

/// Every value of an enum has a row on its card, behind the fields, which enums have none of.
pub proof fn values_are_on_cards(nodes: Seq<NodeModel>, i: int, knobs: KnobModel, k: int)
    requires
        can_number(nodes),
        0 <= i < nodes.len(),
        nodes[i].values is Some,
        0 <= k < nodes[i].values->0.len(),
    ensures
        ({
            let c = card_of(nodes, i, knobs);
            let v = nodes[i].values->0[k];
            c.row_map[field_count(nodes[i]) + k] matches Some(at) && at < c.rows.len() && {
                let r = c.rows[at as int];
                &&& r.kind == RowKind::EnumValue
                &&& r.left == v.name
                &&& r.right.len() == 0
                &&& r.target is None
                &&& r.deprecated == v.is_deprecated
                &&& r.is_overlay == v.is_overlay
                &&& r.description == v.description
                &&& has_line(
                    r.description_line,
                    knobs.show_descriptions,
                    v.description,
                    v.is_deprecated,
                    v.deprecation_reason,
                )
                &&& r.deprecation_reason == v.deprecation_reason
                &&& r.until_expired == expired(v.until, knobs.today)
            }
        }),
{
    lemma_fits(nodes, i);
    rows_are_found_by_the_map(nodes, nodes[i], knobs, field_count(nodes[i]) + k);
}

/// A union shows its members as its last rows, in order, each leading to its type. The head of a card
/// shows the name, the kind and the description of its type.
pub proof fn members_are_on_cards(nodes: Seq<NodeModel>, i: int, knobs: KnobModel, k: int)
    requires
        can_number(nodes),
        0 <= i < nodes.len(),
        nodes[i].members is Some,
        0 <= k < nodes[i].members->0.len(),
    ensures
        ({
            let c = card_of(nodes, i, knobs);
            let m = nodes[i].members->0;
            let r = c.rows[c.rows.len() - m.len() + k];
            &&& c.rows.len() >= m.len()
            &&& r.kind == RowKind::UnionMember
            &&& r.left == m[k]
            &&& leads_to_type(r.target, nodes, m[k])
            &&& c.index == i && c.name == nodes[i].name && c.kind == nodes[i].kind
            &&& c.description == nodes[i].description && c.is_overlay == nodes[i].is_overlay
        }),
{
    lemma_fits(nodes, i);
    let n = nodes[i];
    lemma_target(nodes, n.members->0[k]);
    let rows = rows_of(nodes, n, knobs);
    let at = rows.len() - n.members->0.len() + k;
    assert(rows[at].left == n.members->0[k]);
}

// ── links ──────────────────────────────────────────────────────────────────

/// The edge joins the cards `a` and `b`: its ends are the only types of their ids there.
pub open spec fn joins_cards(nodes: Seq<NodeModel>, e: EdgeModel, a: int, b: int) -> bool {
    is_only(nodes, e.source, a) && is_only(nodes, e.target, b)
}

/// What a link says of an edge: the field that it comes from, or what it stands for.
pub open spec fn says(e: EdgeModel, text: Seq<char>) -> bool {
    match e.kind {
        EdgeKind::Field | EdgeKind::Arg => text == (match e.source_field {
            Some(name) => name,
            None => Seq::empty(),
        }),
        EdgeKind::Implements => text == "implements"@,
        EdgeKind::Union => text == "union member"@,
    }
}

/// How an edge is drawn, by its kind and by whether it can be null.
pub open spec fn is_drawn_as(e: EdgeModel, group: EdgeGroup) -> bool {
    match e.kind {
        EdgeKind::Field => group == (if e.nullable == Some(true) {
            EdgeGroup::FieldNullable
        } else {
            EdgeGroup::FieldNonNull
        }),
        EdgeKind::Union => group == EdgeGroup::Union,
        EdgeKind::Implements => group == EdgeGroup::Implements,
        EdgeKind::Arg => group == EdgeGroup::Arg,
    }
}

/// The bundle is made of edges of the graph between its two cards: the first gives it its look, and
/// each has a label on it. Only field edges are bundled, and only where that is asked for.
spec fn is_made_of(
    nodes: Seq<NodeModel>,
    edges: Seq<EdgeModel>,
    bundling: bool,
    b: BundleModel,
) -> bool {
    &&& 0 <= b.edge_index < edges.len()
    &&& drawn_ends(nodes, edges[b.edge_index]) == Some((b.from, b.to))
    &&& b.is_field == (edges[b.edge_index].kind == EdgeKind::Field)
    &&& b.labels.len() >= 1
    &&& says(edges[b.edge_index], b.labels[0])
    &&& !(bundling && b.is_field) ==> b.labels.len() == 1
    &&& forall|l: int|
        0 <= l < b.labels.len() ==> exists|k: int|
            0 <= k < edges.len() && drawn_ends(nodes, #[trigger] edges[k]) == Some((b.from, b.to))
                && says(edges[k], #[trigger] b.labels[l]) && (l > 0 ==> edges[k].kind
                == EdgeKind::Field)
}

proof fn lemma_still_made_of(
    nodes: Seq<NodeModel>,
    edges: Seq<EdgeModel>,
    bundling: bool,
    b: BundleModel,
)
    requires
        edges.len() > 0,
        is_made_of(nodes, edges.drop_last(), bundling, b),
    ensures
        is_made_of(nodes, edges, bundling, b),
{
    let less = edges.drop_last();
    assert(less[b.edge_index] == edges[b.edge_index]);
    assert forall|l: int| 0 <= l < b.labels.len() implies exists|k: int|
        0 <= k < edges.len() && drawn_ends(nodes, #[trigger] edges[k]) == Some((b.from, b.to)) && says(
            edges[k],
            #[trigger] b.labels[l],
        ) && (l > 0 ==> edges[k].kind == EdgeKind::Field) by {
        let k = choose|k: int|
            0 <= k < less.len() && drawn_ends(nodes, #[trigger] less[k]) == Some((b.from, b.to))
                && says(less[k], b.labels[l]) && (l > 0 ==> less[k].kind == EdgeKind::Field);
        assert(less[k] == edges[k]);
    }
}

proof fn lemma_made_of(
    nodes: Seq<NodeModel>,
    edges: Seq<EdgeModel>,
    bundling: bool,
    i: int,
)
    requires
        0 <= i < bundles_of(nodes, edges, bundling).len(),
    ensures
        is_made_of(nodes, edges, bundling, bundles_of(nodes, edges, bundling)[i]),
    decreases edges.len(),
{
    let all = bundles_of(nodes, edges, bundling);
    let b = all[i];
    if edges.len() > 0 {
        let less = edges.drop_last();
        let before = bundles_of(nodes, less, bundling);
        let e = edges[edges.len() - 1];
        assert(edges.last() == e);
        if i < before.len() {
            lemma_made_of(nodes, less, bundling, i);
            lemma_still_made_of(nodes, edges, bundling, before[i]);
        }
        if let Some((from, to)) = drawn_ends(nodes, e) {
            lemma_place(before, from, to);
            if i < before.len() && b != before[i] {
                let old_ = before[i];
                assert(b.labels == old_.labels.push(crate::model::label_of(e)));
                assert forall|l: int| 0 <= l < b.labels.len() implies exists|k: int|
                    0 <= k < edges.len() && drawn_ends(nodes, #[trigger] edges[k]) == Some(
                        (b.from, b.to),
                    ) && says(edges[k], #[trigger] b.labels[l]) && (l > 0 ==> edges[k].kind
                        == EdgeKind::Field) by {
                    if l < old_.labels.len() {
                        assert(old_.labels[l] == b.labels[l]);
                        let k = choose|k: int|
                            0 <= k < edges.len() && drawn_ends(nodes, #[trigger] edges[k]) == Some(
                                (old_.from, old_.to),
                            ) && says(edges[k], old_.labels[l]) && (l > 0 ==> edges[k].kind
                                == EdgeKind::Field);
                        assert(says(edges[k], b.labels[l]));
                    } else {
                        assert(says(edges[edges.len() - 1], b.labels[l]));
                    }
                }
            } else if i == before.len() {
                assert(says(edges[edges.len() - 1], b.labels[0]));
            }
        }
    }
}

proof fn lemma_place(bundles: Seq<BundleModel>, a: u32, b: u32)
    ensures
        -1 <= bundle_place(bundles, a, b) < bundles.len(),
        bundle_place(bundles, a, b) >= 0 ==> ({
            let k = bundles[bundle_place(bundles, a, b)];
            k.is_field && k.from == a && k.to == b
        }),
    decreases bundles.len(),
{
    if bundles.len() > 0 {
        lemma_place(bundles.drop_last(), a, b);
    }
}

/// The edge `x` is in the bundle `i`.
proof fn lemma_in_bundle(
    nodes: Seq<NodeModel>,
    edges: Seq<EdgeModel>,
    bundling: bool,
    x: int,
) -> (i: int)
    requires
        0 <= x < edges.len(),
        drawn_ends(nodes, edges[x]) is Some,
    ensures
        0 <= i < bundles_of(nodes, edges, bundling).len(),
        ({
            let b = bundles_of(nodes, edges, bundling)[i];
            &&& drawn_ends(nodes, edges[x]) == Some((b.from, b.to))
            &&& exists|l: int| 0 <= l < b.labels.len() && says(edges[x], #[trigger] b.labels[l])
            &&& !bundling || edges[x].kind != EdgeKind::Field ==> b.edge_index == x
        }),
    decreases edges.len(),
{
    let less = edges.drop_last();
    let before = bundles_of(nodes, less, bundling);
    let all = bundles_of(nodes, edges, bundling);
    let last = edges[edges.len() - 1];
    assert(edges.last() == last);
    if x < less.len() {
        assert(less[x] == edges[x]);
        let i = lemma_in_bundle(nodes, less, bundling, x);
        let b = before[i];
        let l = choose|l: int| 0 <= l < b.labels.len() && says(less[x], #[trigger] b.labels[l]);
        if let Some((from, to)) = drawn_ends(nodes, last) {
            lemma_place(before, from, to);
        }
        assert(all[i].labels[l] == b.labels[l]);
        assert(says(edges[x], all[i].labels[l]));
        i
    } else {
        let (from, to) = drawn_ends(nodes, last)->0;
        lemma_place(before, from, to);
        let k = bundle_place(before, from, to);
        if bundling && last.kind == EdgeKind::Field && k >= 0 {
            let l = before[k].labels.len() as int;
            assert(says(edges[x], all[k].labels[l]));
            k
        } else {
            let i = before.len() as int;
            assert(says(edges[x], all[i].labels[0]));
            i
        }
    }
}

proof fn lemma_ends(nodes: Seq<NodeModel>, e: EdgeModel, a: int, b: int)
    requires
        nodes.len() <= u32::MAX,
        joins_cards(nodes, e, a, b),
    ensures
        a != b ==> drawn_ends(nodes, e) == Some((a as u32, b as u32)),
        a == b ==> drawn_ends(nodes, e) is None,
{
    lemma_target(nodes, e.source);
    lemma_target(nodes, e.target);
}

/// Every edge between two cards is on a link between them, with a label of its own. Where edges are
/// not bundled, and always where it is no field edge, the link is of that edge alone and drawn after
/// its kind.
pub proof fn edges_are_on_links(graph: GraphModel, knobs: KnobModel, x: int, a: int, b: int)
    requires
        graph.nodes.len() <= u32::MAX,
        0 <= x < graph.edges.len(),
        joins_cards(graph.nodes, graph.edges[x], a, b),
        a != b,
    ensures
        exists|i: int|
            #![trigger links_of(graph, knobs)[i]]
            0 <= i < links_of(graph, knobs).len() && carries(
                links_of(graph, knobs)[i],
                graph.edges[x],
                a,
                b,
            ) && (!knobs.bundle_edges || graph.edges[x].kind != EdgeKind::Field ==> links_of(
                graph,
                knobs,
            )[i].edge_index == x && is_drawn_as(
                graph.edges[x],
                links_of(graph, knobs)[i].group,
            ) && links_of(graph, knobs)[i].labels.len() == 1),
{
    lemma_ends(graph.nodes, graph.edges[x], a, b);
    let i = lemma_in_bundle(graph.nodes, graph.edges, knobs.bundle_edges, x);
    lemma_made_of(graph.nodes, graph.edges, knobs.bundle_edges, i);
    let l = links_of(graph, knobs)[i];
    assert(l.labels == bundles_of(graph.nodes, graph.edges, knobs.bundle_edges)[i].labels);
    assert(carries(l, graph.edges[x], a, b));
}

/// The link joins the two cards and has a label that says what the edge does.
pub open spec fn carries(l: LinkModel, e: EdgeModel, a: int, b: int) -> bool {
    &&& l.from == a
    &&& l.to == b
    &&& exists|k: int| 0 <= k < l.labels.len() && says(e, #[trigger] l.labels[k])
}

/// No link is made up: each is drawn after an edge of the graph that joins its cards, two of them, and
/// has that edge's label first. It is faded exactly where fifty links or more touch one of its cards.
pub proof fn links_are_of_edges(graph: GraphModel, knobs: KnobModel, i: int)
    requires
        graph.nodes.len() <= u32::MAX,
        0 <= i < links_of(graph, knobs).len(),
    ensures
        ({
            let l = links_of(graph, knobs)[i];
            &&& 0 <= l.edge_index < graph.edges.len()
            &&& l.from < graph.nodes.len() && l.to < graph.nodes.len() && l.from != l.to
            &&& graph.nodes[l.from as int].id == graph.edges[l.edge_index].source
            &&& graph.nodes[l.to as int].id == graph.edges[l.edge_index].target
            &&& is_drawn_as(graph.edges[l.edge_index], l.group)
            &&& l.labels.len() >= 1 && says(graph.edges[l.edge_index], l.labels[0])
            &&& l.hub_faded <==> touching(links_of(graph, knobs), l.from as int) >= 50 || touching(
                links_of(graph, knobs),
                l.to as int,
            ) >= 50
        }),
{
    let bundles = bundles_of(graph.nodes, graph.edges, knobs.bundle_edges);
    let links = links_of(graph, knobs);
    lemma_made_of(graph.nodes, graph.edges, knobs.bundle_edges, i);
    let e = graph.edges[bundles[i].edge_index];
    let ids = node_ids(graph.nodes);
    lemma_last_place(ids, e.source);
    lemma_last_place(ids, e.target);
    let (p, q) = (crate::lists::last_place(ids, e.source), crate::lists::last_place(ids, e.target));
    assert(ids[p] == graph.nodes[p].id && ids[q] == graph.nodes[q].id);
    assert(links.take(links.len() as int) =~= links);
    assert(bundles.take(bundles.len() as int) =~= bundles);
    lemma_touching(bundles, links, links[i].from as int, links.len());
    lemma_touching(bundles, links, links[i].to as int, links.len());
}

/// How many links touch the card.
pub open spec fn touching(links: Seq<LinkModel>, card: int) -> nat
    decreases links.len(),
{
    if links.len() == 0 {
        0
    } else if links.last().from == card || links.last().to == card {
        touching(links.drop_last(), card) + 1
    } else {
        touching(links.drop_last(), card)
    }
}

proof fn lemma_touching(
    bundles: Seq<BundleModel>,
    links: Seq<LinkModel>,
    card: int,
    k: nat,
)
    requires
        k <= bundles.len() == links.len(),
        forall|i: int|
            0 <= i < links.len() ==> (#[trigger] links[i]).from == bundles[i].from && links[i].to
                == bundles[i].to,
    ensures
        touching(links.take(k as int), card) == degree_of(bundles.take(k as int), card),
    decreases k,
{
    if k > 0 {
        lemma_touching(bundles, links, card, (k - 1) as nat);
        assert(links.take(k as int).drop_last() =~= links.take(k - 1));
        assert(bundles.take(k as int).drop_last() =~= bundles.take(k - 1));
        assert(links.take(k as int).last() == links[k - 1]);
        assert(bundles.take(k as int).last() == bundles[k - 1]);
    }
}

} // verus!
