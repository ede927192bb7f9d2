//! View-model: the cards of a schema slice and the links between them, ready to be laid out.

use vstd::prelude::*;

use crate::cards::{
    can_number, card_index, index_of, lemma_field_rows, lemma_weight, rows_of, weight, Card,
    CardModel, KnobModel, ModelOptions, Row, RowKind, RowModel,
};
use crate::copies::Duplicate;
use crate::extensions::or_empty;
use crate::geometry::{build_cards, card_of, cards_of};
use crate::parts::Cluster;
use crate::slices::{declared_roots, with_slot};
use crate::types::{
    EdgeKind, EdgeModel, GraphEdgeData, GraphModel, GraphNodeData, NodeModel, ParsedGraph,
    RootTypeMap,
};

verus! {

/// How a link is drawn.
#[derive(Debug, Clone, Copy, PartialEq, Eq, Structural)]
pub enum EdgeGroup {
    FieldNonNull,
    FieldNullable,
    Union,
    Implements,
    Arg,
}

/// In- and out-degree at which a node's edges get faded.
pub const HUB_FADE_DEGREE: usize = 50;

/// One drawn link between two cards.
#[derive(Debug, Clone, PartialEq, Eq)]
pub struct Link {
    pub from: u32,
    pub to: u32,
    /// The graph edge that the link stands for; the first where several are bundled.
    pub edge_index: usize,
    pub group: EdgeGroup,
    /// Field names (or relation kind) this link represents, one for each edge in the bundle.
    pub labels: Vec<String>,
    /// Height of the start of the link on its source card.
    pub from_port_y: u64,
    /// Incident to a hub: drawn faded, and not given a lane of its own.
    pub hub_faded: bool,
}

/// Model of a [`Link`].
#[verifier::ext_equal]
pub struct LinkModel {
    pub from: u32,
    pub to: u32,
    pub edge_index: int,
    pub group: EdgeGroup,
    pub labels: Seq<Seq<char>>,
    pub from_port_y: int,
    pub hub_faded: bool,
}

impl DeepView for Link {
    type V = LinkModel;

    open spec fn deep_view(&self) -> LinkModel {
        LinkModel {
            from: self.from,
            to: self.to,
            edge_index: self.edge_index as int,
            group: self.group,
            labels: self.labels.deep_view(),
            from_port_y: self.from_port_y as int,
            hub_faded: self.hub_faded,
        }
    }
}

/// A schema slice with its cards and links.
#[derive(Debug, PartialEq, Eq)]
pub struct Model {
    pub graph: ParsedGraph,
    pub cards: Vec<Card>,
    pub links: Vec<Link>,
    pub schema_name: String,
    /// Count of overlay-marked cards and rows (0 when no overlay is applied).
    pub overlay_marks: usize,
    /// Card indices of the root operation types present in this slice.
    pub roots: Vec<u32>,
    pub options: ModelOptions,
    /// (documented, total) over types and field/enum rows.
    pub desc_coverage: (usize, usize),
}

// ── links ──────────────────────────────────────────────────────────────────

/// How an edge is drawn.
pub open spec fn group_of(e: EdgeModel) -> EdgeGroup {
    match e.kind {
        EdgeKind::Field => if e.nullable == Some(true) {
            EdgeGroup::FieldNullable
        } else {
            EdgeGroup::FieldNonNull
        },
        EdgeKind::Union => EdgeGroup::Union,
        EdgeKind::Implements => EdgeGroup::Implements,
        EdgeKind::Arg => EdgeGroup::Arg,
    }
}

/// How an edge is drawn.
pub fn edge_group(e: &GraphEdgeData) -> (r: EdgeGroup)
    ensures
        r == group_of(e.deep_view()),
{
    match e.kind {
        EdgeKind::Field => match e.nullable {
            Some(true) => EdgeGroup::FieldNullable,
            _ => EdgeGroup::FieldNonNull,
        },
        EdgeKind::Union => EdgeGroup::Union,
        EdgeKind::Implements => EdgeGroup::Implements,
        EdgeKind::Arg => EdgeGroup::Arg,
    }
}

/// The label of an edge: its field, or what it stands for.
pub open spec fn label_of(e: EdgeModel) -> Seq<char> {
    match e.kind {
        EdgeKind::Field | EdgeKind::Arg => match e.source_field {
            Some(name) => name,
            None => Seq::empty(),
        },
        EdgeKind::Implements => "implements"@,
        EdgeKind::Union => "union member"@,
    }
}

fn edge_label(e: &GraphEdgeData) -> (r: String)
    ensures
        r@ == label_of(e.deep_view()),
{
    match e.kind {
        EdgeKind::Field | EdgeKind::Arg => match &e.source_field {
            Some(name) => name.clone(),
            None => String::new(),
        },
        EdgeKind::Implements => "implements".to_owned(),
        EdgeKind::Union => "union member".to_owned(),
    }
}

/// A link before the hubs are known.
pub struct Bundle {
    pub from: u32,
    pub to: u32,
    pub edge_index: usize,
    pub is_field: bool,
    pub labels: Vec<String>,
}

/// Model of a [`Bundle`].
#[verifier::ext_equal]
pub struct BundleModel {
    pub from: u32,
    pub to: u32,
    pub edge_index: int,
    pub is_field: bool,
    pub labels: Seq<Seq<char>>,
}

impl DeepView for Bundle {
    type V = BundleModel;

    open spec fn deep_view(&self) -> BundleModel {
        BundleModel {
            from: self.from,
            to: self.to,
            edge_index: self.edge_index as int,
            is_field: self.is_field,
            labels: self.labels.deep_view(),
        }
    }
}

/// The cards that an edge links: nothing where an end has no card or both ends are one card.
pub open spec fn drawn_ends(nodes: Seq<NodeModel>, e: EdgeModel) -> Option<(u32, u32)> {
    match (card_index(nodes, e.source), card_index(nodes, e.target)) {
        (Some(a), Some(b)) => if a == b {
            None
        } else {
            Some((a, b))
        },
        _ => None,
    }
}

/// The bundle takes in further field edges from `a` to `b`.
pub open spec fn takes(bundle: BundleModel, a: u32, b: u32) -> bool {
    bundle.is_field && bundle.from == a && bundle.to == b
}

/// The first bundle that takes field edges from `a` to `b`, or -1.
pub open spec fn bundle_place(bundles: Seq<BundleModel>, a: u32, b: u32) -> int
    decreases bundles.len(),
{
    if bundles.len() == 0 {
        -1
    } else {
        let before = bundle_place(bundles.drop_last(), a, b);
        if before >= 0 {
            before
        } else if takes(bundles.last(), a, b) {
            bundles.len() - 1
        } else {
            -1
        }
    }
}

/// The bundles of the edges so far, and edge `e`, the one at `at`, after them.
pub open spec fn bundle_step(
    nodes: Seq<NodeModel>,
    bundles: Seq<BundleModel>,
    e: EdgeModel,
    at: int,
    bundling: bool,
) -> Seq<BundleModel> {
    match drawn_ends(nodes, e) {
        None => bundles,
        Some((a, b)) => {
            let k = bundle_place(bundles, a, b);
            if bundling && e.kind == EdgeKind::Field && k >= 0 {
                bundles.update(
                    k,
                    BundleModel { labels: bundles[k].labels.push(label_of(e)), ..bundles[k] },
                )
            } else {
                bundles.push(
                    BundleModel {
                        from: a,
                        to: b,
                        edge_index: at,
                        is_field: e.kind == EdgeKind::Field,
                        labels: seq![label_of(e)],
                    },
                )
            }
        },
    }
}

/// The bundles of the edges.
pub open spec fn bundles_of(
    nodes: Seq<NodeModel>,
    edges: Seq<EdgeModel>,
    bundling: bool,
) -> Seq<BundleModel>
    decreases edges.len(),
{
    if edges.len() == 0 {
        Seq::empty()
    } else {
        bundle_step(
            nodes,
            bundles_of(nodes, edges.drop_last(), bundling),
            edges.last(),
            edges.len() - 1,
            bundling,
        )
    }
}

/// How many bundles touch card `v`.
pub open spec fn degree_of(bundles: Seq<BundleModel>, v: int) -> nat
    decreases bundles.len(),
{
    if bundles.len() == 0 {
        0
    } else {
        degree_of(bundles.drop_last(), v) + (if bundles.last().from == v || bundles.last().to == v {
            1nat
        } else {
            0
        })
    }
}

/// The card has so many links that they are faded.
pub open spec fn is_hub(bundles: Seq<BundleModel>, v: int) -> bool {
    degree_of(bundles, v) >= HUB_FADE_DEGREE
}

/// The link that a bundle is drawn as.
pub open spec fn link_of(
    graph: GraphModel,
    knobs: KnobModel,
    bundles: Seq<BundleModel>,
    b: BundleModel,
) -> LinkModel {
    let e = graph.edges[b.edge_index];
    LinkModel {
        from: b.from,
        to: b.to,
        edge_index: b.edge_index,
        group: group_of(e),
        labels: b.labels,
        from_port_y: card_of(graph.nodes, b.from as int, knobs).port(e.source_field_index),
        hub_faded: is_hub(bundles, b.from as int) || is_hub(bundles, b.to as int),
    }
}

/// The links between the cards of a graph.
pub open spec fn links_of(graph: GraphModel, knobs: KnobModel) -> Seq<LinkModel> {
    let bundles = bundles_of(graph.nodes, graph.edges, knobs.bundle_edges);
    bundles.map_values(|b: BundleModel| link_of(graph, knobs, bundles, b))
}

/// The card indices of the root types that have a card, in the order query, mutation, subscription.
pub open spec fn root_cards(nodes: Seq<NodeModel>, names: Seq<Seq<char>>) -> Seq<u32>
    decreases names.len(),
{
    if names.len() == 0 {
        Seq::empty()
    } else {
        let before = root_cards(nodes, names.drop_last());
        match card_index(nodes, names.last()) {
            Some(k) => before.push(k),
            None => before,
        }
    }
}

// ── counts ─────────────────────────────────────────────────────────────────

/// How many of the rows come from the overlay.
pub open spec fn overlay_rows(rows: Seq<RowModel>) -> nat
    decreases rows.len(),
{
    if rows.len() == 0 {
        0
    } else {
        overlay_rows(rows.drop_last()) + (if rows.last().is_overlay {
            1nat
        } else {
            0
        })
    }
}

/// How many cards and rows come from the overlay.
pub open spec fn marks_on(cards: Seq<CardModel>) -> nat
    decreases cards.len(),
{
    if cards.len() == 0 {
        0
    } else {
        marks_on(cards.drop_last()) + (if cards.last().is_overlay {
            1nat
        } else {
            0
        }) + overlay_rows(cards.last().rows)
    }
}

/// A row that can have a description.
pub open spec fn is_described_kind(r: RowModel) -> bool {
    r.kind == RowKind::Field || r.kind == RowKind::EnumValue
}

/// Among the rows, how many have a description and how many can have one.
pub open spec fn row_coverage(rows: Seq<RowModel>) -> (nat, nat)
    decreases rows.len(),
{
    if rows.len() == 0 {
        (0, 0)
    } else {
        let (documented, total) = row_coverage(rows.drop_last());
        if is_described_kind(rows.last()) {
            (
                documented + (if rows.last().description is Some {
                    1nat
                } else {
                    0
                }),
                total + 1,
            )
        } else {
            (documented, total)
        }
    }
}

/// Among cards and rows, how many have a description and how many can have one.
pub open spec fn coverage(cards: Seq<CardModel>) -> (nat, nat)
    decreases cards.len(),
{
    if cards.len() == 0 {
        (0, 0)
    } else {
        let (documented, total) = coverage(cards.drop_last());
        let (more_documented, more) = row_coverage(cards.last().rows);
        (
            documented + (if cards.last().description is Some {
                1nat
            } else {
                0
            }) + more_documented,
            total + 1 + more,
        )
    }
}

// ── laws ───────────────────────────────────────────────────────────────────

/// What the place of a bundle is.
proof fn lemma_bundle_place(bundles: Seq<BundleModel>, a: u32, b: u32)
    ensures
        -1 <= bundle_place(bundles, a, b) < bundles.len(),
        bundle_place(bundles, a, b) >= 0 ==> takes(bundles[bundle_place(bundles, a, b)], a, b),
        bundle_place(bundles, a, b) < 0 ==> forall|k: int|
            0 <= k < bundles.len() ==> !takes(#[trigger] bundles[k], a, b),
        forall|k: int|
            0 <= k < bundle_place(bundles, a, b) ==> !takes(#[trigger] bundles[k], a, b),
    decreases bundles.len(),
{
    if bundles.len() > 0 {
        let rest = bundles.drop_last();
        lemma_bundle_place(rest, a, b);
        assert forall|k: int|
            0 <= k < bundles.len() && bundle_place(bundles, a, b) < 0 implies !takes(
            #[trigger] bundles[k],
            a,
            b,
        ) by {
            if k < rest.len() {
                assert(rest[k] == bundles[k]);
            }
        }
        assert forall|k: int| 0 <= k < bundle_place(bundles, a, b) implies !takes(
            #[trigger] bundles[k],
            a,
            b,
        ) by {
            assert(rest[k] == bundles[k]);
        }
    }
}

/// Where bundling is on, all field edges from one card to another are in one link: no two field
/// links have the same ends.
pub proof fn bundles_are_distinct(nodes: Seq<NodeModel>, edges: Seq<EdgeModel>, i: int, j: int)
    requires
        0 <= i < j < bundles_of(nodes, edges, true).len(),
        bundles_of(nodes, edges, true)[i].is_field,
        bundles_of(nodes, edges, true)[j].is_field,
    ensures
        bundles_of(nodes, edges, true)[i].from != bundles_of(nodes, edges, true)[j].from
            || bundles_of(nodes, edges, true)[i].to != bundles_of(nodes, edges, true)[j].to,
    decreases edges.len(),
{
    if edges.len() > 0 {
        let before = bundles_of(nodes, edges.drop_last(), true);
        let now = bundles_of(nodes, edges, true);
        match drawn_ends(nodes, edges.last()) {
            Some((a, b)) => {
                lemma_bundle_place(before, a, b);
                if j < before.len() {
                    bundles_are_distinct(nodes, edges.drop_last(), i, j);
                } else {
                    assert(now[i] == before[i]);
                }
            },
            None => {
                bundles_are_distinct(nodes, edges.drop_last(), i, j);
            },
        }
    }
}

/// How many edges have both ends on cards of their own.
pub open spec fn drawn_count(nodes: Seq<NodeModel>, edges: Seq<EdgeModel>) -> nat
    decreases edges.len(),
{
    if edges.len() == 0 {
        0
    } else {
        drawn_count(nodes, edges.drop_last()) + (if drawn_ends(nodes, edges.last()) is Some {
            1nat
        } else {
            0
        })
    }
}

/// How many labels the bundles carry together.
pub open spec fn label_count(bundles: Seq<BundleModel>) -> nat
    decreases bundles.len(),
{
    if bundles.len() == 0 {
        0
    } else {
        label_count(bundles.drop_last()) + bundles.last().labels.len()
    }
}

proof fn lemma_label_update(bundles: Seq<BundleModel>, k: int, b: BundleModel)
    requires
        0 <= k < bundles.len(),
    ensures
        label_count(bundles.update(k, b)) == label_count(bundles) - bundles[k].labels.len()
            + b.labels.len(),
    decreases bundles.len(),
{
    let rest = bundles.drop_last();
    if k == bundles.len() - 1 {
        assert(bundles.update(k, b).drop_last() =~= rest);
    } else {
        lemma_label_update(rest, k, b);
        assert(bundles.update(k, b).drop_last() =~= rest.update(k, b));
    }
}

/// Bundling loses no edge: every edge that can be drawn is one label of one link. Without bundling
/// every such edge has a link of its own.
pub proof fn every_drawn_edge_has_a_label(
    nodes: Seq<NodeModel>,
    edges: Seq<EdgeModel>,
    bundling: bool,
)
    ensures
        label_count(bundles_of(nodes, edges, bundling)) == drawn_count(nodes, edges),
        !bundling ==> bundles_of(nodes, edges, false).len() == drawn_count(nodes, edges),
    decreases edges.len(),
{
    if edges.len() > 0 {
        let before = bundles_of(nodes, edges.drop_last(), bundling);
        every_drawn_edge_has_a_label(nodes, edges.drop_last(), bundling);
        match drawn_ends(nodes, edges.last()) {
            Some((a, b)) => {
                lemma_bundle_place(before, a, b);
                let e = edges.last();
                let k = bundle_place(before, a, b);
                if bundling && e.kind == EdgeKind::Field && k >= 0 {
                    lemma_label_update(
                        before,
                        k,
                        BundleModel { labels: before[k].labels.push(label_of(e)), ..before[k] },
                    );
                } else {
                    let now = bundles_of(nodes, edges, bundling);
                    assert(now.drop_last() =~= before);
                }
            },
            None => {},
        }
    }
}

/// What holds of every bundle: its ends are cards, two of them, and its edge is one of the edges.
pub open spec fn bundle_fits(b: BundleModel, nodes: nat, edges: nat) -> bool {
    b.from < nodes && b.to < nodes && b.from != b.to && 0 <= b.edge_index < edges
}

/// There are no more documented rows than rows that can be, and no more of those than rows.
proof fn lemma_row_counts(rows: Seq<RowModel>)
    ensures
        row_coverage(rows).0 <= row_coverage(rows).1 <= rows.len(),
        overlay_rows(rows) <= rows.len(),
    decreases rows.len(),
{
    if rows.len() > 0 {
        lemma_row_counts(rows.drop_last());
    }
}

/// The counts over the first cards stay below the weight of their nodes.
proof fn lemma_counts(nodes: Seq<NodeModel>, knobs: KnobModel, k: int)
    requires
        0 <= k <= nodes.len(),
    ensures
        coverage(cards_of(nodes, knobs).take(k)).0 <= coverage(cards_of(nodes, knobs).take(k)).1
            <= weight(nodes.take(k)),
        marks_on(cards_of(nodes, knobs).take(k)) <= weight(nodes.take(k)),
    decreases k,
{
    let cards = cards_of(nodes, knobs);
    if k > 0 {
        lemma_counts(nodes, knobs, k - 1);
        assert(cards.take(k).drop_last() =~= cards.take(k - 1));
        assert(nodes.take(k).drop_last() =~= nodes.take(k - 1));
        let n = nodes[k - 1];
        assert(cards.take(k).last() == card_of(nodes, k - 1, knobs));
        lemma_field_rows(nodes, or_empty(n.fields), knobs);
        lemma_row_counts(rows_of(nodes, n, knobs));
    }
}

/// Documentation is counted within what can be documented.
pub proof fn coverage_is_a_share(nodes: Seq<NodeModel>, knobs: KnobModel)
    ensures
        coverage(cards_of(nodes, knobs)).0 <= coverage(cards_of(nodes, knobs)).1,
        nodes.len() <= coverage(cards_of(nodes, knobs)).1,
{
    let cards = cards_of(nodes, knobs);
    lemma_counts(nodes, knobs, nodes.len() as int);
    assert(cards.take(nodes.len() as int) =~= cards);
    lemma_coverage_total(cards);
}

proof fn lemma_coverage_total(cards: Seq<CardModel>)
    ensures
        cards.len() <= coverage(cards).1,
    decreases cards.len(),
{
    if cards.len() > 0 {
        lemma_coverage_total(cards.drop_last());
    }
}

// ── building ───────────────────────────────────────────────────────────────

#[verifier::loop_isolation(false)]
fn find_bundle(bundles: &Vec<Bundle>, a: u32, b: u32) -> (r: Option<usize>)
    ensures
        r is Some <==> bundle_place(bundles.deep_view(), a, b) >= 0,
        r matches Some(k) ==> k == bundle_place(bundles.deep_view(), a, b) && k < bundles@.len(),
{
    let ghost all = bundles.deep_view();
    proof {
        lemma_bundle_place(all, a, b);
    }
    let mut k: usize = 0;
    while k < bundles.len()
        invariant
            k <= bundles@.len(),
            forall|j: int| 0 <= j < k ==> !takes(#[trigger] all[j], a, b),
        decreases bundles@.len() - k,
    {
        assert(all[k as int] == bundles@[k as int].deep_view());
        if bundles[k].is_field && bundles[k].from == a && bundles[k].to == b {
            assert(takes(all[k as int], a, b));
            return Some(k);
        }
        k = k + 1;
    }
    None
}

/// Takes one more edge in.
fn add_edge(
    nodes: &Vec<GraphNodeData>,
    bundles: &mut Vec<Bundle>,
    e: &GraphEdgeData,
    at: usize,
    bundling: bool,
)
    requires
        nodes@.len() <= u32::MAX,
    ensures
        final(bundles).deep_view() == bundle_step(
            nodes.deep_view(),
            old(bundles).deep_view(),
            e.deep_view(),
            at as int,
            bundling,
        ),
        (forall|k: int|
            0 <= k < old(bundles)@.len() ==> bundle_fits(
                #[trigger] old(bundles).deep_view()[k],
                nodes@.len(),
                at as nat,
            )) ==> (forall|k: int|
            0 <= k < final(bundles)@.len() ==> bundle_fits(
                #[trigger] final(bundles).deep_view()[k],
                nodes@.len(),
                at as nat + 1,
            )),
{
    let ghost before = bundles.deep_view();
    let (a, b): (u32, u32) = match (
        index_of(nodes, e.source.as_str()),
        index_of(nodes, e.target.as_str()),
    ) {
        (Some(a), Some(b)) => (a, b),
        _ => {
            assert forall|k: int| 0 <= k < bundles@.len() && bundle_fits(
                #[trigger] before[k],
                nodes@.len(),
                at as nat,
            ) implies bundle_fits(before[k], nodes@.len(), at as nat + 1) by {}
            return;
        },
    };
    if a == b {
        assert forall|k: int| 0 <= k < bundles@.len() && bundle_fits(
            #[trigger] before[k],
            nodes@.len(),
            at as nat,
        ) implies bundle_fits(before[k], nodes@.len(), at as nat + 1) by {}
        return;
    }
    let label = edge_label(e);
    let is_field = matches!(e.kind, EdgeKind::Field);
    if bundling && is_field {
        match find_bundle(bundles, a, b) {
            Some(k) => {
                let ghost old_labels = before[k as int].labels;
                assert(before[k as int] == bundles@[k as int].deep_view());
                bundles[k].labels.push(label);
                assert(bundles@[k as int].labels.deep_view() =~= old_labels.push(
                    label_of(e.deep_view()),
                ));
                let ghost now = bundles.deep_view();
                assert(now =~= before.update(
                    k as int,
                    BundleModel {
                        labels: old_labels.push(label_of(e.deep_view())),
                        ..before[k as int]
                    },
                ));
                assert forall|j: int| 0 <= j < now.len() && bundle_fits(
                    before[j],
                    nodes@.len(),
                    at as nat,
                ) implies bundle_fits(#[trigger] now[j], nodes@.len(), at as nat + 1) by {}
                return;
            },
            None => {},
        }
    }
    let mut labels: Vec<String> = Vec::new();
    labels.push(label);
    assert(labels.deep_view() =~= seq![label_of(e.deep_view())]);
    bundles.push(Bundle { from: a, to: b, edge_index: at, is_field, labels });
    let ghost now = bundles.deep_view();
    let ghost last = now[before.len() as int];
    assert(now =~= before.push(last));
    assert forall|j: int| 0 <= j < before.len() && bundle_fits(
        before[j],
        nodes@.len(),
        at as nat,
    ) implies bundle_fits(#[trigger] now[j], nodes@.len(), at as nat + 1) by {}
}

/// The bundles of all edges.
fn bundle_edges(nodes: &Vec<GraphNodeData>, edges: &Vec<GraphEdgeData>, bundling: bool) -> (r: Vec<
    Bundle,
>)
    requires
        nodes@.len() <= u32::MAX,
    ensures
        r.deep_view() == bundles_of(nodes.deep_view(), edges.deep_view(), bundling),
        forall|k: int|
            0 <= k < r@.len() ==> bundle_fits(
                #[trigger] r.deep_view()[k],
                nodes@.len(),
                edges@.len(),
            ),
{
    let ghost es = edges.deep_view();
    let ghost ns = nodes.deep_view();
    let mut out: Vec<Bundle> = Vec::new();
    let mut i: usize = 0;
    assert(es.take(0) =~= Seq::<EdgeModel>::empty());
    assert(out.deep_view() =~= bundles_of(ns, es.take(0), bundling));
    while i < edges.len()
        invariant
            i <= edges@.len(),
            nodes@.len() <= u32::MAX,
            es == edges.deep_view(),
            ns == nodes.deep_view(),
            out.deep_view() == bundles_of(ns, es.take(i as int), bundling),
            forall|k: int|
                0 <= k < out@.len() ==> bundle_fits(
                    #[trigger] out.deep_view()[k],
                    nodes@.len(),
                    i as nat,
                ),
        decreases edges@.len() - i,
    {
        assert(es.take(i as int + 1).drop_last() =~= es.take(i as int));
        assert(es[i as int] == edges@[i as int].deep_view());
        add_edge(nodes, &mut out, &edges[i], i, bundling);
        i = i + 1;
    }
    assert(es.take(i as int) =~= es);
    out
}

/// The degree of every card.
fn count_degrees(bundles: &Vec<Bundle>, n: usize) -> (r: Vec<usize>)
    requires
        forall|k: int|
            0 <= k < bundles@.len() ==> (#[trigger] bundles@[k]).from < n && bundles@[k].to < n
                && bundles@[k].from != bundles@[k].to,
    ensures
        r@.len() == n,
        forall|v: int| 0 <= v < n ==> #[trigger] r@[v] == degree_of(bundles.deep_view(), v),
{
    let ghost all = bundles.deep_view();
    let mut degree: Vec<usize> = Vec::new();
    let mut v: usize = 0;
    assert(all.take(0) =~= Seq::<BundleModel>::empty());
    while v < n
        invariant
            v <= n,
            degree@.len() == v,
            forall|u: int| 0 <= u < v ==> #[trigger] degree@[u] == 0,
        decreases n - v,
    {
        degree.push(0);
        v = v + 1;
    }
    let mut i: usize = 0;
    while i < bundles.len()
        invariant
            i <= bundles@.len(),
            all == bundles.deep_view(),
            degree@.len() == n,
            forall|k: int|
                0 <= k < bundles@.len() ==> (#[trigger] bundles@[k]).from < n && bundles@[k].to < n
                    && bundles@[k].from != bundles@[k].to,
            forall|u: int|
                0 <= u < n ==> #[trigger] degree@[u] == degree_of(all.take(i as int), u),
            forall|u: int| 0 <= u < n ==> #[trigger] degree@[u] <= i,
        decreases bundles@.len() - i,
    {
        assert(all[i as int] == bundles@[i as int].deep_view());
        assert(all.take(i as int + 1).drop_last() =~= all.take(i as int));
        let a: usize = bundles[i].from as usize;
        let b: usize = bundles[i].to as usize;
        let da: usize = degree[a] + 1;
        let db: usize = degree[b] + 1;
        degree.set(a, da);
        degree.set(b, db);
        i = i + 1;
    }
    assert(all.take(i as int) =~= all);
    degree
}

/// The links between the cards.
fn make_links(graph: &ParsedGraph, cards: &Vec<Card>, options: &ModelOptions) -> (r: Vec<Link>)
    requires
        graph.nodes@.len() <= u32::MAX,
        cards.deep_view() == cards_of(graph.deep_view().nodes, options.deep_view()),
        forall|i: int| 0 <= i < cards@.len() ==> (#[trigger] cards@[i]).is_drawable(),
    ensures
        r.deep_view() == links_of(graph.deep_view(), options.deep_view()),
{
    let ghost g = graph.deep_view();
    let ghost knobs = options.deep_view();
    let bundles = bundle_edges(&graph.nodes, &graph.edges, options.bundle_edges);
    let ghost bs = bundles.deep_view();
    assert(cards.deep_view().len() == cards@.len());
    assert(g.nodes.len() == graph.nodes@.len());
    assert forall|k: int| 0 <= k < bundles@.len() implies (#[trigger] bundles@[k]).from
        < cards@.len() && bundles@[k].to < cards@.len() && bundles@[k].from != bundles@[k].to by {
        assert(bundle_fits(bs[k], graph.nodes@.len(), graph.edges@.len()));
    }
    let degree = count_degrees(&bundles, cards.len());
    let mut links: Vec<Link> = Vec::new();
    let mut i: usize = 0;
    while i < bundles.len()
        invariant
            i <= bundles@.len(),
            g == graph.deep_view(),
            knobs == options.deep_view(),
            bs == bundles.deep_view(),
            bs == bundles_of(g.nodes, g.edges, knobs.bundle_edges),
            cards.deep_view() == cards_of(g.nodes, knobs),
            cards@.len() == graph.nodes@.len(),
            g.nodes.len() == graph.nodes@.len(),
            forall|k: int| 0 <= k < cards@.len() ==> (#[trigger] cards@[k]).is_drawable(),
            forall|k: int|
                0 <= k < bs.len() ==> bundle_fits(
                    #[trigger] bs[k],
                    graph.nodes@.len(),
                    graph.edges@.len(),
                ),
            degree@.len() == cards@.len(),
            forall|v: int| 0 <= v < cards@.len() ==> #[trigger] degree@[v] == degree_of(bs, v),
            links@.len() == i,
            forall|k: int|
                0 <= k < i ==> (#[trigger] links@[k]).deep_view() == link_of(g, knobs, bs, bs[k]),
        decreases bundles@.len() - i,
    {
        let b = &bundles[i];
        assert(bs[i as int] == b.deep_view());
        assert(bundle_fits(bs[i as int], graph.nodes@.len(), graph.edges@.len()));
        let e = &graph.edges[b.edge_index];
        assert(g.edges[b.edge_index as int] == e.deep_view());
        let from: usize = b.from as usize;
        let to: usize = b.to as usize;
        assert(cards.deep_view()[from as int] == cards@[from as int].deep_view());
        assert(cards@[from as int].is_drawable());
        links.push(
            Link {
                from: b.from,
                to: b.to,
                edge_index: b.edge_index,
                group: edge_group(e),
                labels: b.labels.duplicate(),
                from_port_y: cards[from].port_y(e.source_field_index),
                hub_faded: degree[from] >= HUB_FADE_DEGREE || degree[to] >= HUB_FADE_DEGREE,
            },
        );
        i = i + 1;
    }
    assert(links.deep_view() =~= links_of(g, knobs));
    links
}

fn push_root(
    nodes: &Vec<GraphNodeData>,
    out: &mut Vec<u32>,
    slot: &Option<String>,
    Ghost(names): Ghost<Seq<Seq<char>>>,
)
    requires
        nodes@.len() <= u32::MAX,
        old(out)@ == root_cards(nodes.deep_view(), names),
    ensures
        final(out)@ == root_cards(
            nodes.deep_view(),
            with_slot(names, slot.deep_view()),
        ),
{
    match slot {
        Some(name) => {
            assert(names.push(name@).drop_last() =~= names);
            match index_of(nodes, name.as_str()) {
                Some(k) => out.push(k),
                None => {},
            }
        },
        None => {},
    }
}

/// The card indices of the root types that have a card.
fn find_roots(nodes: &Vec<GraphNodeData>, roots: &RootTypeMap) -> (r: Vec<u32>)
    requires
        nodes@.len() <= u32::MAX,
    ensures
        r@ == root_cards(nodes.deep_view(), declared_roots(roots.deep_view())),
{
    let ghost none = Seq::<Seq<char>>::empty();
    let ghost one = with_slot(none, roots.deep_view().query);
    let ghost two = with_slot(one, roots.deep_view().mutation);
    let mut out: Vec<u32> = Vec::new();
    push_root(nodes, &mut out, &roots.query, Ghost(none));
    push_root(nodes, &mut out, &roots.mutation, Ghost(one));
    push_root(nodes, &mut out, &roots.subscription, Ghost(two));
    out
}

/// Counts over the rows of one card: marked, documented, documentable.
fn count_rows(card: &Card) -> (r: (usize, usize, usize))
    ensures
        r.0 == overlay_rows(card.deep_view().rows),
        r.1 == row_coverage(card.deep_view().rows).0,
        r.2 == row_coverage(card.deep_view().rows).1,
{
    let ghost all = card.deep_view().rows;
    let mut marked: usize = 0;
    let mut documented: usize = 0;
    let mut total: usize = 0;
    let mut i: usize = 0;
    assert(all.take(0) =~= Seq::<RowModel>::empty());
    while i < card.rows.len()
        invariant
            i <= card.rows@.len(),
            all == card.rows.deep_view(),
            marked == overlay_rows(all.take(i as int)),
            documented == row_coverage(all.take(i as int)).0,
            total == row_coverage(all.take(i as int)).1,
            marked <= i,
            documented <= i,
            total <= i,
        decreases card.rows@.len() - i,
    {
        let row = &card.rows[i];
        assert(all[i as int] == row.deep_view());
        assert(all.take(i as int + 1).drop_last() =~= all.take(i as int));
        if row.is_overlay {
            marked = marked + 1;
        }
        if matches!(row.kind, RowKind::Field | RowKind::EnumValue) {
            total = total + 1;
            if row.description.is_some() {
                documented = documented + 1;
            }
        }
        i = i + 1;
    }
    assert(all.take(i as int) =~= all);
    (marked, documented, total)
}

/// Counts over all cards: marked, documented, documentable.
fn count_cards(
    cards: &Vec<Card>,
    Ghost(nodes): Ghost<Seq<NodeModel>>,
    Ghost(knobs): Ghost<KnobModel>,
) -> (r: (usize, usize, usize))
    requires
        can_number(nodes),
        cards.deep_view() == cards_of(nodes, knobs),
    ensures
        r.0 == marks_on(cards.deep_view()),
        r.1 == coverage(cards.deep_view()).0,
        r.2 == coverage(cards.deep_view()).1,
{
    let ghost all = cards.deep_view();
    let mut marked: usize = 0;
    let mut documented: usize = 0;
    let mut total: usize = 0;
    let mut i: usize = 0;
    assert(all.take(0) =~= Seq::<CardModel>::empty());
    while i < cards.len()
        invariant
            i <= cards@.len(),
            can_number(nodes),
            all == cards.deep_view(),
            all == cards_of(nodes, knobs),
            marked == marks_on(all.take(i as int)),
            documented == coverage(all.take(i as int)).0,
            total == coverage(all.take(i as int)).1,
        decreases cards@.len() - i,
    {
        let card = &cards[i];
        assert(all[i as int] == card.deep_view());
        assert(all.len() == cards@.len());
        assert(all.take(i as int + 1).drop_last() =~= all.take(i as int));
        proof {
            lemma_counts(nodes, knobs, i as int + 1);
            lemma_weight(nodes, i as int + 1);
        }
        let (more_marked, more_documented, more) = count_rows(card);
        marked = marked + (if card.is_overlay { 1 } else { 0 }) + more_marked;
        documented = documented + (if card.description.is_some() { 1 } else { 0 })
            + more_documented;
        total = total + 1 + more;
        i = i + 1;
    }
    assert(all.take(i as int) =~= all);
    (marked, documented, total)
}

/// Builds the cards and links of a graph.
pub fn build_model(graph: ParsedGraph, schema_name: String, options: &ModelOptions) -> (r: Model)
    requires
        can_number(graph.deep_view().nodes),
    ensures
        r.graph == graph,
        r.schema_name == schema_name,
        r.options.deep_view() == options.deep_view(),
        r.cards.deep_view() == cards_of(graph.deep_view().nodes, options.deep_view()),
        forall|i: int| 0 <= i < r.cards@.len() ==> (#[trigger] r.cards@[i]).is_drawable(),
        r.links.deep_view() == links_of(graph.deep_view(), options.deep_view()),
        r.roots@ == root_cards(
            graph.deep_view().nodes,
            declared_roots(graph.deep_view().root_types),
        ),
        r.overlay_marks == marks_on(r.cards.deep_view()),
        r.desc_coverage.0 == coverage(r.cards.deep_view()).0,
        r.desc_coverage.1 == coverage(r.cards.deep_view()).1,
{
    let ghost ns = graph.deep_view().nodes;
    proof {
        lemma_weight(ns, ns.len() as int);
    }
    assert(ns.len() == graph.nodes@.len());
    let cards = build_cards(&graph.nodes, options);
    let (overlay_marks, documented, total) = count_cards(
        &cards,
        Ghost(ns),
        Ghost(options.deep_view()),
    );
    let links = make_links(&graph, &cards, options);
    let roots = find_roots(&graph.nodes, &graph.root_types);
    Model {
        graph,
        cards,
        links,
        schema_name,
        overlay_marks,
        roots,
        options: ModelOptions {
            show_descriptions: options.show_descriptions,
            bundle_edges: options.bundle_edges,
            hide_primitive_fields: options.hide_primitive_fields,
            today: options.today.clone(),
        },
        desc_coverage: (documented, total),
    }
}

// ── clusters ───────────────────────────────────────────────────────────────

/// The cards that the member rows of a union lead to, in order.
pub open spec fn drawn_members(rows: Seq<RowModel>) -> Seq<u32>
    decreases rows.len(),
{
    if rows.len() == 0 {
        Seq::empty()
    } else {
        let before = drawn_members(rows.drop_last());
        match rows.last().target {
            Some(t) if rows.last().kind == RowKind::UnionMember => before.push(t),
            _ => before,
        }
    }
}

/// The unions with more than one drawn member, each with its members, in card order.
pub open spec fn clustered(cards: Seq<CardModel>) -> Seq<(int, Seq<u32>)>
    decreases cards.len(),
{
    if cards.len() == 0 {
        Seq::empty()
    } else {
        let before = clustered(cards.drop_last());
        let members = drawn_members(cards.last().rows);
        if members.len() > 1 {
            before.push((cards.last().index, members))
        } else {
            before
        }
    }
}

/// Clusters as parents and members.
pub open spec fn clusters_held(clusters: Seq<Cluster>) -> Seq<(int, Seq<u32>)> {
    clusters.map_values(|c: Cluster| (c.parent as int, c.members@))
}

fn find_members(rows: &Vec<Row>) -> (r: Vec<u32>)
    ensures
        r@ == drawn_members(rows.deep_view()),
{
    let ghost all = rows.deep_view();
    let mut out: Vec<u32> = Vec::new();
    let mut i: usize = 0;
    assert(all.take(0) =~= Seq::<RowModel>::empty());
    while i < rows.len()
        invariant
            i <= rows@.len(),
            all == rows.deep_view(),
            out@ == drawn_members(all.take(i as int)),
        decreases rows@.len() - i,
    {
        assert(all.take(i as int + 1).drop_last() =~= all.take(i as int));
        assert(all[i as int] == rows@[i as int].deep_view());
        if rows[i].kind == RowKind::UnionMember {
            if let Some(t) = rows[i].target {
                out.push(t);
            }
        }
        i = i + 1;
    }
    assert(all.take(i as int) =~= all);
    out
}

/// What is to stand together: for each union with more than one drawn member, the union and those
/// members.
pub fn union_clusters(cards: &Vec<Card>) -> (r: Vec<Cluster>)
    ensures
        clusters_held(r@) == clustered(cards.deep_view()),
{
    let ghost all = cards.deep_view();
    let mut out: Vec<Cluster> = Vec::new();
    let mut i: usize = 0;
    assert(all.take(0) =~= Seq::<CardModel>::empty());
    assert(clusters_held(out@) =~= Seq::<(int, Seq<u32>)>::empty());
    while i < cards.len()
        invariant
            i <= cards@.len(),
            all == cards.deep_view(),
            clusters_held(out@) == clustered(all.take(i as int)),
        decreases cards@.len() - i,
    {
        assert(all.take(i as int + 1).drop_last() =~= all.take(i as int));
        assert(all[i as int] == cards@[i as int].deep_view());
        let members = find_members(&cards[i].rows);
        if members.len() > 1 {
            let ghost before = clusters_held(out@);
            let c = Cluster { parent: cards[i].index, members };
            out.push(c);
            assert(clusters_held(out@) =~= before.push((c.parent as int, c.members@)));
        }
        i = i + 1;
    }
    assert(all.take(i as int) =~= all);
    out
}

/// A card is clustered exactly where more than one of its member rows leads to a card, with those
/// members.
pub proof fn clusters_are_unions_with_members(cards: Seq<CardModel>, parent: int, members: Seq<u32>)
    ensures
        clustered(cards).contains((parent, members)) <==> members.len() > 1 && exists|i: int|
            0 <= i < cards.len() && (#[trigger] cards[i]).index == parent && drawn_members(
                cards[i].rows,
            ) == members,
    decreases cards.len(),
{
    if cards.len() > 0 {
        let rest = cards.drop_last();
        let x = (parent, members);
        clusters_are_unions_with_members(rest, parent, members);
        let before = clustered(rest);
        let now = clustered(cards);
        assert(cards[cards.len() - 1] == cards.last());
        if before.contains(x) {
            let j = choose|j: int| 0 <= j < before.len() && before[j] == x;
            assert(now[j] == x);
            let i = choose|i: int|
                0 <= i < rest.len() && (#[trigger] rest[i]).index == parent && drawn_members(
                    rest[i].rows,
                ) == members;
            assert(cards[i] == rest[i]);
        }
        if now.contains(x) {
            let j = choose|j: int| 0 <= j < now.len() && now[j] == x;
            if j < before.len() {
                assert(before[j] == x);
            }
        }
        if members.len() > 1 && exists|i: int|
            0 <= i < cards.len() && (#[trigger] cards[i]).index == parent && drawn_members(
                cards[i].rows,
            ) == members {
            let i = choose|i: int|
                0 <= i < cards.len() && (#[trigger] cards[i]).index == parent && drawn_members(
                    cards[i].rows,
                ) == members;
            if i < rest.len() {
                assert(rest[i] == cards[i]);
            } else {
                assert(now[before.len() as int] == x);
            }
        }
    }
}

} // verus!
