//! The slice of a schema that each canvas mode shows.

use vstd::prelude::*;

use crate::copies::Duplicate;
use crate::edges::node_ids;
use crate::extensions::or_empty;
use crate::lists::{has_name, last_place, lemma_last_place, lemma_last_place_is};
use crate::reachable::{
    all_reachable_ids, default_root_ops, edges_in, lemma_edges_in, lemma_nodes_in,
    lemma_push_contains, nodes_in, reach, reach_any, reachable_from,
};
use crate::text::same;
use crate::types::{
    EdgeKind, EdgeModel, FieldModel, GraphEdgeData, GraphField, GraphModel, GraphNodeData,
    NodeModel, ParsedGraph, RootModel, RootTypeMap, ValueModel,
};

verus! {

/// The three canvas modes.
#[derive(Debug, Clone, Copy, PartialEq, Eq, Structural)]
pub enum Mode {
    /// Types reachable from the effective root (default view).
    Reachable,
    /// Types no root operation can reach.
    Orphaned,
    /// Types owning deprecated members, plus the targets of those members.
    Deprecated,
}

impl Mode {
    /// The label of the mode.
    pub open spec fn name(self) -> Seq<char> {
        match self {
            Mode::Reachable => "Reachable"@,
            Mode::Orphaned => "Orphaned"@,
            Mode::Deprecated => "Deprecated"@,
        }
    }

    /// The label of the mode's tab.
    pub fn label(self) -> (r: &'static str)
        ensures
            r@ == self.name(),
    {
        match self {
            Mode::Reachable => "Reachable",
            Mode::Orphaned => "Orphaned",
            Mode::Deprecated => "Deprecated",
        }
    }
}

// ── model ──────────────────────────────────────────────────────────────────

/// `names`, and `slot` after them where it is filled.
pub open spec fn with_slot(names: Seq<Seq<char>>, slot: Option<Seq<char>>) -> Seq<Seq<char>> {
    match slot {
        Some(name) => names.push(name),
        None => names,
    }
}

/// The declared root operation types, in the order query, mutation, subscription.
pub open spec fn declared_roots(roots: RootModel) -> Seq<Seq<char>> {
    with_slot(
        with_slot(with_slot(Seq::empty(), roots.query), roots.mutation),
        roots.subscription,
    )
}

/// The root operation types: the declared ones, or the conventional three where none is declared.
pub open spec fn root_ops(roots: RootModel) -> Seq<Seq<char>> {
    if declared_roots(roots).len() == 0 {
        seq!["Query"@, "Mutation"@, "Subscription"@]
    } else {
        declared_roots(roots)
    }
}

/// The root that the reachable slice starts from: the picked one, or else the first declared one.
pub open spec fn effective_root(roots: RootModel, picked: Option<Seq<char>>) -> Option<Seq<char>> {
    if picked is Some {
        picked
    } else if declared_roots(roots).len() > 0 {
        Some(declared_roots(roots)[0])
    } else {
        None
    }
}

/// Some field is deprecated.
pub open spec fn has_deprecated_field(fields: Seq<FieldModel>) -> bool {
    exists|k: int| 0 <= k < fields.len() && (#[trigger] fields[k]).is_deprecated
}

/// Some enum value is deprecated.
pub open spec fn has_deprecated_value(values: Seq<ValueModel>) -> bool {
    exists|k: int| 0 <= k < values.len() && (#[trigger] values[k]).is_deprecated
}

/// The type owns a deprecated member.
pub open spec fn has_deprecated(n: NodeModel) -> bool {
    has_deprecated_field(or_empty(n.fields)) || has_deprecated_value(or_empty(n.values))
}

/// `id` is the type of one of the deprecated fields.
pub open spec fn is_deprecated_target(fields: Seq<FieldModel>, id: Seq<char>) -> bool {
    exists|k: int|
        0 <= k < fields.len() && (#[trigger] fields[k]).is_deprecated && fields[k].base_type == id
}

/// The node brings `id` into the deprecated slice: as its own id or as the type of one of its
/// deprecated fields.
pub open spec fn brings(n: NodeModel, id: Seq<char>) -> bool {
    has_deprecated(n) && (n.id == id || is_deprecated_target(or_empty(n.fields), id))
}

/// The ids that the deprecated slice keeps.
pub open spec fn deprecated_ids(nodes: Seq<NodeModel>) -> Set<Seq<char>> {
    Set::new(|id: Seq<char>| exists|i: int| 0 <= i < nodes.len() && brings(#[trigger] nodes[i], id))
}

/// The edge leaves a deprecated field of its source; of several nodes with that id the last counts.
pub open spec fn leaves_deprecated(nodes: Seq<NodeModel>, e: EdgeModel) -> bool {
    let at = last_place(node_ids(nodes), e.source);
    match e.source_field_index {
        Some(i) => 0 <= at && i < or_empty(nodes[at].fields).len() && or_empty(
            nodes[at].fields,
        )[i as int].is_deprecated,
        None => false,
    }
}

/// The deprecated slice keeps the edge.
pub open spec fn keeps_edge(nodes: Seq<NodeModel>, e: EdgeModel) -> bool {
    &&& deprecated_ids(nodes).contains(e.source)
    &&& deprecated_ids(nodes).contains(e.target)
    &&& e.kind == EdgeKind::Field ==> leaves_deprecated(nodes, e)
}

/// The edges that the deprecated slice keeps, in order.
pub open spec fn deprecated_edges(nodes: Seq<NodeModel>, edges: Seq<EdgeModel>) -> Seq<EdgeModel>
    decreases edges.len(),
{
    if edges.len() == 0 {
        Seq::empty()
    } else if keeps_edge(nodes, edges.last()) {
        deprecated_edges(nodes, edges.drop_last()).push(edges.last())
    } else {
        deprecated_edges(nodes, edges.drop_last())
    }
}

/// A slice with the given nodes and edges: no error, no warnings, the roots kept.
pub open spec fn slice_with(
    full: GraphModel,
    nodes: Seq<NodeModel>,
    edges: Seq<EdgeModel>,
) -> GraphModel {
    GraphModel { nodes, edges, error: None, warnings: Seq::empty(), root_types: full.root_types }
}

/// The types that `root` reaches, and the edges between them.
pub open spec fn reachable_slice(full: GraphModel, root: Seq<char>) -> GraphModel {
    let ids = reach(full.nodes, full.edges, root, root_ops(full.root_types));
    slice_with(full, nodes_in(full.nodes, ids), edges_in(full.edges, ids))
}

/// The types that no root operation reaches.
pub open spec fn orphans(full: GraphModel) -> Seq<NodeModel> {
    nodes_in(
        full.nodes,
        reach_any(full.nodes, full.edges, root_ops(full.root_types)).complement(),
    )
}

/// The part of the schema that a mode shows.
pub open spec fn slice_of(
    full: GraphModel,
    mode: Mode,
    picked: Option<Seq<char>>,
) -> GraphModel {
    match mode {
        Mode::Reachable => match effective_root(full.root_types, picked) {
            Some(root) => reachable_slice(full, root),
            None => full,
        },
        Mode::Orphaned => slice_with(
            full,
            orphans(full),
            edges_in(full.edges, node_ids(orphans(full)).to_set()),
        ),
        Mode::Deprecated => slice_with(
            full,
            nodes_in(full.nodes, deprecated_ids(full.nodes)),
            deprecated_edges(full.nodes, full.edges),
        ),
    }
}

// ── laws ───────────────────────────────────────────────────────────────────

/// Every type of the schema is shown either among the orphans or in the reachable slice of some
/// root operation, and never in both.
pub proof fn orphans_are_the_unreachable(full: GraphModel, n: NodeModel)
    requires
        full.nodes.contains(n),
    ensures
        slice_of(full, Mode::Orphaned, None).nodes.contains(n) <==> !exists|k: int|
            0 <= k < root_ops(full.root_types).len() && slice_of(
                full,
                Mode::Reachable,
                Some(#[trigger] root_ops(full.root_types)[k]),
            ).nodes.contains(n),
{
    let ops = root_ops(full.root_types);
    let any = reach_any(full.nodes, full.edges, ops);
    lemma_nodes_in(full.nodes, any.complement(), n);
    if any.contains(n.id) {
        let k = choose|k: int|
            0 <= k < ops.len() && reach(full.nodes, full.edges, #[trigger] ops[k], ops).contains(
                n.id,
            );
        lemma_nodes_in(full.nodes, reach(full.nodes, full.edges, ops[k], ops), n);
        assert(slice_of(full, Mode::Reachable, Some(ops[k])).nodes.contains(n));
    }
    if exists|k: int|
        0 <= k < ops.len() && slice_of(
            full,
            Mode::Reachable,
            Some(#[trigger] ops[k]),
        ).nodes.contains(n) {
        let k = choose|k: int|
            0 <= k < ops.len() && slice_of(
                full,
                Mode::Reachable,
                Some(#[trigger] ops[k]),
            ).nodes.contains(n);
        lemma_nodes_in(full.nodes, reach(full.nodes, full.edges, ops[k], ops), n);
        assert(reach(full.nodes, full.edges, ops[k], ops).contains(n.id));
    }
}

/// A slice shows nothing that the schema does not have.
pub proof fn slices_add_no_types(
    full: GraphModel,
    mode: Mode,
    picked: Option<Seq<char>>,
    n: NodeModel,
)
    requires
        slice_of(full, mode, picked).nodes.contains(n),
    ensures
        full.nodes.contains(n),
{
    let any = reach_any(full.nodes, full.edges, root_ops(full.root_types));
    match mode {
        Mode::Reachable => match effective_root(full.root_types, picked) {
            Some(root) => {
                lemma_nodes_in(
                    full.nodes,
                    reach(full.nodes, full.edges, root, root_ops(full.root_types)),
                    n,
                );
            },
            None => {},
        },
        Mode::Orphaned => {
            lemma_nodes_in(full.nodes, any.complement(), n);
        },
        Mode::Deprecated => {
            lemma_nodes_in(full.nodes, deprecated_ids(full.nodes), n);
        },
    }
}

/// A type with a deprecated member is in the deprecated slice.
pub proof fn deprecated_types_are_shown(full: GraphModel, n: NodeModel)
    requires
        full.nodes.contains(n),
        has_deprecated(n),
    ensures
        slice_of(full, Mode::Deprecated, None).nodes.contains(n),
{
    let i = choose|i: int| 0 <= i < full.nodes.len() && full.nodes[i] == n;
    assert(brings(full.nodes[i], n.id));
    lemma_nodes_in(full.nodes, deprecated_ids(full.nodes), n);
}

/// The ids are those of nodes of the graph.
pub open spec fn joins_nodes(nodes: Seq<NodeModel>, e: EdgeModel) -> bool {
    node_ids(nodes).contains(e.source) && node_ids(nodes).contains(e.target)
}

proof fn lemma_nodes_filtered(
    nodes: Seq<NodeModel>,
    ids: Set<Seq<char>>,
    keep: spec_fn(NodeModel) -> bool,
)
    requires
        forall|i: int| 0 <= i < nodes.len() ==> keep(#[trigger] nodes[i]) == ids.contains(nodes[i].id),
    ensures
        nodes_in(nodes, ids) == nodes.filter(keep),
    decreases nodes.len(),
{
    reveal(Seq::filter);
    if nodes.len() > 0 {
        lemma_nodes_filtered(nodes.drop_last(), ids, keep);
        assert(nodes[nodes.len() - 1] == nodes.last());
    }
}

/// The orphaned slice keeps, in order, exactly the types that no root operation reaches, and the
/// edges it has join two of them; the roots stay, and the warnings are gone.
pub proof fn orphaned_slice_is_the_unreachable(full: GraphModel, picked: Option<Seq<char>>)
    ensures
        ({
            let s = slice_of(full, Mode::Orphaned, picked);
            let any = reach_any(full.nodes, full.edges, root_ops(full.root_types));
            &&& s.nodes == full.nodes.filter(|n: NodeModel| !any.contains(n.id))
            &&& s.root_types == full.root_types
            &&& s.warnings.len() == 0
            &&& s.error is None
            &&& forall|k: int|
                0 <= k < s.edges.len() ==> full.edges.contains(#[trigger] s.edges[k]) && joins_nodes(
                    s.nodes,
                    s.edges[k],
                )
        }),
{
    let s = slice_of(full, Mode::Orphaned, picked);
    let any = reach_any(full.nodes, full.edges, root_ops(full.root_types));
    lemma_nodes_filtered(full.nodes, any.complement(), |n: NodeModel| !any.contains(n.id));
    let ids = node_ids(orphans(full)).to_set();
    assert forall|k: int| 0 <= k < s.edges.len() implies full.edges.contains(#[trigger] s.edges[k])
        && joins_nodes(s.nodes, s.edges[k]) by {
        lemma_edges_in(full.edges, ids, k);
    }
}

/// The type `id` owns a deprecated member.
pub open spec fn owns_deprecated_member(nodes: Seq<NodeModel>, id: Seq<char>) -> bool {
    exists|i: int| 0 <= i < nodes.len() && (#[trigger] nodes[i]).id == id && has_deprecated(nodes[i])
}

/// Some deprecated field has the type `id`.
pub open spec fn is_type_of_deprecated(nodes: Seq<NodeModel>, id: Seq<char>) -> bool {
    exists|i: int|
        0 <= i < nodes.len() && is_deprecated_target(or_empty((#[trigger] nodes[i]).fields), id)
}

/// The deprecated slice keeps, in order, exactly the types that own a deprecated field or value and
/// the types of deprecated fields, and the edges it has join two of them; the roots stay, and the
/// warnings are gone.
pub proof fn deprecated_slice_is_owners_and_targets(full: GraphModel, picked: Option<Seq<char>>)
    requires
        forall|k: int| 0 <= k < full.edges.len() ==> joins_nodes(full.nodes, #[trigger] full.edges[k]),
    ensures
        ({
            let s = slice_of(full, Mode::Deprecated, picked);
            &&& s.nodes == full.nodes.filter(
                |n: NodeModel|
                    owns_deprecated_member(full.nodes, n.id) || is_type_of_deprecated(
                        full.nodes,
                        n.id,
                    ),
            )
            &&& s.root_types == full.root_types
            &&& s.warnings.len() == 0
            &&& s.error is None
            &&& forall|k: int|
                0 <= k < s.edges.len() ==> full.edges.contains(#[trigger] s.edges[k]) && joins_nodes(
                    s.nodes,
                    s.edges[k],
                )
        }),
{
    let s = slice_of(full, Mode::Deprecated, picked);
    let nodes = full.nodes;
    let ids = deprecated_ids(nodes);
    let keep = |n: NodeModel|
        owns_deprecated_member(nodes, n.id) || is_type_of_deprecated(nodes, n.id);
    assert forall|i: int| 0 <= i < nodes.len() implies keep(#[trigger] nodes[i]) == ids.contains(
        nodes[i].id,
    ) by {
        let id = nodes[i].id;
        if owns_deprecated_member(nodes, id) {
            let j = choose|j: int|
                0 <= j < nodes.len() && (#[trigger] nodes[j]).id == id && has_deprecated(nodes[j]);
            assert(brings(nodes[j], id));
        }
        if is_type_of_deprecated(nodes, id) {
            let j = choose|j: int|
                0 <= j < nodes.len() && is_deprecated_target(
                    or_empty((#[trigger] nodes[j]).fields),
                    id,
                );
            assert(brings(nodes[j], id));
        }
    }
    lemma_nodes_filtered(nodes, ids, keep);
    assert forall|k: int| 0 <= k < s.edges.len() implies full.edges.contains(#[trigger] s.edges[k])
        && joins_nodes(s.nodes, s.edges[k]) by {
        lemma_deprecated_edges(nodes, full.edges, k);
        let e = s.edges[k];
        lemma_kept_id(nodes, ids, e.source);
        lemma_kept_id(nodes, ids, e.target);
    }
}

proof fn lemma_kept_id(nodes: Seq<NodeModel>, ids: Set<Seq<char>>, id: Seq<char>)
    requires
        node_ids(nodes).contains(id),
        ids.contains(id),
    ensures
        node_ids(nodes_in(nodes, ids)).contains(id),
{
    let i = choose|i: int| 0 <= i < node_ids(nodes).len() && node_ids(nodes)[i] == id;
    lemma_nodes_in(nodes, ids, nodes[i]);
    let kept = nodes_in(nodes, ids);
    assert(nodes.contains(nodes[i]));
    let j = choose|j: int| 0 <= j < kept.len() && kept[j] == nodes[i];
    assert(node_ids(kept)[j] == id);
}

proof fn lemma_deprecated_edges(nodes: Seq<NodeModel>, edges: Seq<EdgeModel>, k: int)
    requires
        0 <= k < deprecated_edges(nodes, edges).len(),
    ensures
        edges.contains(deprecated_edges(nodes, edges)[k]),
        keeps_edge(nodes, deprecated_edges(nodes, edges)[k]),
    decreases edges.len(),
{
    let before = deprecated_edges(nodes, edges.drop_last());
    assert(edges[edges.len() - 1] == edges.last());
    if k < before.len() {
        lemma_deprecated_edges(nodes, edges.drop_last(), k);
        let j = choose|j: int|
            0 <= j < edges.drop_last().len() && edges.drop_last()[j] == before[k];
        assert(edges[j] == before[k]);
    }
}

// ── slicing ────────────────────────────────────────────────────────────────

/// The root operation types: the declared ones, or the conventional three where none is declared.
pub fn root_ops_of(roots: &RootTypeMap) -> (r: Vec<String>)
    ensures
        r.deep_view() == root_ops(roots.deep_view()),
{
    let mut out: Vec<String> = Vec::new();
    assert(out.deep_view() =~= Seq::<Seq<char>>::empty());
    push_slot(&mut out, &roots.query);
    push_slot(&mut out, &roots.mutation);
    push_slot(&mut out, &roots.subscription);
    assert(out.deep_view().len() == out@.len());
    if out.len() == 0 {
        default_root_ops()
    } else {
        out
    }
}

pub(crate) fn push_slot(names: &mut Vec<String>, slot: &Option<String>)
    ensures
        final(names).deep_view() == with_slot(old(names).deep_view(), slot.deep_view()),
{
    match slot {
        Some(name) => {
            let ghost before = names.deep_view();
            names.push(name.clone());
            assert(names.deep_view() =~= before.push(name@));
        },
        None => {},
    }
}

/// The root that the reachable slice starts from.
fn root_of(roots: &RootTypeMap, picked: Option<&str>) -> (r: Option<String>)
    ensures
        r.deep_view() == effective_root(roots.deep_view(), picked.deep_view()),
{
    match picked {
        Some(name) => {
            return Some(name.to_owned());
        },
        None => {},
    }
    match &roots.query {
        Some(name) => {
            return Some(name.clone());
        },
        None => {},
    }
    match &roots.mutation {
        Some(name) => {
            return Some(name.clone());
        },
        None => {},
    }
    match &roots.subscription {
        Some(name) => Some(name.clone()),
        None => None,
    }
}

/// Copies the values behind references.
fn copy_each<T: Duplicate>(refs: &Vec<&T>) -> (r: Vec<T>)
    ensures
        r.deep_view() == refs.deep_view(),
{
    let mut out: Vec<T> = Vec::new();
    let mut i: usize = 0;
    while i < refs.len()
        invariant
            i <= refs@.len(),
            out@.len() == i,
            forall|k: int| 0 <= k < i ==> (#[trigger] out@[k]).deep_view() == refs@[k].deep_view(),
        decreases refs@.len() - i,
    {
        out.push(refs[i].duplicate());
        i = i + 1;
    }
    assert(out.deep_view() =~= refs.deep_view());
    out
}

/// The nodes whose ids are among `names`, or those whose ids are not.
fn keep_nodes(nodes: &Vec<GraphNodeData>, names: &Vec<String>, listed: bool) -> (r: Vec<
    GraphNodeData,
>)
    ensures
        r.deep_view() == nodes_in(
            nodes.deep_view(),
            if listed {
                names.deep_view().to_set()
            } else {
                names.deep_view().to_set().complement()
            },
        ),
{
    let ghost ns = nodes.deep_view();
    let ghost ids = if listed {
        names.deep_view().to_set()
    } else {
        names.deep_view().to_set().complement()
    };
    let mut out: Vec<GraphNodeData> = Vec::new();
    let mut i: usize = 0;
    assert(ns.take(0) =~= Seq::<NodeModel>::empty());
    assert(out.deep_view() =~= Seq::<NodeModel>::empty());
    while i < nodes.len()
        invariant
            i <= nodes@.len(),
            ns == nodes.deep_view(),
            ids == (if listed {
                names.deep_view().to_set()
            } else {
                names.deep_view().to_set().complement()
            }),
            out.deep_view() == nodes_in(ns.take(i as int), ids),
        decreases nodes@.len() - i,
    {
        let ghost before = out.deep_view();
        assert(ns.take(i as int + 1).drop_last() =~= ns.take(i as int));
        assert(ns[i as int] == nodes@[i as int].deep_view());
        assert(ids.contains(ns[i as int].id) == (names.deep_view().contains(ns[i as int].id)
            == listed));
        if has_name(names, nodes[i].id.as_str()) == listed {
            out.push(nodes[i].duplicate());
            assert(out.deep_view() =~= before.push(ns[i as int]));
        }
        i = i + 1;
    }
    assert(ns.take(i as int) =~= ns);
    out
}

/// The ids of the nodes.
fn ids_of(nodes: &Vec<GraphNodeData>) -> (r: Vec<String>)
    ensures
        r.deep_view() == node_ids(nodes.deep_view()),
{
    let mut out: Vec<String> = Vec::new();
    let mut i: usize = 0;
    while i < nodes.len()
        invariant
            i <= nodes@.len(),
            out@.len() == i,
            forall|k: int| 0 <= k < i ==> (#[trigger] out@[k])@ == nodes@[k].id@,
        decreases nodes@.len() - i,
    {
        out.push(nodes[i].id.clone());
        i = i + 1;
    }
    assert(out.deep_view() =~= node_ids(nodes.deep_view()));
    out
}

/// The edges both ends of which are among `names`.
fn keep_edges(edges: &Vec<GraphEdgeData>, names: &Vec<String>) -> (r: Vec<GraphEdgeData>)
    ensures
        r.deep_view() == edges_in(edges.deep_view(), names.deep_view().to_set()),
{
    let ghost es = edges.deep_view();
    let ghost ids = names.deep_view().to_set();
    let mut out: Vec<GraphEdgeData> = Vec::new();
    let mut i: usize = 0;
    assert(es.take(0) =~= Seq::<EdgeModel>::empty());
    assert(out.deep_view() =~= Seq::<EdgeModel>::empty());
    while i < edges.len()
        invariant
            i <= edges@.len(),
            es == edges.deep_view(),
            ids == names.deep_view().to_set(),
            out.deep_view() == edges_in(es.take(i as int), ids),
        decreases edges@.len() - i,
    {
        let ghost before = out.deep_view();
        let ghost e = es[i as int];
        assert(es.take(i as int + 1).drop_last() =~= es.take(i as int));
        assert(e == edges@[i as int].deep_view());
        assert(ids.contains(e.source) == names.deep_view().contains(e.source));
        assert(ids.contains(e.target) == names.deep_view().contains(e.target));
        if has_name(names, edges[i].source.as_str()) && has_name(names, edges[i].target.as_str()) {
            out.push(edges[i].duplicate());
            assert(out.deep_view() =~= before.push(e));
        }
        i = i + 1;
    }
    assert(es.take(i as int) =~= es);
    out
}

/// Decides [`has_deprecated`].
#[verifier::loop_isolation(false)]
fn owns_deprecated(n: &GraphNodeData) -> (r: bool)
    ensures
        r == has_deprecated(n.deep_view()),
{
    match &n.fields {
        Some(fields) => {
            let ghost fs = fields.deep_view();
            assert(or_empty(n.deep_view().fields) == fs);
            let mut k: usize = 0;
            while k < fields.len()
                invariant
                    k <= fields@.len(),
                    forall|j: int| 0 <= j < k ==> !(#[trigger] fs[j]).is_deprecated,
                decreases fields@.len() - k,
            {
                assert(fs[k as int] == fields@[k as int].deep_view());
                if fields[k].is_deprecated {
                    return true;
                }
                k = k + 1;
            }
        },
        None => {},
    }
    assert(!has_deprecated_field(or_empty(n.deep_view().fields)));
    match &n.values {
        Some(values) => {
            let ghost vs = values.deep_view();
            assert(or_empty(n.deep_view().values) == vs);
            let mut k: usize = 0;
            while k < values.len()
                invariant
                    k <= values@.len(),
                    forall|j: int| 0 <= j < k ==> !(#[trigger] vs[j]).is_deprecated,
                decreases values@.len() - k,
            {
                assert(vs[k as int] == values@[k as int].deep_view());
                if values[k].is_deprecated {
                    return true;
                }
                k = k + 1;
            }
        },
        None => {},
    }
    false
}

/// Appends the types of the deprecated fields.
fn push_targets(out: &mut Vec<String>, fields: &Vec<GraphField>)
    ensures
        forall|id: Seq<char>|
            #[trigger] final(out).deep_view().contains(id) <==> old(out).deep_view().contains(id)
                || is_deprecated_target(fields.deep_view(), id),
{
    let ghost fs = fields.deep_view();
    let ghost start = out.deep_view();
    let mut k: usize = 0;
    while k < fields.len()
        invariant
            k <= fields@.len(),
            fs == fields.deep_view(),
            forall|id: Seq<char>|
                #[trigger] out.deep_view().contains(id) <==> start.contains(id)
                    || is_deprecated_target(fs.take(k as int), id),
        decreases fields@.len() - k,
    {
        let ghost before = out.deep_view();
        let ghost f = fs[k as int];
        assert(f == fields@[k as int].deep_view());
        if fields[k].is_deprecated {
            out.push(fields[k].base_type.clone());
            assert(out.deep_view() =~= before.push(f.base_type));
        }
        assert forall|id: Seq<char>| #[trigger] out.deep_view().contains(id) <==> start.contains(id)
            || is_deprecated_target(fs.take(k as int + 1), id) by {
            lemma_push_contains(before, f.base_type, id);
            assert(before.contains(id) <==> start.contains(id) || is_deprecated_target(
                fs.take(k as int),
                id,
            ));
            let now = fs.take(k as int + 1);
            if is_deprecated_target(fs.take(k as int), id) {
                let j = choose|j: int|
                    0 <= j < k && (#[trigger] fs.take(k as int)[j]).is_deprecated && fs.take(
                        k as int,
                    )[j].base_type == id;
                assert(now[j] == fs[j]);
            }
            assert(now[k as int] == f);
            if is_deprecated_target(now, id) {
                let j = choose|j: int|
                    0 <= j < now.len() && (#[trigger] now[j]).is_deprecated && now[j].base_type
                        == id;
                if j < k {
                    assert(fs.take(k as int)[j] == now[j]);
                }
            }
        }
        k = k + 1;
    }
    assert(fs.take(k as int) =~= fs);
}

/// The ids that the deprecated slice keeps.
fn deprecated_names(nodes: &Vec<GraphNodeData>) -> (r: Vec<String>)
    ensures
        r.deep_view().to_set() == deprecated_ids(nodes.deep_view()),
{
    let ghost ns = nodes.deep_view();
    let mut out: Vec<String> = Vec::new();
    assert(out.deep_view() =~= Seq::<Seq<char>>::empty());
    let mut i: usize = 0;
    while i < nodes.len()
        invariant
            i <= nodes@.len(),
            ns == nodes.deep_view(),
            forall|id: Seq<char>|
                #[trigger] out.deep_view().contains(id) <==> exists|k: int|
                    0 <= k < i && brings(#[trigger] ns[k], id),
        decreases nodes@.len() - i,
    {
        let ghost before = out.deep_view();
        let ghost n = ns[i as int];
        assert(n == nodes@[i as int].deep_view());
        if owns_deprecated(&nodes[i]) {
            out.push(nodes[i].id.clone());
            assert(out.deep_view() =~= before.push(n.id));
            let ghost named = out.deep_view();
            match &nodes[i].fields {
                Some(fields) => push_targets(&mut out, fields),
                None => {},
            }
            assert forall|id: Seq<char>| #[trigger] out.deep_view().contains(id) <==> before.contains(
                id,
            ) || brings(n, id) by {
                lemma_push_contains(before, n.id, id);
                assert(named.contains(id) <==> before.contains(id) || id == n.id);
            }
        }
        assert forall|id: Seq<char>| #[trigger] out.deep_view().contains(id) <==> exists|k: int|
            0 <= k < i + 1 && brings(#[trigger] ns[k], id) by {
            assert(before.contains(id) <==> exists|k: int|
                0 <= k < i && brings(#[trigger] ns[k], id));
            assert(out.deep_view().contains(id) <==> before.contains(id) || brings(n, id));
            if before.contains(id) {
                let k = choose|k: int| 0 <= k < i && brings(#[trigger] ns[k], id);
                assert(brings(ns[k], id));
            }
        }
        i = i + 1;
    }
    assert(out.deep_view().to_set() =~= deprecated_ids(ns));
    out
}

/// Decides [`leaves_deprecated`].
#[verifier::loop_isolation(false)]
fn from_deprecated(nodes: &Vec<GraphNodeData>, e: &GraphEdgeData) -> (r: bool)
    ensures
        r == leaves_deprecated(nodes.deep_view(), e.deep_view()),
{
    let ghost ns = nodes.deep_view();
    let ghost ids = node_ids(ns);
    proof {
        lemma_last_place(ids, e.source@);
    }
    let index: usize = match e.source_field_index {
        Some(i) => i,
        None => {
            return false;
        },
    };
    let mut k: usize = nodes.len();
    while k > 0
        invariant
            k <= nodes@.len(),
            forall|j: int| k <= j < nodes@.len() ==> ids[j] != e.source@,
        decreases k,
    {
        k = k - 1;
        assert(ids[k as int] == nodes@[k as int].id@);
        if same(nodes[k].id.as_str(), e.source.as_str()) {
            proof {
                lemma_last_place_is(ids, e.source@, k as int);
            }
            assert(ns[k as int] == nodes@[k as int].deep_view());
            match &nodes[k].fields {
                Some(fields) => {
                    assert(or_empty(ns[k as int].fields) == fields.deep_view());
                    if index < fields.len() {
                        assert(fields.deep_view()[index as int] == fields@[index as int].deep_view());
                        return fields[index].is_deprecated;
                    }
                    return false;
                },
                None => {
                    return false;
                },
            }
        }
    }
    false
}

/// The edges that the deprecated slice keeps.
fn keep_deprecated(
    nodes: &Vec<GraphNodeData>,
    edges: &Vec<GraphEdgeData>,
    names: &Vec<String>,
) -> (r: Vec<GraphEdgeData>)
    requires
        names.deep_view().to_set() == deprecated_ids(nodes.deep_view()),
    ensures
        r.deep_view() == deprecated_edges(nodes.deep_view(), edges.deep_view()),
{
    let ghost ns = nodes.deep_view();
    let ghost es = edges.deep_view();
    let mut out: Vec<GraphEdgeData> = Vec::new();
    let mut i: usize = 0;
    assert(es.take(0) =~= Seq::<EdgeModel>::empty());
    assert(out.deep_view() =~= Seq::<EdgeModel>::empty());
    while i < edges.len()
        invariant
            i <= edges@.len(),
            es == edges.deep_view(),
            ns == nodes.deep_view(),
            names.deep_view().to_set() == deprecated_ids(ns),
            out.deep_view() == deprecated_edges(ns, es.take(i as int)),
        decreases edges@.len() - i,
    {
        let ghost before = out.deep_view();
        let ghost e = es[i as int];
        assert(es.take(i as int + 1).drop_last() =~= es.take(i as int));
        assert(e == edges@[i as int].deep_view());
        assert(deprecated_ids(ns).contains(e.source) == names.deep_view().contains(e.source));
        assert(deprecated_ids(ns).contains(e.target) == names.deep_view().contains(e.target));
        if has_name(names, edges[i].source.as_str()) && has_name(names, edges[i].target.as_str())
            && (edges[i].kind != EdgeKind::Field || from_deprecated(nodes, &edges[i])) {
            out.push(edges[i].duplicate());
            assert(out.deep_view() =~= before.push(e));
        }
        i = i + 1;
    }
    assert(es.take(i as int) =~= es);
    out
}

/// Cuts the full graph down to the slice that a mode shows. `root_override` picks the root of the
/// reachable slice; without it the first declared root counts, and without any root the whole
/// graph is shown.
pub fn slice_graph(full: &ParsedGraph, mode: Mode, root_override: Option<&str>) -> (r: ParsedGraph)
    ensures
        r.deep_view() == slice_of(full.deep_view(), mode, root_override.deep_view()),
{
    let ops = root_ops_of(&full.root_types);
    let (nodes, edges) = match mode {
        Mode::Reachable => {
            match root_of(&full.root_types, root_override) {
                Some(root) => {
                    let sub = reachable_from(&full.nodes, &full.edges, root.as_str(), &ops);
                    (copy_each(&sub.nodes), copy_each(&sub.edges))
                },
                None => {
                    return full.duplicate();
                },
            }
        },
        Mode::Orphaned => {
            let reached = all_reachable_ids(&full.nodes, &full.edges, &ops);
            let nodes = keep_nodes(&full.nodes, &reached, false);
            let names = ids_of(&nodes);
            let edges = keep_edges(&full.edges, &names);
            (nodes, edges)
        },
        Mode::Deprecated => {
            let names = deprecated_names(&full.nodes);
            let nodes = keep_nodes(&full.nodes, &names, true);
            let edges = keep_deprecated(&full.nodes, &full.edges, &names);
            (nodes, edges)
        },
    };
    let r = ParsedGraph {
        nodes,
        edges,
        error: None,
        warnings: Vec::new(),
        root_types: full.root_types.duplicate(),
    };
    assert(r.deep_view().warnings =~= Seq::<Seq<char>>::empty());
    r
}

} // verus!
