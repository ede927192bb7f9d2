//! What the three modes show of a schema, told of its types and edges.

use vstd::prelude::*;

use crate::changes::is_only;
use crate::edges::node_ids;
use crate::extensions::or_empty;
use crate::finds::field_count;
use crate::lists::lemma_last_place_is;
use crate::reachable::{
    edges_in, is_other_root, leads, nodes_in, other_roots_stay_out, reach, reach_is_least_closed,
    step,
};
use crate::slices::{
    brings, declared_roots, deprecated_edges, deprecated_ids, has_deprecated, keeps_edge, root_ops,
    slice_of, Mode,
};
use crate::types::{EdgeKind, EdgeModel, GraphModel, NodeModel, RootModel};
use crate::wires::is_shown;

verus! {

/// `name` is a root operation: one that the schema names, or, where it names none, one of the usual
/// three.
pub open spec fn is_root_name(roots: RootModel, name: Seq<char>) -> bool {
    if roots.query is None && roots.mutation is None && roots.subscription is None {
        name == "Query"@ || name == "Mutation"@ || name == "Subscription"@
    } else {
        roots.query == Some(name) || roots.mutation == Some(name) || roots.subscription == Some(name)
    }
}

/// Every edge joins two types of the graph.
pub open spec fn edges_join_types(g: GraphModel) -> bool {
    forall|k: int|
        0 <= k < g.edges.len() ==> is_shown(g.nodes, (#[trigger] g.edges[k]).source) && is_shown(
            g.nodes,
            g.edges[k].target,
        )
}

proof fn lemma_ops(roots: RootModel, name: Seq<char>)
    ensures
        root_ops(roots).contains(name) <==> is_root_name(roots, name),
{
    let ops = root_ops(roots);
    let all = declared_roots(roots);
    if roots.query is None && roots.mutation is None && roots.subscription is None {
        assert(all.len() == 0);
        assert(ops[0] == "Query"@ && ops[1] == "Mutation"@ && ops[2] == "Subscription"@);
    } else {
        assert(all.len() > 0);
        if roots.query is Some {
            assert(ops[0] == roots.query->0);
        }
        if roots.mutation is Some {
            let k: int = if roots.query is Some { 1 } else { 0 };
            assert(ops[k] == roots.mutation->0);
        }
        if roots.subscription is Some {
            assert(ops[ops.len() - 1] == roots.subscription->0);
        }
    }
}

proof fn lemma_ids(nodes: Seq<NodeModel>, id: Seq<char>)
    ensures
        node_ids(nodes).contains(id) <==> is_shown(nodes, id),
{
    let ids = node_ids(nodes);
    if ids.contains(id) {
        let j = choose|j: int| 0 <= j < ids.len() && ids[j] == id;
        assert(nodes[j].id == id);
    }
    if is_shown(nodes, id) {
        let j = choose|j: int| 0 <= j < nodes.len() && (#[trigger] nodes[j]).id == id;
        assert(ids[j] == id);
    }
}

proof fn lemma_in(nodes: Seq<NodeModel>, ids: Set<Seq<char>>)
    ensures
        forall|n: NodeModel| #[trigger]
            nodes_in(nodes, ids).contains(n) <==> nodes.contains(n) && ids.contains(n.id),
    decreases nodes.len(),
{
    if nodes.len() > 0 {
        let less = nodes.drop_last();
        lemma_in(less, ids);
        let rest = nodes_in(less, ids);
        let all = nodes_in(nodes, ids);
        assert forall|n: NodeModel| #[trigger] all.contains(n) <==> nodes.contains(n) && ids.contains(
            n.id,
        ) by {
            if all.contains(n) {
                let k = choose|k: int| 0 <= k < all.len() && all[k] == n;
                if k < rest.len() {
                    assert(rest[k] == n);
                    assert(rest.contains(n));
                    let j = choose|j: int| 0 <= j < less.len() && less[j] == n;
                    assert(nodes[j] == n);
                } else {
                    assert(nodes[nodes.len() - 1] == n);
                }
            }
            if nodes.contains(n) && ids.contains(n.id) {
                let j = choose|j: int| 0 <= j < nodes.len() && nodes[j] == n;
                if j < less.len() {
                    assert(less[j] == n);
                    assert(rest.contains(n));
                    let k = choose|k: int| 0 <= k < rest.len() && rest[k] == n;
                    assert(all[k] == n);
                } else {
                    assert(all[rest.len() as int] == n);
                }
            }
        }
    }
}

proof fn lemma_edges_in(edges: Seq<EdgeModel>, ids: Set<Seq<char>>)
    ensures
        forall|e: EdgeModel| #[trigger]
            edges_in(edges, ids).contains(e) <==> edges.contains(e) && ids.contains(e.source)
                && ids.contains(e.target),
    decreases edges.len(),
{
    if edges.len() > 0 {
        let less = edges.drop_last();
        lemma_edges_in(less, ids);
        let rest = edges_in(less, ids);
        let all = edges_in(edges, ids);
        assert forall|n: EdgeModel| #[trigger] all.contains(n) <==> edges.contains(n) && ids.contains(
            n.source,
        ) && ids.contains(n.target) by {
            if all.contains(n) {
                let k = choose|k: int| 0 <= k < all.len() && all[k] == n;
                if k < rest.len() {
                    assert(rest[k] == n);
                    assert(rest.contains(n));
                    let j = choose|j: int| 0 <= j < less.len() && less[j] == n;
                    assert(edges[j] == n);
                } else {
                    assert(edges[edges.len() - 1] == n);
                }
            }
            if edges.contains(n) && ids.contains(n.source) && ids.contains(n.target) {
                let j = choose|j: int| 0 <= j < edges.len() && edges[j] == n;
                if j < less.len() {
                    assert(less[j] == n);
                    assert(rest.contains(n));
                    let k = choose|k: int| 0 <= k < rest.len() && rest[k] == n;
                    assert(all[k] == n);
                } else {
                    assert(all[rest.len() as int] == n);
                }
            }
        }
    }
}

/// A type of the schema is in the slice exactly where its id is in the set.
proof fn lemma_slice_shows(nodes: Seq<NodeModel>, ids: Set<Seq<char>>, id: Seq<char>)
    requires
        is_shown(nodes, id),
    ensures
        is_shown(nodes_in(nodes, ids), id) <==> ids.contains(id),
{
    lemma_in(nodes, ids);
    let s = nodes_in(nodes, ids);
    if ids.contains(id) {
        let j = choose|j: int| 0 <= j < nodes.len() && (#[trigger] nodes[j]).id == id;
        assert(nodes.contains(nodes[j]));
        assert(s.contains(nodes[j]));
        let k = choose|k: int| 0 <= k < s.len() && s[k] == nodes[j];
        assert(s[k].id == id);
    }
    if is_shown(s, id) {
        let k = choose|k: int| 0 <= k < s.len() && (#[trigger] s[k]).id == id;
        assert(s.contains(s[k]));
    }
}

/// The reachable slice of a root that the schema has: it shows the root, and with a type every type
/// that an edge leads to from there, and across `implements` the other way too, but no other root
/// operation. It shows the same edges between what it shows. It adds no type, and keeps the roots.
pub proof fn reachable_slices_follow_edges(full: GraphModel, root: Seq<char>, k: int)
    requires
        edges_join_types(full),
        is_shown(full.nodes, root),
        0 <= k < full.edges.len(),
    ensures
        ({
            let s = slice_of(full, Mode::Reachable, Some(root));
            let e = full.edges[k];
            let (to, from) = (e.target, e.source);
            &&& is_shown(s.nodes, root)
            &&& is_shown(s.nodes, from) && (!is_root_name(full.root_types, to) || to == root)
                ==> is_shown(s.nodes, to)
            &&& e.kind == EdgeKind::Implements && is_shown(s.nodes, to) && (!is_root_name(
                full.root_types,
                from,
            ) || from == root) ==> is_shown(s.nodes, from)
            &&& is_root_name(full.root_types, to) && to != root ==> !is_shown(s.nodes, to)
            &&& s.edges.contains(e) <==> is_shown(s.nodes, from) && is_shown(s.nodes, to)
            &&& s.root_types == full.root_types
            &&& forall|n: NodeModel| #[trigger] s.nodes.contains(n) ==> full.nodes.contains(n)
        }),
{
    let ops = root_ops(full.root_types);
    let ids = reach(full.nodes, full.edges, root, ops);
    let e = full.edges[k];
    let (to, from) = (e.target, e.source);
    lemma_ids(full.nodes, root);
    lemma_ids(full.nodes, to);
    lemma_ids(full.nodes, from);
    lemma_ops(full.root_types, to);
    lemma_ops(full.root_types, from);
    reach_is_least_closed(full.nodes, full.edges, root, ops, Set::empty());
    lemma_slice_shows(full.nodes, ids, root);
    lemma_slice_shows(full.nodes, ids, to);
    lemma_slice_shows(full.nodes, ids, from);
    lemma_in(full.nodes, ids);
    lemma_edges_in(full.edges, ids);
    assert(full.edges.contains(e));
    if ids.contains(from) && (!is_root_name(full.root_types, to) || to == root) {
        assert(leads(full.nodes, root, ops, full.edges[k], from, to));
        assert(step(full.nodes, full.edges, root, ops, from, to));
    }
    if is_root_name(full.root_types, to) && to != root {
        assert(is_other_root(full.nodes, root, ops, to));
        other_roots_stay_out(full.nodes, full.edges, root, ops, to);
    }
    if e.kind == EdgeKind::Implements && ids.contains(to) && (!is_root_name(full.root_types, from)
        || from == root) {
        if is_root_name(full.root_types, to) && to != root {
        } else {
            assert(leads(full.nodes, root, ops, full.edges[k], to, from));
            assert(step(full.nodes, full.edges, root, ops, to, from));
        }
    }
}

/// The reachable slice shows nothing that cannot be reached: any set of ids that holds the root and
/// that edges do not lead out of, nor `implements` edges the other way, holds all that is shown.
pub proof fn reachable_slices_hold_no_more(
    full: GraphModel,
    root: Seq<char>,
    ids: Set<Seq<char>>,
    id: Seq<char>,
)
    requires
        is_shown(full.nodes, root),
        ids.contains(root),
        forall|k: int|
            0 <= k < full.edges.len() && ids.contains((#[trigger] full.edges[k]).source) ==> ids.contains(
                full.edges[k].target,
            ),
        forall|k: int|
            0 <= k < full.edges.len() && (#[trigger] full.edges[k]).kind == EdgeKind::Implements
                && ids.contains(full.edges[k].target) ==> ids.contains(full.edges[k].source),
        is_shown(slice_of(full, Mode::Reachable, Some(root)).nodes, id),
    ensures
        ids.contains(id),
{
    let ops = root_ops(full.root_types);
    let all = reach(full.nodes, full.edges, root, ops);
    lemma_ids(full.nodes, root);
    assert forall|a: Seq<char>, b: Seq<char>|
        ids.contains(a) && #[trigger] step(full.nodes, full.edges, root, ops, a, b) implies ids.contains(
        b,
    ) by {
        let k = choose|k: int|
            0 <= k < full.edges.len() && leads(
                full.nodes,
                root,
                ops,
                #[trigger] full.edges[k],
                a,
                b,
            );
        assert(full.edges[k].source == a || full.edges[k].target == a);
    }
    reach_is_least_closed(full.nodes, full.edges, root, ops, ids);
    lemma_in(full.nodes, all);
    let s = slice_of(full, Mode::Reachable, Some(root)).nodes;
    let k = choose|k: int| 0 <= k < s.len() && (#[trigger] s[k]).id == id;
    assert(s.contains(s[k]));
}

/// Without a pick the view starts from the query type, or else the mutation type, or else the
/// subscription type, or else shows everything.
pub proof fn views_start_from_the_first_root(full: GraphModel)
    ensures
        full.root_types.query is Some ==> slice_of(full, Mode::Reachable, None) == slice_of(
            full,
            Mode::Reachable,
            full.root_types.query,
        ),
        full.root_types.query is None && full.root_types.mutation is Some ==> slice_of(
            full,
            Mode::Reachable,
            None,
        ) == slice_of(full, Mode::Reachable, full.root_types.mutation),
        full.root_types.query is None && full.root_types.mutation is None
            && full.root_types.subscription is Some ==> slice_of(full, Mode::Reachable, None)
            == slice_of(full, Mode::Reachable, full.root_types.subscription),
        full.root_types.query is None && full.root_types.mutation is None
            && full.root_types.subscription is None ==> slice_of(full, Mode::Reachable, None) == full,
{
}

/// The type has a deprecated field or a deprecated value.
pub open spec fn owns_deprecated(n: NodeModel) -> bool {
    ||| n.fields matches Some(rows) && exists|k: int|
        0 <= k < rows.len() && (#[trigger] rows[k]).is_deprecated
    ||| n.values matches Some(rows) && exists|k: int|
        0 <= k < rows.len() && (#[trigger] rows[k]).is_deprecated
}

/// Some field of the type is deprecated and gives `id`.
pub open spec fn gives_deprecated(n: NodeModel, id: Seq<char>) -> bool {
    n.fields matches Some(rows) && exists|k: int|
        0 <= k < rows.len() && (#[trigger] rows[k]).is_deprecated && rows[k].base_type == id
}

proof fn lemma_brings(n: NodeModel, id: Seq<char>)
    ensures
        has_deprecated(n) <==> owns_deprecated(n),
        brings(n, id) <==> (owns_deprecated(n) && n.id == id) || gives_deprecated(n, id),
{
    let fields = or_empty(n.fields);
    let values = or_empty(n.values);
    if owns_deprecated(n) {
        if n.fields matches Some(rows) && exists|k: int|
            0 <= k < rows.len() && (#[trigger] rows[k]).is_deprecated {
            let k = choose|k: int| 0 <= k < fields.len() && (#[trigger] fields[k]).is_deprecated;
            assert(fields[k].is_deprecated);
        } else {
            let k = choose|k: int| 0 <= k < values.len() && (#[trigger] values[k]).is_deprecated;
            assert(values[k].is_deprecated);
        }
    }
    if gives_deprecated(n, id) {
        let k = choose|k: int|
            0 <= k < fields.len() && (#[trigger] fields[k]).is_deprecated && fields[k].base_type == id;
        assert(fields[k].is_deprecated);
    }
}

/// The type is of interest among deprecated things: it has a deprecated field or value, or a
/// deprecated field of some type gives it.
pub open spec fn concerns_deprecated(nodes: Seq<NodeModel>, id: Seq<char>) -> bool {
    exists|i: int|
        0 <= i < nodes.len() && ((owns_deprecated(#[trigger] nodes[i]) && nodes[i].id == id)
            || gives_deprecated(nodes[i], id))
}

/// The deprecated slice shows exactly the types with a deprecated field or value and the types that
/// deprecated fields give. Of the edges between them it shows those of deprecated fields and those
/// that are of no field.
pub proof fn deprecated_slices_show_what_is_deprecated(
    full: GraphModel,
    picked: Option<Seq<char>>,
    n: NodeModel,
    k: int,
    i: int,
)
    requires
        0 <= k < full.edges.len(),
        is_only(full.nodes, full.edges[k].source, i),
    ensures
        slice_of(full, Mode::Deprecated, picked).nodes.contains(n) <==> full.nodes.contains(n)
            && concerns_deprecated(full.nodes, n.id),
        slice_of(full, Mode::Deprecated, picked).edges.contains(full.edges[k]) <==> {
            &&& concerns_deprecated(full.nodes, full.edges[k].source)
            &&& concerns_deprecated(full.nodes, full.edges[k].target)
            &&& full.edges[k].kind == EdgeKind::Field ==> (full.edges[k].source_field_index matches Some(
                x,
            ) && x < field_count(full.nodes[i]) && full.nodes[i].fields->0[x as int].is_deprecated)
        },
{
    let nodes = full.nodes;
    let e = full.edges[k];
    lemma_in(nodes, deprecated_ids(nodes));
    lemma_concerns(nodes, n.id);
    lemma_concerns(nodes, e.source);
    lemma_concerns(nodes, e.target);
    lemma_deprecated_edges(nodes, full.edges, e);
    assert(full.edges.contains(e));
    let ids = node_ids(nodes);
    assert(ids[i] == e.source);
    assert forall|b: int| i < b < ids.len() implies #[trigger] ids[b] != e.source by {
        assert(nodes[b].id != e.source);
    }
    lemma_last_place_is(ids, e.source, i);
}

proof fn lemma_concerns(nodes: Seq<NodeModel>, id: Seq<char>)
    ensures
        deprecated_ids(nodes).contains(id) <==> concerns_deprecated(nodes, id),
{
    if deprecated_ids(nodes).contains(id) {
        let i = choose|i: int| 0 <= i < nodes.len() && brings(#[trigger] nodes[i], id);
        lemma_brings(nodes[i], id);
        assert((owns_deprecated(nodes[i]) && nodes[i].id == id) || gives_deprecated(nodes[i], id));
    }
    if concerns_deprecated(nodes, id) {
        let i = choose|i: int|
            0 <= i < nodes.len() && ((owns_deprecated(#[trigger] nodes[i]) && nodes[i].id == id)
                || gives_deprecated(nodes[i], id));
        lemma_brings(nodes[i], id);
        assert(brings(nodes[i], id));
    }
}

proof fn lemma_deprecated_edges(nodes: Seq<NodeModel>, edges: Seq<EdgeModel>, e: EdgeModel)
    ensures
        deprecated_edges(nodes, edges).contains(e) <==> edges.contains(e) && keeps_edge(nodes, e),
    decreases edges.len(),
{
    if edges.len() > 0 {
        let less = edges.drop_last();
        lemma_deprecated_edges(nodes, less, e);
        let rest = deprecated_edges(nodes, less);
        let all = deprecated_edges(nodes, edges);
        if all.contains(e) {
            let k = choose|k: int| 0 <= k < all.len() && all[k] == e;
            if k < rest.len() {
                assert(rest[k] == e);
                let j = choose|j: int| 0 <= j < less.len() && less[j] == e;
                assert(edges[j] == e);
            } else {
                assert(edges[edges.len() - 1] == e);
            }
        }
        if edges.contains(e) && keeps_edge(nodes, e) {
            let j = choose|j: int| 0 <= j < edges.len() && edges[j] == e;
            if j < less.len() {
                assert(less[j] == e);
                let k = choose|k: int| 0 <= k < rest.len() && rest[k] == e;
                assert(all[k] == e);
            } else {
                assert(all[rest.len() as int] == e);
            }
        }
    }
}

} // verus!
