//! Reachability from a root operation type.

use vstd::prelude::*;

use crate::edges::node_ids;
use crate::lists::has_name;
use crate::text::same;
use crate::types::{EdgeKind, EdgeModel, GraphEdgeData, GraphNodeData, NodeModel};

verus! {

/// Default root operation type names, used when a schema declares no explicit
/// `schema { query: … }` overrides.
pub const ROOT_OPS: [&'static str; 3] = ["Query", "Mutation", "Subscription"];

/// [`ROOT_OPS`] as owned names, for callers that have nothing schema-specific.
pub fn default_root_ops() -> (r: Vec<String>)
    ensures
        r.deep_view() == seq!["Query"@, "Mutation"@, "Subscription"@],
{
    let mut out: Vec<String> = Vec::new();
    out.push(ROOT_OPS[0].to_owned());
    out.push(ROOT_OPS[1].to_owned());
    out.push(ROOT_OPS[2].to_owned());
    assert(out.deep_view() =~= seq!["Query"@, "Mutation"@, "Subscription"@]);
    out
}

/// The slice of a graph reachable from one root, borrowed from the input.
#[derive(Debug)]
pub struct ReachableSubgraph<'a> {
    pub nodes: Vec<&'a GraphNodeData>,
    pub edges: Vec<&'a GraphEdgeData>,
}

// ── model ──────────────────────────────────────────────────────────────────

/// `id` is a root operation other than `root`, and the schema has it.
pub open spec fn is_other_root(
    nodes: Seq<NodeModel>,
    root: Seq<char>,
    root_ops: Seq<Seq<char>>,
    id: Seq<char>,
) -> bool {
    root_ops.contains(id) && id != root && node_ids(nodes).contains(id)
}

/// The walk from `root` may go from `a` to `b` along `e`: forward along any edge, backward along an
/// `implements` edge. No other root operation is entered, and no edge into one is used.
pub open spec fn leads(
    nodes: Seq<NodeModel>,
    root: Seq<char>,
    root_ops: Seq<Seq<char>>,
    e: EdgeModel,
    a: Seq<char>,
    b: Seq<char>,
) -> bool {
    &&& !is_other_root(nodes, root, root_ops, e.target)
    &&& !is_other_root(nodes, root, root_ops, b)
    &&& (e.source == a && e.target == b) || (e.kind == EdgeKind::Implements && e.target == a
        && e.source == b)
}

/// The walk from `root` may go from `a` to `b` along some edge.
pub open spec fn step(
    nodes: Seq<NodeModel>,
    edges: Seq<EdgeModel>,
    root: Seq<char>,
    root_ops: Seq<Seq<char>>,
    a: Seq<char>,
    b: Seq<char>,
) -> bool {
    exists|k: int|
        0 <= k < edges.len() && leads(nodes, root, root_ops, #[trigger] edges[k], a, b)
}

/// A walk from `root` to the last of `path`, step by step.
pub open spec fn is_path(
    nodes: Seq<NodeModel>,
    edges: Seq<EdgeModel>,
    root: Seq<char>,
    root_ops: Seq<Seq<char>>,
    path: Seq<Seq<char>>,
) -> bool {
    &&& path.len() > 0
    &&& path[0] == root
    &&& forall|i: int|
        #![trigger path[i]]
        0 < i < path.len() ==> step(nodes, edges, root, root_ops, path[i - 1], path[i])
}

/// The ids reachable from `root`: those that some walk ends in, if the schema has the root at all.
pub open spec fn reach(
    nodes: Seq<NodeModel>,
    edges: Seq<EdgeModel>,
    root: Seq<char>,
    root_ops: Seq<Seq<char>>,
) -> Set<Seq<char>> {
    if node_ids(nodes).contains(root) {
        Set::new(
            |id: Seq<char>|
                exists|path: Seq<Seq<char>>|
                    #[trigger] is_path(nodes, edges, root, root_ops, path) && path.last() == id,
        )
    } else {
        Set::empty()
    }
}

/// The nodes whose ids are in `ids`, in order.
pub open spec fn nodes_in(nodes: Seq<NodeModel>, ids: Set<Seq<char>>) -> Seq<NodeModel>
    decreases nodes.len(),
{
    if nodes.len() == 0 {
        Seq::empty()
    } else if ids.contains(nodes.last().id) {
        nodes_in(nodes.drop_last(), ids).push(nodes.last())
    } else {
        nodes_in(nodes.drop_last(), ids)
    }
}

/// The edges both ends of which are in `ids`, in order.
pub open spec fn edges_in(edges: Seq<EdgeModel>, ids: Set<Seq<char>>) -> Seq<EdgeModel>
    decreases edges.len(),
{
    if edges.len() == 0 {
        Seq::empty()
    } else if ids.contains(edges.last().source) && ids.contains(edges.last().target) {
        edges_in(edges.drop_last(), ids).push(edges.last())
    } else {
        edges_in(edges.drop_last(), ids)
    }
}

/// The ids reachable from any root operation in the schema.
pub open spec fn reach_any(
    nodes: Seq<NodeModel>,
    edges: Seq<EdgeModel>,
    root_ops: Seq<Seq<char>>,
) -> Set<Seq<char>> {
    Set::new(
        |id: Seq<char>|
            exists|k: int|
                0 <= k < root_ops.len() && reach(
                    nodes,
                    edges,
                    #[trigger] root_ops[k],
                    root_ops,
                ).contains(id),
    )
}

// ── lemmas ─────────────────────────────────────────────────────────────────

/// Distinct names that all come from `pool` are no more than `pool` has.
proof fn lemma_distinct_bound(names: Seq<Seq<char>>, pool: Seq<Seq<char>>)
    requires
        names.no_duplicates(),
        forall|i: int| 0 <= i < names.len() ==> pool.contains(#[trigger] names[i]),
    ensures
        names.len() <= pool.len(),
{
    names.unique_seq_to_set();
    pool.lemma_cardinality_of_set();
    assert forall|x: Seq<char>| names.to_set().contains(x) implies pool.to_set().contains(x) by {
        let i = choose|i: int| 0 <= i < names.len() && names[i] == x;
        assert(pool.contains(names[i]));
    }
    vstd::set_lib::lemma_len_subset(names.to_set(), pool.to_set());
}

/// Every name that a walk can meet: the root, then both ends of every edge.
spec fn pool_of(edges: Seq<EdgeModel>, root: Seq<char>) -> Seq<Seq<char>> {
    seq![root] + edges.map_values(|e: EdgeModel| e.source) + edges.map_values(
        |e: EdgeModel| e.target,
    )
}

proof fn lemma_pool(edges: Seq<EdgeModel>, root: Seq<char>)
    ensures
        pool_of(edges, root).len() == 1 + 2 * edges.len(),
        pool_of(edges, root).contains(root),
        forall|k: int|
            0 <= k < edges.len() ==> pool_of(edges, root).contains((#[trigger] edges[k]).source)
                && pool_of(edges, root).contains(edges[k].target),
{
    let pool = pool_of(edges, root);
    assert(pool[0] == root);
    assert forall|k: int| 0 <= k < edges.len() implies pool.contains((#[trigger] edges[k]).source)
        && pool.contains(edges[k].target) by {
        assert(pool[1 + k] == edges[k].source);
        assert(pool[1 + edges.len() + k] == edges[k].target);
    }
}

/// One more step lengthens a walk.
proof fn lemma_path_grows(
    nodes: Seq<NodeModel>,
    edges: Seq<EdgeModel>,
    root: Seq<char>,
    root_ops: Seq<Seq<char>>,
    a: Seq<char>,
    b: Seq<char>,
)
    requires
        reach(nodes, edges, root, root_ops).contains(a),
        step(nodes, edges, root, root_ops, a, b),
    ensures
        reach(nodes, edges, root, root_ops).contains(b),
{
    let path = choose|path: Seq<Seq<char>>|
        #[trigger] is_path(nodes, edges, root, root_ops, path) && path.last() == a;
    let longer = path.push(b);
    assert forall|i: int|
        #![trigger longer[i]]
        0 < i < longer.len() implies step(nodes, edges, root, root_ops, longer[i - 1], longer[i]) by {
        if i < path.len() {
            assert(longer[i] == path[i]);
            assert(longer[i - 1] == path[i - 1]);
        }
    }
    assert(is_path(nodes, edges, root, root_ops, longer));
    assert(longer.last() == b);
}

/// A set that holds the root and is closed under steps holds the end of every walk.
proof fn lemma_closed_holds(
    nodes: Seq<NodeModel>,
    edges: Seq<EdgeModel>,
    root: Seq<char>,
    root_ops: Seq<Seq<char>>,
    ids: Set<Seq<char>>,
    path: Seq<Seq<char>>,
)
    requires
        ids.contains(root),
        forall|a: Seq<char>, b: Seq<char>|
            ids.contains(a) && #[trigger] step(nodes, edges, root, root_ops, a, b) ==> ids.contains(
                b,
            ),
        is_path(nodes, edges, root, root_ops, path),
    ensures
        ids.contains(path.last()),
    decreases path.len(),
{
    if path.len() > 1 {
        let shorter = path.drop_last();
        assert forall|i: int|
            #![trigger shorter[i]]
            0 < i < shorter.len() implies step(
            nodes,
            edges,
            root,
            root_ops,
            shorter[i - 1],
            shorter[i],
        ) by {
            assert(shorter[i] == path[i]);
            assert(shorter[i - 1] == path[i - 1]);
        }
        lemma_closed_holds(nodes, edges, root, root_ops, ids, shorter);
        assert(path[path.len() - 1] == path.last());
        assert(step(nodes, edges, root, root_ops, shorter.last(), path.last()));
    }
}

/// A node is kept where its id is.
pub(crate) proof fn lemma_nodes_in(nodes: Seq<NodeModel>, ids: Set<Seq<char>>, n: NodeModel)
    ensures
        nodes_in(nodes, ids).contains(n) <==> nodes.contains(n) && ids.contains(n.id),
    decreases nodes.len(),
{
    if nodes.len() > 0 {
        let rest = nodes.drop_last();
        lemma_nodes_in(rest, ids, n);
        let kept = nodes_in(rest, ids);
        if nodes.contains(n) {
            let i = choose|i: int| 0 <= i < nodes.len() && nodes[i] == n;
            if i < rest.len() {
                assert(rest[i] == n);
            }
        }
        if rest.contains(n) {
            let i = choose|i: int| 0 <= i < rest.len() && rest[i] == n;
            assert(nodes[i] == n);
        }
        assert(nodes[nodes.len() - 1] == nodes.last());
        if ids.contains(nodes.last().id) {
            let more = kept.push(nodes.last());
            assert(more[kept.len() as int] == nodes.last());
            if kept.contains(n) {
                let i = choose|i: int| 0 <= i < kept.len() && kept[i] == n;
                assert(more[i] == n);
            }
            if more.contains(n) {
                let i = choose|i: int| 0 <= i < more.len() && more[i] == n;
                if i < kept.len() {
                    assert(kept[i] == n);
                }
            }
        }
    }
}

/// An edge is kept where both its ends are.
pub(crate) proof fn lemma_edges_in(edges: Seq<EdgeModel>, ids: Set<Seq<char>>, k: int)
    requires
        0 <= k < edges_in(edges, ids).len(),
    ensures
        edges.contains(edges_in(edges, ids)[k]),
        ids.contains(edges_in(edges, ids)[k].source),
        ids.contains(edges_in(edges, ids)[k].target),
    decreases edges.len(),
{
    let before = edges_in(edges.drop_last(), ids);
    assert(edges[edges.len() - 1] == edges.last());
    if k < before.len() {
        lemma_edges_in(edges.drop_last(), ids, k);
        let j = choose|j: int|
            0 <= j < edges.drop_last().len() && edges.drop_last()[j] == before[k];
        assert(edges[j] == before[k]);
    }
}

// ── laws ───────────────────────────────────────────────────────────────────

/// What is reachable from a root of the schema is the least set that holds the root and is closed
/// under steps.
pub proof fn reach_is_least_closed(
    nodes: Seq<NodeModel>,
    edges: Seq<EdgeModel>,
    root: Seq<char>,
    root_ops: Seq<Seq<char>>,
    ids: Set<Seq<char>>,
)
    requires
        node_ids(nodes).contains(root),
    ensures
        reach(nodes, edges, root, root_ops).contains(root),
        forall|a: Seq<char>, b: Seq<char>|
            reach(nodes, edges, root, root_ops).contains(a) && #[trigger] step(
                nodes,
                edges,
                root,
                root_ops,
                a,
                b,
            ) ==> reach(nodes, edges, root, root_ops).contains(b),
        ids.contains(root) && (forall|a: Seq<char>, b: Seq<char>|
            ids.contains(a) && #[trigger] step(nodes, edges, root, root_ops, a, b) ==> ids.contains(
                b,
            )) ==> reach(nodes, edges, root, root_ops).subset_of(ids),
{
    let r = reach(nodes, edges, root, root_ops);
    assert(is_path(nodes, edges, root, root_ops, seq![root]));
    assert(seq![root].last() == root);
    assert forall|a: Seq<char>, b: Seq<char>|
        r.contains(a) && #[trigger] step(nodes, edges, root, root_ops, a, b) implies r.contains(b) by {
        lemma_path_grows(nodes, edges, root, root_ops, a, b);
    }
    if ids.contains(root) && (forall|a: Seq<char>, b: Seq<char>|
        ids.contains(a) && #[trigger] step(nodes, edges, root, root_ops, a, b) ==> ids.contains(b)) {
        assert forall|id: Seq<char>| r.contains(id) implies ids.contains(id) by {
            let path = choose|path: Seq<Seq<char>>|
                #[trigger] is_path(nodes, edges, root, root_ops, path) && path.last() == id;
            lemma_closed_holds(nodes, edges, root, root_ops, ids, path);
        }
    }
}

/// A view from one root never spills into another root operation.
pub proof fn other_roots_stay_out(
    nodes: Seq<NodeModel>,
    edges: Seq<EdgeModel>,
    root: Seq<char>,
    root_ops: Seq<Seq<char>>,
    id: Seq<char>,
)
    requires
        is_other_root(nodes, root, root_ops, id),
    ensures
        !reach(nodes, edges, root, root_ops).contains(id),
{
    if reach(nodes, edges, root, root_ops).contains(id) {
        let path = choose|path: Seq<Seq<char>>|
            #[trigger] is_path(nodes, edges, root, root_ops, path) && path.last() == id;
        let n = path.len() as int;
        if n > 1 {
            assert(path[n - 1] == id);
            assert(step(nodes, edges, root, root_ops, path[n - 2], path[n - 1]));
        }
    }
}

/// Reaching a concrete type also reaches the interfaces it implements, and reaching an interface
/// also reaches its implementors, unless the walk would enter another root.
pub proof fn implements_go_both_ways(
    nodes: Seq<NodeModel>,
    edges: Seq<EdgeModel>,
    root: Seq<char>,
    root_ops: Seq<Seq<char>>,
    k: int,
)
    requires
        0 <= k < edges.len(),
        edges[k].kind == EdgeKind::Implements,
        !is_other_root(nodes, root, root_ops, edges[k].source),
        !is_other_root(nodes, root, root_ops, edges[k].target),
    ensures
        reach(nodes, edges, root, root_ops).contains(edges[k].source) <==> reach(
            nodes,
            edges,
            root,
            root_ops,
        ).contains(edges[k].target),
{
    let (s, t) = (edges[k].source, edges[k].target);
    assert(leads(nodes, root, root_ops, edges[k], s, t));
    assert(leads(nodes, root, root_ops, edges[k], t, s));
    if reach(nodes, edges, root, root_ops).contains(s) {
        lemma_path_grows(nodes, edges, root, root_ops, s, t);
    }
    if reach(nodes, edges, root, root_ops).contains(t) {
        lemma_path_grows(nodes, edges, root, root_ops, t, s);
    }
}

/// What is reachable from any root operation is what the slices of the root operations hold, taken
/// together; a root that names no node adds nothing.
pub proof fn reach_any_is_the_union(
    nodes: Seq<NodeModel>,
    edges: Seq<EdgeModel>,
    root_ops: Seq<Seq<char>>,
    id: Seq<char>,
)
    requires
        forall|k: int|
            0 <= k < edges.len() ==> node_ids(nodes).contains((#[trigger] edges[k]).source)
                && node_ids(nodes).contains(edges[k].target),
    ensures
        reach_any(nodes, edges, root_ops).contains(id) <==> exists|k: int|
            0 <= k < root_ops.len() && node_ids(
                nodes_in(nodes, reach(nodes, edges, #[trigger] root_ops[k], root_ops)),
            ).contains(id),
        forall|k: int|
            0 <= k < root_ops.len() && !node_ids(nodes).contains(#[trigger] root_ops[k])
                ==> nodes_in(nodes, reach(nodes, edges, root_ops[k], root_ops)).len() == 0,
{
    assert forall|k: int| 0 <= k < root_ops.len() implies node_ids(
        nodes_in(nodes, reach(nodes, edges, #[trigger] root_ops[k], root_ops)),
    ).contains(id) == reach(nodes, edges, root_ops[k], root_ops).contains(id) by {
        let ids = reach(nodes, edges, root_ops[k], root_ops);
        let kept = nodes_in(nodes, ids);
        if ids.contains(id) {
            let path = choose|path: Seq<Seq<char>>|
                #[trigger] is_path(nodes, edges, root_ops[k], root_ops, path) && path.last() == id;
            if path.len() > 1 {
                let i = path.len() - 1;
                assert(path[i] == id);
                assert(step(nodes, edges, root_ops[k], root_ops, path[i - 1], path[i]));
            } else {
                assert(path[0] == id);
            }
            let i = choose|i: int| 0 <= i < node_ids(nodes).len() && node_ids(nodes)[i] == id;
            assert(nodes.contains(nodes[i]));
            lemma_nodes_in(nodes, ids, nodes[i]);
            let j = choose|j: int| 0 <= j < kept.len() && kept[j] == nodes[i];
            assert(node_ids(kept)[j] == id);
        }
        if node_ids(kept).contains(id) {
            let j = choose|j: int| 0 <= j < node_ids(kept).len() && node_ids(kept)[j] == id;
            assert(kept.contains(kept[j]));
            lemma_nodes_in(nodes, ids, kept[j]);
        }
    }
    assert forall|k: int|
        0 <= k < root_ops.len() && !node_ids(nodes).contains(#[trigger] root_ops[k])
            implies nodes_in(nodes, reach(nodes, edges, root_ops[k], root_ops)).len() == 0 by {
        let kept = nodes_in(nodes, reach(nodes, edges, root_ops[k], root_ops));
        if kept.len() > 0 {
            assert(kept.contains(kept[0]));
            lemma_nodes_in(nodes, reach(nodes, edges, root_ops[k], root_ops), kept[0]);
        }
    }
}

// ── walking ────────────────────────────────────────────────────────────────

fn has_node(nodes: &Vec<GraphNodeData>, id: &str) -> (r: bool)
    ensures
        r == node_ids(nodes.deep_view()).contains(id@),
{
    let ghost ids = node_ids(nodes.deep_view());
    let mut i: usize = 0;
    while i < nodes.len()
        invariant
            i <= nodes@.len(),
            ids == node_ids(nodes.deep_view()),
            forall|j: int| 0 <= j < i ==> #[trigger] ids[j] != id@,
        decreases nodes@.len() - i,
    {
        assert(ids[i as int] == nodes@[i as int].id@);
        if same(nodes[i].id.as_str(), id) {
            return true;
        }
        i = i + 1;
    }
    false
}

/// The other root operations that the schema has.
fn other_roots(nodes: &Vec<GraphNodeData>, root: &str, root_ops: &Vec<String>) -> (r: Vec<String>)
    ensures
        forall|id: Seq<char>|
            #[trigger] r.deep_view().contains(id) <==> is_other_root(
                nodes.deep_view(),
                root@,
                root_ops.deep_view(),
                id,
            ),
{
    let ghost ops = root_ops.deep_view();
    let ghost ns = nodes.deep_view();
    let mut out: Vec<String> = Vec::new();
    let mut i: usize = 0;
    while i < root_ops.len()
        invariant
            i <= root_ops@.len(),
            ops == root_ops.deep_view(),
            ns == nodes.deep_view(),
            forall|id: Seq<char>|
                #[trigger] out.deep_view().contains(id) <==> is_other_root(
                    ns,
                    root@,
                    ops.take(i as int),
                    id,
                ),
        decreases root_ops@.len() - i,
    {
        let ghost before = out.deep_view();
        assert(ops[i as int] == root_ops@[i as int]@);
        assert forall|id: Seq<char>| ops.take(i as int + 1).contains(id) <==> (ops.take(
            i as int,
        ).contains(id) || id == ops[i as int]) by {
            lemma_take_contains(ops, i as int, id);
        }
        if !same(root_ops[i].as_str(), root) && has_node(nodes, root_ops[i].as_str()) {
            out.push(root_ops[i].clone());
            assert(out.deep_view() =~= before.push(ops[i as int]));
            assert forall|id: Seq<char>| #[trigger] out.deep_view().contains(id) <==> (
            before.contains(id) || id == ops[i as int]) by {
                lemma_push_contains(before, ops[i as int], id);
            }
        }
        i = i + 1;
    }
    assert(ops.take(i as int) =~= ops);
    out
}

pub(crate) proof fn lemma_push_contains(s: Seq<Seq<char>>, x: Seq<char>, id: Seq<char>)
    ensures
        s.push(x).contains(id) <==> (s.contains(id) || id == x),
{
    if s.contains(id) {
        let j = choose|j: int| 0 <= j < s.len() && s[j] == id;
        assert(s.push(x)[j] == id);
    }
    if id == x {
        assert(s.push(x)[s.len() as int] == id);
    }
    if s.push(x).contains(id) && id != x {
        let j = choose|j: int| 0 <= j < s.push(x).len() && s.push(x)[j] == id;
        assert(s[j] == id);
    }
}

proof fn lemma_take_contains(s: Seq<Seq<char>>, i: int, id: Seq<char>)
    requires
        0 <= i < s.len(),
    ensures
        s.take(i + 1).contains(id) <==> (s.take(i).contains(id) || id == s[i]),
{
    assert(s.take(i + 1) =~= s.take(i).push(s[i]));
    lemma_push_contains(s.take(i), s[i], id);
}

/// Adds `id` to `seen` unless it is there, or is another root.
fn visit_id(seen: &mut Vec<String>, others: &Vec<String>, id: &str)
    requires
        old(seen).deep_view().no_duplicates(),
    ensures
        final(seen).deep_view().no_duplicates(),
        final(seen).deep_view() == (if others.deep_view().contains(id@) || old(
            seen,
        ).deep_view().contains(id@) {
            old(seen).deep_view()
        } else {
            old(seen).deep_view().push(id@)
        }),
{
    let ghost before = seen.deep_view();
    if !has_name(others, id) && !has_name(seen, id) {
        seen.push(id.to_owned());
        assert(seen.deep_view() =~= before.push(id@));
        assert(seen.deep_view().no_duplicates());
    }
}

/// Node ids reachable from `root_id`, each once. The other root operations are left out, so that a
/// view of queries does not spill into the mutations' half of the schema.
///
/// Returns an empty set when `root_id` names no node.
#[verifier::rlimit(60)]
pub fn visit(
    nodes: &Vec<GraphNodeData>,
    edges: &Vec<GraphEdgeData>,
    root_id: &str,
    root_ops: &Vec<String>,
) -> (r: Option<Vec<String>>)
    ensures
        r is Some,
        r->0.deep_view().no_duplicates(),
        r->0.deep_view().to_set() == reach(
            nodes.deep_view(),
            edges.deep_view(),
            root_id@,
            root_ops.deep_view(),
        ),
        !node_ids(nodes.deep_view()).contains(root_id@) ==> r->0@.len() == 0,
{
    if !has_node(nodes, root_id) {
        let none: Vec<String> = Vec::new();
        assert(none.deep_view() =~= Seq::<Seq<char>>::empty());
        assert(none.deep_view().to_set() =~= Set::empty());
        assert(reach(
            nodes.deep_view(),
            edges.deep_view(),
            root_id@,
            root_ops.deep_view(),
        ) =~= Set::empty());
        return Some(none);
    }
    let ghost ns = nodes.deep_view();
    let ghost es = edges.deep_view();
    let ghost ops = root_ops.deep_view();
    let ghost root = root_id@;
    let ghost all = reach(ns, es, root, ops);
    let others = other_roots(nodes, root_id, root_ops);
    let mut seen: Vec<String> = Vec::new();
    seen.push(root_id.to_owned());
    proof {
        assert(seen.deep_view() =~= seq![root]);
        reach_is_least_closed(ns, es, root, ops, Set::empty());
        lemma_pool(es, root);
        assert(seen.deep_view()[0] == root);
        assert forall|i: int| 0 <= i < seen.deep_view().len() implies pool_of(es, root).contains(
            #[trigger] seen.deep_view()[i],
        ) by {}
        lemma_distinct_bound(seen.deep_view(), pool_of(es, root));
    }
    let mut head: usize = 0;
    while head < seen.len()
        invariant
            ns == nodes.deep_view(),
            es == edges.deep_view(),
            ops == root_ops.deep_view(),
            root == root_id@,
            all == reach(ns, es, root, ops),
            node_ids(ns).contains(root),
            forall|id: Seq<char>|
                #[trigger] others.deep_view().contains(id) <==> is_other_root(ns, root, ops, id),
            head <= seen@.len(),
            seen.deep_view().no_duplicates(),
            seen.deep_view().contains(root),
            seen.deep_view().len() <= pool_of(es, root).len(),
            forall|i: int|
                0 <= i < seen.deep_view().len() ==> all.contains(#[trigger] seen.deep_view()[i])
                    && pool_of(es, root).contains(seen.deep_view()[i]),
            forall|i: int, b: Seq<char>|
                0 <= i < head && #[trigger] step(ns, es, root, ops, seen.deep_view()[i], b)
                    ==> seen.deep_view().contains(b),
        decreases pool_of(es, root).len() - head,
    {
        let cur = seen[head].clone();
        let ghost a = cur@;
        assert(seen.deep_view()[head as int] == a);
        let ghost start = seen.deep_view();
        let mut k: usize = 0;
        while k < edges.len()
            invariant
                k <= edges@.len(),
                ns == nodes.deep_view(),
                es == edges.deep_view(),
                ops == root_ops.deep_view(),
                root == root_id@,
                all == reach(ns, es, root, ops),
                node_ids(ns).contains(root),
                forall|id: Seq<char>|
                    #[trigger] others.deep_view().contains(id) <==> is_other_root(
                        ns,
                        root,
                        ops,
                        id,
                    ),
                cur@ == a,
                all.contains(a),
                head < start.len(),
                start.len() <= seen.deep_view().len(),
                forall|i: int|
                    0 <= i < start.len() ==> #[trigger] seen.deep_view()[i] == start[i],
                seen.deep_view().no_duplicates(),
                seen.deep_view().len() <= pool_of(es, root).len(),
                forall|i: int|
                    0 <= i < seen.deep_view().len() ==> all.contains(#[trigger] seen.deep_view()[i])
                        && pool_of(es, root).contains(seen.deep_view()[i]),
                forall|j: int, b: Seq<char>|
                    0 <= j < k && #[trigger] leads(ns, root, ops, es[j], a, b)
                        ==> seen.deep_view().contains(b),
            decreases edges@.len() - k,
        {
            let ghost before = seen.deep_view();
            let ghost e = es[k as int];
            assert(e == edges@[k as int].deep_view());
            let edge = &edges[k];
            if !has_name(&others, edge.target.as_str()) {
                if same(edge.source.as_str(), cur.as_str()) {
                    visit_id(&mut seen, &others, edge.target.as_str());
                    proof {
                        if seen.deep_view() != before {
                            assert(leads(ns, root, ops, e, a, e.target));
                            lemma_path_grows(ns, es, root, ops, a, e.target);
                            lemma_seen_grows(es, root, before, e.target, k as int);
                        }
                        lemma_push_contains(before, e.target, e.target);
                    }
                }
                assert(forall|b: Seq<char>|
                    before.contains(b) ==> #[trigger] seen.deep_view().contains(b)) by {
                    assert forall|b: Seq<char>| before.contains(b) implies #[trigger] seen.deep_view().contains(
                        b,
                    ) by {
                        lemma_push_contains(before, e.target, b);
                    }
                }
                let ghost mid = seen.deep_view();
                if edge.kind == EdgeKind::Implements && same(edge.target.as_str(), cur.as_str()) {
                    visit_id(&mut seen, &others, edge.source.as_str());
                    proof {
                        if seen.deep_view() != mid {
                            assert(leads(ns, root, ops, e, a, e.source));
                            lemma_path_grows(ns, es, root, ops, a, e.source);
                            lemma_seen_grows(es, root, mid, e.source, k as int);
                        }
                        lemma_push_contains(mid, e.source, e.source);
                    }
                }
                assert(forall|b: Seq<char>|
                    mid.contains(b) ==> #[trigger] seen.deep_view().contains(b)) by {
                    assert forall|b: Seq<char>| mid.contains(b) implies #[trigger] seen.deep_view().contains(
                        b,
                    ) by {
                        lemma_push_contains(mid, e.source, b);
                    }
                }
            }
            assert forall|j: int, b: Seq<char>|
                0 <= j < k + 1 && #[trigger] leads(ns, root, ops, es[j], a, b) implies seen.deep_view().contains(
            b) by {
                if j < k {
                    assert(before.contains(b));
                } else {
                    assert(!others.deep_view().contains(b));
                    assert(!others.deep_view().contains(e.target));
                }
            }
            k = k + 1;
        }
        assert forall|i: int, b: Seq<char>|
            0 <= i < head + 1 && #[trigger] step(ns, es, root, ops, seen.deep_view()[i], b) implies seen.deep_view().contains(
        b) by {
            if i < head {
                assert(seen.deep_view()[i] == start[i]);
                assert(start.contains(b));
                let j = choose|j: int| 0 <= j < start.len() && start[j] == b;
                assert(seen.deep_view()[j] == b);
            } else {
                assert(seen.deep_view()[i] == start[i]);
                let j = choose|j: int|
                    0 <= j < es.len() && leads(ns, root, ops, #[trigger] es[j], a, b);
                assert(leads(ns, root, ops, es[j], a, b));
            }
        }
        proof {
            let j = choose|j: int| 0 <= j < start.len() && start[j] == root;
            assert(seen.deep_view()[j] == root);
        }
        head = head + 1;
    }
    proof {
        let ids = seen.deep_view().to_set();
        assert forall|x: Seq<char>, b: Seq<char>|
            ids.contains(x) && #[trigger] step(ns, es, root, ops, x, b) implies ids.contains(b) by {
            let i = choose|i: int| 0 <= i < seen.deep_view().len() && seen.deep_view()[i] == x;
            assert(step(ns, es, root, ops, seen.deep_view()[i], b));
            assert(seen.deep_view().contains(b));
        }
        reach_is_least_closed(ns, es, root, ops, ids);
        assert forall|x: Seq<char>| ids.contains(x) implies all.contains(x) by {
            let i = choose|i: int| 0 <= i < seen.deep_view().len() && seen.deep_view()[i] == x;
            assert(all.contains(seen.deep_view()[i]));
        }
        assert(ids =~= all);
    }
    Some(seen)
}

/// A newly seen end of an edge keeps the seen names within the pool.
proof fn lemma_seen_grows(
    edges: Seq<EdgeModel>,
    root: Seq<char>,
    seen: Seq<Seq<char>>,
    id: Seq<char>,
    k: int,
)
    requires
        0 <= k < edges.len(),
        id == edges[k].source || id == edges[k].target,
        seen.push(id).no_duplicates(),
        forall|i: int| 0 <= i < seen.len() ==> pool_of(edges, root).contains(#[trigger] seen[i]),
    ensures
        pool_of(edges, root).contains(id),
        seen.push(id).len() <= pool_of(edges, root).len(),
{
    lemma_pool(edges, root);
    let more = seen.push(id);
    assert forall|i: int| 0 <= i < more.len() implies pool_of(edges, root).contains(
        #[trigger] more[i],
    ) by {
        if i < seen.len() {
            assert(more[i] == seen[i]);
        }
    }
    lemma_distinct_bound(more, pool_of(edges, root));
}

/// Nodes and edges reachable from `root_id`; nothing when `root_id` names no node.
pub fn reachable_from<'a>(
    nodes: &'a Vec<GraphNodeData>,
    edges: &'a Vec<GraphEdgeData>,
    root_id: &str,
    root_ops: &Vec<String>,
) -> (r: ReachableSubgraph<'a>)
    ensures
        r.nodes.deep_view() == nodes_in(
            nodes.deep_view(),
            reach(nodes.deep_view(), edges.deep_view(), root_id@, root_ops.deep_view()),
        ),
        r.edges.deep_view() == edges_in(
            edges.deep_view(),
            reach(nodes.deep_view(), edges.deep_view(), root_id@, root_ops.deep_view()),
        ),
{
    let ghost ns = nodes.deep_view();
    let ghost es = edges.deep_view();
    let ghost ids = reach(ns, es, root_id@, root_ops.deep_view());
    let visited: Vec<String> = match visit(nodes, edges, root_id, root_ops) {
        Some(v) => v,
        None => Vec::new(),
    };
    assert(visited.deep_view().to_set() =~= ids);
    let mut kept: Vec<&'a GraphNodeData> = Vec::new();
    let mut i: usize = 0;
    assert(ns.take(0) =~= Seq::<NodeModel>::empty());
    assert(kept.deep_view() =~= Seq::<NodeModel>::empty());
    while i < nodes.len()
        invariant
            i <= nodes@.len(),
            ns == nodes.deep_view(),
            visited.deep_view().to_set() == ids,
            kept.deep_view() == nodes_in(ns.take(i as int), ids),
        decreases nodes@.len() - i,
    {
        let ghost before = kept.deep_view();
        assert(ns.take(i as int + 1).drop_last() =~= ns.take(i as int));
        assert(ns[i as int] == nodes@[i as int].deep_view());
        assert(ids.contains(ns[i as int].id) == visited.deep_view().contains(ns[i as int].id));
        if has_name(&visited, nodes[i].id.as_str()) {
            kept.push(&nodes[i]);
            assert(kept.deep_view() =~= before.push(ns[i as int]));
        }
        i = i + 1;
    }
    assert(ns.take(i as int) =~= ns);
    let mut links: Vec<&'a GraphEdgeData> = Vec::new();
    let mut k: usize = 0;
    assert(es.take(0) =~= Seq::<EdgeModel>::empty());
    assert(links.deep_view() =~= Seq::<EdgeModel>::empty());
    while k < edges.len()
        invariant
            k <= edges@.len(),
            es == edges.deep_view(),
            visited.deep_view().to_set() == ids,
            links.deep_view() == edges_in(es.take(k as int), ids),
        decreases edges@.len() - k,
    {
        let ghost before = links.deep_view();
        let ghost e = es[k as int];
        assert(es.take(k as int + 1).drop_last() =~= es.take(k as int));
        assert(e == edges@[k as int].deep_view());
        assert(ids.contains(e.source) == visited.deep_view().contains(e.source));
        assert(ids.contains(e.target) == visited.deep_view().contains(e.target));
        if has_name(&visited, edges[k].source.as_str()) && has_name(
            &visited,
            edges[k].target.as_str(),
        ) {
            links.push(&edges[k]);
            assert(links.deep_view() =~= before.push(e));
        }
        k = k + 1;
    }
    assert(es.take(k as int) =~= es);
    ReachableSubgraph { nodes: kept, edges: links }
}

/// The node ids reachable from *any* root operation in the schema, each once. Used to determine
/// which types are truly orphaned.
pub fn all_reachable_ids(
    nodes: &Vec<GraphNodeData>,
    edges: &Vec<GraphEdgeData>,
    root_ops: &Vec<String>,
) -> (r: Vec<String>)
    ensures
        r.deep_view().no_duplicates(),
        r.deep_view().to_set() == reach_any(
            nodes.deep_view(),
            edges.deep_view(),
            root_ops.deep_view(),
        ),
{
    let ghost ns = nodes.deep_view();
    let ghost es = edges.deep_view();
    let ghost ops = root_ops.deep_view();
    let mut out: Vec<String> = Vec::new();
    let none: Vec<String> = Vec::new();
    assert(none.deep_view() =~= Seq::<Seq<char>>::empty());
    assert(out.deep_view() =~= Seq::<Seq<char>>::empty());
    let mut i: usize = 0;
    while i < root_ops.len()
        invariant
            i <= root_ops@.len(),
            ns == nodes.deep_view(),
            es == edges.deep_view(),
            ops == root_ops.deep_view(),
            none.deep_view() == Seq::<Seq<char>>::empty(),
            out.deep_view().no_duplicates(),
            forall|id: Seq<char>|
                #[trigger] out.deep_view().contains(id) <==> exists|k: int|
                    0 <= k < i && reach(ns, es, #[trigger] ops[k], ops).contains(id),
        decreases root_ops@.len() - i,
    {
        let ghost start = out.deep_view();
        assert(ops[i as int] == root_ops@[i as int]@);
        let ghost more = reach(ns, es, ops[i as int], ops);
        match visit(nodes, edges, root_ops[i].as_str(), root_ops) {
            Some(ids) => {
                let ghost names = ids.deep_view();
                let mut j: usize = 0;
                while j < ids.len()
                    invariant
                        j <= ids@.len(),
                        names == ids.deep_view(),
                        none.deep_view() == Seq::<Seq<char>>::empty(),
                        out.deep_view().no_duplicates(),
                        forall|id: Seq<char>|
                            #[trigger] out.deep_view().contains(id) <==> (start.contains(id)
                                || names.take(j as int).contains(id)),
                    decreases ids@.len() - j,
                {
                    let ghost before = out.deep_view();
                    assert(names[j as int] == ids@[j as int]@);
                    visit_id(&mut out, &none, ids[j].as_str());
                    assert forall|id: Seq<char>| #[trigger] out.deep_view().contains(id) <==> (
                    start.contains(id) || names.take(j as int + 1).contains(id)) by {
                        lemma_take_contains(names, j as int, id);
                        lemma_push_contains(before, names[j as int], id);
                        assert(before.contains(id) <==> (start.contains(id) || names.take(
                            j as int,
                        ).contains(id)));
                    }
                    j = j + 1;
                }
                assert(names.take(j as int) =~= names);
                assert forall|id: Seq<char>| names.contains(id) <==> more.contains(id) by {
                    assert(names.to_set().contains(id) == more.contains(id));
                }
            },
            None => {},
        }
        assert forall|id: Seq<char>| #[trigger] out.deep_view().contains(id) <==> exists|k: int|
            0 <= k < i + 1 && reach(ns, es, #[trigger] ops[k], ops).contains(id) by {
            assert(out.deep_view().contains(id) <==> (start.contains(id) || more.contains(id)));
            if start.contains(id) {
                let k = choose|k: int|
                    0 <= k < i && reach(ns, es, #[trigger] ops[k], ops).contains(id);
                assert(reach(ns, es, ops[k], ops).contains(id));
            }
            if more.contains(id) {
                assert(reach(ns, es, ops[i as int], ops).contains(id));
            }
        }
        i = i + 1;
    }
    assert(out.deep_view().to_set() =~= reach_any(ns, es, ops));
    out
}

} // verus!
