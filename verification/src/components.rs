//! Weakly-connected components.
//!
//! Nodes that can reach each other when edges are treated as undirected. The layout uses this to
//! split a schema into independent subgraphs; because no edges cross component boundaries,
//! per-component layouts merge trivially by translating coordinates.

use vstd::prelude::*;

use crate::edges::node_ids;
use crate::lists::{has_name, last_place, lemma_last_place, lemma_last_place_is};
use crate::text::same;
use crate::types::{EdgeModel, GraphEdgeData, GraphNodeData, NodeModel};
use crate::unions::{
    everything_has_a_leader, groups, groups_lead, groups_partition, is_grouping, leaders,
    lemma_leaders, linked, linked_is_equivalence, pairs_link,
};

verus! {

/// A set of nodes that hang together.
#[derive(Debug, PartialEq, Eq)]
pub struct Component {
    /// The ids of the nodes, each once, in node order.
    pub node_ids: Vec<String>,
}

impl DeepView for Component {
    type V = Seq<Seq<char>>;

    open spec fn deep_view(&self) -> Seq<Seq<char>> {
        self.node_ids.deep_view()
    }
}

// ── model ──────────────────────────────────────────────────────────────────

/// The places of the two ends of every edge between known nodes. An id stands for the last node that
/// has it; an edge to an unknown id joins nothing.
pub open spec fn ends_of(nodes: Seq<NodeModel>, edges: Seq<EdgeModel>) -> Seq<(usize, usize)>
    decreases edges.len(),
{
    if edges.len() == 0 {
        Seq::empty()
    } else {
        let before = ends_of(nodes, edges.drop_last());
        let s = last_place(node_ids(nodes), edges.last().source);
        let t = last_place(node_ids(nodes), edges.last().target);
        if s >= 0 && t >= 0 { before.push((s as usize, t as usize)) } else { before }
    }
}

/// The ids among the first `n` nodes that hang together with the node at `leader`, each once.
pub open spec fn members(
    nodes: Seq<NodeModel>,
    edges: Seq<EdgeModel>,
    leader: int,
    n: nat,
) -> Seq<Seq<char>>
    decreases n,
{
    if n == 0 {
        Seq::empty()
    } else {
        let before = members(nodes, edges, leader, (n - 1) as nat);
        let id = nodes[n - 1].id;
        if linked(ends_of(nodes, edges), leader, n - 1) && !before.contains(id) {
            before.push(id)
        } else {
            before
        }
    }
}

/// The components, in the order their first members appear.
pub open spec fn components_of(nodes: Seq<NodeModel>, edges: Seq<EdgeModel>) -> Seq<Seq<Seq<char>>> {
    leaders(ends_of(nodes, edges), nodes.len()).map_values(
        |leader: int| members(nodes, edges, leader, nodes.len()),
    )
}

// ── laws ───────────────────────────────────────────────────────────────────

proof fn lemma_members(
    nodes: Seq<NodeModel>,
    edges: Seq<EdgeModel>,
    leader: int,
    n: nat,
)
    requires
        n <= nodes.len(),
    ensures
        members(nodes, edges, leader, n).no_duplicates(),
        forall|id: Seq<char>|
            #[trigger] members(nodes, edges, leader, n).contains(id) <==> exists|i: int|
                0 <= i < n && linked(ends_of(nodes, edges), leader, i) && (#[trigger] nodes[i]).id == id,
    decreases n,
{
    if n > 0 {
        lemma_members(nodes, edges, leader, (n - 1) as nat);
        let before = members(nodes, edges, leader, (n - 1) as nat);
        let now = members(nodes, edges, leader, n);
        let last = nodes[n - 1].id;
        assert forall|id: Seq<char>| #[trigger] now.contains(id) <==> exists|i: int|
            0 <= i < n && linked(ends_of(nodes, edges), leader, i) && (#[trigger] nodes[i]).id == id by {
            if now.contains(id) {
                let j = choose|j: int| 0 <= j < now.len() && now[j] == id;
                if j < before.len() {
                    assert(before[j] == id);
                    assert(before.contains(id));
                } else {
                    assert(nodes[n - 1].id == id);
                }
            }
            if exists|i: int|
                0 <= i < n && linked(ends_of(nodes, edges), leader, i) && (#[trigger] nodes[i]).id == id {
                let i = choose|i: int|
                    0 <= i < n && linked(ends_of(nodes, edges), leader, i) && (#[trigger] nodes[i]).id == id;
                if i < n - 1 {
                    assert(before.contains(id));
                    let j = choose|j: int| 0 <= j < before.len() && before[j] == id;
                    assert(now[j] == id);
                } else if before.contains(id) {
                    let j = choose|j: int| 0 <= j < before.len() && before[j] == id;
                    assert(now[j] == id);
                } else {
                    assert(now[before.len() as int] == id);
                }
            }
        }
    }
}

/// Every node is in a component, and only there: the node at `i` belongs to the component `c` just
/// where it hangs together with that component's first member, which is the case for exactly one
/// `c`.
pub proof fn components_partition(nodes: Seq<NodeModel>, edges: Seq<EdgeModel>, i: int)
    requires
        0 <= i < nodes.len(),
    ensures
        exists|c: int|
            #![trigger leaders(ends_of(nodes, edges), nodes.len())[c]]
            0 <= c < components_of(nodes, edges).len() && linked(
                ends_of(nodes, edges),
                leaders(ends_of(nodes, edges), nodes.len())[c],
                i,
            ) && components_of(nodes, edges)[c].contains(nodes[i].id),
        forall|c: int, d: int|
            0 <= c < components_of(nodes, edges).len() && 0 <= d < components_of(nodes, edges).len()
                && linked(
                ends_of(nodes, edges),
                #[trigger] leaders(ends_of(nodes, edges), nodes.len())[c],
                i,
            ) && linked(
                ends_of(nodes, edges),
                #[trigger] leaders(ends_of(nodes, edges), nodes.len())[d],
                i,
            ) ==> c == d,
{
    let pairs = ends_of(nodes, edges);
    let ls = leaders(pairs, nodes.len());
    lemma_leaders(pairs, nodes.len());
    everything_has_a_leader(pairs, nodes.len(), i);
    let c = choose|c: int| 0 <= c < ls.len() && linked(pairs, #[trigger] ls[c], i);
    lemma_members(nodes, edges, ls[c], nodes.len());
    assert(components_of(nodes, edges)[c] == members(nodes, edges, ls[c], nodes.len()));
    assert(linked(pairs, ls[c], i) && nodes[i].id == nodes[i].id);
    assert forall|c: int, d: int|
        0 <= c < ls.len() && 0 <= d < ls.len() && linked(pairs, #[trigger] ls[c], i) && linked(
            pairs,
            #[trigger] ls[d],
            i,
        ) implies c == d by {
        linked_is_equivalence(pairs, ls[d], i, i);
        linked_is_equivalence(pairs, ls[c], i, ls[d]);
        linked_is_equivalence(pairs, ls[c], ls[d], ls[d]);
        if c < d {
            assert(ls[c] < ls[d]);
        } else if d < c {
            assert(ls[d] < ls[c]);
        }
    }
}

/// No edge crosses a component boundary: the two ends of an edge between known nodes hang together
/// with the same first members.
pub proof fn edges_stay_within_components(
    nodes: Seq<NodeModel>,
    edges: Seq<EdgeModel>,
    k: int,
    leader: int,
)
    requires
        0 <= k < edges.len(),
        nodes.len() <= usize::MAX,
        node_ids(nodes).contains(edges[k].source),
        node_ids(nodes).contains(edges[k].target),
    ensures
        linked(
            ends_of(nodes, edges),
            leader,
            last_place(node_ids(nodes), edges[k].source),
        ) <==> linked(
            ends_of(nodes, edges),
            leader,
            last_place(node_ids(nodes), edges[k].target),
        ),
{
    let pairs = ends_of(nodes, edges);
    let s = last_place(node_ids(nodes), edges[k].source);
    let t = last_place(node_ids(nodes), edges[k].target);
    lemma_last_place(node_ids(nodes), edges[k].source);
    lemma_last_place(node_ids(nodes), edges[k].target);
    lemma_ends(nodes, edges, k);
    let j = choose|j: int| 0 <= j < pairs.len() && pairs[j] == (s as usize, t as usize);
    pairs_link(pairs, j);
    linked_is_equivalence(pairs, s, t, t);
    linked_is_equivalence(pairs, leader, s, t);
    linked_is_equivalence(pairs, leader, t, s);
}

proof fn lemma_ends(nodes: Seq<NodeModel>, edges: Seq<EdgeModel>, k: int)
    requires
        0 <= k < edges.len(),
        last_place(node_ids(nodes), edges[k].source) >= 0,
        last_place(node_ids(nodes), edges[k].target) >= 0,
    ensures
        ends_of(nodes, edges).contains(
            (
                last_place(node_ids(nodes), edges[k].source) as usize,
                last_place(node_ids(nodes), edges[k].target) as usize,
            ),
        ),
    decreases edges.len(),
{
    let s = last_place(node_ids(nodes), edges[k].source) as usize;
    let t = last_place(node_ids(nodes), edges[k].target) as usize;
    let now = ends_of(nodes, edges);
    let before = ends_of(nodes, edges.drop_last());
    if k == edges.len() - 1 {
        assert(now[before.len() as int] == (s, t));
    } else {
        assert(edges.drop_last()[k] == edges[k]);
        lemma_ends(nodes, edges.drop_last(), k);
        let j = choose|j: int| 0 <= j < before.len() && before[j] == (s, t);
        assert(now[j] == (s, t));
    }
}

// ── grouping ───────────────────────────────────────────────────────────────

/// The last node with the id `id`.
fn place_of(nodes: &Vec<GraphNodeData>, id: &str) -> (r: Option<usize>)
    ensures
        match r {
            Some(i) => i < nodes@.len() && i as int == last_place(
                node_ids(nodes.deep_view()),
                id@,
            ),
            None => last_place(node_ids(nodes.deep_view()), id@) < 0,
        },
{
    let ghost names = node_ids(nodes.deep_view());
    let mut i: usize = nodes.len();
    while i > 0
        invariant
            i <= nodes@.len(),
            names == node_ids(nodes.deep_view()),
            forall|j: int| i <= j < nodes@.len() ==> #[trigger] names[j] != id@,
        decreases i,
    {
        i = i - 1;
        assert(names[i as int] == nodes@[i as int].id@);
        if same(nodes[i].id.as_str(), id) {
            proof {
                lemma_last_place_is(names, id@, i as int);
            }
            return Some(i);
        }
    }
    proof {
        lemma_last_place_is(names, id@, -1);
    }
    None
}

fn find_ends(nodes: &Vec<GraphNodeData>, edges: &Vec<GraphEdgeData>) -> (r: Vec<(usize, usize)>)
    ensures
        r@ == ends_of(nodes.deep_view(), edges.deep_view()),
        forall|k: int|
            0 <= k < r@.len() ==> (#[trigger] r@[k]).0 < nodes@.len() && r@[k].1 < nodes@.len(),
{
    let ghost ns = nodes.deep_view();
    let ghost es = edges.deep_view();
    let mut out: Vec<(usize, usize)> = Vec::new();
    let mut i: usize = 0;
    assert(es.take(0) =~= Seq::<EdgeModel>::empty());
    while i < edges.len()
        invariant
            i <= edges@.len(),
            ns == nodes.deep_view(),
            es == edges.deep_view(),
            out@ == ends_of(ns, es.take(i as int)),
            forall|k: int|
                0 <= k < out@.len() ==> (#[trigger] out@[k]).0 < nodes@.len() && out@[k].1
                    < nodes@.len(),
        decreases edges@.len() - i,
    {
        assert(es.take(i as int + 1).drop_last() =~= es.take(i as int));
        assert(es[i as int] == edges@[i as int].deep_view());
        let source = place_of(nodes, edges[i].source.as_str());
        let target = place_of(nodes, edges[i].target.as_str());
        if let Some(a) = source {
            if let Some(b) = target {
                out.push((a, b));
            }
        }
        i = i + 1;
    }
    assert(es.take(i as int) =~= es);
    out
}

/// Components, in the order their first member appears in `nodes`.
#[verifier::rlimit(60)]
pub fn weakly_connected_components(
    nodes: &Vec<GraphNodeData>,
    edges: &Vec<GraphEdgeData>,
) -> (r: Vec<Component>)
    ensures
        r.deep_view() == components_of(nodes.deep_view(), edges.deep_view()),
{
    let ghost ns = nodes.deep_view();
    let ghost es = edges.deep_view();
    let n: usize = nodes.len();
    let pairs = find_ends(nodes, edges);
    let (group, count) = groups(n, &pairs);
    let ghost ls = leaders(pairs@, n as nat);
    let mut buckets: Vec<Component> = Vec::new();
    let mut z: usize = 0;
    while z < count
        invariant
            z <= count,
            buckets@.len() == z,
            forall|c: int|
                0 <= c < z ==> (#[trigger] buckets@[c]).deep_view() == members(ns, es, ls[c], 0),
        decreases count - z,
    {
        buckets.push(Component { node_ids: Vec::new() });
        assert(buckets@[z as int].deep_view() =~= Seq::<Seq<char>>::empty());
        z = z + 1;
    }
    let mut i: usize = 0;
    while i < n
        invariant
            i <= n,
            n == nodes@.len(),
            ns == nodes.deep_view(),
            pairs@ == ends_of(ns, es),
            ls == leaders(pairs@, n as nat),
            is_grouping(pairs@, n as nat, group@),
            buckets@.len() == ls.len(),
            forall|c: int|
                0 <= c < buckets@.len() ==> (#[trigger] buckets@[c]).deep_view() == members(
                    ns,
                    es,
                    ls[c],
                    i as nat,
                ),
        decreases n - i,
    {
        let slot = group[i];
        let ghost old_buckets = buckets@;
        let ghost held = buckets@[slot as int].deep_view();
        assert(ns[i as int].id == nodes@[i as int].id@);
        assert(linked(pairs@, ls[slot as int], i as int));
        if !has_name(&buckets[slot].node_ids, nodes[i].id.as_str()) {
            buckets[slot].node_ids.push(nodes[i].id.clone());
            assert(buckets@[slot as int].deep_view() =~= held.push(ns[i as int].id));
        }
        proof {
            lemma_leaders(pairs@, n as nat);
            assert forall|c: int| 0 <= c < buckets@.len() implies (#[trigger] buckets@[c]).deep_view()
                == members(ns, es, ls[c], (i + 1) as nat) by {
                if c != slot {
                    assert(buckets@[c] == old_buckets[c]);
                    assert(group@[ls[c]] == c) by {
                        linked_is_equivalence(pairs@, ls[c], ls[c], ls[c]);
                        groups_lead(pairs@, n as nat, group@, c);
                    }
                    groups_partition(pairs@, n as nat, group@, ls[c], i as int);
                }
            }
        }
        i = i + 1;
    }
    assert(buckets.deep_view() =~= components_of(ns, es));
    buckets
}

} // verus!
