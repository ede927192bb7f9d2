//! The network simplex as a function: the first ranks, the first tree, and what each swap of tree
//! edges makes of them.
//!
//! Nodes are numbered from zero. Edges are taken without loops and with no negative `minlen`, and
//! one free edge from node 0 ties each further component to it, so that there is a single tree.

use vstd::prelude::*;

use crate::ranking::{feasible, grows_along, total_span, walkable, RankEdge};
use crate::unions::leaders;

verus! {

// ── the problem ────────────────────────────────────────────────────────────

/// The edge with a negative `minlen` read as zero.
pub open spec fn clamped(e: RankEdge) -> RankEdge {
    RankEdge { minlen: if e.minlen < 0 { 0 } else { e.minlen }, ..e }
}

/// The places of the first `m` edges that are no loops.
pub open spec fn proper(edges: Seq<RankEdge>, m: nat) -> Seq<int>
    decreases m,
{
    if m == 0 {
        Seq::empty()
    } else if edges[m - 1].is_loop() {
        proper(edges, (m - 1) as nat)
    } else {
        proper(edges, (m - 1) as nat).push(m - 1)
    }
}

/// The first `m` edges without the loops, each clamped.
pub open spec fn kept(edges: Seq<RankEdge>, m: nat) -> Seq<RankEdge> {
    Seq::new(proper(edges, m).len(), |j: int| clamped(edges[proper(edges, m)[j]]))
}

/// The ends of the edges.
pub open spec fn ends_of(edges: Seq<RankEdge>) -> Seq<(usize, usize)> {
    Seq::new(edges.len(), |i: int| (edges[i].from as usize, edges[i].to as usize))
}

/// An edge from node 0 to `v` that pulls nothing and asks for no column.
pub open spec fn bridge(v: int) -> RankEdge {
    RankEdge { from: 0, to: v as u32, weight: 0, minlen: 0 }
}

/// A bridge to the first node of each component but that of node 0.
pub open spec fn bridges(n: nat, edges: Seq<RankEdge>) -> Seq<RankEdge> {
    Seq::new(
        (leaders(ends_of(edges), n).len() - 1) as nat,
        |c: int| bridge(leaders(ends_of(edges), n)[c + 1]),
    )
}

/// The edges that are ranked: those given and the bridges.
pub open spec fn tied(n: nat, edges: Seq<RankEdge>) -> Seq<RankEdge> {
    kept(edges, edges.len()) + bridges(n, edges)
}

// ── the first ranks ────────────────────────────────────────────────────────

/// How far edge `i` runs beyond what it must span.
pub open spec fn slack(edges: Seq<RankEdge>, rank: Seq<int>, i: int) -> int {
    rank[edges[i].to as int] - rank[edges[i].from as int] - edges[i].minlen
}

/// A node is as far on as an edge into it makes it, or stands at zero.
pub open spec fn is_pushed(edges: Seq<RankEdge>, rank: Seq<int>, v: int) -> bool {
    rank[v] == 0 || exists|i: int|
        0 <= i < edges.len() && (#[trigger] edges[i]).to == v && slack(edges, rank, i) == 0
}

/// Every node stands at the length of the longest path into it.
pub open spec fn is_longest(n: nat, edges: Seq<RankEdge>, rank: Seq<int>) -> bool {
    &&& rank.len() == n
    &&& forall|v: int| 0 <= v < n ==> #[trigger] rank[v] >= 0
    &&& forall|v: int| 0 <= v < n ==> #[trigger] is_pushed(edges, rank, v)
    &&& forall|i: int| 0 <= i < edges.len() ==> #[trigger] slack(edges, rank, i) >= 0
}

/// The longest-path ranks. There is only one such ranking of an acyclic graph.
pub open spec fn longest(n: nat, edges: Seq<RankEdge>) -> Seq<int> {
    choose|rank: Seq<int>| is_longest(n, edges, rank)
}

proof fn lemma_longest_below(
    n: nat,
    edges: Seq<RankEdge>,
    t: spec_fn(int) -> nat,
    a: Seq<int>,
    b: Seq<int>,
    v: int,
)
    requires
        is_longest(n, edges, a),
        is_longest(n, edges, b),
        grows_along(edges, t),
        forall|i: int|
            0 <= i < edges.len() ==> (#[trigger] edges[i]).from < n && edges[i].to < n
                && !edges[i].is_loop(),
        0 <= v < n,
    ensures
        a[v] <= b[v],
    decreases t(v),
{
    assert(is_pushed(edges, a, v));
    assert(b[v] >= 0);
    if a[v] != 0 {
        let i = choose|i: int|
            0 <= i < edges.len() && (#[trigger] edges[i]).to == v && slack(edges, a, i) == 0;
        assert(t(edges[i].from as int) < t(edges[i].to as int));
        lemma_longest_below(n, edges, t, a, b, edges[i].from as int);
        assert(slack(edges, b, i) >= 0);
    }
}

/// The longest-path ranks of an acyclic graph without loops are determined.
pub proof fn longest_ranks_are_unique(
    n: nat,
    edges: Seq<RankEdge>,
    t: spec_fn(int) -> nat,
    rank: Seq<int>,
)
    requires
        is_longest(n, edges, rank),
        grows_along(edges, t),
        forall|i: int|
            0 <= i < edges.len() ==> (#[trigger] edges[i]).from < n && edges[i].to < n
                && !edges[i].is_loop(),
    ensures
        rank == longest(n, edges),
{
    let other = longest(n, edges);
    assert(is_longest(n, edges, other));
    assert forall|v: int| 0 <= v < n implies rank[v] == other[v] by {
        lemma_longest_below(n, edges, t, rank, other, v);
        lemma_longest_below(n, edges, t, other, rank, v);
    }
    assert(rank =~= other);
}

// ── the first tree ─────────────────────────────────────────────────────────

/// The ids among the first `m` edges that have `v` at one end, in order.
pub open spec fn incident(edges: Seq<RankEdge>, v: int, m: nat) -> Seq<usize>
    decreases m,
{
    if m == 0 {
        Seq::empty()
    } else if edges[m - 1].from == v || edges[m - 1].to == v {
        incident(edges, v, (m - 1) as nat).push((m - 1) as usize)
    } else {
        incident(edges, v, (m - 1) as nat)
    }
}

/// A search over edges without slack: the nodes whose edges are still to be looked at, the nodes
/// found, and the edge that led to each.
#[verifier::ext_equal]
pub struct Growth {
    pub stack: Seq<u32>,
    pub found: Seq<u32>,
    pub entry: Seq<int>,
}

/// The first `k` edges at `v` are looked at: one without slack leads to a node not found before.
pub open spec fn looked(edges: Seq<RankEdge>, rank: Seq<int>, v: u32, g: Growth, k: nat) -> Growth
    decreases k,
{
    if k == 0 {
        g
    } else {
        let h = looked(edges, rank, v, g, (k - 1) as nat);
        let i = incident(edges, v as int, edges.len())[k - 1] as int;
        let other = if edges[i].from == v { edges[i].to } else { edges[i].from };
        if !h.found.contains(other) && slack(edges, rank, i) == 0 {
            Growth {
                stack: h.stack.push(other),
                found: h.found.push(other),
                entry: h.entry.push(i),
            }
        } else {
            h
        }
    }
}

/// The search goes on for at most `steps` nodes, the one found last first.
pub open spec fn grown_on(edges: Seq<RankEdge>, rank: Seq<int>, g: Growth, steps: nat) -> Growth
    decreases steps,
{
    if steps == 0 || g.stack.len() == 0 {
        g
    } else {
        let v = g.stack.last();
        let rest = Growth { stack: g.stack.drop_last(), ..g };
        let k = incident(edges, v as int, edges.len()).len();
        grown_on(edges, rank, looked(edges, rank, v, rest, k), (steps - 1) as nat)
    }
}

/// The search before its first step: node 0 is found.
pub open spec fn seed() -> Growth {
    Growth { stack: seq![0u32], found: seq![0u32], entry: seq![-1int] }
}

/// What is found from node 0 over edges without slack.
pub open spec fn grown_from_zero(n: nat, edges: Seq<RankEdge>, rank: Seq<int>) -> Growth {
    grown_on(edges, rank, seed(), n)
}

/// The edges that led to a node.
pub open spec fn tree_ids(entry: Seq<int>) -> Set<int> {
    Set::new(|i: int| exists|k: int| 1 <= k < entry.len() && #[trigger] entry[k] == i)
}

/// The first of the edges with the least slack among the first `m` edges that are asked for.
pub open spec fn tightest(
    edges: Seq<RankEdge>,
    rank: Seq<int>,
    asked: spec_fn(int) -> bool,
    m: nat,
) -> Option<int>
    decreases m,
{
    if m == 0 {
        None
    } else {
        let before = tightest(edges, rank, asked, (m - 1) as nat);
        if !asked(m - 1) {
            before
        } else {
            match before {
                Some(b) => if slack(edges, rank, m - 1) < slack(edges, rank, b) {
                    Some(m - 1)
                } else {
                    before
                },
                None => Some(m - 1),
            }
        }
    }
}

/// What `tightest` finds is asked for and has the least slack of all that is; it finds nothing only
/// where nothing is asked for.
pub proof fn the_tightest_is_tightest(
    edges: Seq<RankEdge>,
    rank: Seq<int>,
    asked: spec_fn(int) -> bool,
    m: nat,
)
    ensures
        match tightest(edges, rank, asked, m) {
            Some(b) => 0 <= b < m && asked(b) && forall|i: int|
                0 <= i < m && #[trigger] asked(i) ==> slack(edges, rank, b) <= slack(edges, rank, i),
            None => forall|i: int| 0 <= i < m ==> !#[trigger] asked(i),
        },
    decreases m,
{
    if m > 0 {
        the_tightest_is_tightest(edges, rank, asked, (m - 1) as nat);
    }
}

/// The tightest edge depends only on what is asked of the edges there are.
pub proof fn lemma_tightest_alike(
    edges: Seq<RankEdge>,
    rank: Seq<int>,
    a: spec_fn(int) -> bool,
    b: spec_fn(int) -> bool,
    m: nat,
)
    requires
        forall|i: int| 0 <= i < m ==> #[trigger] a(i) == b(i),
    ensures
        tightest(edges, rank, a, m) == tightest(edges, rank, b, m),
    decreases m,
{
    if m > 0 {
        lemma_tightest_alike(edges, rank, a, b, (m - 1) as nat);
        assert(a(m - 1) == b(m - 1));
    }
}

/// The edges with exactly one end among the nodes found.
pub open spec fn crossing(edges: Seq<RankEdge>, found: Seq<u32>) -> spec_fn(int) -> bool {
    |i: int| found.contains(edges[i].from) != found.contains(edges[i].to)
}

/// The nodes found move on by `by`.
pub open spec fn moved(rank: Seq<int>, found: Seq<u32>, by: int) -> Seq<int> {
    Seq::new(rank.len(), |v: int| rank[v] + if found.contains(v as u32) { by } else { 0 })
}

/// A stage of the search: the ranks, and the edges of the tree.
#[verifier::ext_equal]
pub struct Basis {
    pub rank: Seq<int>,
    pub tree: Set<int>,
}

/// The first tree: what is found over edges without slack moves until the tightest edge out of it
/// has none, at most `steps` times.
pub open spec fn first_basis(n: nat, edges: Seq<RankEdge>, rank: Seq<int>, steps: nat) -> Basis
    decreases steps,
{
    let g = grown_from_zero(n, edges, rank);
    let out = tightest(edges, rank, crossing(edges, g.found), edges.len());
    if steps == 0 || out is None {
        Basis { rank, tree: tree_ids(g.entry) }
    } else {
        let s = slack(edges, rank, out->0);
        let by = if g.found.contains(edges[out->0].from) { s } else { -s };
        first_basis(n, edges, moved(rank, g.found, by), (steps - 1) as nat)
    }
}

// ── pivots ─────────────────────────────────────────────────────────────────

/// Without tree edge `e` the tree no longer leads from node 0 to `v`.
pub open spec fn is_far(edges: Seq<RankEdge>, tree: Set<int>, e: int, v: int) -> bool {
    !walkable(edges, tree.remove(e), v)
}

/// One for the nodes that `e` ties to node 0, zero for the others.
pub open spec fn far_side(edges: Seq<RankEdge>, tree: Set<int>, e: int) -> spec_fn(int) -> int {
    |v: int| if is_far(edges, tree, e, v) { 1int } else { 0 }
}

/// The cut value of tree edge `e`: the weights of the edges that cross between the two halves the
/// way `e` does, less those that cross the other way.
pub open spec fn cut_value(edges: Seq<RankEdge>, tree: Set<int>, e: int) -> int {
    let across = total_span(edges, far_side(edges, tree, e));
    if is_far(edges, tree, e, edges[e].to as int) { across } else { -across }
}

/// The first of the first `m` edges that is a tree edge with a negative cut value.
pub open spec fn leaving(edges: Seq<RankEdge>, tree: Set<int>, m: nat) -> Option<int>
    decreases m,
{
    if m == 0 {
        None
    } else {
        let before = leaving(edges, tree, (m - 1) as nat);
        if before is None && tree.contains(m - 1) && cut_value(edges, tree, m - 1) < 0 {
            Some(m - 1)
        } else {
            before
        }
    }
}

/// The first tree edge with a negative cut value is the one that leaves.
pub proof fn lemma_leaving(edges: Seq<RankEdge>, tree: Set<int>, e: int, m: nat)
    requires
        0 <= e < m,
        tree.contains(e),
        cut_value(edges, tree, e) < 0,
        forall|j: int| 0 <= j < e && #[trigger] tree.contains(j) ==> cut_value(edges, tree, j) >= 0,
    ensures
        leaving(edges, tree, m) == Some(e),
    decreases m,
{
    if e == m - 1 {
        lemma_none_leaves(edges, tree, e as nat);
    } else {
        lemma_leaving(edges, tree, e, (m - 1) as nat);
    }
}

/// Without a negative cut value no tree edge leaves.
pub proof fn lemma_none_leaves(edges: Seq<RankEdge>, tree: Set<int>, m: nat)
    requires
        forall|j: int| 0 <= j < m && #[trigger] tree.contains(j) ==> cut_value(edges, tree, j) >= 0,
    ensures
        leaving(edges, tree, m) is None,
    decreases m,
{
    if m > 0 {
        lemma_none_leaves(edges, tree, (m - 1) as nat);
        assert(tree.contains(m - 1) ==> cut_value(edges, tree, m - 1) >= 0);
    }
}

/// The edges that join the two halves which `e` parts, the other way round.
pub open spec fn rejoining(edges: Seq<RankEdge>, tree: Set<int>, e: int) -> spec_fn(int) -> bool {
    |i: int|
        {
            let flip = is_far(edges, tree, e, edges[e].to as int);
            &&& i != e
            &&& is_far(edges, tree, e, edges[i].from as int) == flip
            &&& is_far(edges, tree, e, edges[i].to as int) != flip
        }
}

/// The tree with `f` in place of `e`, and the ranks that make `f` tight, node 0 at zero.
pub open spec fn swapped_edges(edges: Seq<RankEdge>, b: Basis, e: int, f: int) -> Basis {
    let s = slack(edges, b.rank, f);
    let by = if is_far(edges, b.tree, e, edges[e].to as int) { s } else { -s };
    Basis {
        rank: Seq::new(
            b.rank.len(),
            |v: int|
                b.rank[v] - b.rank[0] + if is_far(edges, b.tree, e, v) { by } else { 0 },
        ),
        tree: b.tree.remove(e).insert(f),
    }
}

/// One pivot: a tree edge with a negative cut value gives way to the tightest edge that rejoins the
/// halves. `None` where no tree edge is worth replacing, or nothing can replace it.
pub open spec fn pivot(edges: Seq<RankEdge>, b: Basis) -> Option<Basis> {
    match leaving(edges, b.tree, edges.len()) {
        Some(e) => match tightest(edges, b.rank, rejoining(edges, b.tree, e), edges.len()) {
            Some(f) => Some(swapped_edges(edges, b, e, f)),
            None => None,
        },
        None => None,
    }
}

/// At most `k` pivots.
pub open spec fn pivoted(edges: Seq<RankEdge>, b: Basis, k: nat) -> Basis
    decreases k,
{
    if k == 0 {
        b
    } else {
        match pivot(edges, b) {
            Some(c) => pivoted(edges, c, (k - 1) as nat),
            None => b,
        }
    }
}

/// How many of at most `k` pivots are made.
pub open spec fn pivots_made(edges: Seq<RankEdge>, b: Basis, k: nat) -> nat
    decreases k,
{
    if k == 0 {
        0
    } else {
        match pivot(edges, b) {
            Some(c) => 1 + pivots_made(edges, c, (k - 1) as nat),
            None => 0,
        }
    }
}

/// One pivot more, where one can be made.
pub proof fn lemma_pivot_more(edges: Seq<RankEdge>, b: Basis, k: nat)
    ensures
        pivots_made(edges, b, k) <= k,
        pivots_made(edges, b, k) < k ==> pivot(edges, pivoted(edges, b, k)) is None,
        pivots_made(edges, b, k) == k ==> match pivot(edges, pivoted(edges, b, k)) {
            Some(c) => pivoted(edges, b, k + 1) == c && pivots_made(edges, b, k + 1) == k + 1,
            None => pivoted(edges, b, k + 1) == pivoted(edges, b, k) && pivots_made(edges, b, k + 1)
                == k,
        },
    decreases k,
{
    if k > 0 {
        if let Some(c) = pivot(edges, b) {
            lemma_pivot_more(edges, c, (k - 1) as nat);
        }
    } else {
        reveal_with_fuel(pivoted, 2);
        reveal_with_fuel(pivots_made, 2);
    }
}

/// Once no pivot can be made, none is made later.
pub proof fn lemma_pivots_end(edges: Seq<RankEdge>, b: Basis, k: nat, more: nat)
    requires
        pivot(edges, pivoted(edges, b, k)) is None,
    ensures
        pivoted(edges, b, k + more) == pivoted(edges, b, k),
        pivots_made(edges, b, k + more) == pivots_made(edges, b, k),
    decreases k,
{
    if k > 0 {
        if let Some(c) = pivot(edges, b) {
            lemma_pivots_end(edges, c, (k - 1) as nat, more);
        }
    }
}

// ── the whole ──────────────────────────────────────────────────────────────

/// The first stage.
pub open spec fn start(n: nat, edges: Seq<RankEdge>) -> Basis {
    let es = tied(n, edges);
    first_basis(n, es, longest(n, es), n)
}

/// The stage after at most `max_iter` pivots.
pub open spec fn last_basis(n: nat, edges: Seq<RankEdge>, max_iter: nat) -> Basis {
    pivoted(tied(n, edges), start(n, edges), max_iter)
}

/// The least of the first `m` ranks.
pub open spec fn lowest(rank: Seq<int>, m: nat) -> int
    decreases m,
{
    if m <= 1 {
        rank[0]
    } else {
        let before = lowest(rank, (m - 1) as nat);
        if rank[m - 1] < before { rank[m - 1] } else { before }
    }
}

/// The ranks that at most `max_iter` pivots lead to, the least of them zero.
pub open spec fn simplex(n: nat, edges: Seq<RankEdge>, max_iter: nat) -> Seq<int> {
    let rank = last_basis(n, edges, max_iter).rank;
    if n == 0 {
        Seq::empty()
    } else {
        Seq::new(n, |v: int| rank[v] - lowest(rank, n))
    }
}

/// How many pivots are made.
pub open spec fn simplex_pivots(n: nat, edges: Seq<RankEdge>, max_iter: nat) -> nat {
    if n == 0 { 0 } else { pivots_made(tied(n, edges), start(n, edges), max_iter) }
}

/// Whether no tree edge is left worth replacing.
pub open spec fn simplex_settles(n: nat, edges: Seq<RankEdge>, max_iter: nat) -> bool {
    n == 0 || leaving(
        tied(n, edges),
        last_basis(n, edges, max_iter).tree,
        tied(n, edges).len(),
    ) is None
}

/// No ranking that lets every edge run forward has a smaller total span.
pub open spec fn is_minimal(edges: Seq<RankEdge>, rank: spec_fn(int) -> int) -> bool {
    forall|other: spec_fn(int) -> int| #[trigger]
        feasible(edges, other) ==> total_span(edges, rank) <= total_span(edges, other)
}

} // verus!
