//! Minimum-total-span layering: the network simplex of Gansner et al.
//!
//! Given an acyclic graph, every node gets an integer rank such that every edge goes forward by
//! at least its `minlen`, and the sum of edge spans is as small as it can be. Longest-path
//! ranking is the feasible start; a tight spanning tree then improves on it by swapping a tree
//! edge with a negative cut value for the least-slack edge that reconnects the two halves.

use vstd::prelude::*;

use crate::simplex::{
    bridge, bridges, clamped, crossing, cut_value, ends_of, far_side, first_basis, grown_from_zero,
    grown_on, incident, is_far, is_longest, is_minimal, is_pushed, kept, last_basis, leaving,
    lemma_leaving, lemma_none_leaves, lemma_pivot_more, lemma_pivots_end, lemma_tightest_alike, longest, longest_ranks_are_unique,
    looked, lowest, moved, pivot, pivoted, pivots_made, proper, rejoining, seed, simplex,
    simplex_pivots, simplex_settles, slack, start, swapped_edges, the_tightest_is_tightest, tied,
    tightest, tree_ids, Basis, Growth,
};
use crate::unions::{
    groups, groups_lead, groups_partition, is_grouping, is_leader, leaders, lemma_leaders, linked,
    pairs_link,
};

verus! {

/// One edge of the layering problem. `weight` scales that edge's pull, so a caller can say
/// "keep these two close" without adding geometry.
#[derive(Debug, Clone, Copy)]
pub struct RankEdge {
    pub from: u32,
    pub to: u32,
    pub weight: i32,
    /// Minimum number of columns the edge must span. Zero lets both ends share a column.
    pub minlen: i32,
}

impl RankEdge {
    /// An edge of weight one that spans at least one column.
    pub fn new(from: u32, to: u32) -> (r: Self)
        ensures
            r == (RankEdge { from, to, weight: 1, minlen: 1 }),
    {
        RankEdge { from, to, weight: 1, minlen: 1 }
    }

    /// The columns the edge must span: a negative `minlen` asks for none.
    pub open spec fn reach(self) -> int {
        if self.minlen < 0 { 0 } else { self.minlen as int }
    }

    /// Whether the edge leaves and enters the same node.
    pub open spec fn is_loop(self) -> bool {
        self.from == self.to
    }

    /// Whether the edge joins `a` and `b`, in either direction.
    pub open spec fn joins(self, a: int, b: int) -> bool {
        (self.from == a && self.to == b) || (self.from == b && self.to == a)
    }
}

/// Every end of every edge is one of the nodes `0..n`.
pub open spec fn ends_in(n: nat, edges: Seq<RankEdge>) -> bool {
    forall|i: int| 0 <= i < edges.len() ==> (#[trigger] edges[i]).from < n && edges[i].to < n
}

/// Some numbering of the nodes grows along every edge: the edges, loops aside, form no cycle.
pub open spec fn acyclic(edges: Seq<RankEdge>) -> bool {
    exists|t: spec_fn(int) -> nat| #[trigger] grows_along(edges, t)
}

/// `t` grows along every edge that is no loop.
pub open spec fn grows_along(edges: Seq<RankEdge>, t: spec_fn(int) -> nat) -> bool {
    forall|i: int|
        0 <= i < edges.len() && !(#[trigger] edges[i]).is_loop() ==> t(edges[i].from as int) < t(
            edges[i].to as int,
        )
}

/// Even if all nodes stood one behind the other, as far apart as any edge asks, an `i32` would hold
/// their ranks.
pub open spec fn reaches_fit(n: nat, edges: Seq<RankEdge>) -> bool {
    forall|i: int| 0 <= i < edges.len() ==> (#[trigger] edges[i]).reach() * (n - 1) <= i32::MAX
}

/// Every edge that is no loop goes forward by at least what it must span.
pub open spec fn feasible(edges: Seq<RankEdge>, rank: spec_fn(int) -> int) -> bool {
    forall|i: int|
        0 <= i < edges.len() && !(#[trigger] edges[i]).is_loop() ==> rank(edges[i].to as int)
            - rank(edges[i].from as int) >= edges[i].reach()
}

/// The weighted sum of the spans of the first `m` edges.
pub open spec fn span_of(edges: Seq<RankEdge>, rank: spec_fn(int) -> int, m: nat) -> int
    decreases m,
{
    if m == 0 {
        0
    } else {
        span_of(edges, rank, (m - 1) as nat) + edges[m - 1].weight * (rank(
            edges[m - 1].to as int,
        ) - rank(edges[m - 1].from as int))
    }
}

/// The weighted sum of all spans.
pub open spec fn total_span(edges: Seq<RankEdge>, rank: spec_fn(int) -> int) -> int {
    span_of(edges, rank, edges.len())
}

/// Some edge of `which` joins `a` and `b`.
pub open spec fn adjacent(edges: Seq<RankEdge>, which: Set<int>, a: int, b: int) -> bool {
    exists|i: int| 0 <= i < edges.len() && #[trigger] which.contains(i) && edges[i].joins(a, b)
}

/// `p` walks from node 0 along edges of `which`, in either direction.
pub open spec fn is_walk(edges: Seq<RankEdge>, which: Set<int>, p: Seq<int>) -> bool {
    &&& p.len() > 0
    &&& p[0] == 0
    &&& forall|k: int| 1 <= k < p.len() ==> adjacent(edges, which, #[trigger] p[k], p[k - 1])
}

/// Some walk along `which` ends at `v`.
pub open spec fn walkable(edges: Seq<RankEdge>, which: Set<int>, v: int) -> bool {
    exists|p: Seq<int>| #[trigger] is_walk(edges, which, p) && p.last() == v
}

/// A sequence of ranks as a function of the node.
pub open spec fn as_rank(r: Seq<i32>) -> spec_fn(int) -> int {
    |v: int| r[v] as int
}

proof fn lemma_walk_closed(edges: Seq<RankEdge>, which: Set<int>, p: Seq<int>, inside: Set<int>)
    requires
        is_walk(edges, which, p),
        inside.contains(0),
        forall|i: int, a: int, b: int|
            0 <= i < edges.len() && #[trigger] which.contains(i) && #[trigger] edges[i].joins(a, b)
                && inside.contains(b) ==> inside.contains(a),
    ensures
        inside.contains(p.last()),
    decreases p.len(),
{
    if p.len() > 1 {
        let q = p.drop_last();
        assert(is_walk(edges, which, q)) by {
            assert(q[0] == p[0]);
            assert forall|k: int| 1 <= k < q.len() implies adjacent(
                edges,
                which,
                #[trigger] q[k],
                q[k - 1],
            ) by {
                assert(p[k] == q[k] && p[k - 1] == q[k - 1]);
            }
        }
        lemma_walk_closed(edges, which, q, inside);
        let k = p.len() - 1;
        assert(adjacent(edges, which, p[k], p[k - 1]));
        let i = choose|i: int|
            0 <= i < edges.len() && #[trigger] which.contains(i) && edges[i].joins(p[k], p[k - 1]);
        assert(edges[i].joins(p[k], p[k - 1]));
    }
}

proof fn lemma_walk_extend(edges: Seq<RankEdge>, which: Set<int>, b: int, a: int, i: int)
    requires
        walkable(edges, which, b),
        0 <= i < edges.len(),
        which.contains(i),
        edges[i].joins(a, b),
    ensures
        walkable(edges, which, a),
{
    let p = choose|p: Seq<int>| #[trigger] is_walk(edges, which, p) && p.last() == b;
    let q = p.push(a);
    assert(is_walk(edges, which, q)) by {
        assert forall|k: int| 1 <= k < q.len() implies adjacent(
            edges,
            which,
            #[trigger] q[k],
            q[k - 1],
        ) by {
            if k < p.len() {
                assert(p[k] == q[k] && p[k - 1] == q[k - 1]);
            } else {
                assert(q[k - 1] == p.last());
                assert(which.contains(i));
            }
        }
    }
    assert(q.last() == a);
}

proof fn lemma_walk_start(edges: Seq<RankEdge>, which: Set<int>)
    ensures
        walkable(edges, which, 0),
{
    let p = seq![0int];
    assert(is_walk(edges, which, p));
    assert(p.last() == 0);
}

proof fn lemma_incident(edges: Seq<RankEdge>, v: int, m: nat)
    requires
        m <= usize::MAX,
    ensures
        incident(edges, v, m).len() <= m,
        forall|k: int|
            0 <= k < incident(edges, v, m).len() ==> (#[trigger] incident(edges, v, m)[k]) < m && (
            edges[incident(edges, v, m)[k] as int].from == v
                || edges[incident(edges, v, m)[k] as int].to == v),
        forall|j: int, k: int|
            0 <= j < k < incident(edges, v, m).len() ==> (#[trigger] incident(edges, v, m)[j])
                < #[trigger] incident(edges, v, m)[k],
        forall|i: int|
            0 <= i < m && ((#[trigger] edges[i]).from == v || edges[i].to == v) ==> incident(
                edges,
                v,
                m,
            ).contains(i as usize),
    decreases m,
{
    if m > 0 {
        let q = (m - 1) as nat;
        lemma_incident(edges, v, q);
        let s = incident(edges, v, q);
        assert forall|i: int|
            0 <= i < m && ((#[trigger] edges[i]).from == v || edges[i].to == v) implies incident(
            edges,
            v,
            m,
        ).contains(i as usize) by {
            if i < q {
                assert(s.contains(i as usize));
                let k = choose|k: int| 0 <= k < s.len() && s[k] == i as usize;
                assert(incident(edges, v, m)[k] == i as usize);
            } else {
                assert(incident(edges, v, m).last() == i as usize);
            }
        }
    }
}

/// How many of the first `m` edges enter `t` and are not relaxed yet.
spec fn waiting(edges: Seq<RankEdge>, relaxed: Seq<bool>, t: int, m: nat) -> nat
    decreases m,
{
    if m == 0 {
        0
    } else {
        waiting(edges, relaxed, t, (m - 1) as nat) + if edges[m - 1].to == t && !relaxed[m - 1] {
            1nat
        } else {
            0
        }
    }
}

proof fn lemma_waiting_bound(edges: Seq<RankEdge>, relaxed: Seq<bool>, t: int, m: nat)
    ensures
        waiting(edges, relaxed, t, m) <= m,
        waiting(edges, relaxed, t, m) == 0 ==> forall|i: int|
            0 <= i < m && (#[trigger] edges[i]).to == t ==> relaxed[i],
        (forall|i: int| 0 <= i < m && (#[trigger] edges[i]).to == t ==> relaxed[i]) ==> waiting(
            edges,
            relaxed,
            t,
            m,
        ) == 0,
    decreases m,
{
    if m > 0 {
        lemma_waiting_bound(edges, relaxed, t, (m - 1) as nat);
        if waiting(edges, relaxed, t, m) == 0 {
            assert forall|i: int| 0 <= i < m && (#[trigger] edges[i]).to == t implies relaxed[i] by {
                if i == m - 1 {
                }
            }
        }
    }
}

proof fn lemma_waiting_relax(edges: Seq<RankEdge>, relaxed: Seq<bool>, i: int, t: int, m: nat)
    requires
        0 <= i < relaxed.len(),
        m <= relaxed.len(),
        !relaxed[i],
    ensures
        waiting(edges, relaxed.update(i, true), t, m) == waiting(edges, relaxed, t, m) - if i < m
            && edges[i].to == t {
            1int
        } else {
            0
        },
    decreases m,
{
    if m > 0 {
        lemma_waiting_relax(edges, relaxed, i, t, (m - 1) as nat);
    }
}

/// No rank gets further than this: there are fewer nodes than `u32` counts, and no edge must span more
/// than an `i32` holds.
const WIDE: i128 = 0x8000_0000_0000_0000;

/// Ranks as integers.
pub open spec fn ints(r: Seq<i128>) -> Seq<int> {
    Seq::new(r.len(), |v: int| r[v] as int)
}

/// The problem itself: nodes `0..n`, edges without loops, and the edges at each node.
struct Net {
    n: usize,
    edges: Vec<RankEdge>,
    /// Incident edge ids per node.
    inc: Vec<Vec<usize>>,
}

impl Net {
    spec fn well_formed(self) -> bool {
        &&& 1 <= self.n < u32::MAX
        &&& self.edges@.len() <= usize::MAX
        &&& ends_in(self.n as nat, self.edges@)
        &&& forall|i: int|
            0 <= i < self.edges@.len() ==> !(#[trigger] self.edges@[i]).is_loop()
                && self.edges@[i].minlen >= 0 && self.edges@[i].minlen * self.n <= WIDE
        &&& self.inc@.len() == self.n
        &&& forall|v: int|
            0 <= v < self.n ==> (#[trigger] self.inc@[v])@ == incident(
                self.edges@,
                v,
                self.edges@.len(),
            )
    }

    /// Every edge spans what it must.
    spec fn spans(self, rank: Seq<i128>) -> bool {
        &&& rank.len() == self.n
        &&& forall|i: int| 0 <= i < self.edges@.len() ==> #[trigger] self.slack_of(rank, i) >= 0
    }

    spec fn slack_of(self, rank: Seq<i128>, i: int) -> int {
        rank[self.edges@[i].to as int] - rank[self.edges@[i].from as int] - self.edges@[i].minlen
    }

    proof fn lemma_processed(
        self,
        relaxed: Seq<bool>,
        queue: Seq<u32>,
        t: spec_fn(int) -> nat,
        v: int,
    )
        requires
            self.well_formed(),
            grows_along(self.edges@, t),
            relaxed.len() == self.edges@.len(),
            forall|i: int|
                0 <= i < relaxed.len() ==> (#[trigger] relaxed[i] <==> queue.contains(
                    self.edges@[i].from,
                )),
            forall|u: int|
                0 <= u < self.n ==> (#[trigger] queue.contains(u as u32) <==> waiting(
                    self.edges@,
                    relaxed,
                    u,
                    self.edges@.len(),
                ) == 0),
            0 <= v < self.n,
        ensures
            queue.contains(v as u32),
        decreases t(v),
    {
        let m = self.edges@.len();
        assert forall|i: int| 0 <= i < m && (#[trigger] self.edges@[i]).to == v implies relaxed[i] by {
            assert(!self.edges@[i].is_loop());
            self.lemma_processed(relaxed, queue, t, self.edges@[i].from as int);
        }
        lemma_waiting_bound(self.edges@, relaxed, v, m);
    }

    /// A relaxed edge makes `v` as far on as it is, or it stands at zero.
    spec fn pushed_by(self, rank: Seq<i128>, relaxed: Seq<bool>, v: int) -> bool {
        rank[v] == 0 || exists|i: int|
            0 <= i < self.edges@.len() && #[trigger] relaxed[i] && self.edges@[i].to == v
                && self.slack_of(rank, i) == 0
    }

    /// Longest-path ranking: feasible, and the starting point the simplex improves on.
    #[verifier::loop_isolation(false)]
    fn init_rank(&self) -> (rank: Vec<i128>)
        requires
            self.well_formed(),
            acyclic(self.edges@),
        ensures
            self.spans(rank@),
            is_longest(self.n as nat, self.edges@, ints(rank@)),
            forall|v: int| 0 <= v < self.n ==> 0 <= #[trigger] rank@[v] <= WIDE,
    {
        let n: usize = self.n;
        let m: usize = self.edges.len();
        let mut rank: Vec<i128> = vec![0; n];
        let mut indeg: Vec<usize> = vec![0; n];
        let ghost mut relaxed: Seq<bool> = Seq::new(m as nat, |i: int| false);
        let mut i: usize = 0;
        while i < m
            invariant
                i <= m,
                indeg@.len() == n,
                forall|v: int|
                    0 <= v < n ==> #[trigger] indeg@[v] == waiting(self.edges@, relaxed, v, i as nat),
            decreases m - i,
        {
            let to: usize = self.edges[i].to as usize;
            proof {
                lemma_waiting_bound(self.edges@, relaxed, to as int, i as nat);
            }
            let d: usize = indeg[to];
            indeg.set(to, d + 1);
            i = i + 1;
        }
        let mut queue: Vec<u32> = Vec::new();
        let mut v: u32 = 0;
        while (v as usize) < n
            invariant
                v <= n,
                forall|k: int| 0 <= k < queue@.len() ==> (#[trigger] queue@[k]) < v,
                queue@.no_duplicates(),
                forall|u: int|
                    0 <= u < v ==> (#[trigger] queue@.contains(u as u32) <==> indeg@[u] == 0),
            decreases n - v,
        {
            let ghost before = queue@;
            if indeg[v as usize] == 0 {
                queue.push(v);
                assert forall|u: int| 0 <= u < v + 1 implies (#[trigger] queue@.contains(u as u32)
                    <==> indeg@[u] == 0) by {
                    if u < v {
                        if before.contains(u as u32) {
                            let k = choose|k: int| 0 <= k < before.len() && before[k] == u as u32;
                            assert(queue@[k] == u as u32);
                        }
                        if queue@.contains(u as u32) {
                            let k = choose|k: int| 0 <= k < queue@.len() && queue@[k] == u as u32;
                            assert(before[k] == u as u32);
                        }
                        assert(before.contains(u as u32) <==> indeg@[u] == 0);
                    } else {
                        assert(queue@.last() == v);
                    }
                }
            }
            v = v + 1;
        }
        let mut head: usize = 0;
        assert(relaxed.len() == m);
        proof {
            assert(queue@.take(0) =~= Seq::<u32>::empty());
            assert forall|u: int| 0 <= u < n implies 0 <= #[trigger] rank@[u] && rank@[u] * n <= 0 by {
                assert(rank@[u] == 0);
            }
        }
        while head < queue.len()
            invariant
                head <= queue@.len(),
                rank@.len() == n,
                indeg@.len() == n,
                relaxed.len() == m,
                forall|k: int| 0 <= k < queue@.len() ==> (#[trigger] queue@[k]) < n,
                queue@.no_duplicates(),
                forall|u: int|
                    0 <= u < n ==> (#[trigger] queue@.contains(u as u32) <==> indeg@[u] == 0),
                forall|u: int|
                    0 <= u < n ==> #[trigger] indeg@[u] == waiting(self.edges@, relaxed, u, m as nat),
                forall|j: int|
                    0 <= j < m ==> (#[trigger] relaxed[j] <==> queue@.take(head as int).contains(
                        self.edges@[j].from,
                    )),
                forall|j: int| 0 <= j < m && #[trigger] relaxed[j] ==> self.slack_of(rank@, j) >= 0,
                forall|u: int| 0 <= u < n ==> 0 <= #[trigger] rank@[u] && rank@[u] * n <= head * WIDE,
                forall|u: int| 0 <= u < n ==> #[trigger] self.pushed_by(rank@, relaxed, u),
            decreases n - head,
        {
            proof {
                lemma_distinct_below(queue@, n as int);
            }
            let v: u32 = queue[head];
            let ghost h0 = head;
            head = head + 1;
            let ghost done = queue@.take(h0 as int);
            let ghost round = self.inc@[v as int]@;
            proof {
                lemma_incident(self.edges@, v as int, m as nat);
                assert(queue@.take(head as int) =~= done.push(v));
                assert(!done.contains(v)) by {
                    if done.contains(v) {
                        let k = choose|k: int| 0 <= k < done.len() && done[k] == v;
                        assert(queue@[k] == queue@[h0 as int]);
                    }
                }
                assert forall|u: int| 0 <= u < n implies 0 <= #[trigger] rank@[u] && rank@[u] * n
                    <= head * WIDE by {
                    assert(h0 * WIDE <= head * WIDE);
                }
            }
            let mut idx: usize = 0;
            while idx < self.inc[v as usize].len()
                invariant
                    idx <= round.len(),
                    rank@.len() == n,
                    indeg@.len() == n,
                    relaxed.len() == m,
                    queue@.len() >= head,
                    queue@.take(h0 as int) == done,
                    queue@[h0 as int] == v,
                    forall|k: int| 0 <= k < queue@.len() ==> (#[trigger] queue@[k]) < n,
                    queue@.no_duplicates(),
                    forall|u: int|
                        0 <= u < n ==> (#[trigger] queue@.contains(u as u32) <==> indeg@[u] == 0),
                    forall|u: int|
                        0 <= u < n ==> #[trigger] indeg@[u] == waiting(
                            self.edges@,
                            relaxed,
                            u,
                            m as nat,
                        ),
                    forall|j: int|
                        0 <= j < m ==> (#[trigger] relaxed[j] <==> (done.contains(
                            self.edges@[j].from,
                        ) || (self.edges@[j].from == v && round.take(idx as int).contains(
                            j as usize,
                        )))),
                    forall|j: int| 0 <= j < m && #[trigger] relaxed[j] ==> self.slack_of(rank@, j) >= 0,
                    forall|u: int|
                        0 <= u < n ==> 0 <= #[trigger] rank@[u] && rank@[u] * n <= head * WIDE,
                    rank@[v as int] * n <= h0 * WIDE,
                    forall|u: int| 0 <= u < n ==> #[trigger] self.pushed_by(rank@, relaxed, u),
                decreases round.len() - idx,
            {
                let i: usize = self.inc[v as usize][idx];
                let e: RankEdge = self.edges[i];
                proof {
                    assert(round[idx as int] == i);
                    assert(round.take(idx as int + 1) =~= round.take(idx as int).push(i));
                    assert(!round.take(idx as int).contains(i)) by {
                        if round.take(idx as int).contains(i) {
                            let k = choose|k: int| 0 <= k < idx && round.take(idx as int)[k] == i;
                            assert(round[k] == round[idx as int]);
                        }
                    }
                    assert forall|x: usize| round.take(idx as int + 1).contains(x) <==> (round.take(
                        idx as int,
                    ).contains(x) || x == i) by {
                        lemma_push_contains(round.take(idx as int), i, x);
                    }
                }
                if e.from == v {
                    let to: usize = e.to as usize;
                    assert(!relaxed[i as int]);
                    let ghost rank0 = rank@;
                    let ghost relaxed0 = relaxed;
                    let ghost queue0 = queue@;
                    let ghost indeg0 = indeg@;
                    proof {
                        assert(self.edges@[i as int] == e);
                        lemma_waiting_bound(self.edges@, relaxed, to as int, m as nat);
                        assert(!queue0.contains(to as u32));
                        assert(rank0[v as int] * n + e.minlen * n <= head * WIDE) by {
                            assert(h0 * WIDE + WIDE == head * WIDE) by (nonlinear_arith)
                                requires
                                    head == h0 + 1,
                            ;
                        }
                        assert((rank0[v as int] + e.minlen) * n <= head * WIDE) by (nonlinear_arith)
                            requires
                                rank0[v as int] * n + e.minlen * n <= head * WIDE,
                        ;
                        lemma_distinct_below(queue0, n as int);
                        assert((rank0[v as int] + e.minlen) <= WIDE) by (nonlinear_arith)
                            requires
                                (rank0[v as int] + e.minlen) * n <= head * WIDE,
                                head <= n,
                                n >= 1,
                        ;
                    }
                    let cand: i128 = rank[v as usize] + e.minlen as i128;
                    if cand > rank[to] {
                        rank.set(to, cand);
                    }
                    proof {
                        relaxed = relaxed.update(i as int, true);
                        assert forall|u: int| 0 <= u < n implies waiting(
                            self.edges@,
                            relaxed,
                            u,
                            m as nat,
                        ) == waiting(self.edges@, relaxed0, u, m as nat) - (if u == to {
                            1int
                        } else {
                            0
                        }) by {
                            lemma_waiting_relax(self.edges@, relaxed0, i as int, u, m as nat);
                        }
                    }
                    let d: usize = indeg[to];
                    indeg.set(to, d - 1);
                    if d - 1 == 0 {
                        queue.push(e.to);
                    }
                    proof {
                        assert(queue@.take(h0 as int) =~= done);
                        assert forall|u: int| 0 <= u < n implies (#[trigger] queue@.contains(u as u32)
                            <==> indeg@[u] == 0) by {
                            lemma_push_contains(queue0, e.to, u as u32);
                            assert(queue0.contains(u as u32) <==> indeg0[u] == 0);
                        }
                        assert(queue@.no_duplicates());
                        assert forall|j: int| 0 <= j < m && #[trigger] relaxed[j] implies self.slack_of(
                            rank@,
                            j,
                        ) >= 0 by {
                            let f = self.edges@[j];
                            if j != i {
                                assert(relaxed0[j]);
                                assert(self.slack_of(rank0, j) >= 0);
                                if f.from == to {
                                    // a relaxed edge leaves a queued node, and `to` is not queued
                                    if done.contains(f.from) {
                                        let k = choose|k: int| 0 <= k < done.len() && done[k] == f.from;
                                        assert(queue0[k] == f.from);
                                        assert(queue0.contains(to as u32));
                                    } else {
                                        assert(f.from == v);
                                    }
                                    assert(false);
                                }
                            }
                        }
                        assert forall|u: int| 0 <= u < n implies 0 <= #[trigger] rank@[u] && rank@[u] * n
                            <= head * WIDE by {
                            if u != to {
                                assert(rank@[u] == rank0[u]);
                            }
                        }
                        assert(e.to != v);
                        assert forall|u: int| 0 <= u < n implies #[trigger] self.pushed_by(
                            rank@,
                            relaxed,
                            u,
                        ) by {
                            assert(self.pushed_by(rank0, relaxed0, u));
                            if u == to && rank@[to as int] != rank0[to as int] {
                                assert(relaxed[i as int] && self.slack_of(rank@, i as int) == 0);
                            } else if rank@[u] != 0 {
                                let j = choose|j: int|
                                    0 <= j < m && #[trigger] relaxed0[j] && self.edges@[j].to == u
                                        && self.slack_of(rank0, j) == 0;
                                let f = self.edges@[j];
                                assert(f.from != to) by {
                                    if done.contains(f.from) {
                                        let k = choose|k: int| 0 <= k < done.len() && done[k] == f.from;
                                        assert(queue0[k] == f.from);
                                    }
                                }
                                assert(relaxed[j] && self.slack_of(rank@, j) == 0);
                            }
                        }
                    }
                }
                idx = idx + 1;
            }
            proof {
                assert(round.take(idx as int) =~= round);
                assert(queue@.take(head as int) =~= done.push(v));
                assert forall|j: int| 0 <= j < m implies (#[trigger] relaxed[j] <==> queue@.take(
                    head as int,
                ).contains(self.edges@[j].from)) by {
                    lemma_push_contains(done, v, self.edges@[j].from);
                }
                lemma_distinct_below(queue@, n as int);
            }
        }
        proof {
            let t = choose|t: spec_fn(int) -> nat| #[trigger] grows_along(self.edges@, t);
            assert(queue@.take(head as int) =~= queue@);
            assert forall|i: int| 0 <= i < m implies #[trigger] self.slack_of(rank@, i) >= 0 by {
                self.lemma_processed(relaxed, queue@, t, self.edges@[i].from as int);
                assert(relaxed[i]);
            }
            lemma_distinct_below(queue@, n as int);
            assert forall|v: int| 0 <= v < n implies 0 <= #[trigger] rank@[v] <= WIDE by {
                let r = rank@[v] as int;
                assert(r <= WIDE) by (nonlinear_arith)
                    requires
                        r * n <= head * WIDE,
                        head <= n,
                        n >= 1,
                ;
            }
            let r = ints(rank@);
            assert forall|i: int| 0 <= i < m implies #[trigger] slack(self.edges@, r, i) >= 0 by {
                assert(self.slack_of(rank@, i) >= 0);
            }
            assert forall|v: int| 0 <= v < n implies #[trigger] is_pushed(self.edges@, r, v) by {
                assert(self.pushed_by(rank@, relaxed, v));
                if r[v] != 0 {
                    let i = choose|i: int|
                        0 <= i < m && #[trigger] relaxed[i] && self.edges@[i].to == v
                            && self.slack_of(rank@, i) == 0;
                    assert(self.edges@[i].to == v && slack(self.edges@, r, i) == 0);
                }
            }
        }
        rank
    }
}

proof fn lemma_push_contains<A>(s: Seq<A>, a: A, x: A)
    ensures
        s.push(a).contains(x) <==> (s.contains(x) || x == a),
{
    if s.contains(x) {
        let k = choose|k: int| 0 <= k < s.len() && s[k] == x;
        assert(s.push(a)[k] == x);
    }
    if x == a {
        assert(s.push(a)[s.len() as int] == a);
    }
    if s.push(a).contains(x) && x != a {
        let k = choose|k: int| 0 <= k < s.push(a).len() && s.push(a)[k] == x;
        assert(s[k] == x);
    }
}

/// Distinct numbers below `n` are at most `n` many.
proof fn lemma_distinct_below(s: Seq<u32>, n: int)
    requires
        s.no_duplicates(),
        n >= 0,
        forall|k: int| 0 <= k < s.len() ==> (#[trigger] s[k]) < n,
    ensures
        s.len() <= n,
{
    let t = s.map_values(|x: u32| x as int);
    assert(t.no_duplicates()) by {
        assert forall|i: int, j: int| 0 <= i < t.len() && 0 <= j < t.len() && i != j implies t[i]
            != t[j] by {
            assert(s[i] != s[j]);
        }
    }
    t.unique_seq_to_set();
    vstd::set_lib::lemma_int_range(0, n);
    assert(t.to_set().subset_of(vstd::set_lib::set_int_range(0, n))) by {
        assert forall|x: int| t.to_set().contains(x) implies vstd::set_lib::set_int_range(0, n).contains(x) by {
            let k = choose|k: int| 0 <= k < t.len() && t[k] == x;
            assert(t[k] == s[k]);
        }
    }
    vstd::set_lib::lemma_len_subset(t.to_set(), vstd::set_lib::set_int_range(0, n));
}

/// The nodes reached from node 0 over zero-slack edges, and the edges that reached them.
struct TightTree {
    /// Tree adjacency: node -> (neighbour, edge id).
    tree: Vec<Vec<(u32, usize)>>,
    in_tree: Vec<bool>,
    size: usize,
    found: Ghost<Seq<u32>>,
    entry: Ghost<Seq<int>>,
}

impl Net {
    /// Node `found[k]` hangs by the tight edge `entry[k]` on a node found earlier.
    spec fn linked(self, rank: Seq<i128>, found: Seq<u32>, entry: Seq<int>, k: int) -> bool {
        &&& 0 <= entry[k] < self.edges@.len()
        &&& self.slack_of(rank, entry[k]) == 0
        &&& exists|j: int|
            0 <= j < k && self.edges@[entry[k]].joins(found[k] as int, #[trigger] found[j] as int)
    }

    /// `found` lists nodes reached from node 0 over tight edges, in the order of discovery.
    spec fn discovery(self, rank: Seq<i128>, found: Seq<u32>, entry: Seq<int>) -> bool {
        &&& found.len() == entry.len()
        &&& found.len() >= 1
        &&& found[0] == 0
        &&& found.no_duplicates()
        &&& forall|k: int| 0 <= k < found.len() ==> (#[trigger] found[k]) < self.n
        &&& forall|k: int| 1 <= k < found.len() ==> #[trigger] self.linked(rank, found, entry, k)
    }

    /// The adjacency lists `tree` hold exactly the edges `ids`, each at both its ends.
    spec fn holds_tree(self, tree: Seq<Vec<(u32, usize)>>, ids: Set<int>) -> bool {
        &&& tree.len() == self.n
        &&& forall|v: int, k: int|
            0 <= v < self.n && 0 <= k < tree[v]@.len() ==> {
                let x = #[trigger] tree[v]@[k];
                x.1 < self.edges@.len() && ids.contains(x.1 as int) && self.edges@[x.1 as int].joins(
                    v,
                    x.0 as int,
                )
            }
        &&& forall|i: int| #[trigger]
            ids.contains(i) ==> 0 <= i < self.edges@.len() && i <= usize::MAX
                && tree[self.edges@[i].from as int]@.contains((self.edges@[i].to, i as usize))
                && tree[self.edges@[i].to as int]@.contains((self.edges@[i].from, i as usize))
    }

    /// `t` is what growing from node 0 over tight edges finds, all of it.
    spec fn grown(self, rank: Seq<i128>, t: TightTree) -> bool {
        &&& self.discovery(rank, t.found@, t.entry@)
        &&& t.size == t.found@.len()
        &&& t.in_tree@.len() == self.n
        &&& forall|v: int|
            0 <= v < self.n ==> (#[trigger] t.in_tree@[v] <==> t.found@.contains(v as u32))
        &&& self.holds_tree(t.tree@, tree_ids(t.entry@))
        &&& forall|i: int|
            0 <= i < self.edges@.len() && #[trigger] self.slack_of(rank, i) == 0 ==> t.in_tree@[
                self.edges@[i].from as int] == t.in_tree@[self.edges@[i].to as int]
    }

    /// Ranks whose differences stay inside the machine integers.
    spec fn in_bounds(rank: Seq<i128>) -> bool {
        forall|v: int| 0 <= v < rank.len() ==> -3 * WIDE <= #[trigger] rank[v] <= 3 * WIDE
    }

    fn slack(&self, rank: &Vec<i128>, e: usize) -> (r: i128)
        requires
            self.well_formed(),
            rank@.len() == self.n,
            Net::in_bounds(rank@),
            e < self.edges@.len(),
        ensures
            r == self.slack_of(rank@, e as int),
    {
        let ed: RankEdge = self.edges[e];
        proof {
            let l = ed.minlen as int;
            let n = self.n as int;
            assert(l <= WIDE) by (nonlinear_arith)
                requires
                    l * n <= WIDE,
                    n >= 1,
                    l >= 0,
            ;
        }
        rank[ed.to as usize] - rank[ed.from as usize] - ed.minlen as i128
    }

    proof fn lemma_tree_ids_push(entry: Seq<int>, i: int)
        requires
            entry.len() >= 1,
        ensures
            tree_ids(entry.push(i)) == tree_ids(entry).insert(i),
    {
        let a = tree_ids(entry.push(i));
        let b = tree_ids(entry).insert(i);
        assert forall|x: int| a.contains(x) <==> b.contains(x) by {
            if a.contains(x) {
                let k = choose|k: int| 1 <= k < entry.push(i).len() && #[trigger] entry.push(i)[k] == x;
                if k < entry.len() {
                    assert(entry[k] == x);
                }
            }
            if b.contains(x) {
                if x == i {
                    assert(entry.push(i)[entry.len() as int] == x);
                } else {
                    let k = choose|k: int| 1 <= k < entry.len() && #[trigger] entry[k] == x;
                    assert(entry.push(i)[k] == x);
                }
            }
        }
        assert(a =~= b);
    }

    /// Grow the set of nodes reachable from node 0 over zero-slack edges.
    #[verifier::loop_isolation(false)]
    #[verifier::rlimit(40)]
    fn tight_tree(&self, rank: &Vec<i128>) -> (t: TightTree)
        requires
            self.well_formed(),
            rank@.len() == self.n,
            Net::in_bounds(rank@),
        ensures
            self.grown(rank@, t),
            t.found@ == grown_from_zero(self.n as nat, self.edges@, ints(rank@)).found,
            t.entry@ == grown_from_zero(self.n as nat, self.edges@, ints(rank@)).entry,
    {
        let n: usize = self.n;
        let edge_count: usize = self.edges.len();
        let ghost m = edge_count as nat;
        let ghost r = ints(rank@);
        let ghost es = self.edges@;
        let mut tree: Vec<Vec<(u32, usize)>> = Vec::new();
        let mut z: usize = 0;
        while z < n
            invariant
                z <= n,
                tree@.len() == z,
                forall|v: int| 0 <= v < z ==> (#[trigger] tree@[v])@.len() == 0,
            decreases n - z,
        {
            tree.push(Vec::new());
            z = z + 1;
        }
        let mut in_tree: Vec<bool> = vec![false; n];
        in_tree.set(0, true);
        let mut stack: Vec<u32> = vec![0];
        let mut size: usize = 1;
        let ghost mut found: Seq<u32> = seq![0u32];
        let ghost mut entry: Seq<int> = seq![-1int];
        let ghost mut expanded: Set<int> = Set::empty();
        let ghost mut steps: nat = n as nat;
        proof {
            assert(stack@ =~= seq![0u32]);
            assert(Growth { stack: stack@, found, entry } == seed());
            assert(tree_ids(entry) =~= Set::empty());
            assert forall|v: int| 0 <= v < n implies (#[trigger] in_tree@[v] <==> found.contains(
                v as u32,
            )) by {
                if v == 0 {
                    assert(found[0] == 0);
                }
            }
            assert(stack@.contains(0u32)) by {
                assert(stack@[0] == 0u32);
            }
        }
        while stack.len() > 0
            invariant
                self.discovery(rank@, found, entry),
                size == found.len(),
                in_tree@.len() == n,
                forall|v: int| 0 <= v < n ==> (#[trigger] in_tree@[v] <==> found.contains(v as u32)),
                self.holds_tree(tree@, tree_ids(entry)),
                forall|k: int| 0 <= k < stack@.len() ==> (#[trigger] stack@[k]) < n && in_tree@[stack@[k] as int],
                forall|v: int|
                    0 <= v < n && #[trigger] in_tree@[v] ==> expanded.contains(v) || stack@.contains(
                        v as u32,
                    ),
                forall|v: int, i: int|
                    0 <= i < m && expanded.contains(v) && self.slack_of(rank@, i) == 0
                        && (#[trigger] self.edges@[i].from == v || self.edges@[i].to == v)
                        && #[trigger] expanded.contains(v) ==> in_tree@[self.edges@[i].from as int]
                        && in_tree@[self.edges@[i].to as int],
                n - steps + stack@.len() == found.len(),
                grown_on(es, r, Growth { stack: stack@, found, entry }, steps) == grown_from_zero(
                    n as nat,
                    es,
                    r,
                ),
            decreases n - found.len(), stack@.len(),
        {
            let ghost stack0 = stack@;
            let ghost found0 = found;
            let ghost entry0 = entry;
            let v: u32 = match stack.pop() {
                Some(v) => v,
                None => 0,
            };
            let ghost round = self.inc@[v as int]@;
            let ghost g0 = Growth { stack: stack@, found, entry };
            proof {
                lemma_incident(self.edges@, v as int, m);
                lemma_distinct_below(found, n as int);
                assert(stack@ =~= stack0.drop_last());
                assert(g0 == (Growth { stack: stack0.drop_last(), found: found0, entry: entry0 }));
                assert(stack0.last() == v);
                assert forall|x: u32| stack0.contains(x) implies stack@.contains(x) || x == v by {
                    let k = choose|k: int| 0 <= k < stack0.len() && stack0[k] == x;
                    if k < stack@.len() {
                        assert(stack@[k] == x);
                    }
                }
            }
            let mut idx: usize = 0;
            while idx < self.inc[v as usize].len()
                invariant
                    idx <= round.len(),
                    v < n,
                    self.discovery(rank@, found, entry),
                    size == found.len(),
                    found.len() > found0.len() || (found == found0 && stack@ == stack0.drop_last()),
                    in_tree@.len() == n,
                    in_tree@[v as int],
                    forall|u: int| 0 <= u < n ==> (#[trigger] in_tree@[u] <==> found.contains(u as u32)),
                    self.holds_tree(tree@, tree_ids(entry)),
                    forall|k: int|
                        0 <= k < stack@.len() ==> (#[trigger] stack@[k]) < n && in_tree@[stack@[k] as int],
                    forall|u: int|
                        0 <= u < n && #[trigger] in_tree@[u] ==> expanded.contains(u) || stack@.contains(
                            u as u32,
                        ) || u == v,
                    forall|u: int, i: int|
                        0 <= i < m && expanded.contains(u) && self.slack_of(rank@, i) == 0 && (
                        #[trigger] self.edges@[i].from == u || self.edges@[i].to == u)
                            && #[trigger] expanded.contains(u) ==> in_tree@[self.edges@[i].from as int]
                            && in_tree@[self.edges@[i].to as int],
                    forall|k: int|
                        0 <= k < idx && self.slack_of(rank@, (#[trigger] round[k]) as int) == 0
                            ==> in_tree@[self.edges@[round[k] as int].from as int]
                            && in_tree@[self.edges@[round[k] as int].to as int],
                    (Growth { stack: stack@, found, entry }) == looked(es, r, v, g0, idx as nat),
                    n - steps + stack@.len() + 1 == found.len(),
                decreases round.len() - idx,
            {
                let i: usize = self.inc[v as usize][idx];
                let e: RankEdge = self.edges[i];
                let other: u32 = if e.from == v { e.to } else { e.from };
                assert(round[idx as int] == i);
                proof {
                    assert(incident(es, v as int, es.len())[idx as int] == i);
                    assert(slack(es, r, i as int) == self.slack_of(rank@, i as int));
                    assert(in_tree@[other as int] <==> found.contains(other));
                }
                if !in_tree[other as usize] && self.slack(rank, i) == 0 {
                    let ghost found1 = found;
                    let ghost entry1 = entry;
                    let ghost tree1 = tree@;
                    let ghost stack1 = stack@;
                    let ghost in1 = in_tree@;
                    proof {
                        lemma_distinct_below(found1, n as int);
                        assert(found1.contains(v));
                        assert(!found1.contains(other));
                    }
                    in_tree.set(other as usize, true);
                    tree[v as usize].push((other, i));
                    tree[other as usize].push((v, i));
                    stack.push(other);
                    proof {
                        found = found.push(other);
                        entry = entry.push(i as int);
                        Net::lemma_tree_ids_push(entry1, i as int);
                        lemma_distinct_below_strict(found1, other, n as int);
                        assert forall|u: int| 0 <= u < n implies (#[trigger] in_tree@[u]
                            <==> found.contains(u as u32)) by {
                            lemma_push_contains(found1, other, u as u32);
                            assert(in1[u] <==> found1.contains(u as u32));
                        }
                        assert forall|x: u32| stack1.contains(x) || x == other implies stack@.contains(x) by {
                            lemma_push_contains(stack1, other, x);
                        }
                        assert forall|u: int| 0 <= u < n && #[trigger] in_tree@[u] implies expanded.contains(
                            u,
                        ) || stack@.contains(u as u32) || u == v by {
                            lemma_push_contains(stack1, other, u as u32);
                            if u != other {
                                assert(in1[u]);
                            }
                        }
                        assert forall|k: int| 1 <= k < found.len() implies #[trigger] self.linked(
                            rank@,
                            found,
                            entry,
                            k,
                        ) by {
                            if k < found1.len() {
                                assert(self.linked(rank@, found1, entry1, k));
                                let j = choose|j: int|
                                    0 <= j < k && self.edges@[entry1[k]].joins(
                                        found1[k] as int,
                                        #[trigger] found1[j] as int,
                                    );
                                assert(found[j] == found1[j]);
                            } else {
                                let j = choose|j: int| 0 <= j < found1.len() && found1[j] == v;
                                assert(found[j] == v);
                            }
                        }
                        let ids1 = tree_ids(entry1);
                        let ids = tree_ids(entry);
                        assert forall|a: int| ids.contains(a) implies 0 <= a < m && a <= usize::MAX
                            && tree@[self.edges@[a].from as int]@.contains(
                            (self.edges@[a].to, a as usize),
                        ) && tree@[self.edges@[a].to as int]@.contains(
                            (self.edges@[a].from, a as usize),
                        ) by {
                            if a == i {
                                assert(tree@[v as int]@.last() == (other, i));
                                assert(tree@[other as int]@.last() == (v, i));
                                assert(tree@[v as int]@.contains((other, i)));
                                assert(tree@[other as int]@.contains((v, i)));
                            } else {
                                assert(ids1.contains(a));
                                lemma_grown_list(tree1, tree@, v as int, (other, i), other as int, (v, i));
                            }
                        }
                        assert forall|u: int, k: int|
                            0 <= u < n && 0 <= k < tree@[u]@.len() implies {
                            let x = #[trigger] tree@[u]@[k];
                            x.1 < m && ids.contains(x.1 as int) && self.edges@[x.1 as int].joins(
                                u,
                                x.0 as int,
                            )
                        } by {
                            if k < tree1[u]@.len() {
                                assert(tree@[u]@[k] == tree1[u]@[k]);
                            }
                        }
                    }
                    size = size + 1;
                }
                idx = idx + 1;
            }
            proof {
                assert forall|u: int, i: int|
                    0 <= i < m && expanded.insert(v as int).contains(u) && self.slack_of(rank@, i)
                        == 0 && (#[trigger] self.edges@[i].from == u || self.edges@[i].to == u)
                        && #[trigger] expanded.insert(v as int).contains(
                        u,
                    ) implies in_tree@[self.edges@[i].from as int] && in_tree@[self.edges@[i].to as int] by {
                    if u == v {
                        assert(round.contains(i as usize)) by {
                            assert(self.edges@[i].from == v || self.edges@[i].to == v);
                        }
                        let k = choose|k: int| 0 <= k < round.len() && round[k] == i as usize;
                    } else {
                        assert(expanded.contains(u));
                    }
                }
                expanded = expanded.insert(v as int);
                lemma_distinct_below(found, n as int);
                assert(idx == incident(es, v as int, es.len()).len());
                steps = (steps - 1) as nat;
            }
        }
        assert forall|i: int| 0 <= i < m && #[trigger] self.slack_of(rank@, i) == 0 implies in_tree@[
            self.edges@[i].from as int] == in_tree@[self.edges@[i].to as int] by {
            let a = self.edges@[i].from as int;
            let b = self.edges@[i].to as int;
            if in_tree@[a] {
                assert(expanded.contains(a));
            }
            if in_tree@[b] {
                assert(expanded.contains(b));
            }
        }
        TightTree { tree, in_tree, size, found: Ghost(found), entry: Ghost(entry) }
    }
}

proof fn lemma_distinct_below_strict(s: Seq<u32>, x: u32, n: int)
    requires
        s.no_duplicates(),
        n >= 0,
        forall|k: int| 0 <= k < s.len() ==> (#[trigger] s[k]) < n,
        !s.contains(x),
        x < n,
    ensures
        s.len() < n,
        s.push(x).no_duplicates(),
{
    let t = s.push(x);
    assert(t.no_duplicates());
    lemma_distinct_below(t, n);
}

proof fn lemma_grown_list<T>(
    a: Seq<Vec<T>>,
    b: Seq<Vec<T>>,
    v: int,
    x: T,
    w: int,
    y: T,
)
    requires
        a.len() == b.len(),
        0 <= v < a.len(),
        0 <= w < a.len(),
        v != w,
        b[v]@ == a[v]@.push(x),
        b[w]@ == a[w]@.push(y),
        forall|u: int| 0 <= u < a.len() && u != v && u != w ==> b[u] == #[trigger] a[u],
    ensures
        forall|u: int, z: T|
            0 <= u < a.len() && #[trigger] a[u]@.contains(z) ==> #[trigger] b[u]@.contains(z),
{
    assert forall|u: int, z: T| 0 <= u < a.len() && #[trigger] a[u]@.contains(z) implies #[trigger] b[u]@.contains(
        z,
    ) by {
        if u == v {
            lemma_push_contains(a[v]@, x, z);
        } else if u == w {
            lemma_push_contains(a[w]@, y, z);
        }
    }
}

impl Net {
    /// No edge has exactly one end among the marked nodes.
    spec fn uncrossed(self, inside: Seq<bool>) -> bool {
        forall|i: int|
            0 <= i < self.edges@.len() ==> inside[(#[trigger] self.edges@[i]).from as int]
                == inside[self.edges@[i].to as int]
    }

    spec fn crosses(self, inside: Seq<bool>, i: int) -> bool {
        inside[self.edges@[i].from as int] != inside[self.edges@[i].to as int]
    }

    proof fn lemma_found_inside(
        self,
        rank: Seq<i128>,
        found: Seq<u32>,
        entry: Seq<int>,
        inside: Seq<bool>,
        k: int,
    )
        requires
            self.discovery(rank, found, entry),
            inside.len() == self.n,
            inside[0],
            forall|i: int|
                0 <= i < self.edges@.len() && #[trigger] self.slack_of(rank, i) == 0 ==> inside[
                    self.edges@[i].from as int] == inside[self.edges@[i].to as int],
            0 <= k < found.len(),
        ensures
            inside[found[k] as int],
        decreases k,
    {
        if k > 0 {
            assert(self.linked(rank, found, entry, k));
            let j = choose|j: int|
                0 <= j < k && self.edges@[entry[k]].joins(found[k] as int, #[trigger] found[j] as int);
            self.lemma_found_inside(rank, found, entry, inside, j);
            assert(self.slack_of(rank, entry[k]) == 0);
        }
    }

    /// A found node is no further from node 0 than its place in the discovery allows.
    proof fn lemma_found_near(self, rank: Seq<i128>, found: Seq<u32>, entry: Seq<int>, k: int)
        requires
            self.well_formed(),
            self.discovery(rank, found, entry),
            0 <= k < found.len(),
        ensures
            -(k * WIDE) <= (rank[found[k] as int] - rank[0]) * self.n <= k * WIDE,
        decreases k,
    {
        if k > 0 {
            assert(self.linked(rank, found, entry, k));
            let j = choose|j: int|
                0 <= j < k && self.edges@[entry[k]].joins(found[k] as int, #[trigger] found[j] as int);
            self.lemma_found_near(rank, found, entry, j);
            let e = self.edges@[entry[k]];
            assert(self.slack_of(rank, entry[k]) == 0);
            let a = rank[found[k] as int] - rank[0];
            let b = rank[found[j] as int] - rank[0];
            let l = e.minlen as int;
            let n = self.n as int;
            let w = WIDE as int;
            assert(a == b + l || a == b - l);
            assert(-(k * w) <= a * n <= k * w) by (nonlinear_arith)
                requires
                    a == b + l || a == b - l,
                    -(j * w) <= b * n <= j * w,
                    0 <= l * n <= w,
                    0 <= j,
                    j + 1 <= k,
                    w >= 0,
            ;
        } else {
            let z = rank[found[k] as int] - rank[0];
            assert(z * self.n == 0) by (nonlinear_arith)
                requires
                    z == 0,
            ;
        }
    }

    /// A tight spanning tree of the nodes joined to node 0, shifting what is found until one exists.
    #[verifier::loop_isolation(false)]
    #[verifier::rlimit(40)]
    fn feasible_tree(&self, rank: &mut Vec<i128>) -> (t: TightTree)
        requires
            self.well_formed(),
            self.spans(old(rank)@),
            forall|v: int| 0 <= v < self.n ==> 0 <= #[trigger] old(rank)@[v] <= WIDE,
        ensures
            self.spans(final(rank)@),
            Net::in_bounds(final(rank)@),
            self.grown(final(rank)@, t),
            self.uncrossed(t.in_tree@),
            forall|v: int| 0 <= v < self.n && !(#[trigger] t.in_tree@[v]) ==> 0 <= final(rank)@[v] <= WIDE,
            (Basis { rank: ints(final(rank)@), tree: tree_ids(t.entry@) }) == first_basis(
                self.n as nat,
                self.edges@,
                ints(old(rank)@),
                self.n as nat,
            ),
    {
        let n: usize = self.n;
        let edge_count: usize = self.edges.len();
        let ghost es = self.edges@;
        let ghost goal = first_basis(n as nat, es, ints(rank@), n as nat);
        let ghost mut steps: nat = n as nat;
        let ghost mut found: Seq<u32> = seq![0u32];
        let ghost mut entry: Seq<int> = seq![-1int];
        loop
            invariant
                self.spans(rank@),
                Net::in_bounds(rank@),
                self.discovery(rank@, found, entry),
                forall|v: int|
                    0 <= v < n && !found.contains(v as u32) ==> 0 <= #[trigger] rank@[v] <= WIDE,
                steps >= n - found.len() + 1,
                first_basis(n as nat, es, ints(rank@), steps) == goal,
            decreases n - found.len(),
        {
            let t = self.tight_tree(rank);
            let ghost r = ints(rank@);
            let ghost across = crossing(es, t.found@);
            proof {
                assert(t.found@[0] == 0);
                assert(t.found@.contains(0u32));
                assert(t.in_tree@[0]);
                assert forall|v: int| 0 <= v < n && !(#[trigger] t.in_tree@[v]) implies 0 <= rank@[v]
                    <= WIDE by {
                    if found.contains(v as u32) {
                        let k = choose|k: int| 0 <= k < found.len() && found[k] == v as u32;
                        self.lemma_found_inside(rank@, found, entry, t.in_tree@, k);
                    }
                }
                lemma_distinct_below(t.found@, n as int);
                self.lemma_found_count(rank@, found, entry, t);
                assert forall|j: int| 0 <= j < edge_count implies #[trigger] across(j) == self.crosses(
                    t.in_tree@,
                    j,
                ) by {
                    let f = self.edges@[j];
                    assert(t.in_tree@[f.from as int] <==> t.found@.contains(f.from));
                    assert(t.in_tree@[f.to as int] <==> t.found@.contains(f.to));
                }
            }
            if t.size == n {
                proof {
                    self.lemma_all_found(rank@, t);
                    the_tightest_is_tightest(es, r, across, es.len());
                    if tightest(es, r, across, es.len()) is Some {
                        let b = tightest(es, r, across, es.len())->0;
                        assert(across(b) == self.crosses(t.in_tree@, b));
                    }
                }
                return t;
            }
            let mut best: Option<(usize, i128)> = None;
            let mut i: usize = 0;
            while i < edge_count
                invariant
                    i <= edge_count,
                    match best {
                        Some((b, s)) => {
                            &&& b < i
                            &&& self.crosses(t.in_tree@, b as int)
                            &&& s == self.slack_of(rank@, b as int)
                            &&& forall|j: int|
                                0 <= j < i && #[trigger] self.crosses(t.in_tree@, j) ==> self.slack_of(
                                    rank@,
                                    j,
                                ) >= s
                        },
                        None => forall|j: int| 0 <= j < i ==> !#[trigger] self.crosses(t.in_tree@, j),
                    },
                    tightest(es, r, across, i as nat) == (match best {
                        Some((b, _)) => Some(b as int),
                        None => None,
                    }),
                decreases edge_count - i,
            {
                proof {
                    assert(across(i as int) == self.crosses(t.in_tree@, i as int));
                    assert(slack(es, r, i as int) == self.slack_of(rank@, i as int));
                    if let Some((b, _)) = best {
                        assert(slack(es, r, b as int) == self.slack_of(rank@, b as int));
                    }
                }
                let e: RankEdge = self.edges[i];
                let a: bool = t.in_tree[e.from as usize];
                let b: bool = t.in_tree[e.to as usize];
                assert(self.crosses(t.in_tree@, i as int) <==> a != b);
                if a != b {
                    let s: i128 = self.slack(rank, i);
                    match best {
                        Some((_, bs)) => {
                            if s < bs {
                                best = Some((i, s));
                            }
                        },
                        None => {
                            best = Some((i, s));
                        },
                    }
                }
                i = i + 1;
            }
            match best {
                None => {
                    proof {
                        assert forall|j: int| 0 <= j < edge_count implies t.in_tree@[(
                        #[trigger] self.edges@[j]).from as int] == t.in_tree@[self.edges@[j].to as int] by {
                            assert(!self.crosses(t.in_tree@, j));
                        }
                    }
                    return t;
                },
                Some((i, s)) => {
                    let e: RankEdge = self.edges[i];
                    let delta: i128 = if t.in_tree[e.from as usize] { s } else { -s };
                    let ghost rank0 = rank@;
                    let ghost inner: int = if t.in_tree@[e.from as int] { e.from as int } else { e.to as int };
                    let ghost outer: int = if t.in_tree@[e.from as int] { e.to as int } else { e.from as int };
                    proof {
                        assert(self.slack_of(rank0, i as int) >= 0);
                        assert(t.in_tree@[inner] && !t.in_tree@[outer]);
                        assert(t.found@.contains(inner as u32));
                        assert forall|u: int| 0 <= u < n && #[trigger] t.in_tree@[u] implies -3 * WIDE
                            <= rank0[u] + delta <= 3 * WIDE by {
                            assert(t.found@.contains(u as u32));
                            let k = choose|k: int| 0 <= k < t.found@.len() && t.found@[k] == u as u32;
                            let j = choose|j: int|
                                0 <= j < t.found@.len() && t.found@[j] == inner as u32;
                            self.lemma_found_near(rank0, t.found@, t.entry@, k);
                            self.lemma_found_near(rank0, t.found@, t.entry@, j);
                            let a = rank0[u] - rank0[0];
                            let b = rank0[inner] - rank0[0];
                            let nn = n as int;
                            let w = WIDE as int;
                            let l = e.minlen as int;
                            assert(rank0[inner] + delta == rank0[outer] - l || rank0[inner] + delta
                                == rank0[outer] + l);
                            assert(-2 * w <= a - b <= 2 * w) by (nonlinear_arith)
                                requires
                                    -(k * w) <= a * nn <= k * w,
                                    -(j * w) <= b * nn <= j * w,
                                    0 <= k <= nn - 1,
                                    0 <= j <= nn - 1,
                                    nn >= 1,
                                    w >= 0,
                            ;
                            // one column less on each side leaves room for the edge itself
                            assert((a - b + l) <= 2 * w && -(2 * w) <= a - b - l) by (nonlinear_arith)
                                requires
                                    -(k * w) <= a * nn <= k * w,
                                    -(j * w) <= b * nn <= j * w,
                                    0 <= k <= nn - 2,
                                    0 <= j <= nn - 2,
                                    0 <= l * nn <= w,
                                    nn >= 1,
                                    w >= 0,
                            ;
                        }
                    }
                    let mut v: usize = 0;
                    while v < n
                        invariant
                            v <= n,
                            rank@.len() == n,
                            forall|u: int|
                                0 <= u < v ==> #[trigger] rank@[u] == rank0[u] + (if t.in_tree@[u] {
                                    delta as int
                                } else {
                                    0
                                }),
                            forall|u: int| v <= u < n ==> #[trigger] rank@[u] == rank0[u],
                        decreases n - v,
                    {
                        if t.in_tree[v] {
                            let r: i128 = rank[v];
                            rank.set(v, r + delta);
                        }
                        v = v + 1;
                    }
                    proof {
                        let r1 = rank@;
                        assert forall|j: int| 0 <= j < edge_count implies #[trigger] self.slack_of(r1, j) >= 0 by {
                            assert(self.slack_of(rank0, j) >= 0);
                            let f = self.edges@[j];
                            assert(f.from < n && f.to < n);
                            if self.crosses(t.in_tree@, j) {
                                assert(self.slack_of(rank0, j) >= s);
                            }
                        }
                        let nf = t.found@.push(outer as u32);
                        let ne = t.entry@.push(i as int);
                        assert(!t.found@.contains(outer as u32));
                        lemma_distinct_below_strict(t.found@, outer as u32, n as int);
                        assert forall|k: int| 1 <= k < nf.len() implies #[trigger] self.linked(
                            r1,
                            nf,
                            ne,
                            k,
                        ) by {
                            if k < t.found@.len() {
                                assert(self.linked(rank0, t.found@, t.entry@, k));
                                let j = choose|j: int|
                                    0 <= j < k && self.edges@[t.entry@[k]].joins(
                                        t.found@[k] as int,
                                        #[trigger] t.found@[j] as int,
                                    );
                                assert(nf[j] == t.found@[j]);
                                assert(t.found@.contains(t.found@[j]));
                                assert(t.found@.contains(t.found@[k]));
                                assert(t.in_tree@[t.found@[j] as int]);
                                assert(t.in_tree@[t.found@[k] as int]);
                                assert(self.slack_of(r1, ne[k]) == 0);
                            } else {
                                let j = choose|j: int|
                                    0 <= j < t.found@.len() && t.found@[j] == inner as u32;
                                assert(nf[j] == inner as u32);
                                assert(self.slack_of(r1, ne[k]) == 0);
                            }
                        }
                        assert(self.discovery(r1, nf, ne));
                        assert forall|v: int| 0 <= v < n && !nf.contains(v as u32) implies 0
                            <= #[trigger] r1[v] <= WIDE by {
                            lemma_push_contains(t.found@, outer as u32, v as u32);
                            assert(!t.in_tree@[v]);
                        }
                        found = nf;
                        entry = ne;
                        lemma_distinct_below(nf, n as int);
                        assert(slack(es, r, i as int) == self.slack_of(rank0, i as int));
                        assert(t.in_tree@[e.from as int] <==> t.found@.contains(e.from));
                        assert(ints(r1) =~= moved(r, t.found@, delta as int)) by {
                            assert forall|v: int| 0 <= v < n implies ints(r1)[v] == moved(
                                r,
                                t.found@,
                                delta as int,
                            )[v] by {
                                assert(t.in_tree@[v] <==> t.found@.contains(v as u32));
                                assert(r1[v] == rank0[v] + (if t.in_tree@[v] {
                                    delta as int
                                } else {
                                    0
                                }));
                            }
                        }
                        steps = (steps - 1) as nat;
                    }
                },
            }
        }
    }

    proof fn lemma_found_count(self, rank: Seq<i128>, found: Seq<u32>, entry: Seq<int>, t: TightTree)
        requires
            self.well_formed(),
            self.discovery(rank, found, entry),
            self.grown(rank, t),
            t.in_tree@[0],
        ensures
            found.len() <= t.found@.len(),
    {
        assert forall|k: int| 0 <= k < found.len() implies t.found@.contains(#[trigger] found[k]) by {
            self.lemma_found_inside(rank, found, entry, t.in_tree@, k);
        }
        found.unique_seq_to_set();
        t.found@.unique_seq_to_set();
        assert(found.to_set().subset_of(t.found@.to_set()));
        vstd::set_lib::lemma_len_subset(found.to_set(), t.found@.to_set());
    }

    proof fn lemma_all_found(self, rank: Seq<i128>, t: TightTree)
        requires
            self.well_formed(),
            self.grown(rank, t),
            t.size == self.n,
        ensures
            forall|v: int| 0 <= v < self.n ==> #[trigger] t.in_tree@[v],
            self.uncrossed(t.in_tree@),
    {
        assert forall|v: int| 0 <= v < self.n implies #[trigger] t.in_tree@[v] by {
            if !t.found@.contains(v as u32) {
                lemma_distinct_below_strict(t.found@, v as u32, self.n as int);
            }
        }
    }
}

/// The state of the depth-first labelling: `nodes` is the path from the root to the node in hand.
struct Walk {
    low: Seq<u32>,
    lim: Seq<u32>,
    parent: Seq<Option<usize>>,
    visited: Seq<bool>,
    path: Seq<Seq<int>>,
    nodes: Seq<int>,
    post: Seq<u32>,
}

impl Walk {
    /// `x` lies on the path from the root to the finished node `u`, as the labels tell it.
    spec fn under(self, u: int, x: int) -> bool {
        self.low[x] <= self.lim[u] && (self.lim[x] == 0 || self.lim[u] <= self.lim[x])
    }

    spec fn open_push(self, v: int, w: int, i: usize) -> Walk {
        Walk {
            low: self.low.update(w, (self.post.len() + 1) as u32),
            parent: self.parent.update(w, Some(i)),
            visited: self.visited.update(w, true),
            path: self.path.update(w, self.path[v].push(w)),
            nodes: self.nodes.push(w),
            ..self
        }
    }

    spec fn close_top(self) -> Walk {
        let v = self.nodes.last();
        Walk {
            lim: self.lim.update(v, (self.post.len() + 1) as u32),
            nodes: self.nodes.drop_last(),
            post: self.post.push(v as u32),
            ..self
        }
    }
}

impl Net {
    /// The end of edge `i` that is not `v`.
    spec fn across(self, i: int, v: int) -> int {
        if self.edges@[i].from == v { self.edges@[i].to as int } else { self.edges@[i].from as int }
    }

    spec fn hangs(self, ids: Set<int>, d: Walk, v: int) -> bool {
        &&& d.parent[v] is Some
        &&& {
            let i = d.parent[v]->0 as int;
            let p = self.across(i, v);
            &&& ids.contains(i)
            &&& 0 <= i < self.edges@.len()
            &&& self.edges@[i].joins(v, p)
            &&& 0 <= p < self.n
            &&& d.visited[p]
            &&& d.path[v] == d.path[p].push(v)
            &&& d.lim[p] > 0 ==> 0 < d.lim[v] < d.lim[p]
        }
    }

    spec fn walking(self, ids: Set<int>, d: Walk) -> bool {
        &&& d.low.len() == self.n && d.lim.len() == self.n && d.parent.len() == self.n
        &&& d.visited.len() == self.n && d.path.len() == self.n
        &&& d.visited[0] && d.parent[0] is None && d.path[0] == seq![0int]
        &&& forall|k: int|
            0 <= k < d.nodes.len() ==> 0 <= (#[trigger] d.nodes[k]) < self.n && d.visited[d.nodes[k]]
                && d.lim[d.nodes[k]] == 0 && d.path[d.nodes[k]] == d.nodes.take(k + 1)
        &&& forall|v: int|
            0 <= v < self.n && #[trigger] d.visited[v] && d.lim[v] == 0 ==> d.nodes.contains(v)
        &&& forall|v: int|
            0 <= v < self.n && !(#[trigger] d.visited[v]) ==> d.lim[v] == 0 && d.low[v] == 0
                && d.parent[v] is None
        &&& forall|v: int|
            0 <= v < self.n && #[trigger] d.visited[v] ==> 1 <= d.low[v] <= d.post.len() + 1
        &&& forall|v: int|
            0 <= v < self.n && (#[trigger] d.lim[v]) > 0 ==> d.visited[v] && d.lim[v] <= d.post.len()
                && d.low[v] <= d.lim[v] && d.post[d.lim[v] - 1] == v
        &&& forall|k: int|
            0 <= k < d.post.len() ==> (#[trigger] d.post[k]) < self.n && d.lim[d.post[k] as int] == k + 1
        &&& forall|u: int, x: int|
            0 <= u < self.n && 0 <= x < self.n && d.lim[u] > 0 && d.visited[x] ==> (
            #[trigger] d.under(u, x) <==> d.path[u].contains(x))
        &&& forall|v: int|
            0 < v < self.n && d.visited[v] ==> #[trigger] self.hangs(ids, d, v)
        &&& forall|v: int, k: int|
            0 <= v < self.n && d.visited[v] && 0 <= k < d.path[v].len() ==> 0 <= (
            #[trigger] d.path[v][k]) < self.n && d.visited[d.path[v][k]]
    }

    proof fn lemma_open_push(self, ids: Set<int>, d: Walk, v: int, w: int, i: usize)
        requires
            self.well_formed(),
            self.walking(ids, d),
            d.nodes.len() > 0,
            v == d.nodes.last(),
            0 < w < self.n,
            !d.visited[w],
            ids.contains(i as int),
            i < self.edges@.len(),
            self.edges@[i as int].joins(v, w),
            d.post.len() + 1 <= u32::MAX,
        ensures
            self.walking(ids, d.open_push(v, w, i)),
    {
        let e = d.open_push(v, w, i);
        let top = d.nodes.len() - 1;
        assert(d.nodes[top] == v);
        assert(d.path[v] =~= d.nodes);
        assert(v != w);
        assert forall|k: int| 0 <= k < e.nodes.len() implies 0 <= (#[trigger] e.nodes[k]) < self.n
            && e.visited[e.nodes[k]] && e.lim[e.nodes[k]] == 0 && e.path[e.nodes[k]] == e.nodes.take(
            k + 1,
        ) by {
            if k < d.nodes.len() {
                assert(d.nodes[k] == e.nodes[k]);
                assert(d.nodes[k] != w);
                assert(d.nodes.take(k + 1) =~= e.nodes.take(k + 1));
            } else {
                assert(e.nodes.take(k + 1) =~= d.nodes.push(w));
            }
        }
        assert forall|x: int| 0 <= x < self.n && #[trigger] e.visited[x] && e.lim[x] == 0 implies e.nodes.contains(
            x,
        ) by {
            lemma_push_contains(d.nodes, w, x);
            if x != w {
                assert(d.visited[x]);
            }
        }
        assert forall|u: int, x: int|
            0 <= u < self.n && 0 <= x < self.n && e.lim[u] > 0 && e.visited[x] implies (
        #[trigger] e.under(u, x) <==> e.path[u].contains(x)) by {
            assert(u != w);
            assert(d.lim[u] > 0);
            if x == w {
                if e.path[u].contains(w) {
                    let k = choose|k: int| 0 <= k < d.path[u].len() && d.path[u][k] == w;
                    assert(d.visited[d.path[u][k]]);
                }
            } else {
                assert(d.visited[x]);
                assert(d.under(u, x) <==> d.path[u].contains(x));
            }
        }
        assert forall|x: int| 0 < x < self.n && e.visited[x] implies #[trigger] self.hangs(ids, e, x) by {
            if x != w {
                assert(d.visited[x]);
                assert(self.hangs(ids, d, x));
            } else {
                assert(self.across(i as int, w) == v);
            }
        }
        assert forall|x: int, k: int|
            0 <= x < self.n && e.visited[x] && 0 <= k < e.path[x].len() implies 0 <= (
        #[trigger] e.path[x][k]) < self.n && e.visited[e.path[x][k]] by {
            if x != w {
                assert(d.visited[x]);
                assert(d.visited[d.path[x][k]]);
            } else if k < d.path[v].len() {
                assert(d.visited[d.path[v][k]]);
            }
        }
    }

    proof fn lemma_close_top(self, ids: Set<int>, d: Walk)
        requires
            self.well_formed(),
            self.walking(ids, d),
            d.nodes.len() > 0,
            d.post.len() + 1 <= u32::MAX,
        ensures
            self.walking(ids, d.close_top()),
    {
        let e = d.close_top();
        let top = d.nodes.len() - 1;
        let v = d.nodes.last();
        let next = d.post.len() + 1;
        assert(d.nodes[top] == v);
        assert(d.path[v] =~= d.nodes);
        assert forall|k: int| 0 <= k < e.nodes.len() implies 0 <= (#[trigger] e.nodes[k]) < self.n
            && e.visited[e.nodes[k]] && e.lim[e.nodes[k]] == 0 && e.path[e.nodes[k]] == e.nodes.take(
            k + 1,
        ) by {
            assert(d.nodes[k] == e.nodes[k]);
            assert(d.nodes.take(k + 1) =~= e.nodes.take(k + 1));
            if d.nodes[k] == v {
                assert(d.path[v].len() == k + 1);
            }
        }
        assert forall|x: int| 0 <= x < self.n && #[trigger] e.visited[x] && e.lim[x] == 0 implies e.nodes.contains(
            x,
        ) by {
            assert(d.visited[x]);
            assert(d.lim[x] == 0);
            let k = choose|k: int| 0 <= k < d.nodes.len() && d.nodes[k] == x;
            assert(x != v);
            assert(e.nodes[k] == x);
        }
        assert forall|u: int, x: int|
            0 <= u < self.n && 0 <= x < self.n && e.lim[u] > 0 && e.visited[x] implies (
        #[trigger] e.under(u, x) <==> e.path[u].contains(x)) by {
            assert(d.visited[x]);
            if u == v {
                if d.lim[x] == 0 {
                    assert(d.nodes.contains(x));
                } else {
                    if d.path[v].contains(x) {
                        let k = choose|k: int| 0 <= k < d.nodes.len() && d.nodes[k] == x;
                        assert(d.lim[d.nodes[k]] == 0);
                    }
                }
            } else {
                assert(d.lim[u] > 0);
                assert(d.under(u, x) <==> d.path[u].contains(x));
            }
        }
        assert forall|x: int| 0 < x < self.n && e.visited[x] implies #[trigger] self.hangs(ids, e, x) by {
            assert(d.visited[x]);
            assert(self.hangs(ids, d, x));
            let p = self.across(d.parent[x]->0 as int, x);
            if p == v {
                // a child of the node in hand is finished: on the path it would stand below it
                if d.lim[x] == 0 {
                    let k = choose|k: int| 0 <= k < d.nodes.len() && d.nodes[k] == x;
                    assert(d.path[x].len() == k + 1);
                    assert(d.path[x].len() == d.nodes.len() + 1);
                }
            }
        }
        assert forall|x: int| 0 <= x < self.n && (#[trigger] e.lim[x]) > 0 implies e.visited[x]
            && e.lim[x] <= e.post.len() && e.low[x] <= e.lim[x] && e.post[e.lim[x] - 1] == x by {
            if x != v {
                assert(d.lim[x] > 0);
            }
        }
        assert forall|k: int| 0 <= k < e.post.len() implies (#[trigger] e.post[k]) < self.n && e.lim[
            e.post[k] as int] == k + 1 by {
            if k < d.post.len() {
                assert(d.post[k] == e.post[k]);
                assert(d.lim[d.post[k] as int] == k + 1);
            }
        }
        assert forall|x: int, k: int|
            0 <= x < self.n && e.visited[x] && 0 <= k < e.path[x].len() implies 0 <= (
        #[trigger] e.path[x][k]) < self.n && e.visited[e.path[x][k]] by {
            assert(d.visited[d.path[x][k]]);
        }
    }
}

/// Postorder interval labels of a rooted tree, so "is x under y?" is two comparisons.
struct Labels {
    low: Vec<u32>,
    lim: Vec<u32>,
    parent: Vec<Option<usize>>,
    /// The nodes in postorder: children before their parent.
    post: Vec<u32>,
    path: Ghost<Seq<Seq<int>>>,
}

impl Net {
    /// The edges `ids` form a tree over the nodes `nodes`, node 0 among them.
    spec fn spanning(self, ids: Set<int>, nodes: Set<int>) -> bool {
        &&& ids.finite() && nodes.finite()
        &&& ids.len() + 1 == nodes.len()
        &&& nodes.contains(0)
        &&& forall|v: int| #[trigger] nodes.contains(v) ==> 0 <= v < self.n
        &&& forall|v: int| nodes.contains(v) ==> #[trigger] walkable(self.edges@, ids, v)
        &&& forall|i: int| #[trigger]
            ids.contains(i) ==> 0 <= i < self.edges@.len() && nodes.contains(self.edges@[i].from as int)
                && nodes.contains(self.edges@[i].to as int)
    }

    /// Node `v` hangs on a node finished later, and its path is that node's path and itself.
    spec fn child_of(self, ids: Set<int>, l: Labels, v: int) -> bool {
        &&& l.parent@[v] is Some
        &&& {
            let i = l.parent@[v]->0 as int;
            let p = self.across(i, v);
            &&& ids.contains(i)
            &&& 0 <= i < self.edges@.len()
            &&& self.edges@[i].joins(v, p)
            &&& 0 <= p < self.n
            &&& l.lim@[v] < l.lim@[p]
            &&& l.path@[v] == l.path@[p].push(v)
        }
    }

    spec fn beneath(l: Labels, u: int, x: int) -> bool {
        l.low@[x] <= l.lim@[u] <= l.lim@[x]
    }

    spec fn labelled(self, ids: Set<int>, nodes: Set<int>, l: Labels) -> bool {
        &&& l.low@.len() == self.n && l.lim@.len() == self.n && l.parent@.len() == self.n
        &&& l.path@.len() == self.n
        &&& l.parent@[0] is None
        &&& forall|v: int|
            nodes.contains(v) ==> 1 <= (#[trigger] l.lim@[v]) <= l.post@.len() && 1 <= l.low@[v]
                && l.post@[l.lim@[v] - 1] == v
        &&& forall|v: int|
            0 <= v < self.n && !nodes.contains(v) ==> (#[trigger] l.lim@[v]) == 0 && l.low@[v] == 0
                && l.parent@[v] is None
        &&& forall|k: int|
            0 <= k < l.post@.len() ==> nodes.contains((#[trigger] l.post@[k]) as int) && l.lim@[
                l.post@[k] as int] == k + 1
        &&& forall|v: int| v != 0 && nodes.contains(v) ==> #[trigger] self.child_of(ids, l, v)
        &&& forall|u: int, x: int|
            nodes.contains(u) && nodes.contains(x) ==> (#[trigger] Net::beneath(l, u, x)
                <==> l.path@[u].contains(x))
        &&& forall|i: int| #[trigger]
            ids.contains(i) ==> l.parent@[self.edges@[i].from as int] == Some(i as usize)
                || l.parent@[self.edges@[i].to as int] == Some(i as usize)
    }

    /// As many tree edges as nodes that hang: each tree edge is some node's parent edge.
    proof fn lemma_all_parents(self, ids: Set<int>, nodes: Set<int>, l: Labels)
        requires
            self.well_formed(),
            self.spanning(ids, nodes),
            l.parent@.len() == self.n,
            forall|v: int| v != 0 && nodes.contains(v) ==> #[trigger] self.child_of(ids, l, v),
        ensures
            forall|i: int| #[trigger]
                ids.contains(i) ==> l.parent@[self.edges@[i].from as int] == Some(i as usize)
                    || l.parent@[self.edges@[i].to as int] == Some(i as usize),
    {
        let kids = nodes.remove(0);
        let f = |v: int| l.parent@[v]->0 as int;
        let img = kids.map(f);
        assert(vstd::relations::injective_on(f, kids)) by {
            assert forall|a: int, b: int|
                kids.contains(a) && kids.contains(b) && #[trigger] f(a) == #[trigger] f(b) implies a == b by {
                assert(nodes.contains(a) && nodes.contains(b));
                assert(self.child_of(ids, l, a));
                assert(self.child_of(ids, l, b));
            }
        }
        vstd::set_lib::lemma_map_size(kids, img, f);
        assert(img.subset_of(ids)) by {
            assert forall|i: int| img.contains(i) implies ids.contains(i) by {
                let v = choose|v: int| kids.contains(v) && f(v) == i;
                assert(nodes.contains(v));
                assert(self.child_of(ids, l, v));
            }
        }
        vstd::set_lib::lemma_subset_equality(img, ids);
        assert forall|i: int| #[trigger] ids.contains(i) implies l.parent@[self.edges@[i].from as int]
            == Some(i as usize) || l.parent@[self.edges@[i].to as int] == Some(i as usize) by {
            assert(img.contains(i));
            let v = choose|v: int| kids.contains(v) && f(v) == i;
            assert(nodes.contains(v));
            assert(self.child_of(ids, l, v));
        }
    }

    /// Postorder interval labels of the tree `tree`, rooted at node 0.
    #[verifier::loop_isolation(false)]
    #[verifier::rlimit(40)]
    fn init_low_lim(
        &self,
        tree: &Vec<Vec<(u32, usize)>>,
        Ghost(ids): Ghost<Set<int>>,
        Ghost(nodes): Ghost<Set<int>>,
    ) -> (l: Labels)
        requires
            self.well_formed(),
            self.holds_tree(tree@, ids),
            self.spanning(ids, nodes),
        ensures
            self.labelled(ids, nodes, l),
    {
        let n: usize = self.n;
        let mut low: Vec<u32> = vec![0; n];
        let mut lim: Vec<u32> = vec![0; n];
        let mut parent: Vec<Option<usize>> = Vec::new();
        let mut z: usize = 0;
        while z < n
            invariant
                z <= n,
                parent@.len() == z,
                forall|v: int| 0 <= v < z ==> (#[trigger] parent@[v]) is None,
            decreases n - z,
        {
            parent.push(None);
            z = z + 1;
        }
        let mut visited: Vec<bool> = vec![false; n];
        let mut post: Vec<u32> = Vec::new();
        let mut next: u32 = 1;
        let mut stack: Vec<(u32, usize)> = vec![(0, 0)];
        visited.set(0, true);
        low.set(0, next);
        let ghost mut d = Walk {
            low: low@,
            lim: lim@,
            parent: parent@,
            visited: visited@,
            path: Seq::new(n as nat, |v: int| seq![0int]),
            nodes: seq![0int],
            post: post@,
        };
        let ghost mut seen: Seq<u32> = seq![0u32];
        proof {
            assert(seq![0int].take(1) =~= seq![0int]);
            assert(d.nodes.contains(0)) by {
                assert(d.nodes[0] == 0);
            }
            assert(self.walking(ids, d));
            assert(seen[0] == 0);
            assert(seen.contains(0u32));
        }
        while stack.len() > 0
            invariant
                self.walking(ids, d),
                d.low == low@ && d.lim == lim@ && d.parent == parent@ && d.visited == visited@ && d.post
                    == post@,
                next == post@.len() + 1,
                stack@.len() == d.nodes.len(),
                forall|k: int| 0 <= k < stack@.len() ==> (#[trigger] stack@[k]).0 == d.nodes[k],
                forall|k: int|
                    0 <= k < stack@.len() ==> (#[trigger] stack@[k]).1 <= tree@[stack@[k].0 as int]@.len(),
                forall|k: int, c: int|
                    0 <= k < stack@.len() && 0 <= c < stack@[k].1 ==> visited@[(
                    #[trigger] tree@[(#[trigger] stack@[k]).0 as int]@[c]).0 as int],
                forall|v: int, c: int|
                    0 <= v < n && lim@[v] > 0 && 0 <= c < tree@[v]@.len() ==> visited@[(
                    #[trigger] tree@[v]@[c]).0 as int],
                forall|v: int| 0 <= v < n && #[trigger] visited@[v] ==> nodes.contains(v),
                seen.no_duplicates(),
                forall|k: int| 0 <= k < seen.len() ==> (#[trigger] seen[k]) < n,
                forall|v: int| 0 <= v < n ==> (#[trigger] visited@[v] <==> seen.contains(v as u32)),
            decreases
                    n - seen.len(),
                    stack@.len(),
                    if stack@.len() > 0 {
                        tree@[stack@.last().0 as int]@.len() - stack@.last().1
                    } else {
                        0
                    },
        {
            let top: usize = stack.len() - 1;
            let (v, c) = stack[top];
            let ghost d0 = d;
            let ghost stack0 = stack@;
            proof {
                lemma_distinct_below(seen, n as int);
                assert(d.nodes[top as int] == v);
                self.lemma_post_room(ids, d);
            }
            if c < tree[v as usize].len() {
                let (w, i) = tree[v as usize][c];
                stack.set(top, (v, c + 1));
                assert(tree@[v as int]@[c as int] == (w, i));
                if !visited[w as usize] {
                    let ghost seen0 = seen;
                    let ghost visited0 = visited@;
                    let ghost stack1 = stack@;
                    proof {
                        assert(w != 0);
                        assert(self.edges@[i as int].joins(v as int, w as int));
                        self.lemma_open_push(ids, d, v as int, w as int, i);
                        d = d.open_push(v as int, w as int, i);
                        seen = seen.push(w);
                        assert(!seen0.contains(w));
                        lemma_distinct_below_strict(seen0, w, n as int);
                        assert forall|u: int| 0 <= u < n implies (#[trigger] d.visited[u]
                            <==> seen.contains(u as u32)) by {
                            lemma_push_contains(seen0, w, u as u32);
                            assert(visited0[u] <==> seen0.contains(u as u32));
                        }
                        assert(nodes.contains(w as int)) by {
                            assert(ids.contains(i as int));
                        }
                    }
                    visited.set(w as usize, true);
                    parent.set(w as usize, Some(i));
                    low.set(w as usize, next);
                    stack.push((w, 0));
                    proof {
                        assert(d.low =~= low@);
                        assert(d.parent =~= parent@);
                        assert(d.visited =~= visited@);
                        assert forall|k: int| 0 <= k < stack@.len() implies (#[trigger] stack@[k]).0
                            == d.nodes[k] by {
                            if k < stack1.len() {
                                assert(stack0[k].0 == d0.nodes[k]);
                            }
                        }
                        assert forall|k: int, x: int|
                            0 <= k < stack@.len() && 0 <= x < stack@[k].1 implies visited@[(
                        #[trigger] tree@[(#[trigger] stack@[k]).0 as int]@[x]).0 as int] by {
                            assert(k < stack1.len());
                            if k < top {
                                assert(stack0[k] == stack@[k]);
                                assert(visited0[tree@[stack0[k].0 as int]@[x].0 as int]);
                            } else if x < c {
                                assert(visited0[tree@[stack0[top as int].0 as int]@[x].0 as int]);
                            }
                        }
                    }
                } else {
                    proof {
                        assert forall|k: int, x: int|
                            0 <= k < stack@.len() && 0 <= x < stack@[k].1 implies visited@[(
                        #[trigger] tree@[(#[trigger] stack@[k]).0 as int]@[x]).0 as int] by {
                            if k < top {
                                assert(stack0[k] == stack@[k]);
                            } else if x < c {
                                assert(visited@[tree@[stack0[top as int].0 as int]@[x].0 as int]);
                            }
                        }
                    }
                }
            } else {
                proof {
                    self.lemma_close_top(ids, d);
                    d = d.close_top();
                    self.lemma_post_room(ids, d);
                }
                lim.set(v as usize, next);
                post.push(v);
                next = next + 1;
                stack.pop();
                proof {
                    assert(d.lim =~= lim@);
                    assert(d.post =~= post@);
                    assert forall|u: int, x: int|
                        0 <= u < n && lim@[u] > 0 && 0 <= x < tree@[u]@.len() implies visited@[(
                    #[trigger] tree@[u]@[x]).0 as int] by {
                        if u == v {
                            assert(visited@[tree@[stack0[top as int].0 as int]@[x].0 as int]);
                        }
                    }
                    assert forall|k: int| 0 <= k < stack@.len() implies (#[trigger] stack@[k]).0
                        == d.nodes[k] && stack@[k].1 <= tree@[stack@[k].0 as int]@.len() by {
                        assert(stack0[k] == stack@[k]);
                        assert(stack0[k].0 == d0.nodes[k]);
                    }
                    assert forall|k: int, x: int|
                        0 <= k < stack@.len() && 0 <= x < stack@[k].1 implies visited@[(
                    #[trigger] tree@[(#[trigger] stack@[k]).0 as int]@[x]).0 as int] by {
                        assert(stack0[k] == stack@[k]);
                        assert(visited@[tree@[stack0[k].0 as int]@[x].0 as int]);
                    }
                }
            }
        }
        let l = Labels { low, lim, parent, post, path: Ghost(d.path) };
        proof {
            assert(d.nodes.len() == 0);
            let inside = Set::new(|v: int| 0 <= v < n && d.visited[v]);
            assert forall|v: int| nodes.contains(v) implies #[trigger] d.visited[v] by {
                assert(walkable(self.edges@, ids, v));
                let p = choose|p: Seq<int>| #[trigger] is_walk(self.edges@, ids, p) && p.last() == v;
                assert forall|i: int, a: int, b: int|
                    0 <= i < self.edges@.len() && #[trigger] ids.contains(i)
                        && #[trigger] self.edges@[i].joins(a, b) && inside.contains(b) implies inside.contains(
                    a,
                ) by {
                    assert(d.visited[b]);
                    assert(d.lim[b] > 0) by {
                        if d.lim[b] == 0 {
                            assert(d.nodes.contains(b));
                        }
                    }
                    let e = self.edges@[i];
                    assert(tree@[b]@.contains((a as u32, i as usize)));
                    let c = choose|c: int| 0 <= c < tree@[b]@.len() && tree@[b]@[c] == (a as u32, i as usize);
                    assert(visited@[tree@[b]@[c].0 as int]);
                }
                lemma_walk_closed(self.edges@, ids, p, inside);
            }
            assert forall|v: int| 0 <= v < n implies (nodes.contains(v) <==> #[trigger] d.lim[v] > 0) by {
                if nodes.contains(v) {
                    assert(d.visited[v]);
                    if d.lim[v] == 0 {
                        assert(d.nodes.contains(v));
                    }
                }
                if d.lim[v] > 0 {
                    assert(d.visited[v]);
                }
            }
            assert forall|v: int| v != 0 && nodes.contains(v) implies #[trigger] self.child_of(
                ids,
                l,
                v,
            ) by {
                assert(d.visited[v]);
                assert(self.hangs(ids, d, v));
                let p = self.across(d.parent[v]->0 as int, v);
                assert(nodes.contains(p));
                assert(d.lim[p] > 0);
            }
            self.lemma_all_parents(ids, nodes, l);
            assert forall|u: int, x: int| nodes.contains(u) && nodes.contains(x) implies (
            #[trigger] Net::beneath(l, u, x) <==> l.path@[u].contains(x)) by {
                assert(d.lim[u] > 0 && d.lim[x] > 0);
                assert(d.visited[x]);
                assert(d.under(u, x) <==> d.path[u].contains(x));
            }
            assert forall|k: int| 0 <= k < l.post@.len() implies nodes.contains(
                (#[trigger] l.post@[k]) as int,
            ) && l.lim@[l.post@[k] as int] == k + 1 by {
                assert(d.lim[d.post[k] as int] == k + 1);
            }
            assert forall|v: int| nodes.contains(v) implies 1 <= (#[trigger] l.lim@[v]) <= l.post@.len()
                && 1 <= l.low@[v] && l.post@[l.lim@[v] - 1] == v by {
                assert(d.lim[v] > 0);
                assert(d.visited[v]);
            }
            assert forall|v: int| 0 <= v < n && !nodes.contains(v) implies (#[trigger] l.lim@[v]) == 0
                && l.low@[v] == 0 && l.parent@[v] is None by {
                assert(!d.visited[v]);
            }
        }
        l
    }

    proof fn lemma_post_room(self, ids: Set<int>, d: Walk)
        requires
            self.well_formed(),
            self.walking(ids, d),
        ensures
            d.post.len() <= self.n,
    {
        assert(d.post.no_duplicates()) by {
            assert forall|i: int, j: int|
                0 <= i < d.post.len() && 0 <= j < d.post.len() && i != j implies d.post[i]
                != d.post[j] by {
                assert(d.lim[d.post[i] as int] == i + 1);
                assert(d.lim[d.post[j] as int] == j + 1);
            }
        }
        lemma_distinct_below(d.post, self.n as int);
    }

    /// Whether `v` lies in the subtree of `root`.
    fn is_descendant(l: &Labels, v: u32, root: u32) -> (r: bool)
        requires
            v < l.lim@.len(),
            root < l.lim@.len(),
            l.low@.len() == l.lim@.len(),
        ensures
            r == Net::beneath(*l, v as int, root as int),
    {
        l.low[root as usize] <= l.lim[v as usize] && l.lim[v as usize] <= l.lim[root as usize]
    }
}

impl Net {
    /// Every edge of `ids` spans exactly what it must.
    spec fn tight_on(self, ids: Set<int>, want: Seq<int>) -> bool {
        forall|i: int| #[trigger]
            ids.contains(i) ==> want[self.edges@[i].to as int] - want[self.edges@[i].from as int]
                == self.edges@[i].minlen
    }

    /// Re-derive ranks from the tree, so every tree edge is tight again.
    #[verifier::loop_isolation(false)]
    #[verifier::rlimit(40)]
    fn update_ranks(
        &self,
        tree: &Vec<Vec<(u32, usize)>>,
        rank: &mut Vec<i128>,
        Ghost(ids): Ghost<Set<int>>,
        Ghost(nodes): Ghost<Set<int>>,
        Ghost(want): Ghost<Seq<int>>,
    )
        requires
            self.well_formed(),
            self.holds_tree(tree@, ids),
            self.spanning(ids, nodes),
            self.tight_on(ids, want),
            want[0] == 0,
            old(rank)@.len() == self.n,
        ensures
            final(rank)@.len() == self.n,
            forall|v: int| #[trigger]
                nodes.contains(v) ==> final(rank)@[v] == want[v] && -WIDE <= final(rank)@[v] <= WIDE,
            forall|v: int| 0 <= v < self.n && !nodes.contains(v) ==> #[trigger] final(rank)@[v] == old(rank)@[v],
    {
        let n: usize = self.n;
        let ghost rank0 = rank@;
        let mut visited: Vec<bool> = vec![false; n];
        visited.set(0, true);
        rank.set(0, 0);
        let mut stack: Vec<u32> = vec![0];
        let ghost mut seen: Seq<u32> = seq![0u32];
        let ghost mut expanded: Set<int> = Set::empty();
        proof {
            assert(seen[0] == 0);
            assert(seen.contains(0u32));
            assert(stack@[0] == 0u32);
            assert(stack@.contains(0u32));
            assert(0int * n == 0) by (nonlinear_arith);
        }
        while stack.len() > 0
            invariant
                rank@.len() == n,
                visited@.len() == n,
                visited@[0],
                seen.no_duplicates(),
                seen.len() >= 1,
                forall|k: int| 0 <= k < seen.len() ==> (#[trigger] seen[k]) < n,
                forall|v: int| 0 <= v < n ==> (#[trigger] visited@[v] <==> seen.contains(v as u32)),
                forall|v: int|
                    0 <= v < n && #[trigger] visited@[v] ==> nodes.contains(v) && rank@[v] == want[v]
                        && -((seen.len() - 1) * WIDE) <= rank@[v] * n <= (seen.len() - 1) * WIDE,
                forall|v: int| 0 <= v < n && !visited@[v] ==> #[trigger] rank@[v] == rank0[v],
                forall|k: int| 0 <= k < stack@.len() ==> (#[trigger] stack@[k]) < n && visited@[stack@[k] as int],
                forall|v: int|
                    0 <= v < n && #[trigger] visited@[v] ==> expanded.contains(v) || stack@.contains(
                        v as u32,
                    ),
                forall|v: int, c: int|
                    0 <= v < n && expanded.contains(v) && 0 <= c < tree@[v]@.len() ==> visited@[(
                    #[trigger] tree@[v]@[c]).0 as int],
            decreases n - seen.len(), stack@.len(),
        {
            let ghost stack0 = stack@;
            let ghost seen0 = seen;
            let v: u32 = match stack.pop() {
                Some(v) => v,
                None => 0,
            };
            proof {
                lemma_distinct_below(seen, n as int);
                assert(stack0.last() == v);
                assert forall|x: u32| stack0.contains(x) implies stack@.contains(x) || x == v by {
                    let k = choose|k: int| 0 <= k < stack0.len() && stack0[k] == x;
                    if k < stack@.len() {
                        assert(stack@[k] == x);
                    }
                }
            }
            let mut idx: usize = 0;
            while idx < tree[v as usize].len()
                invariant
                    idx <= tree@[v as int]@.len(),
                    v < n,
                    rank@.len() == n,
                    visited@.len() == n,
                    visited@[0],
                    visited@[v as int],
                    seen.no_duplicates(),
                    seen.len() >= 1,
                    seen.len() > seen0.len() || (seen == seen0 && stack@ == stack0.drop_last()),
                    forall|k: int| 0 <= k < seen.len() ==> (#[trigger] seen[k]) < n,
                    forall|u: int| 0 <= u < n ==> (#[trigger] visited@[u] <==> seen.contains(u as u32)),
                    forall|u: int|
                        0 <= u < n && #[trigger] visited@[u] ==> nodes.contains(u) && rank@[u] == want[u]
                            && -((seen.len() - 1) * WIDE) <= rank@[u] * n <= (seen.len() - 1) * WIDE,
                    forall|u: int| 0 <= u < n && !visited@[u] ==> #[trigger] rank@[u] == rank0[u],
                    forall|k: int|
                        0 <= k < stack@.len() ==> (#[trigger] stack@[k]) < n && visited@[stack@[k] as int],
                    forall|u: int|
                        0 <= u < n && #[trigger] visited@[u] ==> expanded.contains(u) || stack@.contains(
                            u as u32,
                        ) || u == v,
                    forall|u: int, c: int|
                        0 <= u < n && expanded.contains(u) && 0 <= c < tree@[u]@.len() ==> visited@[(
                        #[trigger] tree@[u]@[c]).0 as int],
                    forall|c: int| 0 <= c < idx ==> visited@[(#[trigger] tree@[v as int]@[c]).0 as int],
                decreases tree@[v as int]@.len() - idx,
            {
                let (w, i) = tree[v as usize][idx];
                assert(tree@[v as int]@[idx as int] == (w, i));
                if !visited[w as usize] {
                    let ghost seen1 = seen;
                    let ghost stack1 = stack@;
                    let ghost visited1 = visited@;
                    let ghost rank1 = rank@;
                    let e: RankEdge = self.edges[i];
                    proof {
                        assert(ids.contains(i as int));
                        assert(nodes.contains(w as int));
                        assert(!seen1.contains(w));
                        lemma_distinct_below(seen1, n as int);
                        let r = rank@[v as int] as int;
                        let nn = n as int;
                        let c = seen.len() as int;
                        let wd = WIDE as int;
                        let l = e.minlen as int;
                        assert(-(c * wd) <= (r + l) * nn <= c * wd && -(c * wd) <= (r - l) * nn <= c
                            * wd) by (nonlinear_arith)
                            requires
                                -((c - 1) * wd) <= r * nn <= (c - 1) * wd,
                                0 <= l * nn <= wd,
                        ;
                        assert(-wd <= r + l <= wd && -wd <= r - l <= wd) by (nonlinear_arith)
                            requires
                                -(c * wd) <= (r + l) * nn <= c * wd,
                                -(c * wd) <= (r - l) * nn <= c * wd,
                                1 <= c <= nn,
                                wd >= 0,
                        ;
                    }
                    visited.set(w as usize, true);
                    let r: i128 = if e.from == v {
                        rank[v as usize] + e.minlen as i128
                    } else {
                        rank[v as usize] - e.minlen as i128
                    };
                    rank.set(w as usize, r);
                    stack.push(w);
                    proof {
                        seen = seen.push(w);
                        lemma_distinct_below_strict(seen1, w, n as int);
                        assert forall|u: int| 0 <= u < n implies (#[trigger] visited@[u]
                            <==> seen.contains(u as u32)) by {
                            lemma_push_contains(seen1, w, u as u32);
                            assert(visited1[u] <==> seen1.contains(u as u32));
                        }
                        assert forall|u: int| 0 <= u < n && #[trigger] visited@[u] implies expanded.contains(
                            u,
                        ) || stack@.contains(u as u32) || u == v by {
                            lemma_push_contains(stack1, w, u as u32);
                            if u != w {
                                assert(visited1[u]);
                            }
                        }
                        assert forall|u: int| 0 <= u < n && #[trigger] visited@[u] implies nodes.contains(u)
                            && rank@[u] == want[u] && -((seen.len() - 1) * WIDE) <= rank@[u] * n <= (
                        seen.len() - 1) * WIDE by {
                            if u != w {
                                assert(visited1[u]);
                                let a = (seen1.len() - 1) as int;
                                let wd = WIDE as int;
                                assert(a * wd <= (a + 1) * wd) by (nonlinear_arith)
                                    requires
                                        wd >= 0,
                                ;
                            } else {
                                assert(self.edges@[i as int] == e);
                                assert(rank1[v as int] == want[v as int]);
                            }
                        }
                    }
                }
                idx = idx + 1;
            }
            proof {
                assert forall|u: int, c: int|
                    0 <= u < n && expanded.insert(v as int).contains(u) && 0 <= c < tree@[u]@.len() implies visited@[(
                #[trigger] tree@[u]@[c]).0 as int] by {
                    if u != v {
                        assert(expanded.contains(u));
                    }
                }
                expanded = expanded.insert(v as int);
                lemma_distinct_below(seen, n as int);
            }
        }
        proof {
            lemma_distinct_below(seen, n as int);
            let inside = Set::new(|v: int| 0 <= v < n && visited@[v]);
            assert forall|v: int| #[trigger] nodes.contains(v) implies rank@[v] == want[v] && -WIDE
                <= rank@[v] <= WIDE by {
                assert(walkable(self.edges@, ids, v));
                let p = choose|p: Seq<int>| #[trigger] is_walk(self.edges@, ids, p) && p.last() == v;
                assert forall|i: int, a: int, b: int|
                    0 <= i < self.edges@.len() && #[trigger] ids.contains(i)
                        && #[trigger] self.edges@[i].joins(a, b) && inside.contains(b) implies inside.contains(
                    a,
                ) by {
                    assert(visited@[b]);
                    assert(expanded.contains(b));
                    assert(tree@[b]@.contains((a as u32, i as usize)));
                    let c = choose|c: int| 0 <= c < tree@[b]@.len() && tree@[b]@[c] == (a as u32, i as usize);
                    assert(visited@[tree@[b]@[c].0 as int]);
                }
                lemma_walk_closed(self.edges@, ids, p, inside);
                assert(visited@[v]);
                let r = rank@[v] as int;
                let nn = n as int;
                let c = (seen.len() - 1) as int;
                let wd = WIDE as int;
                assert(-wd <= r <= wd) by (nonlinear_arith)
                    requires
                        -(c * wd) <= r * nn <= c * wd,
                        0 <= c <= nn,
                        nn >= 1,
                        wd >= 0,
                ;
            }
            assert forall|v: int| 0 <= v < n && !nodes.contains(v) implies #[trigger] rank@[v] == rank0[v] by {
                assert(!visited@[v]);
            }
        }
    }
}

/// The sum of `g` over a list of edge ids.
spec fn sum_list(g: spec_fn(int) -> int, s: Seq<usize>) -> int
    decreases s.len(),
{
    if s.len() == 0 {
        0
    } else {
        sum_list(g, s.drop_last()) + g(s.last() as int)
    }
}

/// The sum of `g` over those of the first `m` edges that have `v` at one end.
spec fn sum_touch(edges: Seq<RankEdge>, v: int, g: spec_fn(int) -> int, m: nat) -> int
    decreases m,
{
    if m == 0 {
        0
    } else {
        sum_touch(edges, v, g, (m - 1) as nat) + if edges[m - 1].from == v || edges[m - 1].to == v {
            g(m - 1)
        } else {
            0
        }
    }
}

proof fn lemma_sum_incident(edges: Seq<RankEdge>, v: int, g: spec_fn(int) -> int, m: nat)
    requires
        m <= usize::MAX,
    ensures
        sum_list(g, incident(edges, v, m)) == sum_touch(edges, v, g, m),
    decreases m,
{
    if m > 0 {
        lemma_sum_incident(edges, v, g, (m - 1) as nat);
        if edges[m - 1].from == v || edges[m - 1].to == v {
            let s = incident(edges, v, m);
            assert(s.drop_last() =~= incident(edges, v, (m - 1) as nat));
        }
    }
}

/// Two summands that agree but at `x`.
proof fn lemma_sum_differ(
    edges: Seq<RankEdge>,
    v: int,
    g: spec_fn(int) -> int,
    h: spec_fn(int) -> int,
    x: int,
    m: nat,
)
    requires
        forall|i: int|
            0 <= i < m && i != x && ((#[trigger] edges[i]).from == v || edges[i].to == v) ==> g(i) == h(i),
    ensures
        0 <= x < m && (edges[x].from == v || edges[x].to == v) ==> sum_touch(edges, v, h, m)
            == sum_touch(edges, v, g, m) + h(x) - g(x),
        !(0 <= x < m && (edges[x].from == v || edges[x].to == v)) ==> sum_touch(edges, v, h, m)
            == sum_touch(edges, v, g, m),
    decreases m,
{
    if m > 0 {
        lemma_sum_differ(edges, v, g, h, x, (m - 1) as nat);
        assert(edges[m - 1] == edges[m - 1]);
    }
}

proof fn lemma_sum_negate(
    edges: Seq<RankEdge>,
    v: int,
    g: spec_fn(int) -> int,
    h: spec_fn(int) -> int,
    m: nat,
)
    requires
        forall|i: int| 0 <= i < m ==> #[trigger] h(i) == -g(i),
    ensures
        sum_touch(edges, v, h, m) == -sum_touch(edges, v, g, m),
    decreases m,
{
    if m > 0 {
        lemma_sum_negate(edges, v, g, h, (m - 1) as nat);
        assert(h(m - 1) == -g(m - 1));
    }
}

/// The sum of all entries.
spec fn sum_seq(s: Seq<int>) -> int
    decreases s.len(),
{
    if s.len() == 0 {
        0
    } else {
        sum_seq(s.drop_last()) + s.last()
    }
}

proof fn lemma_sum_seq_update(s: Seq<int>, i: int, x: int)
    requires
        0 <= i < s.len(),
    ensures
        sum_seq(s.update(i, x)) == sum_seq(s) - s[i] + x,
    decreases s.len(),
{
    let t = s.update(i, x);
    if i == s.len() - 1 {
        assert(t.drop_last() =~= s.drop_last());
    } else {
        assert(t.drop_last() =~= s.drop_last().update(i, x));
        lemma_sum_seq_update(s.drop_last(), i, x);
    }
}

proof fn lemma_sum_seq_zero(s: Seq<int>)
    requires
        forall|i: int| 0 <= i < s.len() ==> #[trigger] s[i] == 0,
    ensures
        sum_seq(s) == 0,
    decreases s.len(),
{
    if s.len() > 0 {
        assert forall|i: int| 0 <= i < s.drop_last().len() implies #[trigger] s.drop_last()[i] == 0 by {
            assert(s[i] == 0);
        }
        lemma_sum_seq_zero(s.drop_last());
        assert(s.last() == s[s.len() - 1]);
    }
}

proof fn lemma_sum_seq_nonneg(s: Seq<int>)
    requires
        forall|i: int| 0 <= i < s.len() ==> #[trigger] s[i] >= 0,
    ensures
        sum_seq(s) >= 0,
    decreases s.len(),
{
    if s.len() > 0 {
        assert forall|i: int| 0 <= i < s.drop_last().len() implies #[trigger] s.drop_last()[i] >= 0 by {
            assert(s[i] >= 0);
        }
        lemma_sum_seq_nonneg(s.drop_last());
        assert(s.last() == s[s.len() - 1]);
    }
}

spec fn abs(x: int) -> int {
    if x < 0 { -x } else { x }
}

/// The cut value kept for edge `i`, zero where none is kept.
spec fn kept_cut(cut: Seq<Option<i128>>, i: int) -> int {
    match cut[i] {
        Some(c) => c as int,
        None => 0,
    }
}

impl Net {
    /// What edge `i` adds at its end `v`: weight less cut value, counted out of `v`.
    spec fn surplus(self, cut: Seq<Option<i128>>, v: int) -> spec_fn(int) -> int {
        |i: int|
            if self.edges@[i].from == v {
                self.edges@[i].weight - kept_cut(cut, i)
            } else {
                kept_cut(cut, i) - self.edges@[i].weight
            }
    }

    /// Weights and cut values flow through `v` alike.
    spec fn balanced(self, cut: Seq<Option<i128>>, v: int) -> bool {
        sum_touch(self.edges@, v, self.surplus(cut, v), self.edges@.len()) == 0
    }

    /// The end of a tree edge that is finished later.
    spec fn upper(self, l: Labels, i: int) -> int {
        if l.lim@[self.edges@[i].from as int] > l.lim@[self.edges@[i].to as int] {
            self.edges@[i].from as int
        } else {
            self.edges@[i].to as int
        }
    }

    spec fn lower(self, l: Labels, i: int) -> int {
        if l.lim@[self.edges@[i].from as int] > l.lim@[self.edges@[i].to as int] {
            self.edges@[i].to as int
        } else {
            self.edges@[i].from as int
        }
    }

    /// The cut values of exactly the tree edges are kept, and they balance.
    spec fn cuts(self, ids: Set<int>, nodes: Set<int>, cut: Seq<Option<i128>>) -> bool {
        &&& cut.len() == self.edges@.len()
        &&& forall|i: int| 0 <= i < cut.len() ==> (#[trigger] cut[i] is Some <==> ids.contains(i))
        &&& forall|v: int| v != 0 && nodes.contains(v) ==> #[trigger] self.balanced(cut, v)
    }

    fn is_tree_edge(list: &Vec<(u32, usize)>, other: u32, id: usize) -> (r: bool)
        ensures
            r == list@.contains((other, id)),
    {
        let mut k: usize = 0;
        while k < list.len()
            invariant
                k <= list@.len(),
                forall|j: int| 0 <= j < k ==> list@[j] != (other, id),
            decreases list@.len() - k,
        {
            let (w, i) = list[k];
            if w == other && i == id {
                assert(list@[k as int] == (other, id));
                return true;
            }
            k = k + 1;
        }
        false
    }

    /// A tree edge at `v` is the parent edge of `v` or of its other end.
    proof fn lemma_tree_edge(self, ids: Set<int>, nodes: Set<int>, l: Labels, i: int)
        requires
            self.well_formed(),
            self.spanning(ids, nodes),
            self.labelled(ids, nodes, l),
            ids.contains(i),
        ensures
            l.parent@[self.lower(l, i)] == Some(i as usize),
            self.across(i, self.lower(l, i)) == self.upper(l, i),
            l.lim@[self.lower(l, i)] < l.lim@[self.upper(l, i)],
            nodes.contains(self.lower(l, i)),
            nodes.contains(self.upper(l, i)),
            self.lower(l, i) != 0,
    {
        let a = self.edges@[i].from as int;
        let b = self.edges@[i].to as int;
        assert(nodes.contains(a) && nodes.contains(b));
        if l.parent@[a] == Some(i as usize) {
            assert(a != 0);
            assert(self.child_of(ids, l, a));
        }
        if l.parent@[b] == Some(i as usize) {
            assert(b != 0);
            assert(self.child_of(ids, l, b));
        }
    }
}

/// No weight is larger than this, and so no sum over few edges leaves the wide integers.
const UNIT: i128 = 0x8000_0000;

impl Net {
    /// What the cut value of `child` adds up over its edges but the tree edge `pe` to its parent.
    spec fn pull(
        self,
        cut: Seq<Option<i128>>,
        child: int,
        pe: int,
        child_is_tail: bool,
    ) -> spec_fn(int) -> int {
        |i: int|
            if i == pe {
                0
            } else if (self.edges@[i].from == child) == child_is_tail {
                self.edges@[i].weight - kept_cut(cut, i)
            } else {
                kept_cut(cut, i) - self.edges@[i].weight
            }
    }

    /// The cut value of `child`'s parent edge balances the weights at `child`.
    proof fn lemma_child_balanced(
        self,
        cut: Seq<Option<i128>>,
        child: int,
        pe: int,
        value: i128,
    )
        requires
            self.well_formed(),
            0 <= pe < self.edges@.len(),
            cut.len() == self.edges@.len(),
            self.edges@[pe].joins(child, self.across(pe, child)),
            value == self.edges@[pe].weight + sum_touch(
                self.edges@,
                child,
                self.pull(cut, child, pe, self.edges@[pe].from == child),
                self.edges@.len(),
            ),
        ensures
            self.balanced(cut.update(pe, Some(value)), child),
    {
        let m = self.edges@.len();
        let tail = self.edges@[pe].from == child;
        let cut1 = cut.update(pe, Some(value));
        let g = self.pull(cut, child, pe, tail);
        let s1 = self.surplus(cut1, child);
        let h = |i: int| if tail { s1(i) } else { -s1(i) };
        assert forall|i: int|
            0 <= i < m && i != pe && ((#[trigger] self.edges@[i]).from == child || self.edges@[i].to
                == child) implies g(i) == h(i) by {
            assert(cut1[i] == cut[i]);
        }
        lemma_sum_differ(self.edges@, child, g, h, pe, m);
        assert(g(pe) == 0);
        assert(h(pe) == self.edges@[pe].weight - value);
        assert(sum_touch(self.edges@, child, h, m) == 0);
        if tail {
            lemma_sum_differ(self.edges@, child, h, s1, -1, m);
        } else {
            lemma_sum_negate(self.edges@, child, s1, h, m);
        }
    }

    /// A cut value kept for an edge away from `v` leaves the balance at `v` as it was.
    proof fn lemma_balance_kept(self, cut: Seq<Option<i128>>, v: int, pe: int, value: i128)
        requires
            0 <= pe < self.edges@.len(),
            cut.len() == self.edges@.len(),
            self.edges@[pe].from != v && self.edges@[pe].to != v,
        ensures
            self.balanced(cut.update(pe, Some(value)), v) == self.balanced(cut, v),
    {
        let cut1 = cut.update(pe, Some(value));
        lemma_sum_differ(
            self.edges@,
            v,
            self.surplus(cut, v),
            self.surplus(cut1, v),
            pe,
            self.edges@.len(),
        );
    }

    /// Cut values, leaves first, each in time proportional to the node's degree.
    #[verifier::loop_isolation(false)]
    #[verifier::rlimit(60)]
    fn init_cut_values(
        &self,
        tree: &Vec<Vec<(u32, usize)>>,
        l: &Labels,
        Ghost(ids): Ghost<Set<int>>,
        Ghost(nodes): Ghost<Set<int>>,
    ) -> (cut: Vec<Option<i128>>)
        requires
            self.well_formed(),
            self.holds_tree(tree@, ids),
            self.spanning(ids, nodes),
            self.labelled(ids, nodes, *l),
        ensures
            self.cuts(ids, nodes, cut@),
    {
        let n: usize = self.n;
        let edge_count: usize = self.edges.len();
        let ghost m = edge_count as int;
        let mut cut: Vec<Option<i128>> = Vec::new();
        let mut z: usize = 0;
        while z < edge_count
            invariant
                z <= edge_count,
                cut@.len() == z,
                forall|i: int| 0 <= i < z ==> (#[trigger] cut@[i]) is None,
            decreases edge_count - z,
        {
            cut.push(None);
            z = z + 1;
        }
        let ghost mut debt: Seq<int> = Seq::new(m as nat, |i: int| 0);
        proof {
            lemma_sum_seq_zero(debt);
            self.lemma_post_distinct(ids, nodes, *l);
            assert(UNIT * (0 * (m + 1)) == 0) by (nonlinear_arith);
        }
        let mut k: usize = 0;
        while k < l.post.len()
            invariant
                k <= l.post@.len() <= n,
                cut@.len() == m,
                debt.len() == m,
                forall|i: int| 0 <= i < m ==> #[trigger] debt[i] >= 0,
                sum_seq(debt) <= UNIT * (k * (m + 1)),
                forall|i: int|
                    0 <= i < m ==> (#[trigger] cut@[i] is Some <==> ids.contains(i) && l.lim@[self.lower(
                        *l,
                        i,
                    )] <= k),
                forall|i: int|
                    0 <= i < m && (#[trigger] cut@[i]) is Some && l.lim@[self.upper(*l, i)] > k ==> abs(
                        cut@[i]->0 as int,
                    ) <= debt[i],
                forall|v: int|
                    v != 0 && nodes.contains(v) && l.lim@[v] <= k ==> #[trigger] self.balanced(cut@, v),
            decreases l.post@.len() - k,
        {
            let child: u32 = l.post[k];
            proof {
                assert(nodes.contains(child as int));
                assert(l.lim@[child as int] == k + 1);
            }
            match l.parent[child as usize] {
                None => {
                    proof {
                        assert(child == 0) by {
                            if child != 0 {
                                assert(self.child_of(ids, *l, child as int));
                            }
                        }
                        assert forall|i: int| 0 <= i < m implies (#[trigger] cut@[i] is Some
                            <==> ids.contains(i) && l.lim@[self.lower(*l, i)] <= k + 1) by {
                            if ids.contains(i) {
                                self.lemma_tree_edge(ids, nodes, *l, i);
                                if l.lim@[self.lower(*l, i)] == k + 1 {
                                    assert(l.post@[k as int] == self.lower(*l, i));
                                }
                            }
                        }
                        assert forall|v: int|
                            v != 0 && nodes.contains(v) && l.lim@[v] <= k + 1 implies #[trigger] self.balanced(cut@, v) by {
                            if l.lim@[v] == k + 1 {
                                assert(l.post@[k as int] == v);
                            }
                        }
                        assert(k * (m + 1) <= (k + 1) * (m + 1)) by (nonlinear_arith)
                            requires
                                m >= 0,
                        ;
                        assert(UNIT * (k * (m + 1)) <= UNIT * ((k + 1) * (m + 1)));
                    }
                },
                Some(pe) => {
                    let ghost c = child as int;
                    proof {
                        assert(child != 0);
                        assert(self.child_of(ids, *l, c));
                        self.lemma_tree_edge(ids, nodes, *l, pe as int);
                    }
                    let e: RankEdge = self.edges[pe];
                    let child_is_tail: bool = e.from == child;
                    let ghost cut0 = cut@;
                    let ghost g = self.pull(cut0, c, pe as int, child_is_tail);
                    let ghost round = self.inc@[c]@;
                    proof {
                        lemma_incident(self.edges@, c, m as nat);
                        assert(round.take(0) =~= Seq::<usize>::empty());
                        assert(cut0[pe as int] is None) by {
                            assert(self.lower(*l, pe as int) == c || self.upper(*l, pe as int) == c);
                            if self.upper(*l, pe as int) == c {
                                assert(l.parent@[self.lower(*l, pe as int)] == Some(pe));
                                assert(self.child_of(ids, *l, self.lower(*l, pe as int)));
                            }
                        }
                        assert(UNIT * (k * (m + 1)) + UNIT == UNIT * (k * (m + 1) + 1)) by (nonlinear_arith);
                        lemma_sum_seq_nonneg(debt);
                    }
                    let mut value: i128 = e.weight as i128;
                    let mut idx: usize = 0;
                    while idx < self.inc[child as usize].len()
                        invariant
                            idx <= round.len() <= m,
                            debt.len() == m,
                            forall|i: int| 0 <= i < m ==> #[trigger] debt[i] >= 0,
                            sum_seq(debt) >= 0,
                            sum_seq(debt) + abs(value as int) <= UNIT * (k * (m + 1) + 1 + idx),
                            value == e.weight + sum_list(g, round.take(idx as int)),
                            forall|i: int|
                                0 <= i < m && (#[trigger] cut0[i]) is Some && l.lim@[self.upper(*l, i)]
                                    > k && !round.take(idx as int).contains(i as usize) ==> abs(
                                    cut0[i]->0 as int,
                                ) <= debt[i],
                        decreases round.len() - idx,
                    {
                        let i: usize = self.inc[child as usize][idx];
                        let f: RankEdge = self.edges[i];
                        let is_out: bool = f.from == child;
                        let other: u32 = if is_out { f.to } else { f.from };
                        let ghost debt0 = debt;
                        proof {
                            assert(round[idx as int] == i);
                            assert(round.take(idx as int + 1) =~= round.take(idx as int).push(i));
                            assert(round.take(idx as int + 1).drop_last() =~= round.take(idx as int));
                            assert(!round.take(idx as int).contains(i)) by {
                                if round.take(idx as int).contains(i) {
                                    let j = choose|j: int| 0 <= j < idx && round.take(idx as int)[j] == i;
                                    assert(round[j] == round[idx as int]);
                                }
                            }
                            assert forall|x: usize| round.take(idx as int).contains(x) implies #[trigger] round.take(
                                idx as int + 1,
                            ).contains(x) by {
                                lemma_push_contains(round.take(idx as int), i, x);
                            }
                            assert(self.across(i as int, c) == other);
                            let a = k * (m + 1) + 1 + idx;
                            assert(UNIT * a + UNIT == UNIT * (a + 1)) by (nonlinear_arith);
                            self.lemma_unit_room(k as int, m, idx as int);
                        }
                        if i != pe {
                            let points_to_head: bool = is_out == child_is_tail;
                            let tree_edge: bool = Net::is_tree_edge(&tree[child as usize], other, i);
                            let mut fold: i128 = 0;
                            if tree_edge {
                                if let Some(x) = cut[i] {
                                    fold = x;
                                    proof {
                                        assert(ids.contains(i as int)) by {
                                            let j = choose|j: int|
                                                0 <= j < tree@[c]@.len() && tree@[c]@[j] == (other, i);
                                            assert(tree@[c]@[j].1 == i);
                                        }
                                        self.lemma_tree_edge(ids, nodes, *l, i as int);
                                        assert(self.upper(*l, i as int) == c) by {
                                            if self.lower(*l, i as int) == c {
                                                assert(l.parent@[c] == Some(i));
                                                assert(i == pe);
                                            }
                                        }
                                        assert(abs(x as int) <= debt[i as int]);
                                        debt = debt.update(i as int, 0);
                                        lemma_sum_seq_update(debt0, i as int, 0);
                                        lemma_sum_seq_nonneg(debt);
                                    }
                                }
                            }
                            proof {
                                assert(fold == kept_cut(cut0, i as int)) by {
                                    if cut0[i as int] is Some {
                                        assert(ids.contains(i as int));
                                        assert(tree@[c]@.contains((other, i)));
                                    }
                                }
                                assert(sum_seq(debt) + abs(fold as int) <= sum_seq(debt0));
                            }
                            if points_to_head {
                                value = value + f.weight as i128 - fold;
                            } else {
                                value = value - f.weight as i128 + fold;
                            }
                        }
                        proof {
                            assert forall|x: int|
                                0 <= x < m && (#[trigger] cut0[x]) is Some && l.lim@[self.upper(*l, x)]
                                    > k && !round.take(idx as int + 1).contains(x as usize) implies abs(
                                cut0[x]->0 as int,
                            ) <= debt[x] by {
                                lemma_push_contains(round.take(idx as int), i, x as usize);
                                assert(debt[x] == debt0[x]);
                            }
                        }
                        idx = idx + 1;
                    }
                    proof {
                        assert(round.take(idx as int) =~= round);
                        lemma_sum_incident(self.edges@, c, g, m as nat);
                        let debt0 = debt;
                        debt = debt.update(pe as int, abs(value as int));
                        lemma_sum_seq_update(debt0, pe as int, abs(value as int));
                        assert(UNIT * (k * (m + 1) + 1 + idx) <= UNIT * ((k + 1) * (m + 1))) by (nonlinear_arith)
                            requires
                                idx <= m,
                        ;
                    }
                    cut.set(pe, Some(value));
                    proof {
                        assert(self.lower(*l, pe as int) == c);
                        assert forall|i: int| 0 <= i < m implies (#[trigger] cut@[i] is Some
                            <==> ids.contains(i) && l.lim@[self.lower(*l, i)] <= k + 1) by {
                            if i != pe {
                                assert(cut@[i] == cut0[i]);
                                if ids.contains(i) && l.lim@[self.lower(*l, i)] == k + 1 {
                                    self.lemma_tree_edge(ids, nodes, *l, i);
                                    assert(l.post@[k as int] == self.lower(*l, i));
                                }
                            }
                        }
                        assert forall|i: int|
                            0 <= i < m && (#[trigger] cut@[i]) is Some && l.lim@[self.upper(*l, i)] > k
                                + 1 implies abs(cut@[i]->0 as int) <= debt[i] by {
                            if i != pe {
                                assert(cut@[i] == cut0[i]);
                                assert(ids.contains(i));
                                self.lemma_tree_edge(ids, nodes, *l, i);
                                if round.contains(i as usize) {
                                    let j = choose|j: int| 0 <= j < round.len() && round[j] == i as usize;
                                    assert(self.edges@[i].from == c || self.edges@[i].to == c);
                                    assert(self.upper(*l, i) != c);
                                    assert(self.lower(*l, i) == c);
                                    assert(false);
                                }
                            }
                        }
                        self.lemma_child_balanced(cut0, c, pe as int, value);
                        assert forall|v: int|
                            v != 0 && nodes.contains(v) && l.lim@[v] <= k + 1 implies #[trigger] self.balanced(
                            cut@,
                            v,
                        ) by {
                            if v != c {
                                if l.lim@[v] == k + 1 {
                                    assert(l.post@[k as int] == v);
                                }
                                assert(l.lim@[v] <= k);
                                assert(self.balanced(cut0, v));
                                self.lemma_balance_kept(cut0, v, pe as int, value);
                            }
                        }
                    }
                },
            }
            k = k + 1;
        }
        proof {
            assert forall|i: int| 0 <= i < m implies (#[trigger] cut@[i] is Some <==> ids.contains(i)) by {
                if ids.contains(i) {
                    self.lemma_tree_edge(ids, nodes, *l, i);
                    assert(l.lim@[self.lower(*l, i)] <= l.post@.len());
                }
            }
            assert forall|v: int| v != 0 && nodes.contains(v) implies #[trigger] self.balanced(cut@, v) by {
                assert(l.lim@[v] <= l.post@.len());
            }
        }
        cut
    }

    proof fn lemma_unit_room(self, k: int, m: int, idx: int)
        requires
            self.well_formed(),
            0 <= k < self.n,
            m == self.edges@.len(),
            0 <= idx < m,
        ensures
            UNIT * (k * (m + 1) + 1 + idx) + 4 * UNIT <= i128::MAX,
    {
        assert(k * (m + 1) <= 0xffff_fffd * 0x1_0000_0000_0000_0000) by (nonlinear_arith)
            requires
                0 <= k <= 0xffff_fffd,
                0 <= m <= 0xffff_ffff_ffff_ffff,
        ;
    }

    proof fn lemma_post_distinct(self, ids: Set<int>, nodes: Set<int>, l: Labels)
        requires
            self.well_formed(),
            self.spanning(ids, nodes),
            self.labelled(ids, nodes, l),
        ensures
            l.post@.len() <= self.n,
    {
        assert(l.post@.no_duplicates()) by {
            assert forall|i: int, j: int|
                0 <= i < l.post@.len() && 0 <= j < l.post@.len() && i != j implies l.post@[i]
                != l.post@[j] by {
                assert(l.lim@[l.post@[i] as int] == i + 1);
                assert(l.lim@[l.post@[j] as int] == j + 1);
            }
        }
        assert forall|k: int| 0 <= k < l.post@.len() implies (#[trigger] l.post@[k]) < self.n by {
            assert(nodes.contains(l.post@[k] as int));
        }
        lemma_distinct_below(l.post@, self.n as int);
    }
}

impl Net {
    /// A tree edge worth replacing: one with a negative cut value.
    fn leave_edge(cut: &Vec<Option<i128>>) -> (r: Option<usize>)
        ensures
            match r {
                Some(e) => e < cut@.len() && cut@[e as int] is Some && cut@[e as int]->0 < 0
                    && forall|j: int| 0 <= j < e && (#[trigger] cut@[j]) is Some ==> cut@[j]->0 >= 0,
                None => forall|i: int|
                    0 <= i < cut@.len() && (#[trigger] cut@[i]) is Some ==> cut@[i]->0 >= 0,
            },
    {
        let mut i: usize = 0;
        while i < cut.len()
            invariant
                i <= cut@.len(),
                forall|j: int| 0 <= j < i && (#[trigger] cut@[j]) is Some ==> cut@[j]->0 >= 0,
            decreases cut@.len() - i,
        {
            if let Some(c) = cut[i] {
                if c < 0 {
                    return Some(i);
                }
            }
            i = i + 1;
        }
        None
    }

    /// Edge `i` runs from the far half to the near half of the tree that `root` parts.
    spec fn reconnects(self, l: Labels, e: int, root: int, flip: bool, i: int) -> bool {
        &&& i != e
        &&& Net::beneath(l, self.edges@[i].from as int, root) == flip
        &&& Net::beneath(l, self.edges@[i].to as int, root) != flip
    }

    /// Whether the head of `e` lies in the subtree that `e` cuts off.
    spec fn flips(self, l: Labels, e: int) -> bool {
        l.lim@[self.edges@[e].from as int] >= l.lim@[self.edges@[e].to as int]
    }

    /// The top of the subtree that `e` cuts off: its end further from the root.
    spec fn cut_off(self, l: Labels, e: int) -> int {
        if self.flips(l, e) { self.edges@[e].to as int } else { self.edges@[e].from as int }
    }

    /// The edges that reconnect the halves `e` separates.
    spec fn reconnecting(self, l: Labels, e: int) -> spec_fn(int) -> bool {
        |i: int| self.reconnects(l, e, self.cut_off(l, e), self.flips(l, e), i)
    }

    /// The cheapest edge that reconnects the halves `e` separates.
    #[verifier::loop_isolation(false)]
    fn enter_edge(&self, rank: &Vec<i128>, l: &Labels, e: usize) -> (r: Option<usize>)
        requires
            self.well_formed(),
            rank@.len() == self.n,
            Net::in_bounds(rank@),
            l.low@.len() == self.n && l.lim@.len() == self.n,
            e < self.edges@.len(),
        ensures
            match r {
                Some(f) => {
                    &&& f < self.edges@.len()
                    &&& self.reconnects(
                        *l,
                        e as int,
                        self.cut_off(*l, e as int),
                        self.flips(*l, e as int),
                        f as int,
                    )
                    &&& forall|i: int|
                        0 <= i < self.edges@.len() && #[trigger] self.reconnects(
                            *l,
                            e as int,
                            self.cut_off(*l, e as int),
                            self.flips(*l, e as int),
                            i,
                        ) ==> self.slack_of(rank@, i) >= self.slack_of(rank@, f as int)
                },
                None => forall|i: int|
                    0 <= i < self.edges@.len() ==> !#[trigger] self.reconnects(
                        *l,
                        e as int,
                        self.cut_off(*l, e as int),
                        self.flips(*l, e as int),
                        i,
                    ),
            },
            (match r {
                Some(f) => Some(f as int),
                None => None,
            }) == tightest(
                self.edges@,
                ints(rank@),
                self.reconnecting(*l, e as int),
                self.edges@.len(),
            ),
    {
        let edge_count: usize = self.edges.len();
        let ghost es = self.edges@;
        let ghost asked = self.reconnecting(*l, e as int);
        let ed: RankEdge = self.edges[e];
        let flip: bool = !(l.lim[ed.from as usize] < l.lim[ed.to as usize]);
        let root: u32 = if flip { ed.to } else { ed.from };
        let mut best: Option<(usize, i128)> = None;
        let mut i: usize = 0;
        while i < edge_count
            invariant
                i <= edge_count,
                match best {
                    Some((b, s)) => {
                        &&& b < i
                        &&& self.reconnects(*l, e as int, root as int, flip, b as int)
                        &&& s == self.slack_of(rank@, b as int)
                        &&& forall|j: int|
                            0 <= j < i && #[trigger] self.reconnects(*l, e as int, root as int, flip, j)
                                ==> self.slack_of(rank@, j) >= s
                    },
                    None => forall|j: int|
                        0 <= j < i ==> !#[trigger] self.reconnects(*l, e as int, root as int, flip, j),
                },
                tightest(es, ints(rank@), asked, i as nat) == (match best {
                    Some((b, _)) => Some(b as int),
                    None => None,
                }),
            decreases edge_count - i,
        {
            proof {
                assert(asked(i as int) == self.reconnects(*l, e as int, root as int, flip, i as int));
                assert(slack(es, ints(rank@), i as int) == self.slack_of(rank@, i as int));
                if let Some((b, _)) = best {
                    assert(slack(es, ints(rank@), b as int) == self.slack_of(rank@, b as int));
                }
            }
            let f: RankEdge = self.edges[i];
            let from_in: bool = Net::is_descendant(l, f.from, root);
            let to_in: bool = Net::is_descendant(l, f.to, root);
            assert(self.reconnects(*l, e as int, root as int, flip, i as int) <==> (i != e && from_in
                == flip && to_in != flip));
            if i != e && from_in == flip && to_in != flip {
                let s: i128 = self.slack(rank, i);
                match best {
                    Some((_, bs)) => {
                        if s < bs {
                            best = Some((i, s));
                        }
                    },
                    None => {
                        best = Some((i, s));
                    },
                }
            }
            i = i + 1;
        }
        match best {
            Some((b, _)) => Some(b),
            None => None,
        }
    }

    /// The list without the entries of edge `id`.
    fn without(list: &Vec<(u32, usize)>, id: usize) -> (r: Vec<(u32, usize)>)
        ensures
            forall|x: (u32, usize)| r@.contains(x) <==> list@.contains(x) && x.1 != id,
    {
        let mut r: Vec<(u32, usize)> = Vec::new();
        let mut k: usize = 0;
        assert(list@.take(0) =~= Seq::<(u32, usize)>::empty());
        while k < list.len()
            invariant
                k <= list@.len(),
                forall|x: (u32, usize)| r@.contains(x) <==> list@.take(k as int).contains(x) && x.1 != id,
            decreases list@.len() - k,
        {
            let (w, i) = list[k];
            let ghost r0 = r@;
            proof {
                assert(list@.take(k as int + 1) =~= list@.take(k as int).push((w, i)));
                assert forall|x: (u32, usize)| list@.take(k as int + 1).contains(x) <==> (list@.take(
                    k as int,
                ).contains(x) || x == (w, i)) by {
                    lemma_push_contains(list@.take(k as int), (w, i), x);
                }
            }
            if i != id {
                r.push((w, i));
            }
            assert forall|x: (u32, usize)| r@.contains(x) <==> list@.take(k as int + 1).contains(x)
                && x.1 != id by {
                lemma_push_contains(r0, (w, i), x);
                assert(r0.contains(x) <==> list@.take(k as int).contains(x) && x.1 != id);
                assert(list@.take(k as int + 1).contains(x) <==> (list@.take(k as int).contains(x) || x
                    == (w, i)));
            }
            k = k + 1;
        }
        assert(list@.take(k as int) =~= list@);
        r
    }

    /// Everything the pivots keep: a tight spanning tree under ranks that satisfy every edge.
    spec fn settled_on(
        self,
        rank: Seq<i128>,
        tree: Seq<Vec<(u32, usize)>>,
        ids: Set<int>,
        nodes: Set<int>,
    ) -> bool {
        &&& self.spans(rank)
        &&& Net::in_bounds(rank)
        &&& self.holds_tree(tree, ids)
        &&& self.spanning(ids, nodes)
        &&& forall|i: int| #[trigger] ids.contains(i) ==> self.slack_of(rank, i) == 0
        &&& forall|v: int| #[trigger]
            nodes.contains(v) ==> -WIDE <= rank[v] - rank[0] <= WIDE
        &&& forall|i: int|
            0 <= i < self.edges@.len() ==> (nodes.contains((#[trigger] self.edges@[i]).from as int)
                <==> nodes.contains(self.edges@[i].to as int))
    }

    /// A tree edge other than `e` has both ends in the subtree that `e` cuts off, or neither.
    proof fn lemma_side(self, ids: Set<int>, nodes: Set<int>, l: Labels, e: int, i: int)
        requires
            self.well_formed(),
            self.spanning(ids, nodes),
            self.labelled(ids, nodes, l),
            ids.contains(e),
            ids.contains(i),
            i != e,
        ensures
            Net::beneath(l, self.edges@[i].from as int, self.lower(l, e)) == Net::beneath(
                l,
                self.edges@[i].to as int,
                self.lower(l, e),
            ),
    {
        let root = self.lower(l, e);
        self.lemma_tree_edge(ids, nodes, l, e);
        self.lemma_tree_edge(ids, nodes, l, i);
        let v = self.lower(l, i);
        let p = self.upper(l, i);
        assert(self.child_of(ids, l, v));
        assert(v != root);
        assert(Net::beneath(l, v, root) <==> l.path@[v].contains(root));
        assert(Net::beneath(l, p, root) <==> l.path@[p].contains(root));
        lemma_push_contains(l.path@[p], v, root);
    }

    proof fn lemma_ends_of(self, ids: Set<int>, nodes: Set<int>, l: Labels, e: int)
        requires
            self.well_formed(),
            self.spanning(ids, nodes),
            self.labelled(ids, nodes, l),
            ids.contains(e),
        ensures
            Net::beneath(l, self.lower(l, e), self.lower(l, e)),
            !Net::beneath(l, self.upper(l, e), self.lower(l, e)),
            !Net::beneath(l, 0, self.lower(l, e)),
    {
        let root = self.lower(l, e);
        self.lemma_tree_edge(ids, nodes, l, e);
        assert(self.child_of(ids, l, root));
        assert(l.path@[root].last() == root);
        assert(l.path@[root].contains(root));
        assert(Net::beneath(l, root, root) <==> l.path@[root].contains(root));
        if Net::beneath(l, 0, root) {
            self.lemma_root_last(ids, nodes, l, root);
        }
    }

    /// Node 0 is finished last.
    proof fn lemma_root_last(self, ids: Set<int>, nodes: Set<int>, l: Labels, v: int)
        requires
            self.well_formed(),
            self.spanning(ids, nodes),
            self.labelled(ids, nodes, l),
            nodes.contains(v),
            v != 0,
        ensures
            l.lim@[v] < l.lim@[0],
        decreases l.post@.len() - l.lim@[v],
    {
        assert(self.child_of(ids, l, v));
        let i = l.parent@[v]->0 as int;
        let p = self.across(i, v);
        assert(nodes.contains(p)) by {
            assert(ids.contains(i));
        }
        assert(l.lim@[p] <= l.post@.len());
        if p != 0 {
            self.lemma_root_last(ids, nodes, l, p);
        }
    }

    /// Outside the cut-off subtree every node is still walked to.
    proof fn lemma_walk_outside(
        self,
        ids: Set<int>,
        nodes: Set<int>,
        l: Labels,
        e: int,
        which: Set<int>,
        v: int,
    )
        requires
            self.well_formed(),
            self.spanning(ids, nodes),
            self.labelled(ids, nodes, l),
            ids.contains(e),
            ids.remove(e).subset_of(which),
            nodes.contains(v),
            !Net::beneath(l, v, self.lower(l, e)),
        ensures
            walkable(self.edges@, which, v),
        decreases l.path@[v].len(),
    {
        if v == 0 {
            lemma_walk_start(self.edges@, which);
        } else {
            assert(self.child_of(ids, l, v));
            let i = l.parent@[v]->0 as int;
            let p = self.across(i, v);
            self.lemma_tree_edge(ids, nodes, l, e);
            self.lemma_ends_of(ids, nodes, l, e);
            assert(i != e);
            assert(nodes.contains(p)) by {
                assert(ids.contains(i));
            }
            self.lemma_side(ids, nodes, l, e, i);
            self.lemma_walk_outside(ids, nodes, l, e, which, p);
            assert(which.contains(i)) by {
                assert(ids.remove(e).contains(i));
            }
            lemma_walk_extend(self.edges@, which, p, v, i);
        }
    }

    /// From a node of the cut-off subtree that is walked to, its top is walked to.
    proof fn lemma_walk_up(
        self,
        ids: Set<int>,
        nodes: Set<int>,
        l: Labels,
        e: int,
        f: int,
        v: int,
    )
        requires
            self.well_formed(),
            self.spanning(ids, nodes),
            self.labelled(ids, nodes, l),
            ids.contains(e),
            nodes.contains(v),
            Net::beneath(l, v, self.lower(l, e)),
            walkable(self.edges@, ids.remove(e).insert(f), v),
        ensures
            walkable(self.edges@, ids.remove(e).insert(f), self.lower(l, e)),
        decreases l.path@[v].len(),
    {
        let ids1 = ids.remove(e).insert(f);
        let root = self.lower(l, e);
        self.lemma_tree_edge(ids, nodes, l, e);
        self.lemma_ends_of(ids, nodes, l, e);
        if v != root {
            assert(v != 0);
            assert(self.child_of(ids, l, v));
            let i = l.parent@[v]->0 as int;
            let p = self.across(i, v);
            assert(i != e) by {
                if i == e {
                    assert(self.lower(l, e) == v);
                }
            }
            assert(nodes.contains(p)) by {
                assert(ids.contains(i));
            }
            self.lemma_side(ids, nodes, l, e, i);
            lemma_walk_extend(self.edges@, ids1, v, p, i);
            self.lemma_walk_up(ids, nodes, l, e, f, p);
        }
    }

    /// From its top every node of the cut-off subtree is walked to.
    proof fn lemma_walk_down(
        self,
        ids: Set<int>,
        nodes: Set<int>,
        l: Labels,
        e: int,
        f: int,
        v: int,
    )
        requires
            self.well_formed(),
            self.spanning(ids, nodes),
            self.labelled(ids, nodes, l),
            ids.contains(e),
            nodes.contains(v),
            Net::beneath(l, v, self.lower(l, e)),
            walkable(self.edges@, ids.remove(e).insert(f), self.lower(l, e)),
        ensures
            walkable(self.edges@, ids.remove(e).insert(f), v),
        decreases l.path@[v].len(),
    {
        let ids1 = ids.remove(e).insert(f);
        let root = self.lower(l, e);
        self.lemma_tree_edge(ids, nodes, l, e);
        self.lemma_ends_of(ids, nodes, l, e);
        if v != root {
            assert(v != 0);
            assert(self.child_of(ids, l, v));
            let i = l.parent@[v]->0 as int;
            let p = self.across(i, v);
            assert(i != e) by {
                if i == e {
                    assert(self.lower(l, e) == v);
                }
            }
            assert(nodes.contains(p)) by {
                assert(ids.contains(i));
            }
            self.lemma_side(ids, nodes, l, e, i);
            self.lemma_walk_down(ids, nodes, l, e, f, p);
            lemma_walk_extend(self.edges@, ids1, p, v, i);
        }
    }

    /// Swapping `e` for an edge that reconnects its halves leaves a spanning tree.
    proof fn lemma_swap_spans(
        self,
        ids: Set<int>,
        nodes: Set<int>,
        l: Labels,
        e: int,
        f: int,
    )
        requires
            self.well_formed(),
            self.spanning(ids, nodes),
            self.labelled(ids, nodes, l),
            ids.contains(e),
            0 <= f < self.edges@.len(),
            f != e,
            nodes.contains(self.edges@[f].from as int) <==> nodes.contains(self.edges@[f].to as int),
            Net::beneath(l, self.edges@[f].from as int, self.lower(l, e)) != Net::beneath(
                l,
                self.edges@[f].to as int,
                self.lower(l, e),
            ),
        ensures
            !ids.contains(f),
            nodes.contains(self.edges@[f].from as int),
            nodes.contains(self.edges@[f].to as int),
            self.spanning(ids.remove(e).insert(f), nodes),
    {
        let ids1 = ids.remove(e).insert(f);
        let root = self.lower(l, e);
        self.lemma_tree_edge(ids, nodes, l, e);
        if ids.contains(f) {
            self.lemma_side(ids, nodes, l, e, f);
        }
        let a = self.edges@[f].from as int;
        let b = self.edges@[f].to as int;
        assert(nodes.contains(a) && nodes.contains(b)) by {
            // a node outside the tree has no labels and lies beneath nothing
            if !nodes.contains(a) {
                assert(l.lim@[a] == 0);
                assert(l.lim@[b] == 0);
                assert(1 <= l.lim@[root] && 1 <= l.low@[root]);
            }
        }
        let inner = if Net::beneath(l, a, root) { a } else { b };
        let outer = if Net::beneath(l, a, root) { b } else { a };
        self.lemma_walk_outside(ids, nodes, l, e, ids1, outer);
        lemma_walk_extend(self.edges@, ids1, outer, inner, f);
        self.lemma_walk_up(ids, nodes, l, e, f, inner);
        assert forall|v: int| nodes.contains(v) implies #[trigger] walkable(self.edges@, ids1, v) by {
            if Net::beneath(l, v, root) {
                self.lemma_walk_down(ids, nodes, l, e, f, v);
            } else {
                self.lemma_walk_outside(ids, nodes, l, e, ids1, v);
            }
        }
    }
}

impl Net {
    /// The nodes that the tree no longer leads to without `e` are those beneath its lower end.
    proof fn lemma_far(self, ids: Set<int>, nodes: Set<int>, l: Labels, e: int, v: int)
        requires
            self.well_formed(),
            self.spanning(ids, nodes),
            self.labelled(ids, nodes, l),
            ids.contains(e),
            nodes.contains(v),
        ensures
            is_far(self.edges@, ids, e, v) == Net::beneath(l, v, self.lower(l, e)),
    {
        let es = self.edges@;
        let root = self.lower(l, e);
        let rest = ids.remove(e);
        self.lemma_tree_edge(ids, nodes, l, e);
        self.lemma_ends_of(ids, nodes, l, e);
        if !Net::beneath(l, v, root) {
            self.lemma_walk_outside(ids, nodes, l, e, rest, v);
        } else if walkable(es, rest, v) {
            let p = choose|p: Seq<int>| #[trigger] is_walk(es, rest, p) && p.last() == v;
            let inside = Set::new(|x: int| nodes.contains(x) && !Net::beneath(l, x, root));
            assert forall|i: int, a: int, b: int|
                0 <= i < es.len() && #[trigger] rest.contains(i) && #[trigger] es[i].joins(a, b)
                    && inside.contains(b) implies inside.contains(a) by {
                assert(ids.contains(i));
                self.lemma_side(ids, nodes, l, e, i);
            }
            lemma_walk_closed(es, rest, p, inside);
        }
    }

    /// Whether the head of `e` is cut off.
    proof fn lemma_flips(self, ids: Set<int>, nodes: Set<int>, l: Labels, e: int)
        requires
            self.well_formed(),
            self.spanning(ids, nodes),
            self.labelled(ids, nodes, l),
            ids.contains(e),
        ensures
            is_far(self.edges@, ids, e, self.edges@[e].to as int) == self.flips(l, e),
            self.cut_off(l, e) == self.lower(l, e),
    {
        self.lemma_tree_edge(ids, nodes, l, e);
        self.lemma_ends_of(ids, nodes, l, e);
        self.lemma_far(ids, nodes, l, e, self.edges@[e].to as int);
    }
}

impl Net {
    /// Weight less cut value of edge `i`.
    spec fn gap(self, cut: Seq<Option<i128>>, i: int) -> int {
        self.edges@[i].weight - kept_cut(cut, i)
    }

    spec fn edge_sum(self, cut: Seq<Option<i128>>, r: spec_fn(int) -> int, m: nat) -> int
        decreases m,
    {
        if m == 0 {
            0
        } else {
            self.edge_sum(cut, r, (m - 1) as nat) + self.gap(cut, m - 1) * (r(
                self.edges@[m - 1].to as int,
            ) - r(self.edges@[m - 1].from as int))
        }
    }

    spec fn node_sum(self, cut: Seq<Option<i128>>, r: spec_fn(int) -> int, k: nat, m: nat) -> int
        decreases k,
    {
        if k == 0 {
            0
        } else {
            self.node_sum(cut, r, (k - 1) as nat, m) + r(k - 1) * sum_touch(
                self.edges@,
                k - 1,
                self.surplus(cut, k - 1),
                m,
            )
        }
    }

    proof fn lemma_node_sum_step(
        self,
        cut: Seq<Option<i128>>,
        r: spec_fn(int) -> int,
        k: nat,
        m: nat,
    )
        requires
            0 < m <= self.edges@.len(),
            !self.edges@[m - 1].is_loop(),
        ensures
            self.node_sum(cut, r, k, m) == self.node_sum(cut, r, k, (m - 1) as nat) + (
            if self.edges@[m - 1].from < k {
                r(self.edges@[m - 1].from as int) * self.gap(cut, m - 1)
            } else {
                0
            }) - (if self.edges@[m - 1].to < k {
                r(self.edges@[m - 1].to as int) * self.gap(cut, m - 1)
            } else {
                0
            }),
        decreases k,
    {
        if k > 0 {
            self.lemma_node_sum_step(cut, r, (k - 1) as nat, m);
            let v = k - 1;
            let g = self.surplus(cut, v);
            let old = sum_touch(self.edges@, v, g, (m - 1) as nat);
            let x = self.gap(cut, m - 1);
            let rv = r(v);
            if self.edges@[m - 1].from == v {
                assert(g(m - 1) == x);
                assert(rv * (old + x) == rv * old + rv * x) by (nonlinear_arith);
            } else if self.edges@[m - 1].to == v {
                assert(g(m - 1) == -x);
                assert(rv * (old + (-x)) == rv * old - rv * x) by (nonlinear_arith);
            }
        }
    }

    /// Summed over the edges or over the nodes, the gaps weigh a ranking alike.
    proof fn lemma_sums_agree(self, cut: Seq<Option<i128>>, r: spec_fn(int) -> int, m: nat)
        requires
            self.well_formed(),
            m <= self.edges@.len(),
        ensures
            self.edge_sum(cut, r, m) + self.node_sum(cut, r, self.n as nat, m) == 0,
        decreases m,
    {
        if m == 0 {
            self.lemma_node_sum_zero(cut, r, self.n as nat);
        } else {
            self.lemma_sums_agree(cut, r, (m - 1) as nat);
            self.lemma_node_sum_step(cut, r, self.n as nat, m);
            let a = r(self.edges@[m - 1].from as int);
            let b = r(self.edges@[m - 1].to as int);
            let x = self.gap(cut, m - 1);
            assert(x * (b - a) + a * x - b * x == 0) by (nonlinear_arith);
        }
    }

    proof fn lemma_node_sum_zero(self, cut: Seq<Option<i128>>, r: spec_fn(int) -> int, k: nat)
        ensures
            self.node_sum(cut, r, k, 0) == 0,
        decreases k,
    {
        if k > 0 {
            self.lemma_node_sum_zero(cut, r, (k - 1) as nat);
            let a = r(k - 1);
            assert(a * 0 == 0) by (nonlinear_arith);
        }
    }

    /// A ranking that is zero wherever the balance may fail has no node sum.
    proof fn lemma_node_sum_balanced(
        self,
        cut: Seq<Option<i128>>,
        r: spec_fn(int) -> int,
        k: nat,
    )
        requires
            forall|v: int| 0 <= v < k ==> r(v) == 0 || #[trigger] self.balanced(cut, v),
        ensures
            self.node_sum(cut, r, k, self.edges@.len()) == 0,
        decreases k,
    {
        if k > 0 {
            self.lemma_node_sum_balanced(cut, r, (k - 1) as nat);
            let v = k - 1;
            let b = sum_touch(self.edges@, v, self.surplus(cut, v), self.edges@.len());
            let a = r(v);
            assert(a == 0 || self.balanced(cut, v));
            assert(a * b == 0) by (nonlinear_arith)
                requires
                    a == 0 || b == 0,
            ;
        }
    }

    /// With every other node balanced, node 0 is too.
    proof fn lemma_root_balanced(self, cut: Seq<Option<i128>>)
        requires
            self.well_formed(),
            forall|v: int| 0 < v < self.n ==> #[trigger] self.balanced(cut, v),
        ensures
            self.balanced(cut, 0),
    {
        let m = self.edges@.len();
        let one = |v: int| 1int;
        let rest = |v: int| if v == 0 { 0int } else { 1 };
        self.lemma_sums_agree(cut, one, m);
        self.lemma_flat_sum(cut, one, m);
        self.lemma_node_sum_balanced(cut, rest, self.n as nat);
        self.lemma_node_sum_split(cut, self.n as nat);
    }

    proof fn lemma_flat_sum(self, cut: Seq<Option<i128>>, r: spec_fn(int) -> int, m: nat)
        requires
            forall|v: int| #[trigger] r(v) == 1,
        ensures
            self.edge_sum(cut, r, m) == 0,
        decreases m,
    {
        if m > 0 {
            self.lemma_flat_sum(cut, r, (m - 1) as nat);
            let x = self.gap(cut, m - 1);
            let d = r(self.edges@[m - 1].to as int) - r(self.edges@[m - 1].from as int);
            assert(x * d == 0) by (nonlinear_arith)
                requires
                    d == 0,
            ;
        }
    }

    proof fn lemma_node_sum_split(self, cut: Seq<Option<i128>>, k: nat)
        requires
            k >= 1,
        ensures
            self.node_sum(cut, |v: int| 1int, k, self.edges@.len()) == self.node_sum(
                cut,
                |v: int| if v == 0 { 0int } else { 1 },
                k,
                self.edges@.len(),
            ) + sum_touch(self.edges@, 0, self.surplus(cut, 0), self.edges@.len()),
        decreases k,
    {
        let one = |v: int| 1int;
        let rest = |v: int| if v == 0 { 0int } else { 1 };
        let m = self.edges@.len();
        if k > 1 {
            self.lemma_node_sum_split(cut, (k - 1) as nat);
        } else {
            assert(self.node_sum(cut, one, 0, m) == 0);
            assert(self.node_sum(cut, rest, 0, m) == 0);
        }
        let b = sum_touch(self.edges@, k - 1, self.surplus(cut, k - 1), m);
        assert(1 * b == b && 0 * b == 0) by (nonlinear_arith);
    }

    /// The cut value times the span, edge by edge, is least where tree edges are tight.
    proof fn lemma_tight_least(
        self,
        ids: Set<int>,
        cut: Seq<Option<i128>>,
        rank: spec_fn(int) -> int,
        other: spec_fn(int) -> int,
        m: nat,
    )
        requires
            self.well_formed(),
            m <= self.edges@.len(),
            cut.len() == self.edges@.len(),
            forall|i: int| 0 <= i < cut.len() ==> (#[trigger] cut[i] is Some <==> ids.contains(i)),
            forall|i: int| 0 <= i < cut.len() && (#[trigger] cut[i]) is Some ==> cut[i]->0 >= 0,
            forall|i: int| #[trigger]
                ids.contains(i) ==> rank(self.edges@[i].to as int) - rank(self.edges@[i].from as int)
                    == self.edges@[i].minlen,
            feasible(self.edges@, other),
        ensures
            span_of(self.edges@, rank, m) - self.edge_sum(cut, rank, m) <= span_of(self.edges@, other, m)
                - self.edge_sum(cut, other, m),
        decreases m,
    {
        if m > 0 {
            self.lemma_tight_least(ids, cut, rank, other, (m - 1) as nat);
            let i = m - 1;
            let w = self.edges@[i].weight as int;
            let c = kept_cut(cut, i);
            let d = rank(self.edges@[i].to as int) - rank(self.edges@[i].from as int);
            let d1 = other(self.edges@[i].to as int) - other(self.edges@[i].from as int);
            assert(cut[i] is Some <==> ids.contains(i));
            assert(!self.edges@[i].is_loop());
            assert(c == 0 || (c >= 0 && d == self.edges@[i].minlen && d1 >= d));
            assert(w * d - (w - c) * d <= w * d1 - (w - c) * d1) by (nonlinear_arith)
                requires
                    c == 0 || (c >= 0 && d1 >= d),
            ;
        }
    }

    /// Tight tree edges with no negative cut value make the total span minimal.
    proof fn lemma_optimal(
        self,
        ids: Set<int>,
        nodes: Set<int>,
        cut: Seq<Option<i128>>,
        rank: spec_fn(int) -> int,
        other: spec_fn(int) -> int,
    )
        requires
            self.well_formed(),
            forall|v: int| 0 <= v < self.n ==> nodes.contains(v),
            self.cuts(ids, nodes, cut),
            forall|i: int| 0 <= i < cut.len() && (#[trigger] cut[i]) is Some ==> cut[i]->0 >= 0,
            forall|i: int| #[trigger]
                ids.contains(i) ==> rank(self.edges@[i].to as int) - rank(self.edges@[i].from as int)
                    == self.edges@[i].minlen,
            feasible(self.edges@, other),
        ensures
            total_span(self.edges@, rank) <= total_span(self.edges@, other),
    {
        let m = self.edges@.len();
        assert forall|v: int| 0 < v < self.n implies #[trigger] self.balanced(cut, v) by {
            assert(nodes.contains(v));
        }
        self.lemma_root_balanced(cut);
        self.lemma_node_sum_balanced(cut, rank, self.n as nat);
        self.lemma_node_sum_balanced(cut, other, self.n as nat);
        self.lemma_sums_agree(cut, rank, m);
        self.lemma_sums_agree(cut, other, m);
        self.lemma_tight_least(ids, cut, rank, other, m);
    }
}

/// What the pivots carry from one to the next.
struct State {
    rank: Vec<i128>,
    tree: Vec<Vec<(u32, usize)>>,
    labels: Labels,
    cut: Vec<Option<i128>>,
    ids: Ghost<Set<int>>,
    nodes: Ghost<Set<int>>,
}

impl Net {
    spec fn holds(self, st: State) -> bool {
        &&& forall|v: int| 0 <= v < self.n ==> #[trigger] st.nodes@.contains(v)
        &&& self.settled_on(st.rank@, st.tree@, st.ids@, st.nodes@)
        &&& self.labelled(st.ids@, st.nodes@, st.labels)
        &&& self.cuts(st.ids@, st.nodes@, st.cut@)
    }

    spec fn inside(self, l: Labels, root: int) -> spec_fn(int) -> int {
        |v: int| if 0 <= v < self.n && Net::beneath(l, v, root) { 1int } else { 0 }
    }

    proof fn lemma_stuck_sum(
        self,
        ids: Set<int>,
        nodes: Set<int>,
        l: Labels,
        cut: Seq<Option<i128>>,
        e: int,
        m: nat,
    )
        requires
            self.well_formed(),
            self.spanning(ids, nodes),
            self.labelled(ids, nodes, l),
            self.cuts(ids, nodes, cut),
            ids.contains(e),
            cut[e] is Some && cut[e]->0 < 0,
            forall|i: int| 0 <= i < self.edges@.len() ==> (#[trigger] self.edges@[i]).weight >= 0,
            forall|i: int|
                0 <= i < self.edges@.len() ==> !#[trigger] self.reconnects(
                    l,
                    e,
                    self.cut_off(l, e),
                    self.flips(l, e),
                    i,
                ),
            m <= self.edges@.len(),
        ensures
            self.flips(l, e) ==> self.edge_sum(cut, self.inside(l, self.cut_off(l, e)), m) >= (if e < m {
                1int
            } else {
                0
            }),
            !self.flips(l, e) ==> self.edge_sum(cut, self.inside(l, self.cut_off(l, e)), m) <= (if e < m {
                -1int
            } else {
                0
            }),
        decreases m,
    {
        let root = self.cut_off(l, e);
        let flip = self.flips(l, e);
        let r = self.inside(l, root);
        self.lemma_tree_edge(ids, nodes, l, e);
        self.lemma_ends_of(ids, nodes, l, e);
        assert(root == self.lower(l, e));
        if m > 0 {
            self.lemma_stuck_sum(ids, nodes, l, cut, e, (m - 1) as nat);
            let i = m - 1;
            let f = self.edges@[i];
            let d = r(f.to as int) - r(f.from as int);
            let w = f.weight as int;
            let c = kept_cut(cut, i);
            assert(cut[i] is Some <==> ids.contains(i));
            assert(!self.reconnects(l, e, root, flip, i));
            if i == e {
                assert(d == if flip { 1int } else { -1 });
                assert((w - c) * 1 == w - c && (w - c) * -1 == c - w) by (nonlinear_arith);
            } else if ids.contains(i) {
                self.lemma_side(ids, nodes, l, e, i);
                assert(d == 0);
                assert((w - c) * 0 == 0) by (nonlinear_arith);
            } else {
                assert(c == 0);
                assert(d == 0 || d == if flip { 1int } else { -1 });
                assert((w - 0) * 1 == w && (w - 0) * -1 == -w && (w - 0) * 0 == 0) by (nonlinear_arith);
            }
        }
    }

    /// With no negative weight, a negative cut value always has an edge to enter in its place.
    proof fn lemma_not_stuck(self, st: State, e: int)
        requires
            self.well_formed(),
            self.holds(st),
            forall|i: int| 0 <= i < self.edges@.len() ==> (#[trigger] self.edges@[i]).weight >= 0,
            0 <= e < st.cut@.len(),
            st.cut@[e] is Some && st.cut@[e]->0 < 0,
        ensures
            exists|i: int|
                0 <= i < self.edges@.len() && #[trigger] self.reconnects(
                    st.labels,
                    e,
                    self.cut_off(st.labels, e),
                    self.flips(st.labels, e),
                    i,
                ),
    {
        let ids = st.ids@;
        let nodes = st.nodes@;
        let l = st.labels;
        let m = self.edges@.len();
        assert(ids.contains(e));
        let root = self.cut_off(l, e);
        if forall|i: int|
            0 <= i < self.edges@.len() ==> !#[trigger] self.reconnects(
                l,
                e,
                root,
                self.flips(l, e),
                i,
            ) {
            let r = self.inside(l, root);
            self.lemma_stuck_sum(ids, nodes, l, st.cut@, e, m);
            self.lemma_sums_agree(st.cut@, r, m);
            self.lemma_tree_edge(ids, nodes, l, e);
            self.lemma_ends_of(ids, nodes, l, e);
            assert(root == self.lower(l, e));
            assert forall|v: int| 0 <= v < self.n implies r(v) == 0 || #[trigger] self.balanced(st.cut@, v) by {
                if r(v) != 0 {
                    assert(v != 0);
                    if !nodes.contains(v) {
                        assert(l.lim@[v] == 0);
                        assert(1 <= l.lim@[root] && 1 <= l.low@[root]);
                    }
                }
            }
            self.lemma_node_sum_balanced(st.cut@, r, self.n as nat);
            assert(false);
        }
    }

    /// Of the cut values only that of `e` counts across the halves that `e` parts.
    proof fn lemma_cut_sum(
        self,
        ids: Set<int>,
        nodes: Set<int>,
        l: Labels,
        cut: Seq<Option<i128>>,
        e: int,
        m: nat,
    )
        requires
            self.well_formed(),
            self.spanning(ids, nodes),
            self.labelled(ids, nodes, l),
            self.cuts(ids, nodes, cut),
            ids.contains(e),
            m <= self.edges@.len(),
        ensures
            self.edge_sum(cut, self.inside(l, self.lower(l, e)), m) == span_of(
                self.edges@,
                self.inside(l, self.lower(l, e)),
                m,
            ) - (if e < m {
                if self.flips(l, e) { kept_cut(cut, e) } else { -kept_cut(cut, e) }
            } else {
                0
            }),
        decreases m,
    {
        let root = self.lower(l, e);
        let r = self.inside(l, root);
        self.lemma_tree_edge(ids, nodes, l, e);
        self.lemma_ends_of(ids, nodes, l, e);
        self.lemma_flips(ids, nodes, l, e);
        if m > 0 {
            self.lemma_cut_sum(ids, nodes, l, cut, e, (m - 1) as nat);
            let i = m - 1;
            let f = self.edges@[i];
            let d = r(f.to as int) - r(f.from as int);
            let w = f.weight as int;
            let c = kept_cut(cut, i);
            assert(cut[i] is Some <==> ids.contains(i));
            if i == e {
                assert(d == if self.flips(l, e) { 1int } else { -1 });
            } else if ids.contains(i) {
                self.lemma_side(ids, nodes, l, e, i);
                assert(d == 0);
            } else {
                assert(c == 0);
            }
            assert((w - c) * d == w * d - c * d) by (nonlinear_arith);
            assert(c * 1 == c && c * -1 == -c && c * 0 == 0) by (nonlinear_arith);
            assert(c == 0 ==> c * d == 0) by (nonlinear_arith);
        }
    }

    /// What is kept for a tree edge is its cut value.
    proof fn lemma_cut(self, st: State, e: int)
        requires
            self.well_formed(),
            self.holds(st),
            st.ids@.contains(e),
        ensures
            st.cut@[e] is Some,
            st.cut@[e]->0 == cut_value(self.edges@, st.ids@, e),
    {
        let ids = st.ids@;
        let nodes = st.nodes@;
        let l = st.labels;
        let m = self.edges@.len();
        let root = self.lower(l, e);
        let r = self.inside(l, root);
        assert(st.cut@[e] is Some <==> ids.contains(e));
        self.lemma_tree_edge(ids, nodes, l, e);
        self.lemma_ends_of(ids, nodes, l, e);
        self.lemma_flips(ids, nodes, l, e);
        self.lemma_cut_sum(ids, nodes, l, st.cut@, e, m);
        self.lemma_sums_agree(st.cut@, r, m);
        assert forall|v: int| 0 <= v < self.n implies r(v) == 0 || #[trigger] self.balanced(st.cut@, v) by {
            assert(nodes.contains(v));
            if r(v) != 0 {
                assert(v != 0);
            }
        }
        self.lemma_node_sum_balanced(st.cut@, r, self.n as nat);
        let side = far_side(self.edges@, ids, e);
        assert forall|v: int| 0 <= v < self.n implies #[trigger] side(v) == r(v) - 0 by {
            assert(nodes.contains(v));
            self.lemma_far(ids, nodes, l, e, v);
        }
        lemma_span_shift(self.edges@, r, side, 0, self.n as nat, m);
    }

    /// The stage that a state stands for.
    spec fn basis(self, st: State) -> Basis {
        Basis { rank: ints(st.rank@), tree: st.ids@ }
    }

    /// Swaps tree edge `leave` for `enter` and re-derives ranks, labels and cut values.
    #[verifier::rlimit(40)]
    fn exchange(&self, st: State, leave: usize, enter: usize) -> (r: State)
        requires
            self.well_formed(),
            self.holds(st),
            leave < self.edges@.len(),
            st.ids@.contains(leave as int),
            enter < self.edges@.len(),
            self.reconnects(
                st.labels,
                leave as int,
                self.cut_off(st.labels, leave as int),
                self.flips(st.labels, leave as int),
                enter as int,
            ),
            forall|i: int|
                0 <= i < self.edges@.len() && #[trigger] self.reconnects(
                    st.labels,
                    leave as int,
                    self.cut_off(st.labels, leave as int),
                    self.flips(st.labels, leave as int),
                    i,
                ) ==> self.slack_of(st.rank@, i) >= self.slack_of(st.rank@, enter as int),
        ensures
            self.holds(r),
            self.basis(r) == swapped_edges(self.edges@, self.basis(st), leave as int, enter as int),
    {
        let ghost ids = st.ids@;
        let ghost nodes = st.nodes@;
        let ghost l = st.labels;
        let ghost e = leave as int;
        let ghost f = enter as int;
        let ghost root = self.cut_off(l, e);
        let ghost flip = self.flips(l, e);
        let ghost ids1 = ids.remove(e).insert(f);
        let ghost rank0 = st.rank@;
        let ghost tree0 = st.tree@;
        let ghost s = self.slack_of(rank0, f);
        let ghost sigma = if flip { s } else { -s };
        let ghost want = Seq::new(
            self.n as nat,
            |v: int| rank0[v] - rank0[0] + (if Net::beneath(l, v, root) { sigma } else { 0 }),
        );
        proof {
            self.lemma_tree_edge(ids, nodes, l, e);
            self.lemma_ends_of(ids, nodes, l, e);
            assert(root == self.lower(l, e));
            assert(nodes.contains(self.edges@[f].from as int) <==> nodes.contains(
                self.edges@[f].to as int,
            ));
            self.lemma_swap_spans(ids, nodes, l, e, f);
            assert(self.slack_of(rank0, f) >= 0);
            assert(self.tight_on(ids1, want)) by {
                assert forall|i: int| #[trigger] ids1.contains(i) implies want[self.edges@[i].to as int]
                    - want[self.edges@[i].from as int] == self.edges@[i].minlen by {
                    if i != f {
                        assert(ids.contains(i));
                        self.lemma_side(ids, nodes, l, e, i);
                        assert(self.slack_of(rank0, i) == 0);
                        assert(nodes.contains(self.edges@[i].from as int));
                        assert(nodes.contains(self.edges@[i].to as int));
                    }
                }
            }
            assert(want[0] == 0);
        }
        let le: RankEdge = self.edges[leave];
        let fe: RankEdge = self.edges[enter];
        let mut tree = st.tree;
        let at_from = Net::without(&tree[le.from as usize], leave);
        tree.set(le.from as usize, at_from);
        let at_to = Net::without(&tree[le.to as usize], leave);
        tree.set(le.to as usize, at_to);
        let ghost tree1 = tree@;
        proof {
            assert forall|v: int, x: (u32, usize)|
                0 <= v < self.n implies (#[trigger] tree1[v]@.contains(x) <==> tree0[v]@.contains(x)
                && (x.1 != leave || (v != le.from && v != le.to))) by {
                assert(le.from != le.to) by {
                    assert(!self.edges@[e].is_loop());
                }
            }
        }
        tree[fe.from as usize].push((fe.to, enter));
        tree[fe.to as usize].push((fe.from, enter));
        proof {
            assert(fe.from != fe.to) by {
                assert(!self.edges@[f].is_loop());
            }
            assert(tree@[fe.from as int]@ == tree1[fe.from as int]@.push((fe.to, enter)));
            assert(tree@[fe.to as int]@ == tree1[fe.to as int]@.push((fe.from, enter)));
            assert(self.holds_tree(tree@, ids1)) by {
                assert forall|v: int, k: int|
                    0 <= v < self.n && 0 <= k < tree@[v]@.len() implies {
                    let x = #[trigger] tree@[v]@[k];
                    x.1 < self.edges@.len() && ids1.contains(x.1 as int) && self.edges@[x.1 as int].joins(
                        v,
                        x.0 as int,
                    )
                } by {
                    let x = tree@[v]@[k];
                    if k < tree1[v]@.len() {
                        assert(tree1[v]@[k] == x);
                        assert(tree1[v]@.contains(x));
                        assert(tree0[v]@.contains(x));
                        let j = choose|j: int| 0 <= j < tree0[v]@.len() && tree0[v]@[j] == x;
                        assert(ids.contains(tree0[v]@[j].1 as int));
                        assert(x.1 != leave);
                    }
                }
                assert forall|i: int| #[trigger] ids1.contains(i) implies 0 <= i < self.edges@.len() && i
                    <= usize::MAX && tree@[self.edges@[i].from as int]@.contains(
                    (self.edges@[i].to, i as usize),
                ) && tree@[self.edges@[i].to as int]@.contains((self.edges@[i].from, i as usize)) by {
                    lemma_grown_list(
                        tree1,
                        tree@,
                        fe.from as int,
                        (fe.to, enter),
                        fe.to as int,
                        (fe.from, enter),
                    );
                    if i == f {
                        assert(tree@[fe.from as int]@.last() == (fe.to, enter));
                        assert(tree@[fe.to as int]@.last() == (fe.from, enter));
                    } else {
                        assert(ids.contains(i));
                        assert(i as usize != leave);
                        assert(tree1[self.edges@[i].from as int]@.contains(
                            (self.edges@[i].to, i as usize),
                        ));
                        assert(tree1[self.edges@[i].to as int]@.contains(
                            (self.edges@[i].from, i as usize),
                        ));
                    }
                }
            }
        }
        let labels = self.init_low_lim(&tree, Ghost(ids1), Ghost(nodes));
        let mut rank = st.rank;
        self.update_ranks(&tree, &mut rank, Ghost(ids1), Ghost(nodes), Ghost(want));
        proof {
            let r1 = rank@;
            assert forall|i: int| 0 <= i < self.edges@.len() implies #[trigger] self.slack_of(r1, i) >= 0 by {
                assert(self.slack_of(rank0, i) >= 0);
                let g = self.edges@[i];
                assert(nodes.contains(g.from as int) <==> nodes.contains(g.to as int));
                if nodes.contains(g.from as int) {
                    if self.reconnects(l, e, root, flip, i) {
                        assert(self.slack_of(rank0, i) >= s);
                    }
                }
            }
            assert forall|i: int| #[trigger] ids1.contains(i) implies self.slack_of(r1, i) == 0 by {
                assert(nodes.contains(self.edges@[i].from as int));
                assert(nodes.contains(self.edges@[i].to as int));
            }
            assert forall|v: int| 0 <= v < r1.len() implies -3 * WIDE <= #[trigger] r1[v] <= 3 * WIDE by {
                if nodes.contains(v) {
                } else {
                    assert(r1[v] == rank0[v]);
                }
            }
        }
        proof {
            let b = Basis { rank: ints(rank0), tree: ids };
            let c = swapped_edges(self.edges@, b, e, f);
            self.lemma_flips(ids, nodes, l, e);
            assert(slack(self.edges@, b.rank, f) == s);
            assert forall|v: int| 0 <= v < self.n implies ints(rank@)[v] == c.rank[v] by {
                assert(nodes.contains(v));
                self.lemma_far(ids, nodes, l, e, v);
                assert(rank@[v] == want[v]);
            }
            assert(ints(rank@) =~= c.rank);
            assert(nodes.contains(0));
        }
        let cut = self.init_cut_values(&tree, &labels, Ghost(ids1), Ghost(nodes));
        State { rank, tree, labels, cut, ids: Ghost(ids1), nodes: Ghost(nodes) }
    }
}

proof fn lemma_proper(edges: Seq<RankEdge>, m: nat)
    requires
        m <= edges.len(),
    ensures
        proper(edges, m).len() <= m,
        forall|j: int|
            0 <= j < proper(edges, m).len() ==> 0 <= (#[trigger] proper(edges, m)[j]) < m
                && !edges[proper(edges, m)[j]].is_loop(),
        forall|j: int, k: int|
            0 <= j < k < proper(edges, m).len() ==> (#[trigger] proper(edges, m)[j])
                < #[trigger] proper(edges, m)[k],
        forall|i: int|
            0 <= i < m && !(#[trigger] edges[i]).is_loop() ==> proper(edges, m).contains(i),
    decreases m,
{
    if m > 0 {
        let q = (m - 1) as nat;
        lemma_proper(edges, q);
        assert forall|i: int| 0 <= i < m && !(#[trigger] edges[i]).is_loop() implies proper(
            edges,
            m,
        ).contains(i) by {
            if i < q {
                let k = choose|k: int| 0 <= k < proper(edges, q).len() && proper(edges, q)[k] == i;
                assert(proper(edges, m)[k] == i);
            } else {
                assert(proper(edges, m).last() == i);
            }
        }
    }
}

proof fn lemma_kept_step(edges: Seq<RankEdge>, m: nat)
    requires
        m < edges.len(),
    ensures
        edges[m as int].is_loop() ==> kept(edges, m + 1) == kept(edges, m),
        !edges[m as int].is_loop() ==> kept(edges, m + 1) == kept(edges, m).push(
            clamped(edges[m as int]),
        ),
{
    lemma_proper(edges, m);
    let a = kept(edges, m + 1);
    if edges[m as int].is_loop() {
        assert(a =~= kept(edges, m));
    } else {
        assert(a =~= kept(edges, m).push(clamped(edges[m as int])));
    }
}

/// Loops have no span: dropping them changes no total.
proof fn lemma_kept_span(edges: Seq<RankEdge>, r: spec_fn(int) -> int, m: nat)
    requires
        m <= edges.len(),
    ensures
        total_span(kept(edges, m), r) == span_of(edges, r, m),
    decreases m,
{
    if m > 0 {
        let q = (m - 1) as nat;
        lemma_kept_span(edges, r, q);
        lemma_kept_step(edges, q);
        let e = edges[m - 1];
        if e.is_loop() {
            let z = r(e.to as int) - r(e.from as int);
            assert(e.weight * z == 0) by (nonlinear_arith)
                requires
                    z == 0,
            ;
        } else {
            let k0 = kept(edges, q);
            let k1 = kept(edges, m);
            lemma_span_prefix(k0, k1, r, k0.len());
            assert(k1[k1.len() - 1] == clamped(e));
        }
    } else {
        assert(kept(edges, 0).len() == 0);
    }
}

proof fn lemma_span_prefix(a: Seq<RankEdge>, b: Seq<RankEdge>, r: spec_fn(int) -> int, m: nat)
    requires
        m <= a.len(),
        m <= b.len(),
        forall|i: int| 0 <= i < m ==> a[i] == #[trigger] b[i],
    ensures
        span_of(a, r, m) == span_of(b, r, m),
    decreases m,
{
    if m > 0 {
        lemma_span_prefix(a, b, r, (m - 1) as nat);
        assert(a[m - 1] == b[m - 1]);
    }
}

/// Shifting every rank alike changes no span.
proof fn lemma_span_shift(
    edges: Seq<RankEdge>,
    r: spec_fn(int) -> int,
    q: spec_fn(int) -> int,
    d: int,
    n: nat,
    m: nat,
)
    requires
        ends_in(n, edges),
        m <= edges.len(),
        forall|v: int| 0 <= v < n ==> #[trigger] q(v) == r(v) - d,
    ensures
        span_of(edges, q, m) == span_of(edges, r, m),
    decreases m,
{
    if m > 0 {
        lemma_span_shift(edges, r, q, d, n, (m - 1) as nat);
        let e = edges[m - 1];
        assert(q(e.to as int) - q(e.from as int) == r(e.to as int) - r(e.from as int));
    }
}

/// A layering and how it was reached.
pub struct Ranking {
    /// The rank of each node, the least of them zero.
    pub rank: Vec<i32>,
    /// How many tree edges were swapped.
    pub pivots: usize,
    /// Whether no tree edge was left worth replacing.
    pub settled: bool,
}

/// No edge pulls its ends apart.
pub open spec fn no_push(edges: Seq<RankEdge>) -> bool {
    forall|i: int| 0 <= i < edges.len() ==> (#[trigger] edges[i]).weight >= 0
}

/// No edge must span more than one column.
pub open spec fn short_steps(edges: Seq<RankEdge>) -> bool {
    forall|i: int| 0 <= i < edges.len() ==> (#[trigger] edges[i]).reach() <= 1
}

/// The ranks are those that at most `max_iter` pivots lead to. Every edge runs forward by what it
/// must span and the least rank is zero. Where no tree edge is left worth replacing, no layering
/// has a smaller total span; where one is left and no weight is negative, all the pivots were made.
/// No column is left empty where no edge must span more than one.
pub open spec fn are_simplex_ranks(
    n: nat,
    edges: Seq<RankEdge>,
    max_iter: nat,
    rank: Seq<i32>,
) -> bool {
    &&& rank.len() == n
    &&& forall|v: int| 0 <= v < n ==> #[trigger] rank[v] == simplex(n, edges, max_iter)[v]
    &&& feasible(edges, as_rank(rank))
    &&& forall|v: int| 0 <= v < n ==> #[trigger] rank[v] >= 0
    &&& n > 0 ==> exists|v: int| 0 <= v < n && #[trigger] rank[v] == 0
    &&& short_steps(edges) ==> forall|v: int| 0 <= v < n ==> #[trigger] rank[v] < n
    &&& simplex_settles(n, edges, max_iter) ==> is_minimal(edges, as_rank(rank))
    &&& !simplex_settles(n, edges, max_iter) && no_push(edges) ==> simplex_pivots(
        n,
        edges,
        max_iter,
    ) == max_iter
}

/// An `i32` holds every rank that the pivots lead to.
pub open spec fn ranks_fit(n: nat, edges: Seq<RankEdge>, max_iter: nat) -> bool {
    forall|v: int| 0 <= v < n ==> #[trigger] simplex(n, edges, max_iter)[v] <= i32::MAX
}

/// The ranks fit in an `i32`: because no edge asks for much, or because they happen to.
pub open spec fn spans_fit(n: nat, edges: Seq<RankEdge>, max_iter: nat) -> bool {
    &&& n < u32::MAX
    &&& reaches_fit(n, edges) || ranks_fit(n, edges, max_iter)
}

/// What a layering says of itself.
pub open spec fn ranked(n: nat, edges: Seq<RankEdge>, max_iter: nat, w: Ranking) -> bool {
    &&& are_simplex_ranks(n, edges, max_iter, w.rank@)
    &&& w.pivots == simplex_pivots(n, edges, max_iter)
    &&& w.settled == simplex_settles(n, edges, max_iter)
}

// ── components ─────────────────────────────────────────────────────────────

/// Node 0 is the first of the first nodes.
proof fn lemma_first_leader(pairs: Seq<(usize, usize)>, n: nat)
    requires
        n > 0,
    ensures
        leaders(pairs, n).len() >= 1,
        leaders(pairs, n)[0] == 0,
{
    lemma_leaders(pairs, n);
    assert(is_leader(pairs, 0));
    let ls = leaders(pairs, n);
    let k = choose|k: int| 0 <= k < ls.len() && ls[k] == 0;
    if k > 0 {
        assert(leaders(pairs, n)[0] < leaders(pairs, n)[k]);
    }
}

/// The first nodes among fewer nodes come first among more.
proof fn lemma_leaders_prefix(pairs: Seq<(usize, usize)>, m: nat, n: nat)
    requires
        m <= n,
    ensures
        leaders(pairs, m).len() <= leaders(pairs, n).len(),
        forall|c: int|
            0 <= c < leaders(pairs, m).len() ==> leaders(pairs, m)[c] == #[trigger] leaders(pairs, n)[c],
    decreases n,
{
    if m < n {
        lemma_leaders_prefix(pairs, m, (n - 1) as nat);
        assert forall|c: int| 0 <= c < leaders(pairs, m).len() implies leaders(pairs, m)[c]
            == #[trigger] leaders(pairs, n)[c] by {
            assert(leaders(pairs, m)[c] == leaders(pairs, (n - 1) as nat)[c]);
        }
    }
}

/// A node is the first of its group where its group is the next that appears.
proof fn lemma_next_group(pairs: Seq<(usize, usize)>, n: nat, group: Seq<usize>, v: int)
    requires
        is_grouping(pairs, n, group),
        0 <= v < n,
    ensures
        is_leader(pairs, v) <==> group[v] == leaders(pairs, v as nat).len(),
        is_leader(pairs, v) ==> leaders(pairs, n)[leaders(pairs, v as nat).len() as int] == v,
{
    let ls = leaders(pairs, n);
    let c = leaders(pairs, v as nat).len() as int;
    lemma_leaders(pairs, n);
    lemma_leaders(pairs, v as nat);
    lemma_leaders_prefix(pairs, (v + 1) as nat, n);
    lemma_leaders_prefix(pairs, v as nat, n);
    if is_leader(pairs, v) {
        assert(leaders(pairs, (v + 1) as nat)[c] == v);
        assert(ls[c] == v);
        groups_lead(pairs, n, group, c);
    } else if group[v] == c {
        let l = ls[c];
        assert(linked(pairs, l, v));
        if l < v {
            assert(is_leader(pairs, l));
            assert(leaders(pairs, v as nat).contains(l));
            let few = leaders(pairs, v as nat);
            let d = choose|d: int| 0 <= d < few.len() && few[d] == l;
            assert(ls[d] == l);
            assert(ls[d] < ls[c]);
        } else {
            let j = choose|j: int| 0 <= j < v && #[trigger] linked(pairs, j, v);
            groups_partition(pairs, n, group, j, v);
            assert(group[j] == c);
            groups_lead(pairs, n, group, c);
            crate::unions::linked_is_equivalence(pairs, j, v, l);
            crate::unions::linked_is_equivalence(pairs, l, v, j);
            assert(linked(pairs, j, l));
            assert(is_leader(pairs, l));
        }
    }
}

impl Net {
    /// `inside` holds both ends of each edge or neither.
    spec fn shuts(self, inside: Set<int>) -> bool {
        forall|i: int|
            0 <= i < self.edges@.len() ==> (inside.contains((#[trigger] self.edges@[i]).from as int)
                <==> inside.contains(self.edges@[i].to as int))
    }

    /// The edges tie every node to node 0.
    spec fn whole(self) -> bool {
        forall|inside: Set<int>, v: int|
            inside.contains(0) && #[trigger] self.shuts(inside) && 0 <= v < self.n
                ==> #[trigger] inside.contains(v)
    }

    /// The problem of the given edges, loops left out and components tied together.
    spec fn poses(self, es: Seq<RankEdge>) -> bool {
        &&& self.well_formed()
        &&& ends_in(self.n as nat, es)
        &&& self.edges@ == tied(self.n as nat, es)
    }

    /// Where the edges that were given stand, and the bridges.
    proof fn lemma_tied(self, es: Seq<RankEdge>, group: Seq<usize>)
        requires
            self.poses(es),
            is_grouping(ends_of(es), self.n as nat, group),
        ensures
            forall|i: int|
                0 <= i < es.len() && !(#[trigger] es[i]).is_loop() ==> exists|j: int|
                    0 <= j < self.edges@.len() && #[trigger] self.edges@[j] == clamped(es[i]),
            forall|j: int|
                0 <= j < self.edges@.len() ==> {
                    let e = #[trigger] self.edges@[j];
                    ||| j < kept(es, es.len()).len() && exists|i: int|
                        0 <= i < es.len() && !(#[trigger] es[i]).is_loop() && e == clamped(es[i])
                    ||| j >= kept(es, es.len()).len() && e.from == 0 && e.weight == 0 && e.minlen == 0
                        && group[e.to as int] != 0 && leaders(ends_of(es), self.n as nat)[group[e.to as int] as int]
                        == e.to
                },
            forall|c: int|
                1 <= c < leaders(ends_of(es), self.n as nat).len() ==> exists|j: int|
                    0 <= j < self.edges@.len() && (#[trigger] self.edges@[j]) == bridge(
                        #[trigger] leaders(ends_of(es), self.n as nat)[c],
                    ),
            leaders(ends_of(es), self.n as nat)[0] == 0,
            group[0] == 0,
            forall|i: int| 0 <= i < es.len() ==> group[(#[trigger] es[i]).from as int] == group[es[i].to as int],
    {
        let n = self.n as nat;
        let pairs = ends_of(es);
        let ls = leaders(pairs, n);
        let ks = kept(es, es.len());
        lemma_proper(es, es.len());
        lemma_leaders(pairs, n);
        lemma_first_leader(pairs, n);
        groups_lead(pairs, n, group, 0);
        assert forall|i: int| 0 <= i < es.len() && !(#[trigger] es[i]).is_loop() implies exists|j: int|
            0 <= j < self.edges@.len() && #[trigger] self.edges@[j] == clamped(es[i]) by {
            assert(proper(es, es.len()).contains(i));
            let j = choose|j: int|
                0 <= j < proper(es, es.len()).len() && proper(es, es.len())[j] == i;
            assert(self.edges@[j] == ks[j]);
        }
        assert forall|j: int| 0 <= j < self.edges@.len() implies {
            let e = #[trigger] self.edges@[j];
            ||| j < ks.len() && exists|i: int|
                0 <= i < es.len() && !(#[trigger] es[i]).is_loop() && e == clamped(es[i])
            ||| j >= ks.len() && e.from == 0 && e.weight == 0 && e.minlen == 0 && group[e.to as int]
                != 0 && ls[group[e.to as int] as int] == e.to
        } by {
            if j < ks.len() {
                let i = proper(es, es.len())[j];
                assert(self.edges@[j] == ks[j]);
                assert(!es[i].is_loop());
            } else {
                let c = j - ks.len() + 1;
                assert(self.edges@[j] == bridges(n, es)[c - 1]);
                assert(0 <= ls[c] < n);
                groups_lead(pairs, n, group, c);
            }
        }
        assert forall|c: int| 1 <= c < ls.len() implies exists|j: int|
            0 <= j < self.edges@.len() && (#[trigger] self.edges@[j]) == bridge(#[trigger] ls[c]) by {
            let j = ks.len() + c - 1;
            assert(self.edges@[j] == bridges(n, es)[c - 1]);
        }
        assert forall|i: int| 0 <= i < es.len() implies group[(#[trigger] es[i]).from as int]
            == group[es[i].to as int] by {
            pairs_link(pairs, i);
            assert(es[i].from < n && es[i].to < n);
            groups_partition(pairs, n, group, es[i].from as int, es[i].to as int);
        }
    }

    proof fn lemma_chain_inside(self, es: Seq<RankEdge>, group: Seq<usize>, inside: Set<int>, w: Seq<int>, k: int)
        requires
            self.poses(es),
            is_grouping(ends_of(es), self.n as nat, group),
            self.shuts(inside),
            crate::unions::is_chain(ends_of(es), w),
            0 <= k < w.len(),
            inside.contains(w[0]),
        ensures
            inside.contains(w[k]),
        decreases k,
    {
        if k > 0 {
            self.lemma_chain_inside(es, group, inside, w, k - 1);
            let pairs = ends_of(es);
            assert(w[k] == w[k]);
            assert(crate::unions::joined(pairs, w[k - 1], w[k]));
            let i = choose|i: int|
                0 <= i < pairs.len() && crate::unions::pair_joins(#[trigger] pairs[i], w[k - 1], w[k]);
            if !es[i].is_loop() {
                self.lemma_tied(es, group);
                let j = choose|j: int|
                    0 <= j < self.edges@.len() && #[trigger] self.edges@[j] == clamped(es[i]);
                assert(inside.contains(self.edges@[j].from as int) <==> inside.contains(
                    self.edges@[j].to as int,
                ));
            }
        }
    }

    /// With the bridges every node is tied to node 0.
    proof fn lemma_whole(self, es: Seq<RankEdge>, group: Seq<usize>)
        requires
            self.poses(es),
            is_grouping(ends_of(es), self.n as nat, group),
        ensures
            self.whole(),
    {
        let n = self.n as nat;
        let pairs = ends_of(es);
        let ls = leaders(pairs, n);
        self.lemma_tied(es, group);
        assert forall|inside: Set<int>, v: int|
            inside.contains(0) && #[trigger] self.shuts(inside) && 0 <= v < self.n implies #[trigger] inside.contains(
            v,
        ) by {
            let c = group[v] as int;
            assert(linked(pairs, ls[c], v));
            if c > 0 {
                let j = choose|j: int|
                    0 <= j < self.edges@.len() && (#[trigger] self.edges@[j]) == bridge(ls[c]);
                lemma_leaders(pairs, n);
                assert(0 <= ls[c] < n);
                assert(inside.contains(self.edges@[j].from as int) <==> inside.contains(
                    self.edges@[j].to as int,
                ));
            }
            let w = choose|w: Seq<int>|
                #[trigger] crate::unions::is_chain(pairs, w) && w[0] == ls[c] && w.last() == v;
            self.lemma_chain_inside(es, group, inside, w, w.len() - 1);
        }
    }

    /// Tying components together makes no cycle.
    proof fn lemma_tied_acyclic(self, es: Seq<RankEdge>, group: Seq<usize>) -> (t1: spec_fn(int) -> nat)
        requires
            self.poses(es),
            is_grouping(ends_of(es), self.n as nat, group),
            acyclic(es),
        ensures
            grows_along(self.edges@, t1),
    {
        let t = choose|t: spec_fn(int) -> nat| #[trigger] grows_along(es, t);
        let t1 = |v: int| if group[v] == 0 { t(v) } else { t(v) + t(0) + 1 };
        self.lemma_tied(es, group);
        assert forall|j: int| 0 <= j < self.edges@.len() && !(#[trigger] self.edges@[j]).is_loop() implies t1(
            self.edges@[j].from as int,
        ) < t1(self.edges@[j].to as int) by {
            let e = self.edges@[j];
            if j < kept(es, es.len()).len() {
                let i = choose|i: int|
                    0 <= i < es.len() && !(#[trigger] es[i]).is_loop() && e == clamped(es[i]);
                assert(t(es[i].from as int) < t(es[i].to as int));
                assert(group[es[i].from as int] == group[es[i].to as int]);
            }
        }
        t1
    }

    /// Bridges have no weight: they add to no total.
    proof fn lemma_tied_span(self, es: Seq<RankEdge>, group: Seq<usize>, r: spec_fn(int) -> int, m: nat)
        requires
            self.poses(es),
            is_grouping(ends_of(es), self.n as nat, group),
            kept(es, es.len()).len() <= m <= self.edges@.len(),
        ensures
            span_of(self.edges@, r, m) == total_span(es, r),
        decreases m,
    {
        let ks = kept(es, es.len());
        if m > ks.len() {
            self.lemma_tied_span(es, group, r, (m - 1) as nat);
            self.lemma_tied(es, group);
            let e = self.edges@[m - 1];
            let d = r(e.to as int) - r(e.from as int);
            assert(e.weight == 0);
            assert(e.weight * d == 0) by (nonlinear_arith)
                requires
                    e.weight == 0,
            ;
        } else {
            assert forall|i: int| 0 <= i < m implies ks[i] == #[trigger] self.edges@[i] by {
            }
            lemma_span_prefix(ks, self.edges@, r, m);
            lemma_kept_span(es, r, es.len());
        }
    }

    /// What is minimal with the bridges is minimal without: components move freely.
    proof fn lemma_minimal_without(
        self,
        es: Seq<RankEdge>,
        group: Seq<usize>,
        q: spec_fn(int) -> int,
    )
        requires
            self.poses(es),
            is_grouping(ends_of(es), self.n as nat, group),
            is_minimal(self.edges@, q),
        ensures
            is_minimal(es, q),
    {
        let n = self.n as nat;
        let ls = leaders(ends_of(es), n);
        self.lemma_tied(es, group);
        let m = self.edges@.len();
        assert forall|other: spec_fn(int) -> int| #[trigger] feasible(es, other) implies total_span(
            es,
            q,
        ) <= total_span(es, other) by {
            let free = |v: int| other(v) - other(ls[group[v] as int]);
            assert(feasible(self.edges@, free)) by {
                assert forall|j: int|
                    0 <= j < m && !(#[trigger] self.edges@[j]).is_loop() implies free(
                    self.edges@[j].to as int,
                ) - free(self.edges@[j].from as int) >= self.edges@[j].reach() by {
                    let e = self.edges@[j];
                    if j < kept(es, es.len()).len() {
                        let i = choose|i: int|
                            0 <= i < es.len() && !(#[trigger] es[i]).is_loop() && e == clamped(es[i]);
                        assert(group[es[i].from as int] == group[es[i].to as int]);
                        assert(other(es[i].to as int) - other(es[i].from as int) >= es[i].reach());
                    }
                }
            }
            assert(total_span(self.edges@, q) <= total_span(self.edges@, free));
            self.lemma_tied_span(es, group, q, m);
            self.lemma_tied_span(es, group, free, m);
            lemma_span_grouped(es, other, free, es.len());
        }
    }
}

/// Moving the two ends of each edge alike changes no span.
proof fn lemma_span_grouped(
    edges: Seq<RankEdge>,
    r: spec_fn(int) -> int,
    q: spec_fn(int) -> int,
    m: nat,
)
    requires
        m <= edges.len(),
        forall|i: int|
            0 <= i < edges.len() ==> q((#[trigger] edges[i]).to as int) - q(edges[i].from as int) == r(
                edges[i].to as int,
            ) - r(edges[i].from as int),
    ensures
        span_of(edges, q, m) == span_of(edges, r, m),
    decreases m,
{
    if m > 0 {
        lemma_span_grouped(edges, r, q, (m - 1) as nat);
        assert(q(edges[m - 1].to as int) - q(edges[m - 1].from as int) == r(
            edges[m - 1].to as int,
        ) - r(edges[m - 1].from as int));
    }
}

// ── the search ─────────────────────────────────────────────────────────────

/// A bridge to the first node of each component but that of node 0.
#[verifier::loop_isolation(false)]
fn tie(n: usize, edges: &[RankEdge], own: Vec<RankEdge>) -> (r: (Vec<RankEdge>, Ghost<Seq<usize>>))
    requires
        1 <= n < u32::MAX,
        ends_in(n as nat, edges@),
        own@ == kept(edges@, edges@.len()),
    ensures
        r.0@ == tied(n as nat, edges@),
        is_grouping(ends_of(edges@), n as nat, r.1@),
{
    let ghost es = edges@;
    let ghost goal = ends_of(es);
    let mut pairs: Vec<(usize, usize)> = Vec::new();
    let mut i: usize = 0;
    while i < edges.len()
        invariant
            i <= es.len(),
            pairs@ == goal.take(i as int),
        decreases es.len() - i,
    {
        let e: RankEdge = edges[i];
        pairs.push((e.from as usize, e.to as usize));
        assert(goal.take(i as int + 1) =~= goal.take(i as int).push(goal[i as int]));
        i = i + 1;
    }
    proof {
        assert(goal.take(i as int) =~= goal);
        assert forall|k: int| 0 <= k < pairs@.len() implies (#[trigger] pairs@[k]).0 < n && pairs@[k].1
            < n by {
            assert(es[k].from < n && es[k].to < n);
        }
    }
    let (group, _) = groups(n, &pairs);
    let ghost ls = leaders(goal, n as nat);
    let mut all = own;
    let mut count: usize = 0;
    let mut v: usize = 0;
    proof {
        lemma_first_leader(goal, n as nat);
        assert(bridges(n as nat, es).take(0) =~= Seq::<RankEdge>::empty());
        assert(own@ + bridges(n as nat, es).take(0) =~= own@);
    }
    while v < n
        invariant
            v <= n,
            count == leaders(goal, v as nat).len(),
            count <= v,
            v > 0 ==> count >= 1,
            count <= ls.len(),
            all@ == own@ + bridges(n as nat, es).take(if count == 0 { 0 } else { count - 1 }),
        decreases n - v,
    {
        proof {
            lemma_next_group(goal, n as nat, group@, v as int);
            lemma_leaders_prefix(goal, (v + 1) as nat, n as nat);
            lemma_first_leader(goal, (v + 1) as nat);
            lemma_leaders(goal, (v + 1) as nat);
        }
        if group[v] == count {
            if count > 0 {
                all.push(RankEdge { from: 0, to: v as u32, weight: 0, minlen: 0 });
                proof {
                    let bs = bridges(n as nat, es);
                    assert(ls[count as int] == v);
                    assert(bs[count - 1] == bridge(v as int));
                    assert(bs.take(count as int) =~= bs.take(count - 1).push(bs[count - 1]));
                    assert(own@ + bs.take(count as int) =~= (own@ + bs.take(count - 1)).push(
                        bs[count - 1],
                    ));
                }
            }
            count = count + 1;
        }
        v = v + 1;
    }
    proof {
        let bs = bridges(n as nat, es);
        assert(bs.take(count - 1) =~= bs);
    }
    (all, Ghost(group@))
}

impl Net {
    /// The layering problem of the given edges, loops left out and components tied together.
    #[verifier::loop_isolation(false)]
    fn build(n: usize, edges: &[RankEdge]) -> (r: (Net, Ghost<Seq<usize>>))
        requires
            1 <= n < u32::MAX,
            ends_in(n as nat, edges@),
        ensures
            r.0.n == n,
            r.0.poses(edges@),
            is_grouping(ends_of(edges@), n as nat, r.1@),
    {
        let count: usize = edges.len();
        let mut own: Vec<RankEdge> = Vec::new();
        let mut i: usize = 0;
        assert(kept(edges@, 0) =~= Seq::<RankEdge>::empty());
        while i < count
            invariant
                i <= count,
                own@ == kept(edges@, i as nat),
            decreases count - i,
        {
            let e: RankEdge = edges[i];
            proof {
                lemma_kept_step(edges@, i as nat);
            }
            if e.from != e.to {
                let least: i32 = if e.minlen < 0 { 0 } else { e.minlen };
                own.push(RankEdge { from: e.from, to: e.to, weight: e.weight, minlen: least });
            }
            i = i + 1;
        }
        let ghost ks = own@;
        let (own, Ghost(group)) = tie(n, edges, own);
        let mut inc: Vec<Vec<usize>> = Vec::new();
        let mut z: usize = 0;
        while z < n
            invariant
                z <= n,
                inc@.len() == z,
                forall|v: int| 0 <= v < z ==> (#[trigger] inc@[v])@ == incident(own@, v, 0),
            decreases n - z,
        {
            inc.push(Vec::new());
            z = z + 1;
        }
        proof {
            lemma_proper(edges@, count as nat);
            let pairs = ends_of(edges@);
            lemma_leaders(pairs, n as nat);
            lemma_first_leader(pairs, n as nat);
            assert forall|j: int| 0 <= j < own@.len() implies (#[trigger] own@[j]).from < n && own@[j].to
                < n && !own@[j].is_loop() && own@[j].minlen >= 0 && own@[j].minlen * n <= WIDE by {
                if j < ks.len() {
                    let src = proper(edges@, count as nat)[j];
                    assert(own@[j] == ks[j]);
                    assert(own@[j] == clamped(edges@[src]));
                    let l = own@[j].minlen as int;
                    assert(l * n <= WIDE) by (nonlinear_arith)
                        requires
                            0 <= l <= 0x7fff_ffff,
                            0 <= n < 0xffff_ffff,
                            WIDE == 0x8000_0000_0000_0000,
                    ;
                } else {
                    let c = j - ks.len() + 1;
                    assert(own@[j] == bridges(n as nat, edges@)[c - 1]);
                    assert(leaders(pairs, n as nat)[0] < leaders(pairs, n as nat)[c]);
                    assert(0int * n == 0) by (nonlinear_arith);
                }
            }
        }
        let kept_count: usize = own.len();
        let mut k: usize = 0;
        while k < kept_count
            invariant
                k <= kept_count,
                inc@.len() == n,
                forall|v: int| 0 <= v < n ==> (#[trigger] inc@[v])@ == incident(own@, v, k as nat),
            decreases kept_count - k,
        {
            let e: RankEdge = own[k];
            assert(!own@[k as int].is_loop());
            inc[e.from as usize].push(k);
            inc[e.to as usize].push(k);
            k = k + 1;
        }
        (Net { n, edges: own, inc }, Ghost(group))
    }

    /// The first spanning tree, its labels and its cut values.
    fn start(&self) -> (st: State)
        requires
            self.well_formed(),
            acyclic(self.edges@),
            self.whole(),
        ensures
            self.holds(st),
            self.basis(st) == first_basis(
                self.n as nat,
                self.edges@,
                longest(self.n as nat, self.edges@),
                self.n as nat,
            ),
    {
        let mut rank = self.init_rank();
        proof {
            let t = choose|t: spec_fn(int) -> nat| #[trigger] grows_along(self.edges@, t);
            longest_ranks_are_unique(self.n as nat, self.edges@, t, ints(rank@));
        }
        let t = self.feasible_tree(&mut rank);
        let ghost ids = tree_ids(t.entry@);
        let ghost nodes = t.found@.map_values(|x: u32| x as int).to_set();
        proof {
            self.lemma_tree_spans(rank@, t, ids, nodes);
            assert(self.shuts(nodes));
            assert forall|v: int| 0 <= v < self.n implies #[trigger] nodes.contains(v) by {
            }
        }
        let labels = self.init_low_lim(&t.tree, Ghost(ids), Ghost(nodes));
        let cut = self.init_cut_values(&t.tree, &labels, Ghost(ids), Ghost(nodes));
        State { rank, tree: t.tree, labels, cut, ids: Ghost(ids), nodes: Ghost(nodes) }
    }

    /// Between two nodes there is no gap wider than what tree edges span: below `level` or on it, but
    /// less than `step` below it, some node stands.
    proof fn lemma_level(self, st: State, low: int, high: int, level: int, step: int)
        requires
            self.well_formed(),
            self.holds(st),
            forall|i: int| 0 <= i < self.edges@.len() ==> (#[trigger] self.edges@[i]).minlen <= step,
            0 <= low < self.n,
            0 <= high < self.n,
            st.rank@[low] <= level < st.rank@[high],
        ensures
            exists|x: int| 0 <= x < self.n && level - step < #[trigger] st.rank@[x] <= level,
    {
        let es = self.edges@;
        let ids = st.ids@;
        let rank = st.rank@;
        if !(exists|x: int| 0 <= x < self.n && level - step < #[trigger] rank[x] <= level) {
            let inside = Set::new(
                |x: int| 0 <= x < self.n && (rank[x] <= level) == (rank[0] <= level),
            );
            assert forall|i: int, a: int, b: int|
                0 <= i < es.len() && #[trigger] ids.contains(i) && #[trigger] es[i].joins(a, b)
                    && inside.contains(b) implies inside.contains(a) by {
                assert(self.slack_of(rank, i) == 0);
                assert(!(level - step < rank[a] <= level));
                assert(!(level - step < rank[b] <= level));
            }
            assert(st.nodes@.contains(low) && st.nodes@.contains(high));
            assert(walkable(es, ids, low) && walkable(es, ids, high));
            let p = choose|p: Seq<int>| #[trigger] is_walk(es, ids, p) && p.last() == low;
            let q = choose|q: Seq<int>| #[trigger] is_walk(es, ids, q) && q.last() == high;
            lemma_walk_closed(es, ids, p, inside);
            lemma_walk_closed(es, ids, q, inside);
        }
    }

    /// With no such gap the ranks are no further apart than one step for every node but one.
    proof fn lemma_levels(self, st: State, low: int, high: int, step: int)
        requires
            self.well_formed(),
            self.holds(st),
            0 <= step,
            forall|i: int| 0 <= i < self.edges@.len() ==> (#[trigger] self.edges@[i]).minlen <= step,
            0 <= low < self.n,
            0 <= high < self.n,
        ensures
            st.rank@[high] - st.rank@[low] <= (self.n - 1) * step,
    {
        let rank = st.rank@;
        let n = self.n as int;
        if rank[high] - rank[low] > (n - 1) * step {
            let s = Seq::new(
                n as nat,
                |k: int|
                    (choose|x: int|
                        0 <= x < n && rank[low] + k * step - step < #[trigger] rank[x] <= rank[low] + k
                            * step) as u32,
            );
            assert forall|k: int| 0 <= k < n implies (#[trigger] s[k]) < n && rank[low] + k * step - step
                < rank[s[k] as int] <= rank[low] + k * step by {
                assert(0 <= k * step <= (n - 1) * step) by (nonlinear_arith)
                    requires
                        0 <= k <= n - 1,
                        0 <= step,
                ;
                self.lemma_level(st, low, high, rank[low] + k * step, step);
                let x = choose|x: int|
                    0 <= x < n && rank[low] + k * step - step < #[trigger] rank[x] <= rank[low] + k
                        * step;
                assert(s[k] == x as u32);
            }
            assert(s.no_duplicates()) by {
                assert forall|i: int, j: int|
                    0 <= i < s.len() && 0 <= j < s.len() && i < j implies s[i] != s[j] by {
                    assert(rank[s[i] as int] <= rank[low] + i * step);
                    assert(rank[low] + j * step - step < rank[s[j] as int]);
                    assert(i * step <= j * step - step) by (nonlinear_arith)
                        requires
                            i <= j - 1,
                            0 <= step,
                    ;
                }
            }
            assert(!s.contains(high as u32)) by {
                if s.contains(high as u32) {
                    let k = choose|k: int| 0 <= k < s.len() && s[k] == high as u32;
                    assert(rank[s[k] as int] <= rank[low] + k * step);
                    assert(k * step <= (n - 1) * step) by (nonlinear_arith)
                        requires
                            k <= n - 1,
                            0 <= step,
                    ;
                }
            }
            lemma_distinct_below_strict(s, high as u32, n);
        }
    }

    /// What holds of the ranks that are counted from the least of a state's.
    proof fn lemma_result(
        self,
        st: State,
        edges: Seq<RankEdge>,
        group: Seq<usize>,
        min: i128,
        rank: Seq<i32>,
    )
        requires
            self.well_formed(),
            self.poses(edges),
            is_grouping(ends_of(edges), self.n as nat, group),
            self.holds(st),
            rank.len() == self.n,
            forall|v: int| 0 <= v < self.n ==> #[trigger] rank[v] == st.rank@[v] - min,
            forall|v: int| 0 <= v < self.n ==> min <= #[trigger] st.rank@[v],
            exists|v: int| 0 <= v < self.n && #[trigger] st.rank@[v] == min,
        ensures
            feasible(edges, as_rank(rank)),
            forall|v: int| 0 <= v < self.n ==> #[trigger] rank[v] >= 0,
            exists|v: int| 0 <= v < self.n && #[trigger] rank[v] == 0,
            short_steps(edges) ==> forall|v: int| 0 <= v < self.n ==> #[trigger] rank[v] < self.n,
            (forall|i: int|
                0 <= i < st.cut@.len() && (#[trigger] st.cut@[i]) is Some ==> st.cut@[i]->0 >= 0)
                ==> is_minimal(edges, as_rank(rank)),
    {
        let q = as_rank(rank);
        let ns = self.edges@;
        let n = self.n as int;
        let rank0 = st.rank@;
        self.lemma_tied(edges, group);
        let low = choose|x: int| 0 <= x < n && #[trigger] rank0[x] == min;
        assert(rank[low] == 0);
        assert forall|v: int| 0 <= v < n implies #[trigger] rank[v] >= 0 by {
            assert(rank0[v] >= min);
        }
        assert forall|i: int| 0 <= i < edges.len() && !(#[trigger] edges[i]).is_loop() implies q(
            edges[i].to as int,
        ) - q(edges[i].from as int) >= edges[i].reach() by {
            let j = choose|j: int| 0 <= j < ns.len() && #[trigger] ns[j] == clamped(edges[i]);
            assert(self.slack_of(rank0, j) >= 0);
        }
        if short_steps(edges) {
            assert forall|j: int| 0 <= j < ns.len() implies (#[trigger] ns[j]).minlen <= 1 by {
                if j < kept(edges, edges.len()).len() {
                    let i = choose|i: int|
                        0 <= i < edges.len() && !(#[trigger] edges[i]).is_loop() && ns[j] == clamped(
                            edges[i],
                        );
                    assert(edges[i].reach() <= 1);
                }
            }
            assert forall|u: int| 0 <= u < n implies #[trigger] rank[u] < n by {
                self.lemma_levels(st, low, u, 1);
            }
        }
        if forall|i: int|
            0 <= i < st.cut@.len() && (#[trigger] st.cut@[i]) is Some ==> st.cut@[i]->0 >= 0 {
            assert(is_minimal(ns, q)) by {
                assert forall|other: spec_fn(int) -> int| #[trigger] feasible(ns, other) implies total_span(
                    ns,
                    q,
                ) <= total_span(ns, other) by {
                    assert forall|i: int| #[trigger] st.ids@.contains(i) implies q(ns[i].to as int) - q(
                        ns[i].from as int,
                    ) == ns[i].minlen by {
                        assert(self.slack_of(rank0, i) == 0);
                    }
                    self.lemma_optimal(st.ids@, st.nodes@, st.cut@, q, other);
                }
            }
            self.lemma_minimal_without(edges, group, q);
        }
    }

    /// Where no edge asks for much, the ranks are close enough together.
    proof fn lemma_reaches(self, st: State, edges: Seq<RankEdge>, group: Seq<usize>)
        requires
            self.well_formed(),
            self.poses(edges),
            is_grouping(ends_of(edges), self.n as nat, group),
            self.holds(st),
            reaches_fit(self.n as nat, edges),
        ensures
            forall|a: int, b: int|
                0 <= a < self.n && 0 <= b < self.n ==> #[trigger] st.rank@[a] - #[trigger] st.rank@[b]
                    <= i32::MAX,
    {
        let n = self.n as int;
        let ns = self.edges@;
        self.lemma_tied(edges, group);
        let step = if n == 1 { i32::MAX as int } else { i32::MAX as int / (n - 1) };
        assert((n - 1) * step <= i32::MAX && 0 <= step) by (nonlinear_arith)
            requires
                n >= 1,
                step == (if n == 1 { i32::MAX as int } else { i32::MAX as int / (n - 1) }),
        ;
        assert forall|j: int| 0 <= j < ns.len() implies (#[trigger] ns[j]).minlen <= step by {
            if j < kept(edges, edges.len()).len() {
                let i = choose|i: int|
                    0 <= i < edges.len() && !(#[trigger] edges[i]).is_loop() && ns[j] == clamped(
                        edges[i],
                    );
                let l = edges[i].reach();
                assert(l * (n - 1) <= i32::MAX);
                assert(l <= i32::MAX);
                assert(l <= step) by (nonlinear_arith)
                    requires
                        n >= 1,
                        0 <= l <= i32::MAX,
                        l * (n - 1) <= i32::MAX,
                        step == (if n == 1 { i32::MAX as int } else { i32::MAX as int / (n - 1) }),
                ;
            }
        }
        assert forall|a: int, b: int| 0 <= a < n && 0 <= b < n implies #[trigger] st.rank@[a]
            - #[trigger] st.rank@[b] <= i32::MAX by {
            self.lemma_levels(st, b, a, step);
        }
    }

    /// Without a negative cut value no edge leaves.
    proof fn lemma_no_leave(self, st: State)
        requires
            self.well_formed(),
            self.holds(st),
            forall|i: int|
                0 <= i < st.cut@.len() && (#[trigger] st.cut@[i]) is Some ==> st.cut@[i]->0 >= 0,
        ensures
            leaving(self.edges@, st.ids@, self.edges@.len()) is None,
    {
        assert forall|j: int| 0 <= j < self.edges@.len() && #[trigger] st.ids@.contains(j) implies cut_value(
            self.edges@,
            st.ids@,
            j,
        ) >= 0 by {
            self.lemma_cut(st, j);
            assert(st.cut@[j] is Some);
        }
        lemma_none_leaves(self.edges@, st.ids@, self.edges@.len());
    }

    proof fn lemma_leave(self, st: State, e: int)
        requires
            self.well_formed(),
            self.holds(st),
            0 <= e < st.cut@.len(),
            st.cut@[e] is Some && st.cut@[e]->0 < 0,
            forall|j: int| 0 <= j < e && (#[trigger] st.cut@[j]) is Some ==> st.cut@[j]->0 >= 0,
        ensures
            leaving(self.edges@, st.ids@, self.edges@.len()) == Some(e),
    {
        self.lemma_cut(st, e);
        assert forall|j: int| 0 <= j < e && #[trigger] st.ids@.contains(j) implies cut_value(
            self.edges@,
            st.ids@,
            j,
        ) >= 0 by {
            self.lemma_cut(st, j);
            assert(st.cut@[j] is Some);
        }
        lemma_leaving(self.edges@, st.ids@, e, self.edges@.len());
    }

    proof fn lemma_enter(self, st: State, e: int)
        requires
            self.well_formed(),
            self.holds(st),
            st.ids@.contains(e),
        ensures
            tightest(
                self.edges@,
                ints(st.rank@),
                self.reconnecting(st.labels, e),
                self.edges@.len(),
            ) == tightest(
                self.edges@,
                self.basis(st).rank,
                rejoining(self.edges@, st.ids@, e),
                self.edges@.len(),
            ),
    {
        let es = self.edges@;
        let l = st.labels;
        let a = self.reconnecting(l, e);
        let b = rejoining(es, st.ids@, e);
        self.lemma_flips(st.ids@, st.nodes@, l, e);
        assert forall|i: int| 0 <= i < es.len() implies #[trigger] a(i) == b(i) by {
            let f = es[i];
            assert(st.nodes@.contains(f.from as int) && st.nodes@.contains(f.to as int));
            self.lemma_far(st.ids@, st.nodes@, l, e, f.from as int);
            self.lemma_far(st.ids@, st.nodes@, l, e, f.to as int);
        }
        lemma_tightest_alike(es, ints(st.rank@), a, b, es.len());
    }

    /// What was found by growing over tight edges is a tight spanning tree.
    proof fn lemma_tree_spans(self, rank: Seq<i128>, t: TightTree, ids: Set<int>, nodes: Set<int>)
        requires
            self.well_formed(),
            self.spans(rank),
            Net::in_bounds(rank),
            self.grown(rank, t),
            self.uncrossed(t.in_tree@),
            ids == tree_ids(t.entry@),
            nodes == t.found@.map_values(|x: u32| x as int).to_set(),
        ensures
            self.settled_on(rank, t.tree@, ids, nodes),
    {
        let found = t.found@;
        let entry = t.entry@;
        let as_ints = found.map_values(|x: u32| x as int);
        assert(as_ints.no_duplicates()) by {
            assert forall|i: int, j: int|
                0 <= i < as_ints.len() && 0 <= j < as_ints.len() && i != j implies as_ints[i]
                != as_ints[j] by {
                assert(found[i] != found[j]);
            }
        }
        as_ints.unique_seq_to_set();
        assert forall|v: int| 0 <= v < self.n implies (nodes.contains(v) <==> #[trigger] t.in_tree@[v]) by {
            if nodes.contains(v) {
                let k = choose|k: int| 0 <= k < as_ints.len() && as_ints[k] == v;
                assert(found[k] == v as u32);
                assert(found.contains(v as u32));
            }
            if t.in_tree@[v] {
                let k = choose|k: int| 0 <= k < found.len() && found[k] == v as u32;
                assert(as_ints[k] == v);
            }
        }
        assert forall|v: int| #[trigger] nodes.contains(v) implies 0 <= v < self.n by {
            let k = choose|k: int| 0 <= k < as_ints.len() && as_ints[k] == v;
            assert(found[k] < self.n);
        }
        assert(nodes.contains(0)) by {
            assert(as_ints[0] == 0);
        }
        let tail = entry.subrange(1, entry.len() as int);
        assert(tail.no_duplicates()) by {
            assert forall|i: int, j: int|
                0 <= i < tail.len() && 0 <= j < tail.len() && i < j implies tail[i] != tail[j] by {
                self.lemma_entries_differ(rank, found, entry, i + 1, j + 1);
            }
        }
        assert(ids =~= tail.to_set()) by {
            assert forall|i: int| ids.contains(i) <==> tail.to_set().contains(i) by {
                if ids.contains(i) {
                    let k = choose|k: int| 1 <= k < entry.len() && #[trigger] entry[k] == i;
                    assert(tail[k - 1] == i);
                }
                if tail.to_set().contains(i) {
                    let k = choose|k: int| 0 <= k < tail.len() && tail[k] == i;
                    assert(entry[k + 1] == i);
                }
            }
        }
        tail.unique_seq_to_set();
        assert forall|v: int| nodes.contains(v) implies #[trigger] walkable(self.edges@, ids, v) by {
            let k = choose|k: int| 0 <= k < as_ints.len() && as_ints[k] == v;
            self.lemma_found_walkable(rank, found, entry, k);
        }
        assert forall|i: int| #[trigger] ids.contains(i) implies 0 <= i < self.edges@.len()
            && nodes.contains(self.edges@[i].from as int) && nodes.contains(self.edges@[i].to as int)
            && self.slack_of(rank, i) == 0 by {
            let k = choose|k: int| 1 <= k < entry.len() && #[trigger] entry[k] == i;
            assert(self.linked(rank, found, entry, k));
            let j = choose|j: int|
                0 <= j < k && self.edges@[entry[k]].joins(found[k] as int, #[trigger] found[j] as int);
            assert(as_ints[k] == found[k] as int);
            assert(as_ints[j] == found[j] as int);
        }
        assert forall|i: int| 0 <= i < self.edges@.len() implies (nodes.contains(
            (#[trigger] self.edges@[i]).from as int,
        ) <==> nodes.contains(self.edges@[i].to as int)) by {
            assert(t.in_tree@[self.edges@[i].from as int] == t.in_tree@[self.edges@[i].to as int]);
        }
        lemma_distinct_below(found, self.n as int);
        assert forall|v: int| #[trigger] nodes.contains(v) implies -WIDE <= rank[v] - rank[0] <= WIDE by {
            let k = choose|k: int| 0 <= k < as_ints.len() && as_ints[k] == v;
            assert(found[k] == v as u32);
            self.lemma_found_near(rank, found, entry, k);
            let a = rank[v] - rank[0];
            let n = self.n as int;
            let w = WIDE as int;
            assert(-w <= a <= w) by (nonlinear_arith)
                requires
                    -(k * w) <= a * n <= k * w,
                    0 <= k < n,
                    w >= 0,
            ;
        }
    }

    proof fn lemma_entries_differ(
        self,
        rank: Seq<i128>,
        found: Seq<u32>,
        entry: Seq<int>,
        i: int,
        j: int,
    )
        requires
            self.discovery(rank, found, entry),
            1 <= i < j < entry.len(),
        ensures
            entry[i] != entry[j],
    {
        assert(self.linked(rank, found, entry, i));
        assert(self.linked(rank, found, entry, j));
        let a = choose|a: int|
            0 <= a < i && self.edges@[entry[i]].joins(found[i] as int, #[trigger] found[a] as int);
        let b = choose|b: int|
            0 <= b < j && self.edges@[entry[j]].joins(found[j] as int, #[trigger] found[b] as int);
        if entry[i] == entry[j] {
            assert(found[j] == found[i] || found[j] == found[a]);
        }
    }

    proof fn lemma_found_walkable(self, rank: Seq<i128>, found: Seq<u32>, entry: Seq<int>, k: int)
        requires
            self.discovery(rank, found, entry),
            0 <= k < found.len(),
        ensures
            walkable(self.edges@, tree_ids(entry), found[k] as int),
        decreases k,
    {
        let ids = tree_ids(entry);
        if k == 0 {
            lemma_walk_start(self.edges@, ids);
        } else {
            assert(self.linked(rank, found, entry, k));
            let j = choose|j: int|
                0 <= j < k && self.edges@[entry[k]].joins(found[k] as int, #[trigger] found[j] as int);
            self.lemma_found_walkable(rank, found, entry, j);
            assert(ids.contains(entry[k]));
            lemma_walk_extend(self.edges@, ids, found[j] as int, found[k] as int, entry[k]);
        }
    }
}

/// The least of the ranks.
fn least(rank: &Vec<i128>) -> (r: i128)
    requires
        rank@.len() > 0,
    ensures
        r == lowest(ints(rank@), rank@.len()),
        forall|v: int| 0 <= v < rank@.len() ==> r <= #[trigger] rank@[v],
        exists|v: int| 0 <= v < rank@.len() && #[trigger] rank@[v] == r,
{
    let mut best: i128 = rank[0];
    let mut i: usize = 1;
    assert(rank@[0] == best);
    while i < rank.len()
        invariant
            1 <= i <= rank@.len(),
            best == lowest(ints(rank@), i as nat),
            forall|v: int| 0 <= v < i ==> best <= #[trigger] rank@[v],
            exists|v: int| 0 <= v < i && #[trigger] rank@[v] == best,
        decreases rank@.len() - i,
    {
        if rank[i] < best {
            best = rank[i];
        }
        i = i + 1;
    }
    best
}

/// The ranks counted from `min`, where an `i32` holds them.
fn narrowed(rank: &Vec<i128>, min: i128) -> (r: Option<Vec<i32>>)
    requires
        forall|v: int|
            0 <= v < rank@.len() ==> min <= #[trigger] rank@[v] && -3 * WIDE <= rank@[v] <= 3 * WIDE,
        -3 * WIDE <= min <= 3 * WIDE,
    ensures
        r is None ==> exists|v: int| 0 <= v < rank@.len() && #[trigger] rank@[v] - min > i32::MAX,
        r matches Some(x) ==> x@.len() == rank@.len() && forall|v: int|
            0 <= v < rank@.len() ==> #[trigger] x@[v] == rank@[v] - min,
{
    let n: usize = rank.len();
    let mut out: Vec<i32> = Vec::new();
    let mut v: usize = 0;
    while v < n
        invariant
            v <= n,
            n == rank@.len(),
            forall|v: int|
                0 <= v < rank@.len() ==> min <= #[trigger] rank@[v] && -3 * WIDE <= rank@[v] <= 3
                    * WIDE,
            -3 * WIDE <= min <= 3 * WIDE,
            out@.len() == v,
            forall|u: int| 0 <= u < v ==> #[trigger] out@[u] == rank@[u] - min,
        decreases n - v,
    {
        assert(min <= rank@[v as int]);
        let r: i128 = rank[v] - min;
        if r > i32::MAX as i128 {
            assert(rank@[v as int] - min > i32::MAX);
            return None;
        }
        out.push(r as i32);
        v = v + 1;
    }
    Some(out)
}

/// Ranks `n` nodes so that every edge runs forward and the total span is minimal, and says how the
/// search ended; `None` where a rank does not fit in an `i32`. `edges` must be acyclic; self-loops are
/// ignored.
#[verifier::loop_isolation(false)]
#[verifier::rlimit(60)]
pub fn fit_ranks(n: usize, edges: &[RankEdge], max_iter: usize) -> (r: Option<Ranking>)
    requires
        n < u32::MAX,
        ends_in(n as nat, edges@),
        acyclic(edges@),
    ensures
        r is Some <==> ranks_fit(n as nat, edges@, max_iter as nat),
        reaches_fit(n as nat, edges@) ==> r is Some,
        r matches Some(w) ==> ranked(n as nat, edges@, max_iter as nat, w),
{
    let ghost es = edges@;
    if n == 0 {
        assert(edges@.len() == 0) by {
            if edges@.len() > 0 {
                assert(edges@[0].from < 0);
            }
        }
        let w = Ranking { rank: Vec::new(), pivots: 0, settled: true };
        assert forall|other: spec_fn(int) -> int| #[trigger] feasible(es, other) implies total_span(
            es,
            as_rank(w.rank@),
        ) <= total_span(es, other) by {
            assert(span_of(es, other, 0) == 0);
        }
        return Some(w);
    }
    let (net, Ghost(group)) = Net::build(n, edges);
    let ghost ns = net.edges@;
    proof {
        let t = net.lemma_tied_acyclic(es, group);
        net.lemma_whole(es, group);
        net.lemma_tied(es, group);
        if no_push(es) {
            assert forall|j: int| 0 <= j < ns.len() implies (#[trigger] ns[j]).weight >= 0 by {
                if j < kept(es, es.len()).len() {
                    let i = choose|i: int|
                        0 <= i < es.len() && !(#[trigger] es[i]).is_loop() && ns[j] == clamped(es[i]);
                    assert(es[i].weight >= 0);
                }
            }
        }
    }
    let mut st = net.start();
    let ghost first = start(n as nat, es);
    let mut pivots: usize = 0;
    let mut over: bool = false;
    assert(net.basis(st) == first);
    while !over && pivots < max_iter
        invariant
            net.holds(st),
            pivots <= max_iter,
            net.basis(st) == pivoted(ns, first, pivots as nat),
            pivots_made(ns, first, pivots as nat) == pivots,
            over ==> pivot(ns, net.basis(st)) is None,
        decreases max_iter - pivots, !over as int,
    {
        let ghost b = net.basis(st);
        match Net::leave_edge(&st.cut) {
            None => {
                over = true;
                proof {
                    net.lemma_no_leave(st);
                }
            },
            Some(leave) => {
                assert(st.ids@.contains(leave as int));
                proof {
                    net.lemma_leave(st, leave as int);
                    net.lemma_enter(st, leave as int);
                }
                match net.enter_edge(&st.rank, &st.labels, leave) {
                    None => {
                        over = true;
                    },
                    Some(enter) => {
                        st = net.exchange(st, leave, enter);
                        proof {
                            lemma_pivot_more(ns, first, pivots as nat);
                        }
                        pivots = pivots + 1;
                    },
                }
            },
        }
    }
    proof {
        if over {
            lemma_pivots_end(ns, first, pivots as nat, (max_iter - pivots) as nat);
        }
        assert(net.basis(st) == last_basis(n as nat, es, max_iter as nat));
        assert(simplex_pivots(n as nat, es, max_iter as nat) == pivots);
    }
    let settled: bool = match Net::leave_edge(&st.cut) {
        None => {
            proof {
                net.lemma_no_leave(st);
            }
            true
        },
        Some(leave) => {
            proof {
                assert(st.ids@.contains(leave as int));
                net.lemma_leave(st, leave as int);
                net.lemma_enter(st, leave as int);
                if over && no_push(es) {
                    net.lemma_not_stuck(st, leave as int);
                    let i = choose|i: int|
                        0 <= i < ns.len() && #[trigger] net.reconnects(
                            st.labels,
                            leave as int,
                            net.cut_off(st.labels, leave as int),
                            net.flips(st.labels, leave as int),
                            i,
                        );
                    let asked = net.reconnecting(st.labels, leave as int);
                    assert(asked(i));
                    the_tightest_is_tightest(ns, ints(st.rank@), asked, ns.len());
                    assert(false);
                }
            }
            false
        },
    };
    let min: i128 = least(&st.rank);
    let ghost want = simplex(n as nat, es, max_iter as nat);
    proof {
        assert forall|u: int| 0 <= u < n implies #[trigger] want[u] == st.rank@[u] - min by {
            assert(ints(st.rank@)[u] == st.rank@[u]);
        }
        if reaches_fit(n as nat, es) {
            net.lemma_reaches(st, es, group);
        }
    }
    match narrowed(&st.rank, min) {
        None => {
            proof {
                let u = choose|u: int| 0 <= u < n && #[trigger] st.rank@[u] - min > i32::MAX;
                assert(want[u] == st.rank@[u] - min);
            }
            None
        },
        Some(rank) => {
            let w = Ranking { rank, pivots, settled };
            proof {
                assert forall|u: int| 0 <= u < n implies #[trigger] want[u] <= i32::MAX by {
                    assert(rank@[u] == st.rank@[u] - min);
                }
                net.lemma_result(st, es, group, min, rank@);
            }
            Some(w)
        },
    }
}

/// Ranks `n` nodes so that every edge runs forward and the total span is minimal, and says how the
/// search ended. `edges` must be acyclic; self-loops are ignored.
pub fn rank_nodes(n: usize, edges: &[RankEdge], max_iter: usize) -> (w: Ranking)
    requires
        ends_in(n as nat, edges@),
        acyclic(edges@),
        spans_fit(n as nat, edges@, max_iter as nat),
    ensures
        ranked(n as nat, edges@, max_iter as nat, w),
{
    match fit_ranks(n, edges, max_iter) {
        Some(w) => w,
        None => Ranking { rank: Vec::new(), pivots: 0, settled: true },
    }
}

/// Ranks `n` nodes so that every edge runs forward and the total span is minimal. `edges` must be
/// acyclic; self-loops are ignored.
///
/// `max_iter` bounds the simplex pivots. The optimum is usually reached in far fewer, but a bound
/// keeps a pathological graph from stalling: stopping early leaves a feasible layering.
pub fn network_simplex(n: usize, edges: &[RankEdge], max_iter: usize) -> (rank: Vec<i32>)
    requires
        ends_in(n as nat, edges@),
        acyclic(edges@),
        spans_fit(n as nat, edges@, max_iter as nat),
    ensures
        are_simplex_ranks(n as nat, edges@, max_iter as nat, rank@),
{
    rank_nodes(n, edges, max_iter).rank
}

} // verus!
