//! Lanes: an edge that spans more than one column, and is wanted routed, is threaded through a chain
//! of virtual nodes, one per column in between, so that it takes part in the ordering and keeps clear
//! of cards.

use vstd::prelude::*;

use crate::adjacency::pairs_below;

verus! {

/// How many virtual nodes a component may have before long edges are left unrouted.
pub const LANE_BUDGET: usize = 60_000;

/// The route of one edge: the virtual nodes it passes, from its source to its target.
pub struct Chain {
    pub from: usize,
    pub to: usize,
    pub through: Vec<usize>,
}

/// Real and virtual nodes, and the links between neighbouring columns.
pub struct Lanes {
    /// The column of every node; the real ones come first.
    pub rank: Vec<i32>,
    /// Links from one column to the next.
    pub links: Vec<(usize, usize)>,
    pub chains: Vec<Chain>,
}

/// Model of a [`Chain`].
#[verifier::ext_equal]
pub struct ChainModel {
    pub from: usize,
    pub to: usize,
    pub through: Seq<usize>,
}

impl DeepView for Chain {
    type V = ChainModel;

    open spec fn deep_view(&self) -> ChainModel {
        ChainModel { from: self.from, to: self.to, through: self.through@ }
    }
}

/// Model of [`Lanes`], and the virtual nodes still to be had.
#[verifier::ext_equal]
pub struct LaneModel {
    pub rank: Seq<i32>,
    pub links: Seq<(usize, usize)>,
    pub chains: Seq<ChainModel>,
    pub budget: nat,
}

/// The stations of a route: its start, `k` fresh nodes from `n` on, its end.
pub open spec fn stations(a: usize, b: usize, n: nat, k: nat) -> Seq<usize> {
    seq![a] + fresh(n, k) + seq![b]
}

/// `k` fresh nodes from `n` on.
pub open spec fn fresh(n: nat, k: nat) -> Seq<usize> {
    Seq::new(k, |i: int| (n + i) as usize)
}

/// The links of a route, from column to column to the right.
pub open spec fn links_along(stops: Seq<usize>, forward: bool) -> Seq<(usize, usize)> {
    Seq::new(
        (stops.len() - 1) as nat,
        |i: int|
            if forward {
                (stops[i], stops[i + 1])
            } else {
                (stops[i + 1], stops[i])
            },
    )
}

/// The columns that a route passes between `ra` and `rb`.
pub open spec fn ranks_between(ra: i32, rb: i32) -> Seq<i32> {
    if rb > ra {
        Seq::new((rb - ra - 1) as nat, |i: int| (ra + 1 + i) as i32)
    } else {
        Seq::new((ra - rb - 1) as nat, |i: int| (ra - 1 - i) as i32)
    }
}

/// How many columns lie between `ra` and `rb`.
pub open spec fn gap(ra: i32, rb: i32) -> nat {
    ranks_between(ra, rb).len()
}

/// Threads one arc: within a column nothing, to the next column a link, further a chain where it is
/// wanted routed. A reversed arc is an edge from its second end to its first.
pub open spec fn thread(
    m: LaneModel,
    arc: (usize, usize),
    reversed: bool,
    wanted: bool,
) -> LaneModel {
    let (a, b) = arc;
    let (ra, rb) = (m.rank[a as int], m.rank[b as int]);
    let n = m.rank.len();
    let k = gap(ra, rb);
    if ra == rb || m.budget == 0 {
        m
    } else if rb == ra + 1 {
        LaneModel { links: m.links.push(arc), ..m }
    } else if !wanted {
        m
    } else {
        let chain = if reversed {
            ChainModel { from: b, to: a, through: fresh(n, k).reverse() }
        } else {
            ChainModel { from: a, to: b, through: fresh(n, k) }
        };
        LaneModel {
            rank: m.rank + ranks_between(ra, rb),
            links: m.links + links_along(stations(a, b, n, k), rb > ra),
            chains: m.chains.push(chain),
            budget: if m.budget > k { (m.budget - k) as nat } else { 0 },
        }
    }
}

/// Nothing threaded yet.
pub open spec fn no_lanes(rank: Seq<i32>, budget: nat) -> LaneModel {
    LaneModel { rank, links: Seq::empty(), chains: Seq::empty(), budget }
}

/// The arcs threaded one after the other, those that are `wanted` through lanes.
pub open spec fn threaded(
    rank: Seq<i32>,
    arcs: Seq<(usize, usize)>,
    reversed: Seq<bool>,
    wanted: Seq<bool>,
    budget: nat,
) -> LaneModel
    decreases arcs.len(),
{
    if arcs.len() == 0 {
        no_lanes(rank, budget)
    } else {
        thread(
            threaded(rank, arcs.drop_last(), reversed, wanted, budget),
            arcs.last(),
            reversed[arcs.len() - 1],
            wanted[arcs.len() - 1],
        )
    }
}

// ── laws ───────────────────────────────────────────────────────────────────

/// Every link runs between nodes there are, from one column to the next.
pub open spec fn links_neighbours(m: LaneModel) -> bool {
    forall|k: int|
        0 <= k < m.links.len() ==> (#[trigger] m.links[k]).0 < m.rank.len() && m.links[k].1
            < m.rank.len() && m.rank[m.links[k].1 as int] == m.rank[m.links[k].0 as int] + 1
}

/// Columns are not negative.
pub open spec fn ranks_count(rank: Seq<i32>) -> bool {
    forall|v: int| 0 <= v < rank.len() ==> 0 <= #[trigger] rank[v] < i32::MAX
}

proof fn lemma_thread(m: LaneModel, arc: (usize, usize), reversed: bool, wanted: bool, own: nat)
    requires
        own <= m.rank.len(),
        arc.0 < own,
        arc.1 < own,
        ranks_count(m.rank),
        links_neighbours(m),
        thread(m, arc, reversed, wanted).rank.len() <= usize::MAX,
    ensures
        ranks_count(thread(m, arc, reversed, wanted).rank),
        links_neighbours(thread(m, arc, reversed, wanted)),
        m.rank.len() <= thread(m, arc, reversed, wanted).rank.len(),
        thread(m, arc, reversed, wanted).rank.take(m.rank.len() as int) == m.rank,
        thread(m, arc, reversed, wanted).links.len() <= m.links.len() + (thread(m, arc, reversed, wanted).rank.len()
            - m.rank.len()) + 1,
{
    let t = thread(m, arc, reversed, wanted);
    let (a, b) = arc;
    let (ra, rb) = (m.rank[a as int], m.rank[b as int]);
    assert(0 <= m.rank[a as int] < i32::MAX && 0 <= m.rank[b as int] < i32::MAX);
    let n = m.rank.len();
    let k = gap(ra, rb);
    let between = ranks_between(ra, rb);
    assert(t.rank.take(n as int) =~= m.rank);
    assert forall|v: int| 0 <= v < t.rank.len() implies 0 <= #[trigger] t.rank[v] < i32::MAX by {
        if v < n {
            assert(t.rank[v] == m.rank[v]);
        } else {
            assert(t.rank[v] == between[v - n]);
        }
    }
    assert forall|j: int| 0 <= j < t.links.len() implies (#[trigger] t.links[j]).0 < t.rank.len()
        && t.links[j].1 < t.rank.len() && t.rank[t.links[j].1 as int] == t.rank[t.links[j].0 as int]
        + 1 by {
        if j < m.links.len() {
            assert(t.links[j] == m.links[j]);
            assert(m.links[j].0 < n && m.links[j].1 < n);
            assert(t.rank[m.links[j].0 as int] == m.rank[m.links[j].0 as int]);
            assert(t.rank[m.links[j].1 as int] == m.rank[m.links[j].1 as int]);
        } else if rb != ra + 1 && wanted {
            let stops = stations(a, b, n, k);
            let i = j - m.links.len();
            assert(t.links[j] == links_along(stops, rb > ra)[i]);
            assert(stops.len() == k + 2);
            let rank_at = |s: int| if rb > ra { ra + s } else { ra - s };
            assert forall|s: int| 0 <= s < stops.len() implies (#[trigger] stops[s]) < t.rank.len()
                && t.rank[stops[s] as int] == rank_at(s) by {
                if s == 0 {
                    assert(stops[s] == a);
                    assert(t.rank[a as int] == m.rank[a as int]);
                } else if s <= k {
                    assert(stops[s] == fresh(n, k)[s - 1]);
                    assert(stops[s] == n + s - 1);
                    assert(t.rank[n + s - 1] == between[s - 1]);
                } else {
                    assert(stops[s] == b);
                    assert(t.rank[b as int] == m.rank[b as int]);
                }
            }
            assert(rank_at(i) == if rb > ra { ra + i } else { ra - i });
            assert(rank_at(i + 1) == if rb > ra { ra + i + 1 } else { ra - i - 1 });
            assert(t.rank[stops[i] as int] == rank_at(i));
            assert(t.rank[stops[i + 1] as int] == rank_at(i + 1));
        }
    }
}

/// Threading keeps the columns of the real nodes, and links only neighbouring columns.
pub proof fn threading_links_neighbours(
    rank: Seq<i32>,
    arcs: Seq<(usize, usize)>,
    reversed: Seq<bool>,
    wanted: Seq<bool>,
    budget: nat,
)
    requires
        pairs_below(rank.len(), arcs),
        ranks_count(rank),
        threaded(rank, arcs, reversed, wanted, budget).rank.len() <= usize::MAX,
    ensures
        rank.len() <= threaded(rank, arcs, reversed, wanted, budget).rank.len(),
        threaded(rank, arcs, reversed, wanted, budget).rank.take(rank.len() as int) == rank,
        ranks_count(threaded(rank, arcs, reversed, wanted, budget).rank),
        links_neighbours(threaded(rank, arcs, reversed, wanted, budget)),
    decreases arcs.len(),
{
    if arcs.len() == 0 {
        assert(rank.take(rank.len() as int) =~= rank);
    } else {
        let rest = arcs.drop_last();
        let before = threaded(rank, rest, reversed, wanted, budget);
        let flag = reversed[arcs.len() - 1];
        let want = wanted[arcs.len() - 1];
        let now = thread(before, arcs.last(), flag, want);
        assert forall|k: int| 0 <= k < rest.len() implies (#[trigger] rest[k]).0 < rank.len()
            && rest[k].1 < rank.len() by {
            assert(rest[k] == arcs[k]);
        }
        assert(arcs[arcs.len() - 1].0 < rank.len() && arcs[arcs.len() - 1].1 < rank.len());
        assert(before.rank.len() <= now.rank.len());
        threading_links_neighbours(rank, rest, reversed, wanted, budget);
        lemma_thread(before, arcs.last(), flag, want, rank.len());
        assert(now.rank.take(rank.len() as int) =~= rank) by {
            assert(now.rank.take(rank.len() as int) =~= now.rank.take(
                before.rank.len() as int,
            ).take(rank.len() as int));
        }
    }
}

/// A route has one virtual node in each column that it passes, and none where its ends stand.
pub proof fn routes_fill_the_gap(ra: i32, rb: i32, i: int)
    requires
        0 <= ra,
        0 <= rb,
        ra != rb,
        0 <= i < gap(ra, rb),
    ensures
        rb > ra ==> gap(ra, rb) == rb - ra - 1 && ranks_between(ra, rb)[i] == ra + 1 + i
            && ranks_between(ra, rb)[i] < rb,
        rb < ra ==> gap(ra, rb) == ra - rb - 1 && ranks_between(ra, rb)[i] == ra - 1 - i
            && ranks_between(ra, rb)[i] > rb,
{
}

/// As long as the budget lasts, every edge that spans more than one column, or runs backwards, gets
/// a route of its own where it is wanted routed.
pub proof fn affordable_edges_are_routed(m: LaneModel, arc: (usize, usize), reversed: bool)
    requires
        m.budget > 0,
        m.rank[arc.0 as int] != m.rank[arc.1 as int],
        m.rank[arc.1 as int] != m.rank[arc.0 as int] + 1,
    ensures
        thread(m, arc, reversed, true).chains.len() == m.chains.len() + 1,
        thread(m, arc, reversed, true).chains.last().from == (if reversed { arc.1 } else { arc.0 }),
        thread(m, arc, reversed, true).chains.last().to == (if reversed { arc.0 } else { arc.1 }),
        thread(m, arc, reversed, true).chains.last().through.len() == gap(
            m.rank[arc.0 as int],
            m.rank[arc.1 as int],
        ),
{
}

/// An edge that is not wanted routed gets no route, no virtual node, and takes nothing from the
/// budget.
pub proof fn unwanted_edges_get_no_lane(m: LaneModel, arc: (usize, usize), reversed: bool)
    ensures
        thread(m, arc, reversed, false).chains == m.chains,
        thread(m, arc, reversed, false).rank == m.rank,
        thread(m, arc, reversed, false).budget == m.budget,
{
}

/// The edge that an arc stands for.
pub open spec fn edge_behind(arc: (usize, usize), reversed: bool) -> (usize, usize) {
    if reversed { (arc.1, arc.0) } else { arc }
}

/// Every route is that of an edge that was wanted routed.
pub proof fn routes_are_wanted(
    rank: Seq<i32>,
    arcs: Seq<(usize, usize)>,
    reversed: Seq<bool>,
    wanted: Seq<bool>,
    budget: nat,
    j: int,
)
    requires
        0 <= j < threaded(rank, arcs, reversed, wanted, budget).chains.len(),
    ensures
        exists|k: int|
            0 <= k < arcs.len() && wanted[k] && #[trigger] edge_behind(arcs[k], reversed[k]) == (
                threaded(rank, arcs, reversed, wanted, budget).chains[j].from,
                threaded(rank, arcs, reversed, wanted, budget).chains[j].to,
            ),
    decreases arcs.len(),
{
    let rest = arcs.drop_last();
    let before = threaded(rank, rest, reversed, wanted, budget);
    let c = threaded(rank, arcs, reversed, wanted, budget).chains[j];
    if j < before.chains.len() {
        routes_are_wanted(rank, rest, reversed, wanted, budget, j);
        let k = choose|k: int|
            0 <= k < rest.len() && wanted[k] && #[trigger] edge_behind(rest[k], reversed[k]) == (
                before.chains[j].from,
                before.chains[j].to,
            );
        assert(edge_behind(arcs[k], reversed[k]) == (c.from, c.to));
    } else {
        let k = arcs.len() - 1;
        assert(edge_behind(arcs[k], reversed[k]) == (c.from, c.to));
    }
}

// ── threading ──────────────────────────────────────────────────────────────

impl Lanes {
    /// The lanes as a model, with what is left of the budget.
    pub open spec fn model(self, budget: nat) -> LaneModel {
        LaneModel {
            rank: self.rank@,
            links: self.links@,
            chains: self.chains.deep_view(),
            budget,
        }
    }
}

fn reversed_copy(v: &Vec<usize>) -> (r: Vec<usize>)
    ensures
        r@ == v@.reverse(),
{
    let mut out: Vec<usize> = Vec::new();
    let mut i: usize = v.len();
    while i > 0
        invariant
            i <= v@.len(),
            out@.len() == v@.len() - i,
            forall|k: int| 0 <= k < out@.len() ==> #[trigger] out@[k] == v@[v@.len() - 1 - k],
        decreases i,
    {
        i = i - 1;
        out.push(v[i]);
    }
    assert(out@ =~= v@.reverse());
    out
}

/// Threads one arc; returns what is left of the budget.
#[verifier::rlimit(40)]
fn thread_arc(
    lanes: &mut Lanes,
    arc: (usize, usize),
    reversed: bool,
    wanted: bool,
    budget: usize,
) -> (left: usize)
    requires
        arc.0 < old(lanes).rank@.len(),
        arc.1 < old(lanes).rank@.len(),
        ranks_count(old(lanes).rank@),
    ensures
        final(lanes).model(left as nat) == thread(
            old(lanes).model(budget as nat),
            arc,
            reversed,
            wanted,
        ),
        final(lanes).rank@.len() <= usize::MAX,
{
    let ghost start = lanes.model(budget as nat);
    let (a, b) = arc;
    let ra: i32 = lanes.rank[a];
    let rb: i32 = lanes.rank[b];
    let n: usize = lanes.rank.len();
    assert(0 <= lanes.rank@[a as int] && 0 <= lanes.rank@[b as int]);
    if ra == rb || budget == 0 {
        return budget;
    }
    if rb > ra && rb - ra == 1 {
        lanes.links.push(arc);
        return budget;
    }
    if !wanted {
        return budget;
    }
    let forward: bool = rb > ra;
    let count: usize = if forward { (rb - ra - 1) as usize } else { (ra - rb - 1) as usize };
    let ghost k = gap(ra, rb);
    assert(count == k);
    let ghost between = ranks_between(ra, rb);
    let ghost stops = stations(a, b, n as nat, k);
    let ghost all = links_along(stops, forward);
    let mut through: Vec<usize> = Vec::new();
    let mut prev: usize = a;
    let mut left: usize = budget;
    let mut i: usize = 0;
    assert(start.rank + between.take(0) =~= start.rank);
    assert(start.links + all.take(0) =~= start.links);
    while i < count
        invariant
            i <= count,
            count == k,
            n == start.rank.len(),
            between == ranks_between(ra, rb),
            k == gap(ra, rb),
            0 <= ra < i32::MAX,
            0 <= rb < i32::MAX,
            ra != rb,
            forward == (rb > ra),
            stops == stations(a, b, n as nat, k),
            all == links_along(stops, forward),
            prev == stops[i as int],
            lanes.rank@ == start.rank + between.take(i as int),
            lanes.links@ == start.links + all.take(i as int),
            lanes.chains.deep_view() == start.chains,
            through@ == fresh(n as nat, k).take(i as int),
            left == (if budget > i { budget - i } else { 0 }),
        decreases count - i,
    {
        let id: usize = lanes.rank.len();
        assert(id == n + i);
        let at: i32 = if forward { ra + 1 + i as i32 } else { ra - 1 - i as i32 };
        assert(at == between[i as int]);
        lanes.rank.push(at);
        assert(lanes.rank@ =~= start.rank + between.take(i as int + 1));
        left = if left > 0 { left - 1 } else { 0 };
        assert(stops[i as int + 1] == fresh(n as nat, k)[i as int]);
        assert(stops[i as int + 1] == id);
        if forward {
            lanes.links.push((prev, id));
        } else {
            lanes.links.push((id, prev));
        }
        assert(lanes.links@ =~= start.links + all.take(i as int + 1));
        through.push(id);
        assert(through@ =~= fresh(n as nat, k).take(i as int + 1));
        prev = id;
        i = i + 1;
    }
    assert(stops[k as int + 1] == b);
    if forward {
        lanes.links.push((prev, b));
    } else {
        lanes.links.push((b, prev));
    }
    assert(lanes.links@ =~= start.links + all);
    assert(lanes.rank@ =~= start.rank + between);
    assert(through@ =~= fresh(n as nat, k));
    let chain = if reversed {
        Chain { from: b, to: a, through: reversed_copy(&through) }
    } else {
        Chain { from: a, to: b, through }
    };
    let ghost c = chain.deep_view();
    lanes.chains.push(chain);
    assert(lanes.chains.deep_view() =~= start.chains.push(c));
    let top: usize = lanes.rank.len();
    assert(lanes.model(left as nat) =~= thread(start, arc, reversed, wanted));
    left
}

/// Threads the arcs of a component. `reversed` tells which arcs stand for edges the other way round,
/// and `wanted` which are to go through lanes.
pub fn expand_lanes(
    rank: &Vec<i32>,
    arcs: &Vec<(usize, usize)>,
    reversed: &Vec<bool>,
    wanted: &Vec<bool>,
) -> (r: Lanes)
    requires
        pairs_below(rank@.len(), arcs@),
        reversed@.len() == arcs@.len(),
        wanted@.len() == arcs@.len(),
        ranks_count(rank@),
    ensures
        r.rank@ == threaded(rank@, arcs@, reversed@, wanted@, LANE_BUDGET as nat).rank,
        r.links@ == threaded(rank@, arcs@, reversed@, wanted@, LANE_BUDGET as nat).links,
        r.chains.deep_view() == threaded(rank@, arcs@, reversed@, wanted@, LANE_BUDGET as nat).chains,
        rank@.len() <= r.rank@.len(),
        ranks_count(r.rank@),
        links_neighbours(threaded(rank@, arcs@, reversed@, wanted@, LANE_BUDGET as nat)),
{
    let n: usize = rank.len();
    let mut copy: Vec<i32> = Vec::new();
    let mut z: usize = 0;
    while z < n
        invariant
            z <= n,
            n == rank@.len(),
            copy@ == rank@.take(z as int),
        decreases n - z,
    {
        copy.push(rank[z]);
        assert(rank@.take(z as int + 1) =~= rank@.take(z as int).push(rank@[z as int]));
        z = z + 1;
    }
    assert(copy@ =~= rank@);
    let mut lanes = Lanes { rank: copy, links: Vec::new(), chains: Vec::new() };
    let mut budget: usize = LANE_BUDGET;
    let mut k: usize = 0;
    assert(arcs@.take(0) =~= Seq::<(usize, usize)>::empty());
    assert(lanes.model(budget as nat) =~= no_lanes(rank@, LANE_BUDGET as nat));
    while k < arcs.len()
        invariant
            k <= arcs@.len(),
            reversed@.len() == arcs@.len(),
            wanted@.len() == arcs@.len(),
            pairs_below(rank@.len(), arcs@),
            ranks_count(rank@),
            lanes.model(budget as nat) == threaded(
                rank@,
                arcs@.take(k as int),
                reversed@,
                wanted@,
                LANE_BUDGET as nat,
            ),
            lanes.rank@.len() <= usize::MAX,
        decreases arcs@.len() - k,
    {
        let ghost done = arcs@.take(k as int);
        assert(arcs@.take(k as int + 1).drop_last() =~= done);
        proof {
            assert forall|j: int| 0 <= j < done.len() implies (#[trigger] done[j]).0 < rank@.len()
                && done[j].1 < rank@.len() by {
                assert(done[j] == arcs@[j]);
            }
            threading_links_neighbours(rank@, done, reversed@, wanted@, LANE_BUDGET as nat);
            assert(arcs@[k as int].0 < rank@.len() && arcs@[k as int].1 < rank@.len());
        }
        budget = thread_arc(&mut lanes, arcs[k], reversed[k], wanted[k], budget);
        k = k + 1;
    }
    assert(arcs@.take(k as int) =~= arcs@);
    proof {
        threading_links_neighbours(rank@, arcs@, reversed@, wanted@, LANE_BUDGET as nat);
    }
    lanes
}

} // verus!
