//! What becomes of the edges of a component between its columns, told of the links and routes.

use vstd::prelude::*;

use crate::adjacency::pairs_below;
use crate::cycles::Dag;
use crate::drawing::{is_drawn, Drawn};
use crate::lanes::{
    edge_behind, fresh, gap, links_along, ranks_between, stations, thread, threaded, ChainModel,
    LaneModel, LANE_BUDGET,
};

verus! {

/// The stop `i` of a route: where it starts, what it passes through, and where it ends.
pub open spec fn stop(c: ChainModel, i: int) -> usize {
    if i <= 0 {
        c.from
    } else if i <= c.through.len() {
        c.through[i - 1]
    } else {
        c.to
    }
}

/// The two are linked.
pub open spec fn are_linked(links: Seq<(usize, usize)>, x: usize, y: usize) -> bool {
    links.contains((x, y)) || links.contains((y, x))
}

/// The route leads from stop to stop along links, one column at a time, through nodes of its own that
/// come after the first `own`.
pub open spec fn is_route(
    rank: Seq<i32>,
    own: nat,
    links: Seq<(usize, usize)>,
    c: ChainModel,
) -> bool {
    &&& forall|i: int|
        0 <= i < c.through.len() ==> own <= (#[trigger] c.through[i]) < rank.len()
    &&& forall|i: int|
        0 <= i <= c.through.len() ==> are_linked(links, #[trigger] stop(c, i), stop(c, i + 1))
    &&& forall|i: int|
        0 <= i <= c.through.len() + 1 ==> rank[(#[trigger] stop(c, i)) as int] == rank[c.from as int]
            + (if rank[c.to as int] > rank[c.from as int] {
            i
        } else {
            -i
        })
}

/// Everything that was there is still there, at its place.
spec fn grows_to(a: LaneModel, b: LaneModel) -> bool {
    &&& a.rank.len() <= b.rank.len()
    &&& forall|v: int| 0 <= v < a.rank.len() ==> #[trigger] b.rank[v] == a.rank[v]
    &&& a.links.len() <= b.links.len()
    &&& forall|x: int| 0 <= x < a.links.len() ==> #[trigger] b.links[x] == a.links[x]
    &&& a.chains.len() <= b.chains.len()
    &&& forall|x: int| 0 <= x < a.chains.len() ==> #[trigger] b.chains[x] == a.chains[x]
    &&& b.budget <= a.budget
    &&& b.budget + b.rank.len() >= a.budget + a.rank.len()
}

proof fn lemma_grows(m: LaneModel, arc: (usize, usize), reversed: bool, wanted: bool)
    ensures
        grows_to(m, thread(m, arc, reversed, wanted)),
{
}

proof fn lemma_link_stays(a: LaneModel, b: LaneModel, l: (usize, usize))
    requires
        grows_to(a, b),
        a.links.contains(l),
    ensures
        b.links.contains(l),
{
    let x = choose|x: int| 0 <= x < a.links.len() && a.links[x] == l;
    assert(b.links[x] == l);
}

proof fn lemma_route_stays(a: LaneModel, b: LaneModel, own: nat, c: ChainModel)
    requires
        grows_to(a, b),
        is_route(a.rank, own, a.links, c),
        c.from < a.rank.len(),
        c.to < a.rank.len(),
    ensures
        is_route(b.rank, own, b.links, c),
{
    assert forall|i: int| 0 <= i <= c.through.len() implies are_linked(
        b.links,
        #[trigger] stop(c, i),
        stop(c, i + 1),
    ) by {
        assert(are_linked(a.links, stop(c, i), stop(c, i + 1)));
        if a.links.contains((stop(c, i), stop(c, i + 1))) {
            lemma_link_stays(a, b, (stop(c, i), stop(c, i + 1)));
        } else {
            lemma_link_stays(a, b, (stop(c, i + 1), stop(c, i)));
        }
    }
    assert forall|i: int| 0 <= i <= c.through.len() + 1 implies b.rank[(#[trigger] stop(c, i)) as int]
        == b.rank[c.from as int] + (if b.rank[c.to as int] > b.rank[c.from as int] {
        i
    } else {
        -i
    }) by {
        assert(a.rank[stop(c, i) as int] == a.rank[c.from as int] + (if a.rank[c.to as int]
            > a.rank[c.from as int] {
            i
        } else {
            -i
        }));
        assert(stop(c, i) < a.rank.len()) by {
            if 0 < i <= c.through.len() {
                assert(c.through[i - 1] < a.rank.len());
            }
        }
    }
}

/// The arc is threaded as it should be: to the next column by a link of its own, further or backwards,
/// where it is wanted, by a route of the edge that it stands for.
pub open spec fn is_threaded(
    m: LaneModel,
    own: nat,
    arc: (usize, usize),
    reversed: bool,
    wanted: bool,
) -> bool {
    let (ra, rb) = (m.rank[arc.0 as int], m.rank[arc.1 as int]);
    &&& rb == ra + 1 ==> m.links.contains(arc)
    &&& wanted && ra != rb && rb != ra + 1 ==> exists|j: int|
        0 <= j < m.chains.len() && (#[trigger] m.chains[j]).from == edge_behind(arc, reversed).0
            && m.chains[j].to == edge_behind(arc, reversed).1 && is_route(
            m.rank,
            own,
            m.links,
            m.chains[j],
        )
}

proof fn lemma_new_route(m: LaneModel, arc: (usize, usize), reversed: bool, own: nat)
    requires
        own <= m.rank.len(),
        arc.0 < own,
        arc.1 < own,
        m.budget > 0,
        0 <= m.rank[arc.0 as int],
        0 <= m.rank[arc.1 as int],
        m.rank[arc.0 as int] != m.rank[arc.1 as int],
        m.rank[arc.1 as int] != m.rank[arc.0 as int] + 1,
        thread(m, arc, reversed, true).rank.len() <= usize::MAX,
    ensures
        ({
            let t = thread(m, arc, reversed, true);
            is_route(t.rank, own, t.links, t.chains.last())
        }),
{
    let t = thread(m, arc, reversed, true);
    let c = t.chains.last();
    let (a, b) = arc;
    let (ra, rb) = (m.rank[a as int], m.rank[b as int]);
    let n = m.rank.len();
    let k = gap(ra, rb);
    let stops = stations(a, b, n, k);
    let along = links_along(stops, rb > ra);
    assert(stops.len() == k + 2);
    assert(stops[0] == a);
    assert(stops[k as int + 1] == b);
    assert forall|i: int| 1 <= i <= k implies #[trigger] stops[i] == (n + i - 1) as usize by {
        assert(stops[i] == fresh(n, k)[i - 1]);
    }
    assert(t.rank.len() == n + k);
    assert forall|i: int| 0 <= i < k implies #[trigger] t.rank[n + i] == (if rb > ra {
        ra + 1 + i
    } else {
        ra - 1 - i
    }) by {
        assert(t.rank[n + i] == ranks_between(ra, rb)[i]);
    }
    assert forall|i: int| 0 <= i <= k + 1 implies t.rank[(#[trigger] stops[i]) as int] == (if rb
        > ra {
        ra + i
    } else {
        ra - i
    }) by {
        if 1 <= i <= k {
            assert(stops[i] == n + i - 1);
            assert(t.rank[n + (i - 1)] == (if rb > ra {
                ra + i
            } else {
                ra - i
            }));
        }
    }
    assert forall|i: int| 0 <= i <= k + 1 implies #[trigger] stop(c, i) == (if reversed {
        stops[k + 1 - i]
    } else {
        stops[i]
    }) by {
        if 1 <= i <= k {
            if reversed {
                assert(fresh(n, k).reverse()[i - 1] == fresh(n, k)[k - i]);
                assert(stops[k + 1 - i] == fresh(n, k)[k - i]);
            } else {
                assert(stops[i] == fresh(n, k)[i - 1]);
            }
        }
    }
    assert(c.through.len() == k);
    assert forall|i: int| 0 <= i < c.through.len() implies own <= (#[trigger] c.through[i])
        < t.rank.len() by {
        assert(stop(c, i + 1) == c.through[i]);
    }
    assert forall|i: int| 0 <= i <= c.through.len() implies are_linked(
        t.links,
        #[trigger] stop(c, i),
        stop(c, i + 1),
    ) by {
        let x = if reversed {
            k - i
        } else {
            i
        };
        assert(stop(c, i + 1) == (if reversed {
            stops[k + 1 - (i + 1)]
        } else {
            stops[i + 1]
        }));
        assert(t.links[m.links.len() + x] == along[x]);
        assert(t.links.contains(along[x]));
    }
    assert forall|i: int| 0 <= i <= c.through.len() + 1 implies t.rank[(#[trigger] stop(c, i)) as int]
        == t.rank[c.from as int] + (if t.rank[c.to as int] > t.rank[c.from as int] {
        i
    } else {
        -i
    }) by {
        let x = if reversed {
            k + 1 - i
        } else {
            i
        };
        assert(t.rank[stops[x] as int] == (if rb > ra {
            ra + x
        } else {
            ra - x
        }));
        assert(t.rank[stops[k as int + 1] as int] == rb);
    }
}

/// Every edge is drawn between its columns, as long as there are fewer than 60000 virtual nodes in
/// all: one that leads to the next column by a link, and one that leads further or backwards, and is
/// wanted routed, by a route from its own start to its own end, one column at a time.
pub proof fn arcs_are_threaded(
    rank: Seq<i32>,
    arcs: Seq<(usize, usize)>,
    reversed: Seq<bool>,
    wanted: Seq<bool>,
    k: int,
)
    requires
        pairs_below(rank.len(), arcs),
        forall|v: int| 0 <= v < rank.len() ==> 0 <= #[trigger] rank[v],
        0 <= k < arcs.len(),
        threaded(rank, arcs, reversed, wanted, LANE_BUDGET as nat).rank.len() < rank.len() + 60000,
        threaded(rank, arcs, reversed, wanted, LANE_BUDGET as nat).rank.len() <= usize::MAX,
    ensures
        is_threaded(
            threaded(rank, arcs, reversed, wanted, LANE_BUDGET as nat),
            rank.len(),
            arcs[k],
            reversed[k],
            wanted[k],
        ),
{
    lemma_threaded(rank, arcs, reversed, wanted, k);
}

proof fn lemma_threaded(
    rank: Seq<i32>,
    arcs: Seq<(usize, usize)>,
    reversed: Seq<bool>,
    wanted: Seq<bool>,
    k: int,
)
    requires
        pairs_below(rank.len(), arcs),
        forall|v: int| 0 <= v < rank.len() ==> 0 <= #[trigger] rank[v],
        threaded(rank, arcs, reversed, wanted, 60000).rank.len() < rank.len() + 60000,
        threaded(rank, arcs, reversed, wanted, 60000).rank.len() <= usize::MAX,
    ensures
        ({
            let t = threaded(rank, arcs, reversed, wanted, 60000);
            &&& rank.len() <= t.rank.len()
            &&& forall|v: int| 0 <= v < rank.len() ==> #[trigger] t.rank[v] == rank[v]
            &&& t.budget + t.rank.len() >= 60000 + rank.len()
            &&& 0 <= k < arcs.len() ==> is_threaded(
                t,
                rank.len(),
                arcs[k],
                reversed[k],
                wanted[k],
            )
        }),
    decreases arcs.len(),
{
    if arcs.len() > 0 {
        let less = arcs.drop_last();
        let end = arcs.len() - 1;
        let m = threaded(rank, less, reversed, wanted, 60000);
        let t = threaded(rank, arcs, reversed, wanted, 60000);
        let arc = arcs[end];
        assert(arcs.last() == arc);
        assert(t == thread(m, arc, reversed[end], wanted[end]));
        lemma_grows(m, arc, reversed[end], wanted[end]);
        assert forall|x: int| 0 <= x < less.len() implies (#[trigger] less[x]).0 < rank.len()
            && less[x].1 < rank.len() by {
            assert(less[x] == arcs[x]);
        }
        lemma_threaded(rank, less, reversed, wanted, k);
        assert(arc.0 < rank.len() && arc.1 < rank.len());
        assert(m.budget > 0);
        if 0 <= k < end {
            assert(less[k] == arcs[k]);
            let a = arcs[k];
            assert(a.0 < rank.len() && a.1 < rank.len());
            let (ra, rb) = (m.rank[a.0 as int], m.rank[a.1 as int]);
            assert(t.rank[a.0 as int] == ra && t.rank[a.1 as int] == rb);
            if rb == ra + 1 {
                lemma_link_stays(m, t, a);
            }
            if wanted[k] && ra != rb && rb != ra + 1 {
                let e = edge_behind(a, reversed[k]);
                let j = choose|j: int|
                    0 <= j < m.chains.len() && (#[trigger] m.chains[j]).from == e.0 && m.chains[j].to
                        == e.1 && is_route(m.rank, rank.len(), m.links, m.chains[j]);
                lemma_route_stays(m, t, rank.len(), m.chains[j]);
                assert(t.chains[j] == m.chains[j]);
            }
        } else if k == end {
            let (ra, rb) = (m.rank[arc.0 as int], m.rank[arc.1 as int]);
            assert(ra == rank[arc.0 as int] && rb == rank[arc.1 as int]);
            assert(t.rank[arc.0 as int] == ra && t.rank[arc.1 as int] == rb);
            if rb == ra + 1 {
                assert(t.links[m.links.len() as int] == arc);
            }
            if wanted[end] && ra != rb && rb != ra + 1 {
                lemma_new_route(m, arc, reversed[end], rank.len());
                assert(t.chains[m.chains.len() as int] == t.chains.last());
            }
        }
    }
}

/// The same of a component that is drawn.
pub proof fn drawn_arcs_are_threaded(
    rank: Seq<i32>,
    dag: Dag,
    wanted: Seq<bool>,
    clusters: Seq<Vec<usize>>,
    ordering_sweeps: nat,
    transpose_passes: nat,
    r: Drawn,
    k: int,
)
    requires
        is_drawn(rank, dag, wanted, clusters, ordering_sweeps, transpose_passes, r),
        pairs_below(rank.len(), dag.pairs@),
        forall|v: int| 0 <= v < rank.len() ==> 0 <= #[trigger] rank[v],
        0 <= k < dag.pairs@.len(),
        r.rank@.len() < rank.len() + 60000,
    ensures
        exists|budget: nat|
            is_threaded(
                #[trigger] drawn_lanes(r, budget),
                rank.len(),
                dag.pairs@[k],
                dag.reversed@[k],
                wanted[k],
            ),
{
    reveal(is_drawn);
    let t = threaded(rank, dag.pairs@, dag.reversed@, wanted, LANE_BUDGET as nat);
    assert(r.rank@.len() == r.rank.len());
    arcs_are_threaded(rank, dag.pairs@, dag.reversed@, wanted, k);
    assert(drawn_lanes(r, t.budget) == t);
}

/// The nodes, links and routes of a drawn component.
pub open spec fn drawn_lanes(r: Drawn, budget: nat) -> LaneModel {
    LaneModel { rank: r.rank@, links: r.links@, chains: r.chains.deep_view(), budget }
}

} // verus!
