//! Laying out one component, up to its geometry: columns, lanes, and the order in each column.

use vstd::prelude::*;

use crate::adjacency::{lemma_ends_below, pairs_below};
use crate::balance::{
    are_balanced, are_local, balance_columns, balancing_keeps_direction, claims_of, is_balanced,
    Columns, SPLIT_LIMIT,
};
use crate::clusters::are_joined;
use crate::cycles::{grows, holds_pair, is_walked, start_order, stems_from, untangles, Dag};
use crate::drawing::{
    are_pairs, crosses_little, drawn_routes_are_wanted, find_wanted, is_drawn, is_layered,
    layer_component, order_component, runs_cross_little, wanted_arcs, wants, Drawn, COMPONENT_LIMIT,
};

use crate::layers::are_ranks;
use crate::ranking::{as_rank, feasible};

verus! {

/// How a component is to be laid out.
#[derive(Debug, Clone, Copy, PartialEq, Eq, Structural)]
pub struct Plan {
    /// Every edge runs from left to right, at the cost of depth.
    pub monotone: bool,
    /// How tall a column may get before it is split.
    pub cap: u64,
    /// How tall a cluster may be to be kept together when its column is split.
    pub half: u64,
    pub ordering_sweeps: usize,
    pub transpose_passes: usize,
}

/// A component that is laid out but for its geometry.
pub struct Layout {
    pub dag: Dag,
    pub drawn: Drawn,
}

/// The component is small enough to be laid out.
pub open spec fn is_small(nodes: nat, edges: nat, clusters: nat) -> bool {
    &&& nodes + SPLIT_LIMIT <= COMPONENT_LIMIT
    &&& edges <= COMPONENT_LIMIT
    &&& clusters <= COMPONENT_LIMIT
}

/// The component is laid out, with these steps: cycles broken and nodes put in columns, tall columns
/// split, and the columns drawn, with lanes for the edges that are to be routed.
#[verifier::opaque]
pub open spec fn is_laid_out(
    ends: Seq<(usize, usize)>,
    routed: Seq<bool>,
    roots: Seq<bool>,
    clusters: Seq<Vec<usize>>,
    heights: Seq<u64>,
    plan: Plan,
    depth: Seq<i32>,
    rank: Seq<i32>,
    r: Layout,
) -> bool {
    &&& is_layered(ends, roots, plan.monotone, r.dag, depth)
    &&& are_balanced(
        depth,
        r.dag.pairs@,
        clusters,
        heights,
        plan.cap,
        plan.half,
        rank,
    )
    &&& is_drawn(
        rank,
        r.dag,
        wanted_arcs(ends, routed, r.dag),
        clusters,
        plan.ordering_sweeps as nat,
        plan.transpose_passes as nat,
        r.drawn,
    )
}

/// Lays out one component up to its geometry: `ends` are its edges, `routed` which of them are to go
/// through lanes, `heights` how tall its nodes are with the space below them, and `clusters` the nodes
/// that are to stand together. `None` where it is too large.
pub fn lay_out(
    ends: &Vec<(usize, usize)>,
    routed: &Vec<bool>,
    roots: &Vec<bool>,
    clusters: &Vec<Vec<usize>>,
    heights: &Vec<u64>,
    plan: &Plan,
) -> (r: Option<Layout>)
    requires
        pairs_below(roots@.len(), ends@),
        routed@.len() == ends@.len(),
        heights@.len() == roots@.len(),
        are_local(clusters@, roots@.len()),
    ensures
        r is Some ==> exists|depth: Seq<i32>, rank: Seq<i32>|
            #[trigger] is_laid_out(
                ends@,
                routed@,
                roots@,
                clusters@,
                heights@,
                *plan,
                depth,
                rank,
                r->0,
            ),
        r matches Some(l) ==> forall|j: int|
            0 <= j < l.drawn.chains@.len() ==> wants(
                ends@,
                routed@,
                ((#[trigger] l.drawn.chains@[j]).from, l.drawn.chains@[j].to),
            ),
        r matches Some(l) ==> clusters@.len() == 0 ==> crosses_little(
            l.drawn,
            plan.ordering_sweeps as nat,
        ),
        r matches Some(l) ==> exists|of: Seq<Option<usize>>|
            #[trigger] are_joined(clusters@, l.drawn.rank@.len(), of) && runs_cross_little(
                l.drawn,
                of,
                plan.ordering_sweeps as nat,
                plan.transpose_passes as nat,
            ),
        r is None <==> !is_small(roots@.len(), ends@.len(), clusters@.len()),
{
    if roots.len() > COMPONENT_LIMIT - SPLIT_LIMIT || ends.len() > COMPONENT_LIMIT || clusters.len()
        > COMPONENT_LIMIT {
        return None;
    }
    let layered = layer_component(ends, roots, plan.monotone);
    let rank = balance_columns(
        &layered.rank,
        &layered.dag.pairs,
        clusters,
        heights,
        plan.cap,
        plan.half,
    );
    let wanted = find_wanted(ends, routed, &layered.dag);
    let drawn = order_component(
        &rank,
        &layered.dag,
        &wanted,
        clusters,
        plan.ordering_sweeps,
        plan.transpose_passes,
    );
    let ghost depth = layered.rank@;
    let l = Layout { dag: layered.dag, drawn };
    proof {
        reveal(is_laid_out);
        assert(is_laid_out(ends@, routed@, roots@, clusters@, heights@, *plan, depth, rank@, l));
    }
    assert forall|j: int| 0 <= j < l.drawn.chains@.len() implies wants(
        ends@,
        routed@,
        ((#[trigger] l.drawn.chains@[j]).from, l.drawn.chains@[j].to),
    ) by {
        drawn_routes_are_wanted(
            ends@,
            routed@,
            rank@,
            l.dag,
            clusters@,
            plan.ordering_sweeps as nat,
            plan.transpose_passes as nat,
            l.drawn,
            j,
        );
    }
    let r = Some(l);
    assert(r->0 == l);
    r
}

/// What a layout shows of its component: every edge but loops is drawn, as it stands or turned around,
/// and only those; a numbering of the nodes grows along all that is drawn, so that no cycle is left;
/// and in monotone layouts every arc runs from left to right.
pub proof fn layouts_show_the_edges(
    ends: Seq<(usize, usize)>,
    routed: Seq<bool>,
    roots: Seq<bool>,
    clusters: Seq<Vec<usize>>,
    heights: Seq<u64>,
    plan: Plan,
    depth: Seq<i32>,
    rank: Seq<i32>,
    l: Layout,
)
    requires
        is_laid_out(ends, routed, roots, clusters, heights, plan, depth, rank, l),
        pairs_below(roots.len(), ends),
        roots.len() <= COMPONENT_LIMIT,
        rank.len() == roots.len(),
    ensures
        forall|k: int|
            0 <= k < ends.len() && (#[trigger] ends[k]).0 != ends[k].1 ==> l.dag.pairs@.contains(
                ends[k],
            ) || l.dag.pairs@.contains((ends[k].1, ends[k].0)),
        forall|j: int|
            0 <= j < l.dag.pairs@.len() ==> (#[trigger] l.dag.pairs@[j]).0 != l.dag.pairs@[j].1
                && ends.contains(
                if l.dag.reversed@[j] {
                    (l.dag.pairs@[j].1, l.dag.pairs@[j].0)
                } else {
                    l.dag.pairs@[j]
                },
            ),
        exists|t: spec_fn(int) -> nat| #[trigger] grows(l.dag.pairs@, t),
        plan.monotone ==> forall|j: int|
            0 <= j < l.dag.pairs@.len() ==> rank[(#[trigger] l.dag.pairs@[j]).0 as int]
                < rank[l.dag.pairs@[j].1 as int],
{
    reveal(is_laid_out);
    reveal(is_layered);
    let arcs = l.dag.pairs@;
    let pairs = choose|pairs: Seq<(usize, usize)>|
        {
            &&& #[trigger] are_pairs(ends, pairs)
            &&& untangles(pairs, l.dag)
            &&& is_walked(roots.len(), pairs, start_order(pairs, roots), l.dag)
        };
    assert forall|k: int| 0 <= k < ends.len() && (#[trigger] ends[k]).0 != ends[k].1 implies arcs.contains(
        ends[k],
    ) || arcs.contains((ends[k].1, ends[k].0)) by {
        assert(ends.contains(ends[k]));
        assert(pairs.contains(ends[k]));
        assert(holds_pair(arcs, ends[k]));
    }
    assert forall|j: int| 0 <= j < arcs.len() implies (#[trigger] arcs[j]).0 != arcs[j].1
        && ends.contains(
        if l.dag.reversed@[j] {
            (arcs[j].1, arcs[j].0)
        } else {
            arcs[j]
        },
    ) by {
        assert(stems_from(pairs, arcs[j], l.dag.reversed@[j]));
    }
    if plan.monotone {
        assert forall|j: int| 0 <= j < arcs.len() implies rank[(#[trigger] arcs[j]).0 as int]
            < rank[arcs[j].1 as int] by {
            lemma_runs_forward(
                ends,
                roots,
                clusters,
                heights,
                plan,
                arcs,
                depth,
                rank,
                j,
            );
        }
    }
}

proof fn lemma_runs_forward(
    ends: Seq<(usize, usize)>,
    roots: Seq<bool>,
    clusters: Seq<Vec<usize>>,
    heights: Seq<u64>,
    plan: Plan,
    arcs: Seq<(usize, usize)>,
    depth: Seq<i32>,
    rank: Seq<i32>,
    j: int,
)
    requires
        are_ranks(arcs, roots, true, depth),
        are_balanced(depth, arcs, clusters, heights, plan.cap, plan.half, rank),
        0 <= j < arcs.len(),
        arcs[j].0 != arcs[j].1,
        ends.contains(arcs[j]) || ends.contains((arcs[j].1, arcs[j].0)),
        pairs_below(roots.len(), ends),
        roots.len() <= COMPONENT_LIMIT,
    ensures
        rank[arcs[j].0 as int] < rank[arcs[j].1 as int],
{
    reveal(are_balanced);
    let (a, b) = (arcs[j].0 as int, arcs[j].1 as int);
    assert(a < roots.len() && b < roots.len()) by {
        if ends.contains(arcs[j]) {
            lemma_ends_below(roots.len(), ends, arcs[j]);
        } else {
            lemma_ends_below(roots.len(), ends, (arcs[j].1, arcs[j].0));
        }
    }
    let es = crate::layers::edges_of(arcs);
    assert(es[j] == crate::layers::edge_of(arcs[j]));
    assert(feasible(es, as_rank(depth)));
    assert(!es[j].is_loop());
    assert(depth[a] < depth[b]);
    let (order, nearest, steps) = choose|
        order: Seq<usize>,
        nearest: Seq<i32>,
        steps: Seq<Columns>,
    |
        #[trigger] is_balanced(
            depth,
            arcs,
            clusters,
            heights,
            plan.cap,
            plan.half,
            order,
            nearest,
            steps,
            rank,
        );
    let unit_of = claims_of(
        clusters,
        order,
        depth,
        heights,
        plan.half,
        clusters.len(),
    ).unit_of;
    balancing_keeps_direction(steps, unit_of, heights, plan.cap, a, b, steps.len() - 1);
}

} // verus!
