//! Ranks: which column each node of a component stands in, and how over-tall columns are split.

use vstd::prelude::*;

use crate::adjacency::pairs_below;
use crate::cycles::{grows, no_cycle};
use crate::depths::{bfs_rank, is_layering};
use crate::ranking::{
    acyclic, are_simplex_ranks, ends_in, grows_along, network_simplex, reaches_fit, short_steps,
    RankEdge,
};

verus! {

/// Simplex pivots per component. The optimum is normally reached in far fewer; the bound only stops
/// a pathological graph from stalling the app.
pub const SIMPLEX_PIVOTS: usize = 2048;

/// What stands for the rank of the nearest successor where there is none.
pub const NO_SUCCESSOR: i32 = 0x3fff_ffff;

/// A pair as an edge of the layering problem, of weight one and spanning at least one column.
pub open spec fn edge_of(p: (usize, usize)) -> RankEdge {
    RankEdge { from: p.0 as u32, to: p.1 as u32, weight: 1, minlen: 1 }
}

/// The pairs as edges of the layering problem.
pub open spec fn edges_of(pairs: Seq<(usize, usize)>) -> Seq<RankEdge> {
    pairs.map_values(|p: (usize, usize)| edge_of(p))
}

/// The column of every node: by distance from the roots, or with every edge running forward and the
/// total span as small as the simplex pivots make it, which is as small as it can be once they
/// settle.
pub open spec fn are_ranks(
    pairs: Seq<(usize, usize)>,
    roots: Seq<bool>,
    monotone: bool,
    rank: Seq<i32>,
) -> bool {
    if monotone {
        are_simplex_ranks(roots.len(), edges_of(pairs), SIMPLEX_PIVOTS as nat, rank)
    } else {
        exists|phase: Seq<int>| #[trigger] is_layering(pairs, roots, phase, rank)
    }
}

/// There are at most as many columns as nodes.
pub proof fn columns_are_few(
    pairs: Seq<(usize, usize)>,
    roots: Seq<bool>,
    monotone: bool,
    rank: Seq<i32>,
)
    requires
        are_ranks(pairs, roots, monotone, rank),
    ensures
        rank.len() == roots.len(),
        forall|v: int| 0 <= v < rank.len() ==> 0 <= #[trigger] rank[v] < roots.len(),
{
    if monotone {
        assert(short_steps(edges_of(pairs)));
    }
}

/// Ranks the nodes of a component whose cycles are broken.
pub fn rank_component(pairs: &Vec<(usize, usize)>, roots: &Vec<bool>, monotone: bool) -> (r: Vec<i32>)
    requires
        pairs_below(roots@.len(), pairs@),
        no_cycle(pairs@),
        roots@.len() <= 0x3fff_ffff,
    ensures
        are_ranks(pairs@, roots@, monotone, r@),
{
    if !monotone {
        return bfs_rank(pairs, roots);
    }
    let ghost ps = pairs@;
    let ghost n = roots@.len();
    let mut edges: Vec<RankEdge> = Vec::new();
    let mut k: usize = 0;
    while k < pairs.len()
        invariant
            k <= pairs@.len(),
            ps == pairs@,
            pairs_below(n, ps),
            n <= 0x3fff_ffff,
            edges@ == edges_of(ps).take(k as int),
        decreases pairs@.len() - k,
    {
        let (a, b) = pairs[k];
        assert(ps[k as int].0 < n && ps[k as int].1 < n);
        edges.push(RankEdge::new(a as u32, b as u32));
        assert(edges_of(ps)[k as int] == edge_of((a, b)));
        assert(edges_of(ps).take(k as int + 1) =~= edges_of(ps).take(k as int).push(
            edge_of((a, b)),
        ));
        k = k + 1;
    }
    proof {
        assert(edges@ =~= edges_of(ps));
        let es = edges@;
        assert(ends_in(n, es)) by {
            assert forall|i: int| 0 <= i < es.len() implies (#[trigger] es[i]).from < n && es[i].to
                < n by {
                assert(ps[i].0 < n && ps[i].1 < n);
            }
        }
        assert(acyclic(es)) by {
            let t = choose|t: spec_fn(int) -> nat| #[trigger] grows(ps, t);
            assert(grows_along(es, t)) by {
                assert forall|i: int| 0 <= i < es.len() && !(#[trigger] es[i]).is_loop() implies t(
                    es[i].from as int,
                ) < t(es[i].to as int) by {
                    assert(ps[i].0 < n && ps[i].1 < n);
                    assert(t(ps[i].0 as int) < t(ps[i].1 as int));
                }
            }
        }
        assert(reaches_fit(n, es)) by {
            assert forall|i: int| 0 <= i < es.len() implies (#[trigger] es[i]).reach() * (n - 1)
                <= i32::MAX by {
                assert(es[i].reach() == 1);
                assert(1 * (n - 1) == n - 1) by (nonlinear_arith);
            }
        }
    }
    network_simplex(roots.len(), edges.as_slice(), SIMPLEX_PIVOTS)
}

// ── splitting over-tall ranks ──────────────────────────────────────────────

/// The rank of the nearest node that `v` leads to.
pub open spec fn nearest_after(pairs: Seq<(usize, usize)>, rank: Seq<i32>, v: int) -> int
    decreases pairs.len(),
{
    if pairs.len() == 0 {
        NO_SUCCESSOR as int
    } else {
        let before = nearest_after(pairs.drop_last(), rank, v);
        let (a, b) = pairs.last();
        if a == v && rank[b as int] < before { rank[b as int] as int } else { before }
    }
}

/// The rank of the nearest node that each node leads to.
pub fn nearest_successors(pairs: &Vec<(usize, usize)>, rank: &Vec<i32>) -> (r: Vec<i32>)
    requires
        pairs_below(rank@.len(), pairs@),
    ensures
        r@.len() == rank@.len(),
        forall|v: int| 0 <= v < r@.len() ==> #[trigger] r@[v] == nearest_after(pairs@, rank@, v),
{
    let n: usize = rank.len();
    let mut out: Vec<i32> = Vec::new();
    let mut z: usize = 0;
    while z < n
        invariant
            z <= n,
            out@.len() == z,
            forall|v: int| 0 <= v < z ==> #[trigger] out@[v] == NO_SUCCESSOR,
        decreases n - z,
    {
        out.push(NO_SUCCESSOR);
        z = z + 1;
    }
    let mut k: usize = 0;
    assert(pairs@.take(0) =~= Seq::<(usize, usize)>::empty());
    while k < pairs.len()
        invariant
            k <= pairs@.len(),
            n == rank@.len(),
            pairs_below(n as nat, pairs@),
            out@.len() == n,
            forall|v: int|
                0 <= v < n ==> #[trigger] out@[v] == nearest_after(
                    pairs@.take(k as int),
                    rank@,
                    v,
                ),
        decreases pairs@.len() - k,
    {
        assert(pairs@.take(k as int + 1).drop_last() =~= pairs@.take(k as int));
        let (a, b) = pairs[k];
        assert(pairs@[k as int].0 < n && pairs@[k as int].1 < n);
        if rank[b] < out[a] {
            out.set(a, rank[b]);
        }
        k = k + 1;
    }
    assert(pairs@.take(k as int) =~= pairs@);
    out
}

/// The nodes among the first `n` in column `r` that belong to the unit `unit`, in order.
pub open spec fn unit_members(
    rank: Seq<i32>,
    unit_of: Seq<usize>,
    r: int,
    unit: usize,
    n: nat,
) -> Seq<usize>
    decreases n,
{
    if n == 0 {
        Seq::empty()
    } else {
        let before = unit_members(rank, unit_of, r, unit, (n - 1) as nat);
        if rank[n - 1] == r && unit_of[n - 1] == unit {
            before.push((n - 1) as usize)
        } else {
            before
        }
    }
}

/// The least number of `of` over the members; [`NO_SUCCESSOR`] at most.
pub open spec fn least_of(members: Seq<usize>, of: Seq<i32>) -> int
    decreases members.len(),
{
    if members.len() == 0 {
        NO_SUCCESSOR as int
    } else {
        let before = least_of(members.drop_last(), of);
        let x = of[members.last() as int] as int;
        if x < before { x } else { before }
    }
}

/// A unit: nodes of one column that move together or not at all.
pub struct Unit {
    pub id: usize,
    pub members: Vec<usize>,
    /// The rank of the nearest node that a member leads to.
    pub nearest: i32,
}

/// `a` moves after `b`: its successors are nearer, or as near and it has the larger number.
pub open spec fn stays_longer(a: Unit, b: Unit) -> bool {
    a.nearest > b.nearest || (a.nearest == b.nearest && a.id < b.id)
}

/// `units` are the units of column `r`, those whose successors are furthest away first.
pub open spec fn are_units(
    rank: Seq<i32>,
    unit_of: Seq<usize>,
    nearest: Seq<i32>,
    r: int,
    units: Seq<Unit>,
) -> bool {
    &&& forall|i: int|
        0 <= i < units.len() ==> (#[trigger] units[i]).members@ == unit_members(
            rank,
            unit_of,
            r,
            units[i].id,
            rank.len(),
        ) && units[i].members@.len() > 0 && units[i].nearest == least_of(
            units[i].members@,
            nearest,
        )
    &&& forall|i: int, j: int|
        0 <= i < j < units.len() ==> stays_longer(#[trigger] units[i], #[trigger] units[j])
    &&& forall|v: int|
        0 <= v < rank.len() && #[trigger] rank[v] == r ==> exists|i: int|
            0 <= i < units.len() && (#[trigger] units[i]).id == unit_of[v]
}

/// The members of a unit are nodes of the column, and all of those that belong to it.
pub(crate) proof fn lemma_unit_members(rank: Seq<i32>, unit_of: Seq<usize>, r: int, unit: usize, n: nat)
    requires
        n <= usize::MAX,
    ensures
        forall|i: int|
            0 <= i < unit_members(rank, unit_of, r, unit, n).len() ==> (#[trigger] unit_members(
                rank,
                unit_of,
                r,
                unit,
                n,
            )[i]) < n,
        forall|v: int|
            0 <= v < n && #[trigger] rank[v] == r && unit_of[v] == unit ==> unit_members(
                rank,
                unit_of,
                r,
                unit,
                n,
            ).contains(v as usize),
    decreases n,
{
    if n > 0 {
        lemma_unit_members(rank, unit_of, r, unit, (n - 1) as nat);
        let before = unit_members(rank, unit_of, r, unit, (n - 1) as nat);
        let now = unit_members(rank, unit_of, r, unit, n);
        assert forall|v: int| 0 <= v < n && #[trigger] rank[v] == r && unit_of[v] == unit implies now.contains(
            v as usize,
        ) by {
            if v < n - 1 {
                assert(before.contains(v as usize));
                let j = choose|j: int| 0 <= j < before.len() && before[j] == v as usize;
                assert(now[j] == v as usize);
            } else {
                assert(now[before.len() as int] == v as usize);
            }
        }
    }
}

fn collect_unit(rank: &Vec<i32>, unit_of: &Vec<usize>, nearest: &Vec<i32>, r: i32, id: usize) -> (u:
    Unit)
    requires
        unit_of@.len() == rank@.len(),
        nearest@.len() == rank@.len(),
    ensures
        u.id == id,
        u.members@ == unit_members(rank@, unit_of@, r as int, id, rank@.len()),
        u.nearest == least_of(u.members@, nearest@),
{
    let n: usize = rank.len();
    let mut members: Vec<usize> = Vec::new();
    let mut least: i32 = NO_SUCCESSOR;
    let mut v: usize = 0;
    while v < n
        invariant
            v <= n,
            n == rank@.len(),
            unit_of@.len() == rank@.len(),
            nearest@.len() == rank@.len(),
            members@ == unit_members(rank@, unit_of@, r as int, id, v as nat),
            least == least_of(members@, nearest@),
        decreases n - v,
    {
        if rank[v] == r && unit_of[v] == id {
            let ghost before = members@;
            members.push(v);
            assert(members@.drop_last() =~= before);
            if nearest[v] < least {
                least = nearest[v];
            }
        }
        v = v + 1;
    }
    Unit { id, members, nearest: least }
}

/// The units of column `r`, those whose successors are furthest away first: they are the ones with
/// room, and moving them shortens their edges.
#[verifier::rlimit(40)]
pub fn units_of_rank(rank: &Vec<i32>, unit_of: &Vec<usize>, nearest: &Vec<i32>, r: i32) -> (units:
    Vec<Unit>)
    requires
        unit_of@.len() == rank@.len(),
        nearest@.len() == rank@.len(),
    ensures
        are_units(rank@, unit_of@, nearest@, r as int, units@),
{
    let n: usize = rank.len();
    let mut units: Vec<Unit> = Vec::new();
    let mut v: usize = 0;
    while v < n
        invariant
            v <= n,
            n == rank@.len(),
            unit_of@.len() == rank@.len(),
            nearest@.len() == rank@.len(),
            forall|i: int|
                0 <= i < units@.len() ==> (#[trigger] units@[i]).members@ == unit_members(
                    rank@,
                    unit_of@,
                    r as int,
                    units@[i].id,
                    n as nat,
                ) && units@[i].members@.len() > 0 && units@[i].nearest == least_of(
                    units@[i].members@,
                    nearest@,
                ),
            forall|i: int, j: int|
                0 <= i < j < units@.len() ==> stays_longer(
                    #[trigger] units@[i],
                    #[trigger] units@[j],
                ),
            forall|x: int|
                0 <= x < v && #[trigger] rank@[x] == r ==> exists|i: int|
                    0 <= i < units@.len() && (#[trigger] units@[i]).id == unit_of@[x],
        decreases n - v,
    {
        let ghost before = units@;
        if rank[v] == r {
            let id = unit_of[v];
            let len: usize = units.len();
            let mut known: bool = false;
            let mut i: usize = 0;
            while i < len
                invariant
                    i <= len,
                    len == units@.len(),
                    known <==> exists|j: int| 0 <= j < i && (#[trigger] units@[j]).id == id,
                decreases len - i,
            {
                if units[i].id == id {
                    known = true;
                }
                i = i + 1;
            }
            if !known {
                let unit = collect_unit(rank, unit_of, nearest, r, id);
                proof {
                    lemma_unit_members(rank@, unit_of@, r as int, id, n as nat);
                    assert(unit.members@.contains(v));
                }
                let mut at: usize = 0;
                while at < len && (units[at].nearest > unit.nearest || (units[at].nearest
                    == unit.nearest && units[at].id < id))
                    invariant
                        at <= len,
                        len == units@.len(),
                        unit.id == id,
                        forall|i: int|
                            0 <= i < at ==> stays_longer(#[trigger] units@[i], unit),
                    decreases len - at,
                {
                    at = at + 1;
                }
                let ghost u = unit;
                proof {
                    assert forall|i: int| at <= i < len implies stays_longer(u, #[trigger] before[i]) by {
                        assert(before[i].id != id);
                        assert(!stays_longer(before[at as int], u));
                        assert(before[at as int].id != id);
                        if i > at {
                            assert(stays_longer(before[at as int], before[i]));
                        }
                    }
                    before.insert_ensures(at as int, u);
                }
                units.insert(at, unit);
                proof {
                    assert forall|i: int| 0 <= i < units@.len() implies (#[trigger] units@[i]).members@
                        == unit_members(
                        rank@,
                        unit_of@,
                        r as int,
                        units@[i].id,
                        n as nat,
                    ) && units@[i].members@.len() > 0 && units@[i].nearest == least_of(
                        units@[i].members@,
                        nearest@,
                    ) by {
                        let x = if i < at { before[i] } else if i == at { u } else { before[i - 1] };
                        assert(units@[i] == x);
                    }
                    assert forall|i: int, j: int| 0 <= i < j < units@.len() implies stays_longer(
                        #[trigger] units@[i],
                        #[trigger] units@[j],
                    ) by {
                        let x = if i < at { before[i] } else if i == at { u } else { before[i - 1] };
                        let y = if j < at { before[j] } else if j == at { u } else { before[j - 1] };
                        assert(units@[i] == x && units@[j] == y);
                    }
                    assert forall|x: int| 0 <= x < v + 1 && #[trigger] rank@[x] == r implies exists|i: int|
                        0 <= i < units@.len() && (#[trigger] units@[i]).id == unit_of@[x] by {
                        if x < v {
                            let i = choose|i: int|
                                0 <= i < before.len() && (#[trigger] before[i]).id == unit_of@[x];
                            assert(units@[if i < at { i } else { i + 1 }] == before[i]);
                        } else {
                            assert(units@[at as int] == u);
                        }
                    }
                }
            }
        }
        v = v + 1;
    }
    units
}

/// A rank after the column `r` was split and `moved` went to the new one.
pub open spec fn split_to(rank: int, r: int, moved: bool) -> int {
    if moved { r + 1 } else if rank > r { rank + 1 } else { rank }
}

/// Splits the column `r`: everything further right makes room, and what is marked in `moved` goes to
/// the new column behind it.
pub fn split_rank(rank: &mut Vec<i32>, nearest: &mut Vec<i32>, r: i32, moved: &Vec<bool>)
    requires
        moved@.len() == old(rank)@.len(),
        r < i32::MAX,
        forall|v: int| 0 <= v < old(rank)@.len() ==> #[trigger] old(rank)@[v] < i32::MAX,
        forall|v: int| 0 <= v < old(nearest)@.len() ==> #[trigger] old(nearest)@[v] < i32::MAX,
    ensures
        final(rank)@.len() == old(rank)@.len(),
        final(nearest)@.len() == old(nearest)@.len(),
        forall|v: int|
            0 <= v < final(rank)@.len() ==> #[trigger] final(rank)@[v] == split_to(
                old(rank)@[v] as int,
                r as int,
                moved@[v],
            ),
        forall|v: int|
            0 <= v < final(nearest)@.len() ==> #[trigger] final(nearest)@[v] == split_to(
                old(nearest)@[v] as int,
                r as int,
                false,
            ),
{
    let ghost rank0 = rank@;
    let ghost near0 = nearest@;
    let n: usize = rank.len();
    let mut v: usize = 0;
    while v < n
        invariant
            v <= n,
            n == rank@.len(),
            rank0.len() == n,
            moved@.len() == n,
            r < i32::MAX,
            forall|x: int| 0 <= x < n ==> #[trigger] rank0[x] < i32::MAX,
            forall|x: int|
                0 <= x < v ==> #[trigger] rank@[x] == split_to(rank0[x] as int, r as int, moved@[x]),
            forall|x: int| v <= x < n ==> #[trigger] rank@[x] == rank0[x],
        decreases n - v,
    {
        if moved[v] {
            rank.set(v, r + 1);
        } else if rank[v] > r {
            let up: i32 = rank[v] + 1;
            rank.set(v, up);
        }
        v = v + 1;
    }
    let k: usize = nearest.len();
    let mut w: usize = 0;
    while w < k
        invariant
            w <= k,
            k == nearest@.len(),
            near0.len() == k,
            forall|x: int| 0 <= x < k ==> #[trigger] near0[x] < i32::MAX,
            forall|x: int|
                0 <= x < w ==> #[trigger] nearest@[x] == split_to(near0[x] as int, r as int, false),
            forall|x: int| w <= x < k ==> #[trigger] nearest@[x] == near0[x],
        decreases k - w,
    {
        if nearest[w] > r {
            let up: i32 = nearest[w] + 1;
            nearest.set(w, up);
        }
        w = w + 1;
    }
}

/// Splitting a column turns no edge around: what ran forward still does, by as much or more, as long
/// as only nodes of that column move.
pub proof fn splitting_keeps_direction(a: int, b: int, r: int, moved_a: bool, moved_b: bool)
    requires
        a < b,
        moved_a ==> a == r,
        moved_b ==> b == r,
    ensures
        split_to(a, r, moved_a) < split_to(b, r, moved_b),
{
}

/// Splitting makes one more column and leaves none of the others out.
pub proof fn splitting_adds_one_column(rank: int, r: int, moved: bool)
    requires
        moved ==> rank == r,
    ensures
        rank <= split_to(rank, r, moved) <= rank + 1,
        split_to(rank, r, moved) == r + 1 ==> moved,
{
}

// ── columns ────────────────────────────────────────────────────────────────

/// The nodes among the first `n` in column `r`, in order.
pub open spec fn column(rank: Seq<i32>, r: int, n: nat) -> Seq<usize>
    decreases n,
{
    if n == 0 {
        Seq::empty()
    } else {
        let before = column(rank, r, (n - 1) as nat);
        if rank[n - 1] == r { before.push((n - 1) as usize) } else { before }
    }
}

/// How many columns the first `n` nodes need.
pub open spec fn column_count(rank: Seq<i32>, n: nat) -> int
    decreases n,
{
    if n == 0 {
        1
    } else {
        let before = column_count(rank, (n - 1) as nat);
        if rank[n - 1] + 1 > before { rank[n - 1] + 1 } else { before }
    }
}

/// A node stands in its own column and in no other.
pub proof fn lemma_column(rank: Seq<i32>, r: int, n: nat)
    requires
        n <= rank.len(),
        n <= usize::MAX,
    ensures
        column(rank, r, n).no_duplicates(),
        column(rank, r, n).len() <= n,
        forall|i: int|
            0 <= i < column(rank, r, n).len() ==> (#[trigger] column(rank, r, n)[i]) < n
                && rank[column(rank, r, n)[i] as int] == r,
        forall|v: int| 0 <= v < n && #[trigger] rank[v] == r ==> column(rank, r, n).contains(v as usize),
    decreases n,
{
    if n > 0 {
        lemma_column(rank, r, (n - 1) as nat);
        let before = column(rank, r, (n - 1) as nat);
        let now = column(rank, r, n);
        assert forall|v: int| 0 <= v < n && #[trigger] rank[v] == r implies now.contains(v as usize) by {
            if v < n - 1 {
                assert(before.contains(v as usize));
                let j = choose|j: int| 0 <= j < before.len() && before[j] == v as usize;
                assert(now[j] == v as usize);
            } else {
                assert(now[before.len() as int] == v as usize);
            }
        }
    }
}

proof fn lemma_column_count(rank: Seq<i32>, n: nat)
    requires
        n <= rank.len(),
    ensures
        column_count(rank, n) >= 1,
        forall|v: int| 0 <= v < n ==> #[trigger] rank[v] < column_count(rank, n),
    decreases n,
{
    if n > 0 {
        lemma_column_count(rank, (n - 1) as nat);
    }
}

/// The columns, left to right, each with its nodes in order.
pub fn list_columns(rank: &Vec<i32>) -> (r: Vec<Vec<usize>>)
    requires
        forall|v: int| 0 <= v < rank@.len() ==> 0 <= #[trigger] rank@[v] < i32::MAX,
    ensures
        r@.len() == column_count(rank@, rank@.len()),
        forall|c: int|
            0 <= c < r@.len() ==> (#[trigger] r@[c])@ == column(rank@, c, rank@.len()),
{
    let n: usize = rank.len();
    let mut count: i32 = 1;
    let mut v: usize = 0;
    while v < n
        invariant
            v <= n,
            n == rank@.len(),
            forall|v: int| 0 <= v < rank@.len() ==> 0 <= #[trigger] rank@[v] < i32::MAX,
            count == column_count(rank@, v as nat),
        decreases n - v,
    {
        if rank[v] + 1 > count {
            count = rank[v] + 1;
        }
        v = v + 1;
    }
    proof {
        lemma_column_count(rank@, n as nat);
    }
    let mut out: Vec<Vec<usize>> = Vec::new();
    let mut c: i32 = 0;
    while c < count
        invariant
            0 <= c <= count,
            out@.len() == c,
            forall|x: int| 0 <= x < c ==> (#[trigger] out@[x])@ == column(rank@, x, 0),
        decreases count - c,
    {
        let empty: Vec<usize> = Vec::new();
        assert(empty@ =~= Seq::<usize>::empty());
        out.push(empty);
        c = c + 1;
    }
    let mut i: usize = 0;
    while i < n
        invariant
            i <= n,
            n == rank@.len(),
            count == column_count(rank@, n as nat),
            forall|v: int| 0 <= v < rank@.len() ==> 0 <= #[trigger] rank@[v] < i32::MAX,
            forall|v: int| 0 <= v < n ==> #[trigger] rank@[v] < count,
            out@.len() == count,
            forall|x: int| 0 <= x < count ==> (#[trigger] out@[x])@ == column(rank@, x, i as nat),
        decreases n - i,
    {
        let at: usize = rank[i] as usize;
        let ghost before = out@;
        out[at].push(i);
        assert forall|x: int| 0 <= x < count implies (#[trigger] out@[x])@ == column(
            rank@,
            x,
            (i + 1) as nat,
        ) by {
            if x != at {
                assert(out@[x] == before[x]);
            }
        }
        i = i + 1;
    }
    out
}

} // verus!
