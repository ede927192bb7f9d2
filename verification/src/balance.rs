//! Splitting columns that are too tall.
//!
//! Depth alone leaves one column holding hundreds of nodes, which turns a component into a ribbon.
//! Such a column is split: part of it moves to a new column behind it, in units that stay together.

use vstd::prelude::*;

use crate::adjacency::pairs_below;
use crate::drawing::COMPONENT_LIMIT;
use crate::layers::{
    are_units, lemma_unit_members, nearest_after, nearest_successors, split_rank, split_to,
    unit_members, units_of_rank, Unit, NO_SUCCESSOR,
};
use crate::parts::{
    claim_unit, free_members, is_by_size, movable_members, order_by_size, share_column,
};

verus! {

/// How many columns are split at most.
pub const SPLIT_LIMIT: usize = 2048;

/// How tall the members are together.
pub open spec fn height_of(members: Seq<usize>, heights: Seq<u64>) -> nat
    decreases members.len(),
{
    if members.len() == 0 {
        0
    } else {
        height_of(members.drop_last(), heights) + heights[members.last() as int] as nat
    }
}

fn sum_heights(members: &Vec<usize>, heights: &Vec<u64>) -> (r: u128)
    requires
        forall|i: int| 0 <= i < members@.len() ==> (#[trigger] members@[i]) < heights@.len(),
    ensures
        r == height_of(members@, heights@),
        r <= members@.len() * u64::MAX,
{
    let mut sum: u128 = 0;
    let mut i: usize = 0;
    assert(members@.take(0) =~= Seq::<usize>::empty());
    while i < members.len()
        invariant
            i <= members@.len(),
            forall|i: int| 0 <= i < members@.len() ==> (#[trigger] members@[i]) < heights@.len(),
            sum == height_of(members@.take(i as int), heights@),
            sum <= i * u64::MAX,
        decreases members@.len() - i,
    {
        assert(members@.take(i as int + 1).drop_last() =~= members@.take(i as int));
        assert((i + 1) * u64::MAX == i * u64::MAX + u64::MAX) by (nonlinear_arith);
        assert(i * u64::MAX + u64::MAX <= u128::MAX) by (nonlinear_arith)
            requires
                i < usize::MAX,
        ;
        sum = sum + heights[members[i]] as u128;
        i = i + 1;
    }
    assert(members@.take(i as int) =~= members@);
    sum
}

// ── units ──────────────────────────────────────────────────────────────────

/// Which unit each node belongs to, and which nodes a cluster has taken.
#[verifier::ext_equal]
pub struct Claims {
    pub unit_of: Seq<usize>,
    pub taken: Seq<bool>,
}

/// Every node is a unit of its own.
pub open spec fn no_claims(n: nat) -> Claims {
    Claims { unit_of: Seq::new(n, |v: int| v as usize), taken: Seq::new(n, |v: int| false) }
}

/// The members become one unit.
pub open spec fn claimed_by(c: Claims, members: Seq<usize>, id: usize) -> Claims {
    Claims {
        unit_of: Seq::new(
            c.unit_of.len(),
            |v: int|
                if members.contains(v as usize) {
                    id
                } else {
                    c.unit_of[v]
                },
        ),
        taken: Seq::new(c.taken.len(), |v: int| members.contains(v as usize) || c.taken[v]),
    }
}

/// The free members of a cluster are to stay together: there are two or more, they stand in one
/// column, and they are no taller than `half` of what a column may be.
pub open spec fn stays_together(
    cluster: Seq<usize>,
    taken: Seq<bool>,
    rank: Seq<i32>,
    heights: Seq<u64>,
    half: u64,
) -> bool {
    let free = free_members(cluster, taken);
    free.len() >= 2 && share_column(free, rank) && height_of(free, heights) <= half
}

/// The claims of the first `k` clusters of `order`.
pub open spec fn claims_of(
    clusters: Seq<Vec<usize>>,
    order: Seq<usize>,
    rank: Seq<i32>,
    heights: Seq<u64>,
    half: u64,
    k: nat,
) -> Claims
    decreases k,
{
    if k == 0 {
        no_claims(rank.len())
    } else {
        let before = claims_of(clusters, order, rank, heights, half, (k - 1) as nat);
        let at = order[k - 1];
        let cluster = clusters[at as int]@;
        if stays_together(cluster, before.taken, rank, heights, half) {
            claimed_by(
                before,
                free_members(cluster, before.taken),
                (rank.len() + at) as usize,
            )
        } else {
            before
        }
    }
}

/// The members of the clusters are nodes.
pub open spec fn are_local(clusters: Seq<Vec<usize>>, n: nat) -> bool {
    forall|c: int, i: int|
        0 <= c < clusters.len() && 0 <= i < clusters[c]@.len() ==> (#[trigger] clusters[c]@[i]) < n
}

proof fn lemma_free_are_members(cluster: Seq<usize>, taken: Seq<bool>, n: nat)
    requires
        forall|i: int| 0 <= i < cluster.len() ==> (#[trigger] cluster[i]) < n,
    ensures
        forall|i: int|
            0 <= i < free_members(cluster, taken).len() ==> (#[trigger] free_members(
                cluster,
                taken,
            )[i]) < n,
    decreases cluster.len(),
{
    if cluster.len() > 0 {
        assert forall|i: int| 0 <= i < cluster.drop_last().len() implies (
        #[trigger] cluster.drop_last()[i]) < n by {
            assert(cluster.drop_last()[i] == cluster[i]);
        }
        lemma_free_are_members(cluster.drop_last(), taken, n);
        assert(cluster[cluster.len() - 1] < n);
        let before = free_members(cluster.drop_last(), taken);
        let now = free_members(cluster, taken);
        assert forall|i: int| 0 <= i < now.len() implies (#[trigger] now[i]) < n by {
            if i < before.len() {
                assert(now[i] == before[i]);
            }
        }
    }
}

/// The unit of each node: a node on its own, or the cluster that it moves with. The smallest
/// clusters choose first, and only a cluster that comfortably fits a column is kept together.
pub fn assign_units(
    clusters: &Vec<Vec<usize>>,
    rank: &Vec<i32>,
    heights: &Vec<u64>,
    half: u64,
) -> (r: Vec<usize>)
    requires
        heights@.len() == rank@.len(),
        rank@.len() <= COMPONENT_LIMIT,
        clusters@.len() <= COMPONENT_LIMIT,
        are_local(clusters@, rank@.len()),
    ensures
        r@.len() == rank@.len(),
        exists|order: Seq<usize>|
            #[trigger] is_by_size(clusters@, order) && r@ == claims_of(
                clusters@,
                order,
                rank@,
                heights@,
                half,
                clusters@.len(),
            ).unit_of,
{
    let n: usize = rank.len();
    let mut unit_of: Vec<usize> = Vec::new();
    let mut taken: Vec<bool> = Vec::new();
    let mut z: usize = 0;
    while z < n
        invariant
            z <= n,
            unit_of@.len() == z,
            taken@.len() == z,
            forall|v: int| 0 <= v < z ==> #[trigger] unit_of@[v] == v,
            forall|v: int| 0 <= v < z ==> !#[trigger] taken@[v],
        decreases n - z,
    {
        unit_of.push(z);
        taken.push(false);
        z = z + 1;
    }
    let order = order_by_size(clusters);
    let mut k: usize = 0;
    assert((Claims { unit_of: unit_of@, taken: taken@ }) =~= no_claims(n as nat));
    while k < order.len()
        invariant
            k <= order@.len(),
            order@.len() == clusters@.len(),
            n == rank@.len(),
            heights@.len() == n,
            n <= COMPONENT_LIMIT,
            clusters@.len() <= COMPONENT_LIMIT,
            are_local(clusters@, n as nat),
            is_by_size(clusters@, order@),
            unit_of@.len() == n,
            taken@.len() == n,
            (Claims { unit_of: unit_of@, taken: taken@ }) == claims_of(
                clusters@,
                order@,
                rank@,
                heights@,
                half,
                k as nat,
            ),
        decreases order@.len() - k,
    {
        let at: usize = order[k];
        assert(order@[k as int] < clusters@.len());
        let ghost cluster = clusters@[at as int]@;
        let ghost before = Claims { unit_of: unit_of@, taken: taken@ };
        proof {
            assert forall|i: int| 0 <= i < cluster.len() implies (#[trigger] cluster[i]) < n by {
                assert(clusters@[at as int]@[i] < n);
            }
            lemma_free_are_members(cluster, taken@, n as nat);
        }
        match movable_members(&clusters[at], &taken, rank) {
            Some(members) => {
                if sum_heights(&members, heights) <= half as u128 {
                    claim_unit(&mut unit_of, &mut taken, &members, n + at);
                    assert((Claims { unit_of: unit_of@, taken: taken@ }) =~= claimed_by(
                        before,
                        members@,
                        (n + at) as usize,
                    ));
                }
            },
            None => {},
        }
        k = k + 1;
    }
    unit_of
}

// ── tall columns ───────────────────────────────────────────────────────────

/// How tall the column `r` is, counting the first `n` nodes.
pub open spec fn column_height(rank: Seq<i32>, heights: Seq<u64>, r: int, n: nat) -> nat
    decreases n,
{
    if n == 0 {
        0
    } else {
        column_height(rank, heights, r, (n - 1) as nat) + if rank[n - 1] == r {
            heights[n - 1] as nat
        } else {
            0
        }
    }
}

/// The column holds more than one unit.
pub open spec fn is_divisible(rank: Seq<i32>, unit_of: Seq<usize>, r: int) -> bool {
    exists|a: int, b: int|
        0 <= a < rank.len() && 0 <= b < rank.len() && #[trigger] rank[a] == r && #[trigger] rank[b]
            == r && unit_of[a] != unit_of[b]
}

/// The column is taller than `cap` and can be split.
pub open spec fn is_tall(
    rank: Seq<i32>,
    unit_of: Seq<usize>,
    heights: Seq<u64>,
    cap: u64,
    r: int,
) -> bool {
    column_height(rank, heights, r, rank.len()) > cap && is_divisible(rank, unit_of, r)
}

/// What stays of the first `k` units of a column: as many as fit, the first in any case.
pub open spec fn kept_height(units: Seq<Unit>, heights: Seq<u64>, cap: u64, k: nat) -> nat
    decreases k,
{
    if k == 0 {
        0
    } else {
        let before = kept_height(units, heights, cap, (k - 1) as nat);
        let more = height_of(units[k - 1].members@, heights);
        if k == 1 || before + more <= cap {
            before + more
        } else {
            before
        }
    }
}

/// The unit at `i` stays in its column.
pub open spec fn stays(units: Seq<Unit>, heights: Seq<u64>, cap: u64, i: int) -> bool {
    i == 0 || kept_height(units, heights, cap, i as nat) + height_of(units[i].members@, heights)
        <= cap
}

/// The node is in a unit that moves.
pub open spec fn moves(units: Seq<Unit>, heights: Seq<u64>, cap: u64, v: int) -> bool {
    exists|i: int|
        0 <= i < units.len() && !stays(units, heights, cap, i) && (
        #[trigger] units[i]).members@.contains(v as usize)
}

/// Columns, and the nearest column that each node leads to.
#[verifier::ext_equal]
pub struct Columns {
    pub rank: Seq<i32>,
    pub nearest: Seq<i32>,
}

/// The first column that is too tall was split: what does not fit moves to a new column behind it.
pub open spec fn is_split(
    from: Columns,
    to: Columns,
    unit_of: Seq<usize>,
    heights: Seq<u64>,
    cap: u64,
    r: int,
    units: Seq<Unit>,
) -> bool {
    &&& r >= 0
    &&& is_tall(from.rank, unit_of, heights, cap, r)
    &&& forall|s: int| 0 <= s < r ==> !#[trigger] is_tall(from.rank, unit_of, heights, cap, s)
    &&& are_units(from.rank, unit_of, from.nearest, r, units)
    &&& to.rank.len() == from.rank.len()
    &&& to.nearest.len() == from.nearest.len()
    &&& forall|v: int|
        0 <= v < to.rank.len() ==> #[trigger] to.rank[v] == split_to(
            from.rank[v] as int,
            r,
            moves(units, heights, cap, v),
        )
    &&& forall|v: int|
        0 <= v < to.nearest.len() ==> #[trigger] to.nearest[v] == split_to(
            from.nearest[v] as int,
            r,
            false,
        )
}

/// One split leads from the columns at `k` to the next.
pub open spec fn is_step(
    steps: Seq<Columns>,
    unit_of: Seq<usize>,
    heights: Seq<u64>,
    cap: u64,
    k: int,
) -> bool {
    exists|r: int, units: Seq<Unit>|
        #[trigger] is_split(steps[k], steps[k + 1], unit_of, heights, cap, r, units)
}

/// `steps` are the columns from split to split, to the end: no column is too tall any more, or the
/// limit is reached.
pub open spec fn is_balancing(
    steps: Seq<Columns>,
    unit_of: Seq<usize>,
    heights: Seq<u64>,
    cap: u64,
) -> bool {
    &&& 1 <= steps.len() <= SPLIT_LIMIT + 1
    &&& forall|k: int|
        0 <= k && k + 1 < steps.len() ==> #[trigger] is_step(steps, unit_of, heights, cap, k)
    &&& steps.len() == SPLIT_LIMIT + 1 || forall|r: int|
        r >= 0 ==> !#[trigger] is_tall(steps.last().rank, unit_of, heights, cap, r)
}

proof fn lemma_height_bound(rank: Seq<i32>, heights: Seq<u64>, r: int, n: nat)
    ensures
        column_height(rank, heights, r, n) <= n * u64::MAX,
    decreases n,
{
    if n > 0 {
        lemma_height_bound(rank, heights, r, (n - 1) as nat);
        assert((n - 1) * u64::MAX + u64::MAX == n * u64::MAX) by (nonlinear_arith);
    } else {
        assert(0 * u64::MAX == 0) by (nonlinear_arith);
    }
}

/// The last column that holds a node; 0 where there is none.
fn last_column(rank: &Vec<i32>) -> (r: i32)
    requires
        forall|v: int| 0 <= v < rank@.len() ==> 0 <= #[trigger] rank@[v] <= COMPONENT_LIMIT,
    ensures
        0 <= r <= COMPONENT_LIMIT,
        forall|v: int| 0 <= v < rank@.len() ==> #[trigger] rank@[v] <= r,
{
    let mut top: i32 = 0;
    let mut i: usize = 0;
    while i < rank.len()
        invariant
            i <= rank@.len(),
            forall|v: int| 0 <= v < rank@.len() ==> 0 <= #[trigger] rank@[v] <= COMPONENT_LIMIT,
            0 <= top <= COMPONENT_LIMIT,
            forall|v: int| 0 <= v < i ==> #[trigger] rank@[v] <= top,
        decreases rank@.len() - i,
    {
        if rank[i] > top {
            top = rank[i];
        }
        i = i + 1;
    }
    top
}

/// The heights of the columns up to `top`.
fn measure_columns(rank: &Vec<i32>, heights: &Vec<u64>, top: i32) -> (r: Vec<u128>)
    requires
        heights@.len() == rank@.len(),
        0 <= top < i32::MAX,
        forall|v: int| 0 <= v < rank@.len() ==> 0 <= #[trigger] rank@[v] <= top,
    ensures
        r@.len() == top + 1,
        forall|c: int|
            0 <= c < r@.len() ==> #[trigger] r@[c] == column_height(
                rank@,
                heights@,
                c,
                rank@.len(),
            ),
{
    let n: usize = rank.len();
    let mut sums: Vec<u128> = Vec::new();
    let mut z: i32 = 0;
    while z <= top
        invariant
            0 <= z <= top + 1,
            top < i32::MAX,
            sums@.len() == z,
            forall|c: int| 0 <= c < z ==> #[trigger] sums@[c] == 0,
        decreases top + 1 - z,
    {
        sums.push(0);
        z = z + 1;
    }
    let mut v: usize = 0;
    while v < n
        invariant
            v <= n,
            n == rank@.len(),
            heights@.len() == n,
            sums@.len() == top + 1,
            forall|v: int| 0 <= v < n ==> 0 <= #[trigger] rank@[v] <= top,
            forall|c: int|
                0 <= c < sums@.len() ==> #[trigger] sums@[c] == column_height(
                    rank@,
                    heights@,
                    c,
                    v as nat,
                ),
        decreases n - v,
    {
        let at: usize = rank[v] as usize;
        proof {
            lemma_height_bound(rank@, heights@, at as int, v as nat);
            assert(v * u64::MAX + u64::MAX <= u128::MAX) by (nonlinear_arith)
                requires
                    v < usize::MAX,
            ;
            assert(sums@[at as int] == column_height(rank@, heights@, at as int, v as nat));
        }
        let sum: u128 = sums[at] + heights[v] as u128;
        sums.set(at, sum);
        v = v + 1;
    }
    sums
}

/// The column holds more than one unit.
fn can_divide(rank: &Vec<i32>, unit_of: &Vec<usize>, r: i32) -> (b: bool)
    requires
        unit_of@.len() == rank@.len(),
    ensures
        b == is_divisible(rank@, unit_of@, r as int),
{
    let n: usize = rank.len();
    let mut first: Option<usize> = None;
    let mut v: usize = 0;
    while v < n
        invariant
            v <= n,
            n == rank@.len(),
            unit_of@.len() == n,
            first matches Some(a) ==> a < v && rank@[a as int] == r && forall|x: int|
                0 <= x < v && #[trigger] rank@[x] == r ==> unit_of@[x] == unit_of@[a as int],
            first is None ==> forall|x: int| 0 <= x < v ==> #[trigger] rank@[x] != r,
        decreases n - v,
    {
        if rank[v] == r {
            match first {
                Some(a) => {
                    if unit_of[a] != unit_of[v] {
                        assert(rank@[a as int] == r && rank@[v as int] == r);
                        return true;
                    }
                },
                None => {
                    first = Some(v);
                },
            }
        }
        v = v + 1;
    }
    false
}

proof fn lemma_no_height(rank: Seq<i32>, heights: Seq<u64>, r: int, n: nat)
    requires
        n <= rank.len(),
        forall|v: int| 0 <= v < n ==> #[trigger] rank[v] != r,
    ensures
        column_height(rank, heights, r, n) == 0,
    decreases n,
{
    if n > 0 {
        lemma_no_height(rank, heights, r, (n - 1) as nat);
    }
}

/// The first column that is too tall.
fn first_tall(rank: &Vec<i32>, unit_of: &Vec<usize>, heights: &Vec<u64>, cap: u64, top: i32) -> (r:
    Option<i32>)
    requires
        unit_of@.len() == rank@.len(),
        heights@.len() == rank@.len(),
        0 <= top < i32::MAX,
        forall|v: int| 0 <= v < rank@.len() ==> 0 <= #[trigger] rank@[v] <= top,
    ensures
        r matches Some(c) ==> 0 <= c <= top && is_tall(rank@, unit_of@, heights@, cap, c as int)
            && forall|s: int|
            0 <= s < c ==> !#[trigger] is_tall(rank@, unit_of@, heights@, cap, s),
        r is None ==> forall|s: int|
            s >= 0 ==> !#[trigger] is_tall(rank@, unit_of@, heights@, cap, s),
{
    let sums = measure_columns(rank, heights, top);
    let mut c: i32 = 0;
    while c <= top
        invariant
            0 <= c <= top + 1,
            0 <= top < i32::MAX,
            unit_of@.len() == rank@.len(),
            sums@.len() == top + 1,
            forall|c: int|
                0 <= c < sums@.len() ==> #[trigger] sums@[c] == column_height(
                    rank@,
                    heights@,
                    c,
                    rank@.len(),
                ),
            forall|s: int| 0 <= s < c ==> !#[trigger] is_tall(rank@, unit_of@, heights@, cap, s),
        decreases top + 1 - c,
    {
        assert(sums@[c as int] == column_height(rank@, heights@, c as int, rank@.len()));
        if sums[c as usize] > cap as u128 && can_divide(rank, unit_of, c) {
            return Some(c);
        }
        c = c + 1;
    }
    proof {
        assert forall|s: int| s >= 0 implies !#[trigger] is_tall(
            rank@,
            unit_of@,
            heights@,
            cap,
            s,
        ) by {
            if s > top {
                assert forall|v: int| 0 <= v < rank@.len() implies #[trigger] rank@[v] != s by {}
                lemma_no_height(rank@, heights@, s, rank@.len());
            }
        }
    }
    None
}

proof fn lemma_heights_fit(count: nat)
    requires
        count <= usize::MAX,
    ensures
        count * u64::MAX < 0xffff_ffff_ffff_ffff_0000_0000_0000_0000,
{
    assert(count * u64::MAX <= usize::MAX * u64::MAX) by (nonlinear_arith)
        requires
            count <= usize::MAX,
    ;
    assert(usize::MAX * u64::MAX <= 0xffff_ffff_ffff_ffff * 0xffff_ffff_ffff_ffff)
        by (nonlinear_arith)
        requires
            usize::MAX <= 0xffff_ffff_ffff_ffff,
    ;
    assert(0xffff_ffff_ffff_ffff * 0xffff_ffff_ffff_ffff
        < 0xffff_ffff_ffff_ffff_0000_0000_0000_0000) by (nonlinear_arith);
}

fn mark_members(moved: &mut Vec<bool>, members: &Vec<usize>)
    requires
        forall|j: int| 0 <= j < members@.len() ==> (#[trigger] members@[j]) < old(moved)@.len(),
    ensures
        final(moved)@.len() == old(moved)@.len(),
        forall|v: int|
            0 <= v < final(moved)@.len() ==> #[trigger] final(moved)@[v] == (old(moved)@[v]
                || members@.contains(v as usize)),
{
    let ghost was = moved@;
    let n: usize = moved.len();
    let count: usize = members.len();
    let mut j: usize = 0;
    while j < count
        invariant
            j <= count == members@.len(),
            moved@.len() == was.len() == n,
            forall|j: int| 0 <= j < count ==> (#[trigger] members@[j]) < was.len(),
            forall|v: int|
                0 <= v < was.len() ==> (#[trigger] moved@[v] <==> was[v] || exists|k: int|
                    0 <= k < j && #[trigger] members@[k] == v),
        decreases count - j,
    {
        let x: usize = members[j];
        let ghost mid = moved@;
        moved.set(x, true);
        assert forall|v: int| 0 <= v < was.len() implies (#[trigger] moved@[v] <==> was[v]
            || exists|k: int| 0 <= k < j + 1 && #[trigger] members@[k] == v) by {
            if v == x {
                assert(members@[j as int] == v);
            } else {
                assert(moved@[v] == mid[v]);
            }
        }
        j = j + 1;
    }
    assert forall|v: int| 0 <= v < was.len() implies #[trigger] moved@[v] == (was[v]
        || members@.contains(v as usize)) by {
        if moved@[v] && !was[v] {
            let k = choose|k: int| 0 <= k < count && #[trigger] members@[k] == v;
            assert(members@[k] == v as usize);
        }
        if members@.contains(v as usize) {
            let k = choose|k: int| 0 <= k < count && members@[k] == v as usize;
            assert(members@[k] == v);
        }
    }
}

/// Marks the nodes whose units do not fit in their column.
#[verifier::spinoff_prover]
#[verifier::rlimit(40)]
fn mark_moved(units: &Vec<Unit>, heights: &Vec<u64>, cap: u64) -> (moved: Vec<bool>)
    requires
        heights@.len() <= COMPONENT_LIMIT,
        forall|i: int, j: int|
            0 <= i < units@.len() && 0 <= j < units@[i].members@.len() ==> (
            #[trigger] units@[i].members@[j]) < heights@.len(),
    ensures
        moved@.len() == heights@.len(),
        forall|v: int|
            0 <= v < moved@.len() ==> #[trigger] moved@[v] == moves(units@, heights@, cap, v),
{
    let n: usize = heights.len();
    let mut moved: Vec<bool> = Vec::new();
    let mut z: usize = 0;
    while z < n
        invariant
            z <= n,
            moved@.len() == z,
            forall|v: int| 0 <= v < z ==> !#[trigger] moved@[v],
        decreases n - z,
    {
        moved.push(false);
        z = z + 1;
    }
    let mut kept: u128 = 0;
    let mut i: usize = 0;
    while i < units.len()
        invariant
            i <= units@.len(),
            n == heights@.len(),
            n <= COMPONENT_LIMIT,
            moved@.len() == n,
            forall|i: int, j: int|
                0 <= i < units@.len() && 0 <= j < units@[i].members@.len() ==> (
                #[trigger] units@[i].members@[j]) < n,
            kept == kept_height(units@, heights@, cap, i as nat),
            i == 0 ==> kept == 0,
            kept <= 0xffff_ffff_ffff_ffff_0000_0000_0000_0000,
            forall|v: int|
                0 <= v < n ==> (#[trigger] moved@[v] <==> exists|k: int|
                    0 <= k < i && !stays(units@, heights@, cap, k) && (
                    #[trigger] units@[k]).members@.contains(v as usize)),
        decreases units@.len() - i,
    {
        let unit = &units[i];
        assert forall|j: int| 0 <= j < unit.members@.len() implies (#[trigger] unit.members@[j]) < n by {
            assert(units@[i as int].members@[j] < n);
        }
        let h: u128 = sum_heights(&unit.members, heights);
        proof {
            assert(unit.members@.len() == unit.members.len());
            lemma_heights_fit(unit.members@.len());
        }
        let ghost was = moved@;
        let fits: bool = i == 0 || (kept <= cap as u128 && h <= cap as u128 - kept);
        assert(fits == stays(units@, heights@, cap, i as int));
        if fits {
            kept = kept + h;
            assert forall|v: int| 0 <= v < n implies (#[trigger] moved@[v] <==> exists|k: int|
                0 <= k < i + 1 && !stays(units@, heights@, cap, k) && (
                #[trigger] units@[k]).members@.contains(v as usize)) by {}
        } else {
            mark_members(&mut moved, &unit.members);
            assert forall|v: int| 0 <= v < n implies (#[trigger] moved@[v] <==> exists|k: int|
                0 <= k < i + 1 && !stays(units@, heights@, cap, k) && (
                #[trigger] units@[k]).members@.contains(v as usize)) by {
                assert(moved@[v] == (was[v] || units@[i as int].members@.contains(v as usize)));
            }
        }
        i = i + 1;
    }
    moved
}

/// Splits columns that are taller than `cap` until none is left that can be split. `half` is what a
/// cluster may take up to be kept together.
pub fn balance_columns(
    rank: &Vec<i32>,
    pairs: &Vec<(usize, usize)>,
    clusters: &Vec<Vec<usize>>,
    heights: &Vec<u64>,
    cap: u64,
    half: u64,
) -> (r: Vec<i32>)
    requires
        rank@.len() <= COMPONENT_LIMIT,
        heights@.len() == rank@.len(),
        clusters@.len() <= COMPONENT_LIMIT,
        are_local(clusters@, rank@.len()),
        pairs_below(rank@.len(), pairs@),
        forall|v: int|
            0 <= v < rank@.len() ==> 0 <= #[trigger] rank@[v] <= COMPONENT_LIMIT - SPLIT_LIMIT,
    ensures
        are_balanced(rank@, pairs@, clusters@, heights@, cap, half, r@),
        r@.len() == rank@.len(),
        forall|v: int|
            0 <= v < r@.len() ==> 0 <= #[trigger] r@[v] <= COMPONENT_LIMIT,
{
    let n: usize = rank.len();
    let units = assign_units(clusters, rank, heights, half);
    let ghost unit_of = units@;
    let mut now: Vec<i32> = Vec::new();
    let mut z: usize = 0;
    while z < n
        invariant
            z <= n,
            n == rank@.len(),
            now@ == rank@.take(z as int),
        decreases n - z,
    {
        now.push(rank[z]);
        z = z + 1;
        assert(now@ =~= rank@.take(z as int));
    }
    assert(now@ =~= rank@);
    let mut near = nearest_successors(pairs, rank);
    let ghost nearest = near@;
    let ghost mut steps: Seq<Columns> = seq![(Columns { rank: rank@, nearest })];
    let mut k: usize = 0;
    let mut more: bool = true;
    proof {
        assert forall|v: int| 0 <= v < near@.len() implies #[trigger] near@[v] <= NO_SUCCESSOR by {
            lemma_nearest_bound(pairs@, rank@, v);
        }
    }
    while k < SPLIT_LIMIT && more
        invariant
            k <= SPLIT_LIMIT,
            n == rank@.len(),
            n <= COMPONENT_LIMIT,
            units@ == unit_of,
            units@.len() == n,
            heights@.len() == n,
            now@.len() == n,
            near@.len() == n,
            forall|v: int| 0 <= v < n ==> 0 <= #[trigger] now@[v] <= COMPONENT_LIMIT
                - SPLIT_LIMIT + k,
            forall|v: int| 0 <= v < n ==> #[trigger] near@[v] <= NO_SUCCESSOR + k,
            steps.len() >= 1,
            steps[0] == (Columns { rank: rank@, nearest }),
            steps.last() == (Columns { rank: now@, nearest: near@ }),
            more ==> steps.len() == k + 1,
            steps.len() <= SPLIT_LIMIT + 1,
            !more ==> forall|s: int|
                s >= 0 ==> !#[trigger] is_tall(now@, unit_of, heights@, cap, s),
            forall|j: int|
                0 <= j && j + 1 < steps.len() ==> #[trigger] is_step(
                    steps,
                    unit_of,
                    heights@,
                    cap,
                    j,
                ),
        decreases SPLIT_LIMIT - k, (if more { 1int } else { 0 }),
    {
        let top: i32 = last_column(&now);
        match first_tall(&now, &units, heights, cap, top) {
            Some(r) => {
                let ghost from = steps.last();
                let list = units_of_rank(&now, &units, &near, r);
                proof {
                    assert forall|i: int, j: int|
                        0 <= i < list@.len() && 0 <= j < list@[i].members@.len() implies (
                    #[trigger] list@[i].members@[j]) < n by {
                        lemma_unit_members(now@, unit_of, r as int, list@[i].id, n as nat);
                        assert(list@[i].members@ == unit_members(
                            now@,
                            unit_of,
                            r as int,
                            list@[i].id,
                            n as nat,
                        ));
                    }
                }
                let moved = mark_moved(&list, heights, cap);
                split_rank(&mut now, &mut near, r, &moved);
                proof {
                    let to = Columns { rank: now@, nearest: near@ };
                    assert(is_split(from, to, unit_of, heights@, cap, r as int, list@));
                    let longer = steps.push(to);
                    assert forall|j: int| 0 <= j && j + 1 < longer.len() implies #[trigger] is_step(
                        longer,
                        unit_of,
                        heights@,
                        cap,
                        j,
                    ) by {
                        if j + 1 < steps.len() {
                            assert(is_step(steps, unit_of, heights@, cap, j));
                            assert(longer[j] == steps[j] && longer[j + 1] == steps[j + 1]);
                        } else {
                            assert(longer[j] == from && longer[j + 1] == to);
                        }
                    }
                    steps = longer;
                }
                k = k + 1;
            },
            None => {
                more = false;
            },
        }
    }
    proof {
        let order = choose|order: Seq<usize>|
            #[trigger] is_by_size(clusters@, order) && unit_of == claims_of(
                clusters@,
                order,
                rank@,
                heights@,
                half,
                clusters@.len(),
            ).unit_of;
        assert(is_balanced(
            rank@,
            pairs@,
            clusters@,
            heights@,
            cap,
            half,
            order,
            nearest,
            steps,
            now@,
        ));
        reveal(are_balanced);
    }
    now
}

/// `r` are the columns after balancing: clusters in the order of their sizes claim their units, and
/// the splits lead from `rank` to `r`.
pub open spec fn is_balanced(
    rank: Seq<i32>,
    pairs: Seq<(usize, usize)>,
    clusters: Seq<Vec<usize>>,
    heights: Seq<u64>,
    cap: u64,
    half: u64,
    order: Seq<usize>,
    nearest: Seq<i32>,
    steps: Seq<Columns>,
    r: Seq<i32>,
) -> bool {
    let unit_of = claims_of(clusters, order, rank, heights, half, clusters.len()).unit_of;
    &&& is_by_size(clusters, order)
    &&& nearest.len() == rank.len()
    &&& forall|v: int|
        0 <= v < nearest.len() ==> #[trigger] nearest[v] == nearest_after(pairs, rank, v)
    &&& is_balancing(steps, unit_of, heights, cap)
    &&& steps[0] == (Columns { rank, nearest })
    &&& steps.last().rank == r
}

/// `r` are the columns after balancing.
#[verifier::opaque]
pub open spec fn are_balanced(
    rank: Seq<i32>,
    pairs: Seq<(usize, usize)>,
    clusters: Seq<Vec<usize>>,
    heights: Seq<u64>,
    cap: u64,
    half: u64,
    r: Seq<i32>,
) -> bool {
    exists|order: Seq<usize>, nearest: Seq<i32>, steps: Seq<Columns>|
        #[trigger] is_balanced(
            rank,
            pairs,
            clusters,
            heights,
            cap,
            half,
            order,
            nearest,
            steps,
            r,
        )
}

proof fn lemma_nearest_bound(pairs: Seq<(usize, usize)>, rank: Seq<i32>, v: int)
    ensures
        nearest_after(pairs, rank, v) <= NO_SUCCESSOR,
    decreases pairs.len(),
{
    if pairs.len() > 0 {
        lemma_nearest_bound(pairs.drop_last(), rank, v);
    }
}

/// No balancing turns an edge around: what runs from column to column before a split runs on after
/// it.
pub proof fn splits_keep_direction(
    from: Columns,
    to: Columns,
    unit_of: Seq<usize>,
    heights: Seq<u64>,
    cap: u64,
    r: int,
    units: Seq<Unit>,
    a: int,
    b: int,
)
    requires
        is_split(from, to, unit_of, heights, cap, r, units),
        from.rank.len() <= usize::MAX,
        0 <= a < from.rank.len(),
        0 <= b < from.rank.len(),
        from.rank[a] < from.rank[b],
    ensures
        to.rank[a] < to.rank[b],
{
    assert forall|v: int| 0 <= v < from.rank.len() && moves(
        units,
        heights,
        cap,
        v,
    ) implies from.rank[v] == r by {
        let i = choose|i: int|
            0 <= i < units.len() && !stays(units, heights, cap, i) && (
            #[trigger] units[i]).members@.contains(v as usize);
        lemma_members_stand(from.rank, unit_of, r, units[i].id, from.rank.len());
        let j = choose|j: int|
            0 <= j < units[i].members@.len() && units[i].members@[j] == v as usize;
        assert(unit_members(
            from.rank,
            unit_of,
            r,
            units[i].id,
            from.rank.len(),
        )[j] == v as usize);
    }
}

/// A split moves a unit whole or not at all: nodes of one unit that share a column share one after it.
pub proof fn splits_keep_units_whole(
    from: Columns,
    to: Columns,
    unit_of: Seq<usize>,
    heights: Seq<u64>,
    cap: u64,
    r: int,
    units: Seq<Unit>,
    a: int,
    b: int,
)
    requires
        is_split(from, to, unit_of, heights, cap, r, units),
        from.rank.len() <= usize::MAX,
        0 <= a < from.rank.len(),
        0 <= b < from.rank.len(),
        from.rank[a] == from.rank[b],
        unit_of[a] == unit_of[b],
    ensures
        to.rank[a] == to.rank[b],
{
    if moves(units, heights, cap, a) {
        lemma_moves_along(from, unit_of, heights, cap, r, units, a, b);
    }
    if moves(units, heights, cap, b) {
        lemma_moves_along(from, unit_of, heights, cap, r, units, b, a);
    }
}

/// Where a node moves, the nodes of its unit in the same column move too.
proof fn lemma_moves_along(
    from: Columns,
    unit_of: Seq<usize>,
    heights: Seq<u64>,
    cap: u64,
    r: int,
    units: Seq<Unit>,
    a: int,
    b: int,
)
    requires
        are_units(from.rank, unit_of, from.nearest, r, units),
        from.rank.len() <= usize::MAX,
        0 <= a < from.rank.len(),
        0 <= b < from.rank.len(),
        from.rank[a] == from.rank[b],
        unit_of[a] == unit_of[b],
        moves(units, heights, cap, a),
    ensures
        moves(units, heights, cap, b),
{
    let n = from.rank.len();
    let i = choose|i: int|
        0 <= i < units.len() && !stays(units, heights, cap, i) && (
        #[trigger] units[i]).members@.contains(a as usize);
    lemma_members_stand(from.rank, unit_of, r, units[i].id, n);
    lemma_unit_members(from.rank, unit_of, r, units[i].id, n);
    let members = unit_members(from.rank, unit_of, r, units[i].id, n);
    let j = choose|j: int| 0 <= j < members.len() && members[j] == a as usize;
    assert(unit_of[members[j] as int] == units[i].id && from.rank[members[j] as int] == r);
    assert(units[i].members@.contains(b as usize));
}

/// Balancing keeps what stands together together: nodes of one unit that share a column share one
/// in the end, however often columns are split.
pub proof fn balancing_keeps_units_whole(
    steps: Seq<Columns>,
    unit_of: Seq<usize>,
    heights: Seq<u64>,
    cap: u64,
    a: int,
    b: int,
)
    requires
        is_balancing(steps, unit_of, heights, cap),
        steps[0].rank.len() <= usize::MAX,
        0 <= a < steps[0].rank.len(),
        0 <= b < steps[0].rank.len(),
        steps[0].rank[a] == steps[0].rank[b],
        unit_of[a] == unit_of[b],
    ensures
        steps.last().rank[a] == steps.last().rank[b],
{
    lemma_whole_to(steps, unit_of, heights, cap, a, b, steps.len() - 1);
}

proof fn lemma_whole_to(
    steps: Seq<Columns>,
    unit_of: Seq<usize>,
    heights: Seq<u64>,
    cap: u64,
    a: int,
    b: int,
    k: int,
)
    requires
        is_balancing(steps, unit_of, heights, cap),
        steps[0].rank.len() <= usize::MAX,
        0 <= a < steps[0].rank.len(),
        0 <= b < steps[0].rank.len(),
        steps[0].rank[a] == steps[0].rank[b],
        unit_of[a] == unit_of[b],
        0 <= k < steps.len(),
    ensures
        steps[k].rank.len() == steps[0].rank.len(),
        steps[k].rank[a] == steps[k].rank[b],
    decreases k,
{
    if k > 0 {
        lemma_whole_to(steps, unit_of, heights, cap, a, b, k - 1);
        assert(is_step(steps, unit_of, heights, cap, k - 1));
        let (r, units) = choose|r: int, units: Seq<Unit>|
            #[trigger] is_split(
                steps[k - 1],
                steps[k - 1 + 1],
                unit_of,
                heights,
                cap,
                r,
                units,
            );
        splits_keep_units_whole(
            steps[k - 1],
            steps[k],
            unit_of,
            heights,
            cap,
            r,
            units,
            a,
            b,
        );
    }
}

/// No balancing turns an edge around, however often columns are split.
pub proof fn balancing_keeps_direction(
    steps: Seq<Columns>,
    unit_of: Seq<usize>,
    heights: Seq<u64>,
    cap: u64,
    a: int,
    b: int,
    k: int,
)
    requires
        is_balancing(steps, unit_of, heights, cap),
        steps[0].rank.len() <= usize::MAX,
        0 <= a < steps[0].rank.len(),
        0 <= b < steps[0].rank.len(),
        steps[0].rank[a] < steps[0].rank[b],
        0 <= k < steps.len(),
    ensures
        steps[k].rank.len() == steps[0].rank.len(),
        steps[k].rank[a] < steps[k].rank[b],
    decreases k,
{
    if k > 0 {
        balancing_keeps_direction(steps, unit_of, heights, cap, a, b, k - 1);
        assert(is_step(steps, unit_of, heights, cap, k - 1));
        let (r, units) = choose|r: int, units: Seq<Unit>|
            #[trigger] is_split(
                steps[k - 1],
                steps[k - 1 + 1],
                unit_of,
                heights,
                cap,
                r,
                units,
            );
        splits_keep_direction(steps[k - 1], steps[k], unit_of, heights, cap, r, units, a, b);
    }
}

/// Tall columns are split: in the end no column with more than one node that could move on its own is
/// taller than `cap`, unless 2048 splits were made. Without clusters every node can.
pub proof fn tall_columns_are_split(
    rank: Seq<i32>,
    pairs: Seq<(usize, usize)>,
    heights: Seq<u64>,
    cap: u64,
    half: u64,
    r: Seq<i32>,
    a: int,
    b: int,
)
    requires
        are_balanced(rank, pairs, Seq::empty(), heights, cap, half, r),
        r.len() <= usize::MAX,
        0 <= a < r.len(),
        0 <= b < r.len(),
        a != b,
        r[a] == r[b],
        r[a] >= 0,
        r.len() == rank.len(),
    ensures
        column_height(r, heights, r[a] as int, r.len()) <= cap || exists|
            steps: Seq<Columns>,
            unit_of: Seq<usize>,
        |
            #[trigger] is_balancing(steps, unit_of, heights, cap) && steps.len() == 2049
                && steps[0].rank == rank && steps.last().rank == r,
{
    reveal(are_balanced);
    let none = Seq::<Vec<usize>>::empty();
    let (order, nearest, steps) = choose|
        order: Seq<usize>,
        nearest: Seq<i32>,
        steps: Seq<Columns>,
    |
        #[trigger] is_balanced(
            rank,
            pairs,
            none,
            heights,
            cap,
            half,
            order,
            nearest,
            steps,
            r,
        );
    let unit_of = claims_of(none, order, rank, heights, half, none.len()).unit_of;
    assert(is_balancing(steps, unit_of, heights, cap));
    if steps.len() != 2049 {
        assert(unit_of[a] == a && unit_of[b] == b);
        assert(!is_tall(steps.last().rank, unit_of, heights, cap, r[a] as int));
        assert(is_divisible(r, unit_of, r[a] as int)) by {
            assert(r[a] == r[a] && r[b] == r[a] && unit_of[a] != unit_of[b]);
        }
    }
}

proof fn lemma_members_stand(rank: Seq<i32>, unit_of: Seq<usize>, r: int, unit: usize, n: nat)
    requires
        n <= rank.len() <= usize::MAX,
    ensures
        forall|i: int|
            0 <= i < unit_members(rank, unit_of, r, unit, n).len() ==> rank[(
            #[trigger] unit_members(rank, unit_of, r, unit, n)[i]) as int] == r,
        forall|i: int|
            0 <= i < unit_members(rank, unit_of, r, unit, n).len() ==> unit_of[(
            #[trigger] unit_members(rank, unit_of, r, unit, n)[i]) as int] == unit,
    decreases n,
{
    if n > 0 {
        lemma_members_stand(rank, unit_of, r, unit, (n - 1) as nat);
        let before = unit_members(rank, unit_of, r, unit, (n - 1) as nat);
        let now = unit_members(rank, unit_of, r, unit, n);
        assert forall|i: int| 0 <= i < now.len() implies rank[(#[trigger] now[i]) as int] == r
            && unit_of[now[i] as int] == unit by {
            if i < before.len() {
                assert(now[i] == before[i]);
            }
        }
    }
}

} // verus!
