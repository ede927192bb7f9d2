//! Crossings: how many links between neighbouring columns cross, and what swapping two neighbours in
//! a column does to that number.

use vstd::prelude::*;

use crate::adjacency::{
    list_sources, list_targets, lists_sources, lists_targets, pairs_below, sources, targets,
};

verus! {

/// The most links a component may have for crossings to be counted in machine integers.
pub const LINK_LIMIT: usize = 0x3000_0000;

/// The links between neighbouring columns, and who is linked to whom.
pub struct Wiring {
    pub links: Vec<(usize, usize)>,
    /// The nodes one column to the left that each node is linked to.
    pub ins: Vec<Vec<usize>>,
    /// The nodes one column to the right that each node is linked to.
    pub outs: Vec<Vec<usize>>,
}

impl Wiring {
    /// The lists fit the links, which join `n` nodes.
    pub open spec fn wires(self, n: nat) -> bool {
        &&& pairs_below(n, self.links@)
        &&& self.links@.len() <= LINK_LIMIT
        &&& lists_sources(n, self.links@, self.ins@)
        &&& lists_targets(n, self.links@, self.outs@)
    }
}

/// Lists who is linked to whom.
pub fn wire(n: usize, links: Vec<(usize, usize)>) -> (r: Wiring)
    requires
        pairs_below(n as nat, links@),
        links@.len() <= LINK_LIMIT,
    ensures
        r.wires(n as nat),
        r.links@ == links@,
{
    let ins = list_sources(n, &links);
    let outs = list_targets(n, &links);
    Wiring { links, ins, outs }
}

// ── the columns ────────────────────────────────────────────────────────────

/// The nodes of each column, top to bottom, and the place of each node in its column.
pub struct Board {
    pub rows: Vec<Vec<usize>>,
    pub place: Vec<usize>,
}

/// Every node stands in its column, once, at its place.
pub open spec fn is_arranged(rank: Seq<i32>, rows: Seq<Vec<usize>>, place: Seq<usize>) -> bool {
    &&& place.len() == rank.len()
    &&& forall|v: int|
        0 <= v < rank.len() ==> 0 <= #[trigger] rank[v] < rows.len() && place[v]
            < rows[rank[v] as int]@.len() && rows[rank[v] as int]@[place[v] as int] == v
    &&& forall|c: int, i: int|
        0 <= c < rows.len() && 0 <= i < rows[c]@.len() ==> (#[trigger] rows[c]@[i]) < rank.len()
            && rank[rows[c]@[i] as int] == c && place[rows[c]@[i] as int] == i
}

impl Board {
    /// Every node stands in its column, once, at its place.
    pub open spec fn arranges(self, rank: Seq<i32>) -> bool {
        is_arranged(rank, self.rows@, self.place@)
    }
}

/// Links run from one column to the next.
pub open spec fn links_columns(rank: Seq<i32>, links: Seq<(usize, usize)>) -> bool {
    forall|k: int|
        0 <= k < links.len() ==> (#[trigger] links[k]).0 < rank.len() && links[k].1 < rank.len()
            && rank[links[k].1 as int] == rank[links[k].0 as int] + 1
}

// ── counting ───────────────────────────────────────────────────────────────

/// The two links leave one column and cross on the way to the next.
pub open spec fn cross(
    rank: Seq<i32>,
    place: Seq<usize>,
    l: (usize, usize),
    k: (usize, usize),
) -> bool {
    &&& rank[l.0 as int] == rank[k.0 as int]
    &&& (place[l.0 as int] < place[k.0 as int] && place[l.1 as int] > place[k.1 as int]) || (
    place[l.0 as int] > place[k.0 as int] && place[l.1 as int] < place[k.1 as int])
}

/// How many of `links` the link `l` crosses.
pub open spec fn crossed_by(
    rank: Seq<i32>,
    place: Seq<usize>,
    links: Seq<(usize, usize)>,
    l: (usize, usize),
) -> int
    decreases links.len(),
{
    if links.len() == 0 {
        0
    } else {
        crossed_by(rank, place, links.drop_last(), l) + (if cross(rank, place, links.last(), l) {
            1int
        } else {
            0
        })
    }
}

/// How many pairs of links cross.
pub open spec fn crossings(rank: Seq<i32>, place: Seq<usize>, links: Seq<(usize, usize)>) -> int
    decreases links.len(),
{
    if links.len() == 0 {
        0
    } else {
        crossings(rank, place, links.drop_last()) + crossed_by(
            rank,
            place,
            links.drop_last(),
            links.last(),
        )
    }
}

/// How many of `ys` stand above `x`.
pub open spec fn above(place: Seq<usize>, x: usize, ys: Seq<usize>) -> int
    decreases ys.len(),
{
    if ys.len() == 0 {
        0
    } else {
        above(place, x, ys.drop_last()) + (if place[x as int] > place[ys.last() as int] {
            1int
        } else {
            0
        })
    }
}

/// How many of `ys` stand below `x`.
pub open spec fn below(place: Seq<usize>, x: usize, ys: Seq<usize>) -> int
    decreases ys.len(),
{
    if ys.len() == 0 {
        0
    } else {
        below(place, x, ys.drop_last()) + (if place[x as int] < place[ys.last() as int] {
            1int
        } else {
            0
        })
    }
}

/// How many pairs of one of `xs` and one of `ys` have the one of `ys` above.
pub open spec fn all_above(place: Seq<usize>, xs: Seq<usize>, ys: Seq<usize>) -> int
    decreases xs.len(),
{
    if xs.len() == 0 {
        0
    } else {
        all_above(place, xs.drop_last(), ys) + above(place, xs.last(), ys)
    }
}

/// How many pairs of one of `xs` and one of `ys` have the one of `ys` below.
pub open spec fn all_below(place: Seq<usize>, xs: Seq<usize>, ys: Seq<usize>) -> int
    decreases xs.len(),
{
    if xs.len() == 0 {
        0
    } else {
        all_below(place, xs.drop_last(), ys) + below(place, xs.last(), ys)
    }
}

/// How many crossings the links of `a` and `b` make with `a` above `b`.
pub open spec fn cost_above(place: Seq<usize>, links: Seq<(usize, usize)>, a: int, b: int) -> int {
    all_above(place, sources(links, a), sources(links, b)) + all_above(
        place,
        targets(links, a),
        targets(links, b),
    )
}

/// How many crossings the links of `a` and `b` make with `b` above `a`.
pub open spec fn cost_below(place: Seq<usize>, links: Seq<(usize, usize)>, a: int, b: int) -> int {
    all_below(place, sources(links, a), sources(links, b)) + all_below(
        place,
        targets(links, a),
        targets(links, b),
    )
}

// ── swapping ───────────────────────────────────────────────────────────────

/// The places after `a` and `b` have changed theirs.
pub open spec fn exchanged(place: Seq<usize>, a: int, b: int) -> Seq<usize> {
    place.update(a, place[b]).update(b, place[a])
}

proof fn lemma_above_push(place: Seq<usize>, x: usize, ys: Seq<usize>, y: usize)
    ensures
        above(place, x, ys.push(y)) == above(place, x, ys) + (if place[x as int] > place[y as int] {
            1int
        } else {
            0
        }),
        below(place, x, ys.push(y)) == below(place, x, ys) + (if place[x as int] < place[y as int] {
            1int
        } else {
            0
        }),
{
    assert(ys.push(y).drop_last() =~= ys);
}

/// One more on the right side.
proof fn lemma_all_push_right(place: Seq<usize>, xs: Seq<usize>, ys: Seq<usize>, y: usize)
    ensures
        all_above(place, xs, ys.push(y)) == all_above(place, xs, ys) + below(place, y, xs),
        all_below(place, xs, ys.push(y)) == all_below(place, xs, ys) + above(place, y, xs),
    decreases xs.len(),
{
    if xs.len() > 0 {
        lemma_all_push_right(place, xs.drop_last(), ys, y);
        lemma_above_push(place, xs.last(), ys, y);
    }
}

/// One more on the left side.
proof fn lemma_all_push_left(place: Seq<usize>, xs: Seq<usize>, x: usize, ys: Seq<usize>)
    ensures
        all_above(place, xs.push(x), ys) == all_above(place, xs, ys) + above(place, x, ys),
        all_below(place, xs.push(x), ys) == all_below(place, xs, ys) + below(place, x, ys),
{
    assert(xs.push(x).drop_last() =~= xs);
}

/// What a swap of `a` and `b` changes about the crossings of `l` with `links`.
spec fn shift_of(
    place: Seq<usize>,
    links: Seq<(usize, usize)>,
    l: (usize, usize),
    a: int,
    b: int,
) -> int {
    (if l.0 == a {
        below(place, l.1, targets(links, b)) - above(place, l.1, targets(links, b))
    } else {
        0
    }) + (if l.0 == b {
        above(place, l.1, targets(links, a)) - below(place, l.1, targets(links, a))
    } else {
        0
    }) + (if l.1 == a {
        below(place, l.0, sources(links, b)) - above(place, l.0, sources(links, b))
    } else {
        0
    }) + (if l.1 == b {
        above(place, l.0, sources(links, a)) - below(place, l.0, sources(links, a))
    } else {
        0
    })
}

spec fn one(b: bool) -> int {
    if b { 1 } else { 0 }
}

/// `a` and `b` are neighbours in one column, and everything else stands above or below both.
pub open spec fn are_neighbours(rank: Seq<i32>, place: Seq<usize>, a: int, b: int) -> bool {
    &&& place.len() == rank.len()
    &&& 0 <= a < rank.len()
    &&& 0 <= b < rank.len()
    &&& rank[a] == rank[b]
    &&& place[b] == place[a] + 1
    &&& forall|v: int|
        0 <= v < rank.len() && #[trigger] rank[v] == rank[a] && v != a && v != b ==> place[v]
            < place[a] || place[v] > place[b]
}

#[verifier::spinoff_prover]
proof fn lemma_cross_shift(
    rank: Seq<i32>,
    place: Seq<usize>,
    k: (usize, usize),
    l: (usize, usize),
    a: int,
    b: int,
)
    requires
        are_neighbours(rank, place, a, b),
        k.0 < rank.len(),
        k.1 < rank.len(),
        l.0 < rank.len(),
        l.1 < rank.len(),
        rank[k.1 as int] == rank[k.0 as int] + 1,
        rank[l.1 as int] == rank[l.0 as int] + 1,
    ensures
        one(cross(rank, exchanged(place, a, b), k, l)) - one(cross(rank, place, k, l)) == (if l.0
            == a && k.0 == b {
            one(place[l.1 as int] < place[k.1 as int]) - one(place[l.1 as int] > place[k.1 as int])
        } else {
            0
        }) + (if l.0 == b && k.0 == a {
            one(place[l.1 as int] > place[k.1 as int]) - one(place[l.1 as int] < place[k.1 as int])
        } else {
            0
        }) + (if l.1 == a && k.1 == b {
            one(place[l.0 as int] < place[k.0 as int]) - one(place[l.0 as int] > place[k.0 as int])
        } else {
            0
        }) + (if l.1 == b && k.1 == a {
            one(place[l.0 as int] > place[k.0 as int]) - one(place[l.0 as int] < place[k.0 as int])
        } else {
            0
        }),
{
    let now = exchanged(place, a, b);
    assert(a != b);
    let (k0, k1, l0, l1) = (k.0 as int, k.1 as int, l.0 as int, l.1 as int);
    assert forall|v: int| 0 <= v < rank.len() && v != a && v != b implies #[trigger] now[v] == place[v] by {}
    assert(now[a] == place[b] && now[b] == place[a]);
    if rank[k0] == rank[l0] {
        if rank[l0] == rank[a] {
            assert(rank[k1] != rank[a] && rank[l1] != rank[a]);
            assert(now[k1] == place[k1] && now[l1] == place[l1]);
        } else if rank[l1] == rank[a] {
            assert(rank[k0] != rank[a]);
            assert(now[k0] == place[k0] && now[l0] == place[l0]);
        } else {
            assert(now[k0] == place[k0] && now[l0] == place[l0]);
            assert(now[k1] == place[k1] && now[l1] == place[l1]);
        }
    }
}

#[verifier::spinoff_prover]
proof fn lemma_crossed_shift(
    rank: Seq<i32>,
    place: Seq<usize>,
    links: Seq<(usize, usize)>,
    l: (usize, usize),
    a: int,
    b: int,
)
    requires
        are_neighbours(rank, place, a, b),
        links_columns(rank, links),
        l.0 < rank.len(),
        l.1 < rank.len(),
        rank[l.1 as int] == rank[l.0 as int] + 1,
    ensures
        crossed_by(rank, exchanged(place, a, b), links, l) - crossed_by(rank, place, links, l)
            == shift_of(place, links, l, a, b),
    decreases links.len(),
{
    if links.len() > 0 {
        let rest = links.drop_last();
        let k = links.last();
        assert(links[links.len() - 1] == k);
        assert forall|j: int| 0 <= j < rest.len() implies (#[trigger] rest[j]).0 < rank.len()
            && rest[j].1 < rank.len() && rank[rest[j].1 as int] == rank[rest[j].0 as int] + 1 by {
            assert(rest[j] == links[j]);
        }
        lemma_crossed_shift(rank, place, rest, l, a, b);
        lemma_cross_shift(rank, place, k, l, a, b);
        if k.0 == a {
            lemma_above_push(place, l.1, targets(rest, a), k.1);
        }
        if k.0 == b {
            lemma_above_push(place, l.1, targets(rest, b), k.1);
        }
        if k.1 == a {
            lemma_above_push(place, l.0, sources(rest, a), k.0);
        }
        if k.1 == b {
            lemma_above_push(place, l.0, sources(rest, b), k.0);
        }
    }
}

/// Swapping two neighbours of a column changes the number of crossings by exactly what their own
/// links make of it: those with the lower one on top, less those with the upper one on top.
pub proof fn swapping_neighbours(
    rank: Seq<i32>,
    place: Seq<usize>,
    links: Seq<(usize, usize)>,
    a: int,
    b: int,
)
    requires
        are_neighbours(rank, place, a, b),
        links_columns(rank, links),
    ensures
        crossings(rank, exchanged(place, a, b), links) == crossings(rank, place, links)
            + cost_below(place, links, a, b) - cost_above(place, links, a, b),
    decreases links.len(),
{
    if links.len() > 0 {
        let rest = links.drop_last();
        let l = links.last();
        assert(links[links.len() - 1] == l);
        assert forall|j: int| 0 <= j < rest.len() implies (#[trigger] rest[j]).0 < rank.len()
            && rest[j].1 < rank.len() && rank[rest[j].1 as int] == rank[rest[j].0 as int] + 1 by {
            assert(rest[j] == links[j]);
        }
        swapping_neighbours(rank, place, rest, a, b);
        lemma_crossed_shift(rank, place, rest, l, a, b);
        assert(a != b);
        let (ta, tb) = (targets(rest, a), targets(rest, b));
        let (sa, sb) = (sources(rest, a), sources(rest, b));
        if l.0 == a {
            lemma_all_push_left(place, ta, l.1, tb);
        } else if l.0 == b {
            lemma_all_push_right(place, ta, tb, l.1);
        }
        if l.1 == a {
            lemma_all_push_left(place, sa, l.0, sb);
        } else if l.1 == b {
            lemma_all_push_right(place, sa, sb, l.0);
        }
    }
}

// ── counting by machine ────────────────────────────────────────────────────

proof fn lemma_above_bound(place: Seq<usize>, x: usize, ys: Seq<usize>)
    ensures
        0 <= above(place, x, ys) <= ys.len(),
        0 <= below(place, x, ys) <= ys.len(),
    decreases ys.len(),
{
    if ys.len() > 0 {
        lemma_above_bound(place, x, ys.drop_last());
    }
}

fn count_one(place: &Vec<usize>, x: usize, ys: &Vec<usize>) -> (r: (u64, u64))
    requires
        x < place@.len(),
        ys@.len() <= LINK_LIMIT,
        forall|j: int| 0 <= j < ys@.len() ==> (#[trigger] ys@[j]) < place@.len(),
    ensures
        r.0 == above(place@, x, ys@),
        r.1 == below(place@, x, ys@),
        r.0 <= ys@.len(),
        r.1 <= ys@.len(),
{
    let mut up: u64 = 0;
    let mut down: u64 = 0;
    let mut j: usize = 0;
    assert(ys@.take(0) =~= Seq::<usize>::empty());
    while j < ys.len()
        invariant
            j <= ys@.len(),
            x < place@.len(),
            ys@.len() <= LINK_LIMIT,
            forall|j: int| 0 <= j < ys@.len() ==> (#[trigger] ys@[j]) < place@.len(),
            up == above(place@, x, ys@.take(j as int)),
            down == below(place@, x, ys@.take(j as int)),
            up <= j,
            down <= j,
        decreases ys@.len() - j,
    {
        assert(ys@.take(j as int + 1).drop_last() =~= ys@.take(j as int));
        let y = ys[j];
        if place[x] > place[y] {
            up = up + 1;
        } else if place[x] < place[y] {
            down = down + 1;
        }
        j = j + 1;
    }
    assert(ys@.take(j as int) =~= ys@);
    (up, down)
}

fn count_all(place: &Vec<usize>, xs: &Vec<usize>, ys: &Vec<usize>) -> (r: (u64, u64))
    requires
        xs@.len() <= LINK_LIMIT,
        ys@.len() <= LINK_LIMIT,
        forall|j: int| 0 <= j < xs@.len() ==> (#[trigger] xs@[j]) < place@.len(),
        forall|j: int| 0 <= j < ys@.len() ==> (#[trigger] ys@[j]) < place@.len(),
    ensures
        r.0 == all_above(place@, xs@, ys@),
        r.1 == all_below(place@, xs@, ys@),
        r.0 <= 0x1000_0000_0000_0000,
        r.1 <= 0x1000_0000_0000_0000,
{
    let mut up: u64 = 0;
    let mut down: u64 = 0;
    let mut i: usize = 0;
    assert(xs@.take(0) =~= Seq::<usize>::empty());
    while i < xs.len()
        invariant
            i <= xs@.len(),
            xs@.len() <= LINK_LIMIT,
            ys@.len() <= LINK_LIMIT,
            forall|j: int| 0 <= j < xs@.len() ==> (#[trigger] xs@[j]) < place@.len(),
            forall|j: int| 0 <= j < ys@.len() ==> (#[trigger] ys@[j]) < place@.len(),
            up == all_above(place@, xs@.take(i as int), ys@),
            down == all_below(place@, xs@.take(i as int), ys@),
            up <= i * LINK_LIMIT,
            down <= i * LINK_LIMIT,
        decreases xs@.len() - i,
    {
        assert(xs@.take(i as int + 1).drop_last() =~= xs@.take(i as int));
        let (u, d) = count_one(place, xs[i], ys);
        assert(i * LINK_LIMIT + LINK_LIMIT == (i + 1) * LINK_LIMIT) by (nonlinear_arith);
        assert(i * LINK_LIMIT <= 0x3000_0000 * LINK_LIMIT) by (nonlinear_arith)
            requires
                i <= 0x3000_0000,
        ;
        up = up + u;
        down = down + d;
        i = i + 1;
    }
    assert(xs@.take(i as int) =~= xs@);
    assert(i * LINK_LIMIT <= 0x3000_0000 * LINK_LIMIT) by (nonlinear_arith)
        requires
            i <= 0x3000_0000,
    ;
    (up, down)
}

/// Crossings contributed by `a` above `b` versus the other way round, counting both neighbour sides.
pub fn crossings_between(a: usize, b: usize, place: &Vec<usize>, wiring: &Wiring) -> (r: (u64, u64))
    requires
        a < place@.len(),
        b < place@.len(),
        wiring.wires(place@.len()),
    ensures
        r.0 == cost_above(place@, wiring.links@, a as int, b as int),
        r.1 == cost_below(place@, wiring.links@, a as int, b as int),
        r.0 <= 0x2000_0000_0000_0000,
        r.1 <= 0x2000_0000_0000_0000,
{
    proof {
        lemma_ends(wiring.links@, a as int, place@.len());
        lemma_ends(wiring.links@, b as int, place@.len());
    }
    let (u, d) = count_all(place, &wiring.ins[a], &wiring.ins[b]);
    let (v, e) = count_all(place, &wiring.outs[a], &wiring.outs[b]);
    (u + v, d + e)
}

pub(crate) proof fn lemma_ends(links: Seq<(usize, usize)>, v: int, n: nat)
    requires
        pairs_below(n, links),
    ensures
        targets(links, v).len() <= links.len(),
        sources(links, v).len() <= links.len(),
        forall|j: int| 0 <= j < targets(links, v).len() ==> (#[trigger] targets(links, v)[j]) < n,
        forall|j: int| 0 <= j < sources(links, v).len() ==> (#[trigger] sources(links, v)[j]) < n,
    decreases links.len(),
{
    if links.len() > 0 {
        let rest = links.drop_last();
        assert forall|k: int| 0 <= k < rest.len() implies (#[trigger] rest[k]).0 < n && rest[k].1 < n by {
            assert(rest[k] == links[k]);
        }
        lemma_ends(rest, v, n);
        assert(links[links.len() - 1].0 < n && links[links.len() - 1].1 < n);
    }
}

} // verus!
