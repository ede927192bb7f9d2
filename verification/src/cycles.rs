//! Breaking the cycles of a directed graph: a depth-first walk turns every pair that leads back to
//! where the walk came from around.

use vstd::prelude::*;

use crate::adjacency::{
    lemma_targets, list_targets, lists_targets, pair_before, pairs_below, place_of_pair,
    strictly_sorted, targets,
};

verus! {

/// The pairs of an acyclic graph, in order and each once, and which of them were turned around.
pub struct Dag {
    pub pairs: Vec<(usize, usize)>,
    /// Whether the pair stood the other way round.
    pub reversed: Vec<bool>,
}

/// A pair leads from the thing before place `i` of `route` to the one there.
pub open spec fn follows(pairs: Seq<(usize, usize)>, route: Seq<usize>, i: int) -> bool {
    pairs.contains((route[i - 1], route[i]))
}

/// `route` goes from one thing to the next along pairs.
pub open spec fn is_route(pairs: Seq<(usize, usize)>, route: Seq<usize>) -> bool {
    &&& route.len() > 0
    &&& forall|i: int| 0 < i < route.len() ==> #[trigger] follows(pairs, route, i)
}

/// A route leads from `a` to `b`.
pub open spec fn leads_to(pairs: Seq<(usize, usize)>, a: usize, b: usize) -> bool {
    exists|route: Seq<usize>|
        #[trigger] is_route(pairs, route) && route[0] == a && route.last() == b
}

/// `t` grows along every pair.
pub open spec fn grows(pairs: Seq<(usize, usize)>, t: spec_fn(int) -> nat) -> bool {
    forall|k: int|
        0 <= k < pairs.len() ==> t((#[trigger] pairs[k]).0 as int) < t(pairs[k].1 as int)
}

/// Some numbering grows along every pair: they form no cycle.
pub open spec fn no_cycle(pairs: Seq<(usize, usize)>) -> bool {
    exists|t: spec_fn(int) -> nat| #[trigger] grows(pairs, t)
}

/// `dag` holds every pair, as it stood or turned around, and nothing else. A pair was turned around
/// only where it closed a cycle.
pub open spec fn untangles(pairs: Seq<(usize, usize)>, dag: Dag) -> bool {
    &&& dag.reversed@.len() == dag.pairs@.len()
    &&& strictly_sorted(dag.pairs@)
    &&& no_cycle(dag.pairs@)
    &&& forall|p: (usize, usize)| #[trigger] pairs.contains(p) ==> holds_pair(dag.pairs@, p)
    &&& forall|k: int|
        0 <= k < dag.pairs@.len() ==> stems_from(
            pairs,
            #[trigger] dag.pairs@[k],
            dag.reversed@[k],
        )
}

/// The pair is there, as it stands or turned around.
pub open spec fn holds_pair(dag: Seq<(usize, usize)>, p: (usize, usize)) -> bool {
    dag.contains(p) || dag.contains((p.1, p.0))
}

/// The arc stands for a pair; a reversed one for a pair that closes a cycle.
pub open spec fn stems_from(pairs: Seq<(usize, usize)>, arc: (usize, usize), reversed: bool) -> bool {
    if reversed {
        pairs.contains((arc.1, arc.0)) && leads_to(pairs, arc.0, arc.1)
    } else {
        pairs.contains(arc)
    }
}

/// How far the walk is with a thing: it has not come by yet, is in the middle of it, or is done.
#[derive(Clone, Copy, PartialEq, Eq, Structural)]
pub enum Mark {
    White,
    Gray,
    Black,
}

/// The arcs found so far with one more, unless that one was found before.
pub open spec fn found_with(
    found: Seq<((usize, usize), bool)>,
    p: (usize, usize),
    reversed: bool,
) -> Seq<((usize, usize), bool)> {
    if exists|j: int| 0 <= j < found.len() && (#[trigger] found[j]).0 == p {
        found
    } else {
        found.push((p, reversed))
    }
}

/// A moment of the walk: the marks, the things it is in the middle of, how many targets of each it
/// has looked at, the arcs found and how many starts it has set out from.
#[verifier::ext_equal]
pub struct Tour {
    pub mark: Seq<Mark>,
    pub stack: Seq<usize>,
    pub next: Seq<usize>,
    pub found: Seq<((usize, usize), bool)>,
    pub at: nat,
}

/// The walk before it has set out.
pub open spec fn tour_start(m: nat) -> Tour {
    Tour {
        mark: Seq::new(m, |v: int| Mark::White),
        stack: Seq::empty(),
        next: Seq::new(m, |v: int| 0usize),
        found: Seq::empty(),
        at: 0,
    }
}

/// The walk one step on, where it is in the middle of something: it looks at the next target of the
/// thing it came to last, or is done with that thing. It goes on to a target that it has not come by
/// yet; a pair that leads back to something it is in the middle of is turned around.
pub open spec fn tour_on(pairs: Seq<(usize, usize)>, t: Tour) -> Tour {
    let v = t.stack.last();
    let i = t.next[v as int];
    if i < targets(pairs, v as int).len() {
        let w = targets(pairs, v as int)[i as int];
        let next = t.next.update(v as int, (i + 1) as usize);
        match t.mark[w as int] {
            Mark::White => Tour {
                mark: t.mark.update(w as int, Mark::Gray),
                stack: t.stack.push(w),
                next,
                found: found_with(t.found, (v, w), false),
                at: t.at,
            },
            Mark::Gray => Tour { next, found: found_with(t.found, (w, v), true), ..t },
            Mark::Black => Tour { next, found: found_with(t.found, (v, w), false), ..t },
        }
    } else {
        Tour { mark: t.mark.update(v as int, Mark::Black), stack: t.stack.drop_last(), ..t }
    }
}

/// The walk sets out from the next start, unless it has come by there.
pub open spec fn tour_from(starts: Seq<usize>, t: Tour) -> Tour {
    let v = starts[t.at as int];
    if t.mark[v as int] == Mark::White {
        Tour {
            mark: t.mark.update(v as int, Mark::Gray),
            stack: t.stack.push(v),
            at: t.at + 1,
            ..t
        }
    } else {
        Tour { at: t.at + 1, ..t }
    }
}

/// The walk is over: nothing is left to do and no start is left.
pub open spec fn is_over(starts: Seq<usize>, t: Tour) -> bool {
    t.stack.len() == 0 && t.at >= starts.len()
}

/// The walk over `m` things after `n` steps.
pub open spec fn tour(m: nat, pairs: Seq<(usize, usize)>, starts: Seq<usize>, n: nat) -> Tour
    decreases n,
{
    if n == 0 {
        tour_start(m)
    } else {
        let t = tour(m, pairs, starts, (n - 1) as nat);
        if t.stack.len() > 0 {
            tour_on(pairs, t)
        } else if t.at < starts.len() {
            tour_from(starts, t)
        } else {
            t
        }
    }
}

/// `dag` holds the arcs found, and how each was found first.
pub open spec fn holds_found(dag: Dag, found: Seq<((usize, usize), bool)>) -> bool {
    &&& dag.reversed@.len() == dag.pairs@.len()
    &&& strictly_sorted(dag.pairs@)
    &&& forall|k: int|
        0 <= k < dag.pairs@.len() ==> found.contains(
            (#[trigger] dag.pairs@[k], dag.reversed@[k]),
        )
    &&& forall|j: int| 0 <= j < found.len() ==> dag.pairs@.contains((#[trigger] found[j]).0)
}

/// `dag` holds what a depth-first walk over `m` things from `starts` found by the time it was over.
pub open spec fn is_walked(
    m: nat,
    pairs: Seq<(usize, usize)>,
    starts: Seq<usize>,
    dag: Dag,
) -> bool {
    exists|n: nat|
        is_over(starts, #[trigger] tour(m, pairs, starts, n)) && holds_found(
            dag,
            tour(m, pairs, starts, n).found,
        )
}

/// A walk that is over stays as it is.
proof fn lemma_over_stays(m: nat, pairs: Seq<(usize, usize)>, starts: Seq<usize>, a: nat, b: nat)
    requires
        a <= b,
        is_over(starts, tour(m, pairs, starts, a)),
    ensures
        tour(m, pairs, starts, b) == tour(m, pairs, starts, a),
    decreases b - a,
{
    if a < b {
        lemma_over_stays(m, pairs, starts, a, (b - 1) as nat);
    }
}

/// A walk ends one way: whenever it is over, it has found the same.
pub proof fn walks_end_alike(
    m: nat,
    pairs: Seq<(usize, usize)>,
    starts: Seq<usize>,
    a: nat,
    b: nat,
)
    requires
        is_over(starts, tour(m, pairs, starts, a)),
        is_over(starts, tour(m, pairs, starts, b)),
    ensures
        tour(m, pairs, starts, a) == tour(m, pairs, starts, b),
{
    if a <= b {
        lemma_over_stays(m, pairs, starts, a, b);
    } else {
        lemma_over_stays(m, pairs, starts, b, a);
    }
}

/// How far the walk has come: the marks, the things it is in the middle of, and how many targets of
/// each it has looked at.
struct Walk {
    mark: Vec<Mark>,
    stack: Vec<usize>,
    next: Vec<usize>,
    dag: Dag,
    /// When each thing was done with.
    done: Ghost<Seq<int>>,
    /// Where each thing stands on the stack.
    depth: Ghost<Seq<int>>,
    clock: Ghost<int>,
    /// The arcs in the order they were found.
    found: Ghost<Seq<((usize, usize), bool)>>,
}

impl Walk {
    /// The moment of the walk, with `at` starts behind it.
    spec fn tour(self, at: nat) -> Tour {
        Tour {
            mark: self.mark@,
            stack: self.stack@,
            next: self.next@,
            found: self.found@,
            at,
        }
    }

    /// `y` is done with before `x`.
    spec fn after(self, x: int, y: int) -> bool {
        ||| self.mark@[y] == Mark::Black && (self.mark@[x] == Mark::Gray || (self.mark@[x]
            == Mark::Black && self.done@[y] < self.done@[x]))
        ||| self.mark@[x] == Mark::Gray && self.mark@[y] == Mark::Gray && self.depth@[x]
            < self.depth@[y]
    }

    /// The marks fit the stack: what is gray stands on it, and what is black was done with.
    spec fn in_shape(self, m: nat, pairs: Seq<(usize, usize)>) -> bool {
        &&& self.mark@.len() == m
        &&& self.next@.len() == m
        &&& self.done@.len() == m
        &&& self.depth@.len() == m
        &&& self.stack@.len() <= m
        &&& forall|v: int| 0 <= v < m ==> (#[trigger] self.next@[v]) <= targets(pairs, v).len()
        &&& forall|i: int|
            0 <= i < self.stack@.len() ==> (#[trigger] self.stack@[i]) < m
                && self.mark@[self.stack@[i] as int] == Mark::Gray
                && self.depth@[self.stack@[i] as int] == i
        &&& forall|v: int|
            0 <= v < m && #[trigger] self.mark@[v] == Mark::Gray ==> 0 <= self.depth@[v]
                < self.stack@.len() && self.stack@[self.depth@[v]] == v
        &&& forall|v: int|
            0 <= v < m && #[trigger] self.mark@[v] == Mark::Black ==> 0 <= self.done@[v]
                < self.clock@ && self.next@[v] == targets(pairs, v).len()
        &&& forall|v: int|
            0 <= v < m && #[trigger] self.mark@[v] == Mark::White ==> self.next@[v] == 0
    }

    /// Each thing on the stack was come to from the one below it.
    spec fn is_trail(self, pairs: Seq<(usize, usize)>) -> bool {
        forall|i: int| 0 < i < self.stack@.len() ==> #[trigger] follows(pairs, self.stack@, i)
    }

    /// The arcs so far stand for pairs, and each leads to what is done with earlier.
    spec fn has_arcs(self, m: nat, pairs: Seq<(usize, usize)>) -> bool {
        &&& self.dag.reversed@.len() == self.dag.pairs@.len()
        &&& strictly_sorted(self.dag.pairs@)
        &&& pairs_below(m, self.dag.pairs@)
        &&& forall|k: int|
            0 <= k < self.dag.pairs@.len() ==> stems_from(
                pairs,
                #[trigger] self.dag.pairs@[k],
                self.dag.reversed@[k],
            )
    }

    spec fn is_ordered(self) -> bool {
        forall|k: int|
            0 <= k < self.dag.pairs@.len() ==> self.after(
                (#[trigger] self.dag.pairs@[k]).0 as int,
                self.dag.pairs@[k].1 as int,
            )
    }

    /// Every pair looked at is among the arcs.
    spec fn is_thorough(self, m: nat, pairs: Seq<(usize, usize)>) -> bool {
        forall|v: int, i: int|
            0 <= v < m && 0 <= i < self.next@[v] ==> holds_pair(
                self.dag.pairs@,
                (v as usize, #[trigger] targets(pairs, v)[i]),
            )
    }

    spec fn well_formed(self, m: nat, pairs: Seq<(usize, usize)>) -> bool {
        &&& self.in_shape(m, pairs)
        &&& self.is_trail(pairs)
        &&& self.has_arcs(m, pairs)
        &&& self.is_ordered()
        &&& self.is_thorough(m, pairs)
    }
}

/// How many targets of the first `n` things are still to be looked at.
spec fn left(pairs: Seq<(usize, usize)>, next: Seq<usize>, n: nat) -> int
    decreases n,
{
    if n == 0 {
        0
    } else {
        left(pairs, next, (n - 1) as nat) + targets(pairs, n - 1).len() - next[n - 1]
    }
}

proof fn lemma_left(pairs: Seq<(usize, usize)>, next: Seq<usize>, n: nat)
    requires
        n <= next.len(),
        forall|v: int| 0 <= v < n ==> (#[trigger] next[v]) <= targets(pairs, v).len(),
    ensures
        left(pairs, next, n) >= 0,
    decreases n,
{
    if n > 0 {
        lemma_left(pairs, next, (n - 1) as nat);
        assert(next[n - 1] <= targets(pairs, n - 1).len());
    }
}

proof fn lemma_left_step(pairs: Seq<(usize, usize)>, next: Seq<usize>, n: nat, v: int, to: usize)
    requires
        n <= next.len(),
        0 <= v < next.len(),
        to == next[v] + 1,
    ensures
        left(pairs, next.update(v, to), n) == left(pairs, next, n) - (if v < n { 1int } else { 0 }),
    decreases n,
{
    if n > 0 {
        lemma_left_step(pairs, next, (n - 1) as nat, v, to);
    }
}

/// `now` is `before` with one more arc, unless it was there already.
spec fn adds_arc(before: Dag, now: Dag, p: (usize, usize), reversed: bool) -> bool {
    &&& now.reversed@.len() == now.pairs@.len()
    &&& strictly_sorted(now.pairs@)
    &&& forall|q: (usize, usize)|
        #[trigger] now.pairs@.contains(q) <==> before.pairs@.contains(q) || q == p
    &&& forall|k: int|
        0 <= k < now.pairs@.len() ==> ((#[trigger] now.pairs@[k] == p && now.reversed@[k]
            == reversed) || exists|j: int|
            0 <= j < before.pairs@.len() && #[trigger] before.pairs@[j] == now.pairs@[k]
                && before.reversed@[j] == now.reversed@[k])
    &&& before.pairs@.contains(p) ==> now == before
}

/// Puts an arc in its place, unless there is one already.
#[verifier::rlimit(60)]
fn add_arc(dag: &mut Dag, p: (usize, usize), reversed: bool)
    requires
        old(dag).reversed@.len() == old(dag).pairs@.len(),
        strictly_sorted(old(dag).pairs@),
    ensures
        adds_arc(*old(dag), *final(dag), p, reversed),
{
    let ghost first = *dag;
    let ghost before = dag.pairs@;
    let ghost flags = dag.reversed@;
    let (at, there) = place_of_pair(&dag.pairs, p);
    if !there {
        dag.pairs.insert(at, p);
        dag.reversed.insert(at, reversed);
        proof {
            before.insert_ensures(at as int, p);
            flags.insert_ensures(at as int, reversed);
            let now = dag.pairs@;
            assert forall|i: int, j: int| 0 <= i < j < now.len() implies pair_before(
                #[trigger] now[i],
                #[trigger] now[j],
            ) by {
                let x = if i < at { before[i] } else if i == at { p } else { before[i - 1] };
                let y = if j < at { before[j] } else if j == at { p } else { before[j - 1] };
                assert(now[i] == x && now[j] == y);
            }
            assert forall|q: (usize, usize)| #[trigger] now.contains(q) <==> (before.contains(q) || q
                == p) by {
                if before.contains(q) {
                    let j = choose|j: int| 0 <= j < before.len() && before[j] == q;
                    assert(now[if j < at { j } else { j + 1 }] == q);
                }
                if q == p {
                    assert(now[at as int] == q);
                }
                if now.contains(q) && q != p {
                    let j = choose|j: int| 0 <= j < now.len() && now[j] == q;
                    assert(before[if j < at { j } else { j - 1 }] == q);
                }
            }
            assert forall|k: int| 0 <= k < now.len() implies ((#[trigger] now[k] == p
                && dag.reversed@[k] == reversed) || exists|j: int|
                0 <= j < before.len() && #[trigger] before[j] == now[k] && flags[j]
                    == dag.reversed@[k]) by {
                if k < at {
                    assert(before[k] == now[k]);
                } else if k > at {
                    assert(before[k - 1] == now[k]);
                }
            }
            assert(adds_arc(first, *dag, p, reversed));
        }
    } else {
        assert forall|k: int| 0 <= k < dag.pairs@.len() implies exists|j: int|
            0 <= j < before.len() && #[trigger] before[j] == #[trigger] dag.pairs@[k] && flags[j]
                == dag.reversed@[k] by {
            assert(before[k] == dag.pairs@[k]);
        }
        assert forall|q: (usize, usize)| #[trigger] dag.pairs@.contains(q) <==> (before.contains(q)
            || q == p) by {}
        assert(adds_arc(first, *dag, p, reversed));
    }
}

proof fn lemma_arcs_grow(
    m: nat,
    pairs: Seq<(usize, usize)>,
    before: Walk,
    now: Walk,
    arc: (usize, usize),
    reversed: bool,
)
    requires
        before.has_arcs(m, pairs),
        before.is_ordered(),
        now.dag.reversed@.len() == now.dag.pairs@.len(),
        strictly_sorted(now.dag.pairs@),
        forall|k: int|
            0 <= k < now.dag.pairs@.len() ==> ((#[trigger] now.dag.pairs@[k] == arc
                && now.dag.reversed@[k] == reversed) || exists|j: int|
                0 <= j < before.dag.pairs@.len() && #[trigger] before.dag.pairs@[j]
                    == now.dag.pairs@[k] && before.dag.reversed@[j] == now.dag.reversed@[k]),
        stems_from(pairs, arc, reversed),
        arc.0 < m,
        arc.1 < m,
        now.after(arc.0 as int, arc.1 as int),
        forall|x: int, y: int|
            0 <= x < m && 0 <= y < m && #[trigger] before.after(x, y) ==> now.after(x, y),
    ensures
        now.has_arcs(m, pairs),
        now.is_ordered(),
{
    assert forall|k: int| 0 <= k < now.dag.pairs@.len() implies stems_from(
        pairs,
        #[trigger] now.dag.pairs@[k],
        now.dag.reversed@[k],
    ) && now.dag.pairs@[k].0 < m && now.dag.pairs@[k].1 < m && now.after(
        now.dag.pairs@[k].0 as int,
        now.dag.pairs@[k].1 as int,
    ) by {
        if !(now.dag.pairs@[k] == arc && now.dag.reversed@[k] == reversed) {
            let j = choose|j: int|
                0 <= j < before.dag.pairs@.len() && #[trigger] before.dag.pairs@[j]
                    == now.dag.pairs@[k] && before.dag.reversed@[j] == now.dag.reversed@[k];
            assert(stems_from(pairs, before.dag.pairs@[j], before.dag.reversed@[j]));
            assert(before.after(
                before.dag.pairs@[j].0 as int,
                before.dag.pairs@[j].1 as int,
            ));
        }
    }
}

proof fn lemma_more_thorough(
    m: nat,
    pairs: Seq<(usize, usize)>,
    before: Walk,
    now: Walk,
    v: usize,
    w: usize,
)
    requires
        before.is_thorough(m, pairs),
        before.next@.len() == m,
        m <= usize::MAX,
        v < m,
        before.next@[v as int] < targets(pairs, v as int).len(),
        targets(pairs, v as int)[before.next@[v as int] as int] == w,
        now.next@ == before.next@.update(v as int, (before.next@[v as int] + 1) as usize),
        before.next@[v as int] < usize::MAX,
        forall|q: (usize, usize)|
            before.dag.pairs@.contains(q) ==> #[trigger] now.dag.pairs@.contains(q),
        holds_pair(now.dag.pairs@, (v, w)),
    ensures
        now.is_thorough(m, pairs),
{
    assert forall|x: int, j: int| 0 <= x < m && 0 <= j < now.next@[x] implies holds_pair(
        now.dag.pairs@,
        (x as usize, #[trigger] targets(pairs, x)[j]),
    ) by {
        let p = (x as usize, targets(pairs, x)[j]);
        if x != v || j < before.next@[v as int] {
            assert(holds_pair(before.dag.pairs@, p));
            if before.dag.pairs@.contains(p) {
                assert(now.dag.pairs@.contains(p));
            } else {
                assert(now.dag.pairs@.contains((p.1, p.0)));
            }
        } else {
            assert(p == (v, w));
        }
    }
}

/// Adding an arc keeps what was found.
proof fn lemma_found(
    before: Dag,
    now: Dag,
    found: Seq<((usize, usize), bool)>,
    p: (usize, usize),
    reversed: bool,
)
    requires
        holds_found(before, found),
        adds_arc(before, now, p, reversed),
    ensures
        holds_found(now, found_with(found, p, reversed)),
{
    let all = found_with(found, p, reversed);
    if before.pairs@.contains(p) {
        let k = choose|k: int| 0 <= k < before.pairs@.len() && before.pairs@[k] == p;
        assert(found.contains((before.pairs@[k], before.reversed@[k])));
        let j = choose|j: int|
            0 <= j < found.len() && found[j] == (before.pairs@[k], before.reversed@[k]);
        assert(found[j].0 == p);
    } else {
        assert(all == found.push((p, reversed))) by {
            if exists|j: int| 0 <= j < found.len() && (#[trigger] found[j]).0 == p {
                let j = choose|j: int| 0 <= j < found.len() && (#[trigger] found[j]).0 == p;
                assert(before.pairs@.contains(found[j].0));
            }
        }
        assert forall|k: int| 0 <= k < now.pairs@.len() implies all.contains(
            (#[trigger] now.pairs@[k], now.reversed@[k]),
        ) by {
            if now.pairs@[k] == p && now.reversed@[k] == reversed {
                assert(all[found.len() as int] == (p, reversed));
            } else {
                let j = choose|j: int|
                    0 <= j < before.pairs@.len() && #[trigger] before.pairs@[j] == now.pairs@[k]
                        && before.reversed@[j] == now.reversed@[k];
                assert(found.contains((before.pairs@[j], before.reversed@[j])));
                let i = choose|i: int|
                    0 <= i < found.len() && found[i] == (before.pairs@[j], before.reversed@[j]);
                assert(all[i] == found[i]);
            }
        }
        assert forall|j: int| 0 <= j < all.len() implies now.pairs@.contains(
            (#[trigger] all[j]).0,
        ) by {
            if j < found.len() {
                assert(all[j] == found[j]);
                assert(before.pairs@.contains(found[j].0));
            }
        }
    }
}

impl Walk {
    /// Goes on to `w`, which the thing on top of the stack leads to.
    #[verifier::rlimit(50)]
    fn enter(&mut self, v: usize, w: usize, Ghost(m): Ghost<nat>, Ghost(pairs): Ghost<Seq<(usize, usize)>>)
        requires
            old(self).well_formed(m, pairs),
            m <= usize::MAX,
            old(self).stack@.len() > 0,
            old(self).stack@.last() == v,
            w < m,
            pairs.contains((v, w)),
            old(self).mark@[w as int] == Mark::White,
            holds_found(old(self).dag, old(self).found@),
        ensures
            holds_found(final(self).dag, final(self).found@),
            final(self).found@ == found_with(old(self).found@, (v, w), false),
            final(self).stack@ == old(self).stack@.push(w),
            final(self).well_formed(m, pairs),
            final(self).next@ == old(self).next@,
            final(self).dag.pairs@.contains((v, w)),
            final(self).mark@ == old(self).mark@.update(w as int, Mark::Gray),
            final(self).clock@ == old(self).clock@,
    {
        let ghost start = *self;
        assert(start.stack@[start.stack@.len() - 1] == v);
        add_arc(&mut self.dag, (v, w), false);
        self.mark.set(w, Mark::Gray);
        proof {
            self.found@ = found_with(self.found@, (v, w), false);
            lemma_found(start.dag, self.dag, start.found@, (v, w), false);
            self.depth@ = self.depth@.update(w as int, self.stack@.len() as int);
        }
        let ghost tall = self.stack@;
        self.stack.push(w);
        proof {
            assert(tall.no_duplicates()) by {
                assert forall|a: int, b: int| 0 <= a < tall.len() && 0 <= b < tall.len() && a
                    != b implies tall[a] != tall[b] by {
                    assert(start.depth@[tall[a] as int] == a);
                    assert(start.depth@[tall[b] as int] == b);
                }
            }
            assert(self.stack@.no_duplicates()) by {
                assert forall|a: int| 0 <= a < tall.len() implies tall[a] != w by {
                    assert(start.mark@[tall[a] as int] == Mark::Gray);
                }
            }
            assert forall|a: int| 0 <= a < self.stack@.len() implies (#[trigger] self.stack@[a]) < m by {
                if a < tall.len() {
                    assert(start.stack@[a] < m);
                }
            }
            crate::adjacency::lemma_distinct_below(self.stack@, m);
            assert forall|i: int| 0 < i < self.stack@.len() implies #[trigger] follows(
                pairs,
                self.stack@,
                i,
            ) by {
                if i < tall.len() {
                    assert(follows(pairs, tall, i));
                }
            }
            assert forall|x: int| 0 <= x < m && #[trigger] self.mark@[x] == Mark::Gray implies 0
                <= self.depth@[x] < self.stack@.len() && self.stack@[self.depth@[x]] == x by {
                if x != w {
                    assert(start.mark@[x] == Mark::Gray);
                }
            }
            assert(self.after(v as int, w as int));
            lemma_arcs_grow(m, pairs, start, *self, (v, w), false);
            assert(self.is_thorough(m, pairs)) by {
                lemma_still_thorough(m, pairs, start, *self);
            }
        }
    }

    /// Notes the pair from the thing on top of the stack to `w`, which the walk has come by before.
    #[verifier::rlimit(50)]
    fn note(&mut self, v: usize, w: usize, Ghost(m): Ghost<nat>, Ghost(pairs): Ghost<Seq<(usize, usize)>>)
        requires
            old(self).well_formed(m, pairs),
            m <= usize::MAX,
            old(self).stack@.len() > 0,
            old(self).stack@.last() == v,
            w < m,
            v != w,
            pairs.contains((v, w)),
            old(self).mark@[w as int] != Mark::White,
            holds_found(old(self).dag, old(self).found@),
        ensures
            holds_found(final(self).dag, final(self).found@),
            final(self).found@ == if old(self).mark@[w as int] == Mark::Gray {
                found_with(old(self).found@, (w, v), true)
            } else {
                found_with(old(self).found@, (v, w), false)
            },
            final(self).well_formed(m, pairs),
            final(self).next@ == old(self).next@,
            holds_pair(final(self).dag.pairs@, (v, w)),
            final(self).mark@ == old(self).mark@,
            final(self).stack@ == old(self).stack@,
            final(self).clock@ == old(self).clock@,
    {
        let ghost start = *self;
        let ghost top = start.stack@.len() - 1;
        assert(start.stack@[top] == v);
        if self.mark[w] == Mark::Gray {
            proof {
                let d = self.depth@[w as int];
                assert(self.stack@[d] == w);
                let route = self.stack@.subrange(d, self.stack@.len() as int);
                assert(route[0] == w);
                assert(route.last() == v);
                assert forall|j: int| 0 < j < route.len() implies #[trigger] follows(
                    pairs,
                    route,
                    j,
                ) by {
                    assert(follows(pairs, self.stack@, d + j));
                    assert(route[j] == self.stack@[d + j]);
                    assert(route[j - 1] == self.stack@[d + j - 1]);
                }
                assert(is_route(pairs, route));
                assert(stems_from(pairs, (w, v), true));
                assert(self.after(w as int, v as int));
            }
            add_arc(&mut self.dag, (w, v), true);
            proof {
                self.found@ = found_with(self.found@, (w, v), true);
                lemma_found(start.dag, self.dag, start.found@, (w, v), true);
                lemma_arcs_grow(m, pairs, start, *self, (w, v), true);
                lemma_still_thorough(m, pairs, start, *self);
            }
        } else {
            add_arc(&mut self.dag, (v, w), false);
            proof {
                self.found@ = found_with(self.found@, (v, w), false);
                lemma_found(start.dag, self.dag, start.found@, (v, w), false);
                assert(self.after(v as int, w as int));
                lemma_arcs_grow(m, pairs, start, *self, (v, w), false);
                lemma_still_thorough(m, pairs, start, *self);
            }
        }
    }

    /// Is done with the thing on top of the stack.
    #[verifier::rlimit(50)]
    fn leave(&mut self, v: usize, Ghost(m): Ghost<nat>, Ghost(pairs): Ghost<Seq<(usize, usize)>>)
        requires
            old(self).well_formed(m, pairs),
            old(self).stack@.len() > 0,
            old(self).stack@.last() == v,
            old(self).next@[v as int] == targets(pairs, v as int).len(),
            old(self).clock@ >= 0,
        ensures
            final(self).well_formed(m, pairs),
            final(self).next@ == old(self).next@,
            final(self).clock@ >= 0,
            final(self).stack@ == old(self).stack@.drop_last(),
            final(self).found@ == old(self).found@,
            final(self).dag == old(self).dag,
            final(self).mark@ == old(self).mark@.update(v as int, Mark::Black),
    {
        let ghost start = *self;
        let ghost top = start.stack@.len() - 1;
        assert(start.stack@[top] == v);
        self.mark.set(v, Mark::Black);
        proof {
            self.done@ = self.done@.update(v as int, self.clock@);
            self.clock@ = self.clock@ + 1;
        }
        self.stack.pop();
        proof {
            assert forall|k: int| 0 <= k < self.dag.pairs@.len() implies self.after(
                (#[trigger] self.dag.pairs@[k]).0 as int,
                self.dag.pairs@[k].1 as int,
            ) by {
                let a = self.dag.pairs@[k];
                assert(start.after(a.0 as int, a.1 as int));
                assert(a.0 < m && a.1 < m);
            }
            assert forall|x: int| 0 <= x < m && #[trigger] self.mark@[x] == Mark::Gray implies 0
                <= self.depth@[x] < self.stack@.len() && self.stack@[self.depth@[x]] == x by {
                assert(start.mark@[x] == Mark::Gray);
                assert(start.stack@[start.depth@[x]] == x);
            }
            assert forall|i: int| 0 < i < self.stack@.len() implies #[trigger] follows(
                pairs,
                self.stack@,
                i,
            ) by {
                assert(follows(pairs, start.stack@, i));
            }
            lemma_still_thorough(m, pairs, start, *self);
        }
    }

    /// Looks at the next target of the thing on top of the stack, or is done with that thing.
    #[verifier::rlimit(50)]
    fn step(&mut self, fwd: &Vec<Vec<usize>>, Ghost(pairs): Ghost<Seq<(usize, usize)>>)
        requires
            old(self).well_formed(fwd@.len(), pairs),
            old(self).clock@ >= 0,
            lists_targets(fwd@.len(), pairs, fwd@),
            pairs_below(fwd@.len(), pairs),
            forall|p: (usize, usize)| #[trigger] pairs.contains(p) ==> p.0 != p.1,
            old(self).stack@.len() > 0,
            holds_found(old(self).dag, old(self).found@),
        ensures
            holds_found(final(self).dag, final(self).found@),
            forall|at: nat| #[trigger] final(self).tour(at) == tour_on(pairs, old(self).tour(at)),
            final(self).well_formed(fwd@.len(), pairs),
            final(self).clock@ >= 0,
            left(pairs, final(self).next@, fwd@.len()) < left(pairs, old(self).next@, fwd@.len())
                || (left(pairs, final(self).next@, fwd@.len()) == left(
                pairs,
                old(self).next@,
                fwd@.len(),
            ) && final(self).stack@.len() < old(self).stack@.len()),
            forall|v: int|
                0 <= v < fwd@.len() && old(self).mark@[v] != Mark::White
                    ==> #[trigger] final(self).mark@[v] != Mark::White,
    {
        let ghost start = *self;
        let count: usize = fwd.len();
        let ghost m = count as nat;
        let top: usize = self.stack.len() - 1;
        let v = self.stack[top];
        assert(v < m);
        let i = self.next[v];
        assert(fwd@[v as int]@ == targets(pairs, v as int));
        if i < fwd[v].len() {
            let w = fwd[v][i];
            proof {
                lemma_targets(pairs, v as int);
                assert(targets(pairs, v as int).contains(w));
                let k = choose|k: int|
                    0 <= k < pairs.len() && (#[trigger] pairs[k]).0 == v && pairs[k].1 == w;
                assert(pairs[k] == (v, w));
                assert(pairs.contains((v, w)));
                assert(w < m && w != v);
                lemma_left_step(pairs, self.next@, m, v as int, (i + 1) as usize);
            }
            if self.mark[w] == Mark::White {
                self.enter(v, w, Ghost(m), Ghost(pairs));
            } else {
                self.note(v, w, Ghost(m), Ghost(pairs));
            }
            let ghost mid = *self;
            self.next.set(v, i + 1);
            proof {
                lemma_more_thorough(m, pairs, mid, *self, v, w);
                lemma_reordered(m, mid, *self);
                assert(self.in_shape(m, pairs)) by {
                    assert(mid.mark@[v as int] == Mark::Gray);
                }
                assert(self.is_trail(pairs)) by {
                    assert forall|i: int| 0 < i < self.stack@.len() implies #[trigger] follows(
                        pairs,
                        self.stack@,
                        i,
                    ) by {
                        assert(follows(pairs, mid.stack@, i));
                    }
                }
            }
        } else {
            self.leave(v, Ghost(m), Ghost(pairs));
        }
        assert forall|at: nat| #[trigger] self.tour(at) == tour_on(pairs, start.tour(at)) by {
            assert(self.tour(at) =~= tour_on(pairs, start.tour(at)));
        }
    }
}

proof fn lemma_still_thorough(m: nat, pairs: Seq<(usize, usize)>, before: Walk, now: Walk)
    requires
        before.is_thorough(m, pairs),
        now.next@ == before.next@,
        forall|q: (usize, usize)|
            before.dag.pairs@.contains(q) ==> #[trigger] now.dag.pairs@.contains(q),
    ensures
        now.is_thorough(m, pairs),
{
    assert forall|x: int, j: int| 0 <= x < m && 0 <= j < now.next@[x] implies holds_pair(
        now.dag.pairs@,
        (x as usize, #[trigger] targets(pairs, x)[j]),
    ) by {
        let p = (x as usize, targets(pairs, x)[j]);
        assert(holds_pair(before.dag.pairs@, p));
        if before.dag.pairs@.contains(p) {
            assert(now.dag.pairs@.contains(p));
        } else {
            assert(now.dag.pairs@.contains((p.1, p.0)));
        }
    }
}

proof fn lemma_reordered(m: nat, before: Walk, now: Walk)
    requires
        before.is_ordered(),
        now.dag == before.dag,
        now.mark@ == before.mark@,
        now.done@ == before.done@,
        now.depth@ == before.depth@,
    ensures
        now.is_ordered(),
{
    assert forall|k: int| 0 <= k < now.dag.pairs@.len() implies now.after(
        (#[trigger] now.dag.pairs@[k]).0 as int,
        now.dag.pairs@[k].1 as int,
    ) by {
        assert(before.after(
            before.dag.pairs@[k].0 as int,
            before.dag.pairs@[k].1 as int,
        ));
    }
}

/// Turns pairs around until no cycle is left. The walk starts at each of `starts` in turn that it
/// has not come by yet.
#[verifier::rlimit(60)]
pub fn break_cycles(m: usize, pairs: &Vec<(usize, usize)>, starts: &Vec<usize>) -> (r: Dag)
    requires
        pairs_below(m as nat, pairs@),
        forall|p: (usize, usize)| #[trigger] pairs@.contains(p) ==> p.0 != p.1,
        forall|i: int| 0 <= i < starts@.len() ==> (#[trigger] starts@[i]) < m,
        forall|v: usize| v < m ==> #[trigger] starts@.contains(v),
    ensures
        untangles(pairs@, r),
        is_walked(m as nat, pairs@, starts@, r),
{
    let fwd = list_targets(m, pairs);
    let mut mark: Vec<Mark> = Vec::new();
    let mut next: Vec<usize> = Vec::new();
    let mut z: usize = 0;
    while z < m
        invariant
            z <= m,
            mark@.len() == z,
            next@.len() == z,
            forall|v: int| 0 <= v < z ==> #[trigger] mark@[v] == Mark::White,
            forall|v: int| 0 <= v < z ==> #[trigger] next@[v] == 0,
        decreases m - z,
    {
        mark.push(Mark::White);
        next.push(0);
        z = z + 1;
    }
    let mut walk = Walk {
        mark,
        stack: Vec::new(),
        next,
        dag: Dag { pairs: Vec::new(), reversed: Vec::new() },
        done: Ghost(Seq::new(m as nat, |v: int| 0int)),
        depth: Ghost(Seq::new(m as nat, |v: int| 0int)),
        clock: Ghost(0),
        found: Ghost(Seq::empty()),
    };
    let ghost mut n: nat = 0;
    assert(walk.tour(0) =~= tour(m as nat, pairs@, starts@, 0));
    let mut s: usize = 0;
    while s < starts.len()
        invariant
            s <= starts@.len(),
            fwd@.len() == m,
            lists_targets(m as nat, pairs@, fwd@),
            pairs_below(m as nat, pairs@),
            forall|p: (usize, usize)| #[trigger] pairs@.contains(p) ==> p.0 != p.1,
            forall|i: int| 0 <= i < starts@.len() ==> (#[trigger] starts@[i]) < m,
            walk.well_formed(m as nat, pairs@),
            walk.clock@ >= 0,
            walk.stack@.len() == 0,
            holds_found(walk.dag, walk.found@),
            walk.tour(s as nat) == tour(m as nat, pairs@, starts@, n),
            forall|i: int|
                0 <= i < s ==> walk.mark@[(#[trigger] starts@[i]) as int] != Mark::White,
        decreases starts@.len() - s,
    {
        let v = starts[s];
        proof {
            n = n + 1;
        }
        if walk.mark[v] == Mark::White {
            let ghost before = walk;
            walk.mark.set(v, Mark::Gray);
            proof {
                walk.depth@ = walk.depth@.update(v as int, 0);
            }
            walk.stack.push(v);
            proof {
                assert forall|k: int| 0 <= k < walk.dag.pairs@.len() implies walk.after(
                    (#[trigger] walk.dag.pairs@[k]).0 as int,
                    walk.dag.pairs@[k].1 as int,
                ) by {
                    let a = walk.dag.pairs@[k];
                    assert(before.after(a.0 as int, a.1 as int));
                    assert(a.0 < m && a.1 < m);
                }
                lemma_still_thorough(m as nat, pairs@, before, walk);
                assert(walk.tour(s as nat + 1) =~= tour(m as nat, pairs@, starts@, n));
            }
            while walk.stack.len() > 0
                invariant
                    s < starts@.len(),
                    fwd@.len() == m,
                    lists_targets(m as nat, pairs@, fwd@),
                    pairs_below(m as nat, pairs@),
                    forall|p: (usize, usize)| #[trigger] pairs@.contains(p) ==> p.0 != p.1,
                    forall|i: int| 0 <= i < starts@.len() ==> (#[trigger] starts@[i]) < m,
                    walk.well_formed(m as nat, pairs@),
                    walk.clock@ >= 0,
                    holds_found(walk.dag, walk.found@),
                    walk.tour(s as nat + 1) == tour(m as nat, pairs@, starts@, n),
                    forall|i: int|
                        0 <= i < s + 1 ==> walk.mark@[(#[trigger] starts@[i]) as int]
                            != Mark::White,
                decreases left(pairs@, walk.next@, m as nat), walk.stack@.len(),
            {
                let ghost before = walk;
                walk.step(&fwd, Ghost(pairs@));
                proof {
                    n = n + 1;
                    assert(walk.tour(s as nat + 1) == tour_on(
                        pairs@,
                        before.tour(s as nat + 1),
                    ));
                    lemma_left(pairs@, walk.next@, m as nat);
                    lemma_left(pairs@, before.next@, m as nat);
                    assert forall|i: int| 0 <= i < s + 1 implies walk.mark@[(
                    #[trigger] starts@[i]) as int] != Mark::White by {
                        assert(before.mark@[starts@[i] as int] != Mark::White);
                    }
                }
            }
        }
        assert(walk.tour(s as nat + 1) == tour(m as nat, pairs@, starts@, n));
        s = s + 1;
    }
    proof {
        assert(is_over(starts@, tour(m as nat, pairs@, starts@, n)));
        assert forall|v: int| 0 <= v < m implies #[trigger] walk.mark@[v] == Mark::Black by {
            assert(starts@.contains(v as usize));
            let i = choose|i: int| 0 <= i < starts@.len() && starts@[i] == v as usize;
            assert(walk.mark@[starts@[i] as int] != Mark::White);
            if walk.mark@[v] == Mark::Gray {
                assert(walk.depth@[v] < walk.stack@.len());
            }
        }
        let clock = walk.clock@;
        let done = walk.done@;
        let t = |v: int| (clock - done[v]) as nat;
        assert(grows(walk.dag.pairs@, t)) by {
            assert forall|k: int| 0 <= k < walk.dag.pairs@.len() implies t(
                (#[trigger] walk.dag.pairs@[k]).0 as int,
            ) < t(walk.dag.pairs@[k].1 as int) by {
                let a = walk.dag.pairs@[k];
                assert(a.0 < m && a.1 < m);
                assert(walk.after(a.0 as int, a.1 as int));
                assert(walk.mark@[a.0 as int] == Mark::Black);
                assert(walk.mark@[a.1 as int] == Mark::Black);
            }
        }
        assert forall|p: (usize, usize)| #[trigger] pairs@.contains(p) implies holds_pair(
            walk.dag.pairs@,
            p,
        ) by {
            let k = choose|k: int| 0 <= k < pairs@.len() && pairs@[k] == p;
            assert(pairs@[k].0 < m);
            lemma_targets(pairs@, p.0 as int);
            assert(targets(pairs@, p.0 as int).contains(p.1));
            let i = choose|i: int|
                0 <= i < targets(pairs@, p.0 as int).len() && targets(pairs@, p.0 as int)[i] == p.1;
            assert(walk.mark@[p.0 as int] == Mark::Black);
            assert(holds_pair(
                walk.dag.pairs@,
                ((p.0 as int) as usize, targets(pairs@, p.0 as int)[i]),
            ));
        }
    }
    walk.dag
}

/// What is acyclic already stays as it is: where no pair closes a cycle, none is turned around.
pub proof fn acyclic_pairs_stay(pairs: Seq<(usize, usize)>, dag: Dag, k: int)
    requires
        untangles(pairs, dag),
        no_cycle(pairs),
        0 <= k < dag.pairs@.len(),
    ensures
        !dag.reversed@[k],
        pairs.contains(dag.pairs@[k]),
{
    assert(stems_from(pairs, dag.pairs@[k], dag.reversed@[k]));
    if dag.reversed@[k] {
        let arc = dag.pairs@[k];
        let t = choose|t: spec_fn(int) -> nat| #[trigger] grows(pairs, t);
        let route = choose|route: Seq<usize>|
            #[trigger] is_route(pairs, route) && route[0] == arc.0 && route.last() == arc.1;
        lemma_route_grows(pairs, t, route);
        let j = choose|j: int| 0 <= j < pairs.len() && pairs[j] == (arc.1, arc.0);
        assert(t(pairs[j].0 as int) < t(pairs[j].1 as int));
    }
}

proof fn lemma_route_grows(pairs: Seq<(usize, usize)>, t: spec_fn(int) -> nat, route: Seq<usize>)
    requires
        grows(pairs, t),
        is_route(pairs, route),
    ensures
        t(route[0] as int) <= t(route.last() as int),
    decreases route.len(),
{
    if route.len() > 1 {
        let n = route.len() as int;
        let shorter = route.drop_last();
        assert forall|i: int| 0 < i < shorter.len() implies #[trigger] follows(pairs, shorter, i) by {
            assert(follows(pairs, route, i));
            assert(shorter[i] == route[i] && shorter[i - 1] == route[i - 1]);
        }
        lemma_route_grows(pairs, t, shorter);
        assert(follows(pairs, route, n - 1));
        let j = choose|j: int| 0 <= j < pairs.len() && pairs[j] == (route[n - 2], route[n - 1]);
        assert(t(pairs[j].0 as int) < t(pairs[j].1 as int));
    }
}

// ── where to start ─────────────────────────────────────────────────────────

/// How early a thing is started from: roots that nothing leads to first, then other roots, then
/// other things that nothing leads to, then the rest.
pub open spec fn start_class(pairs: Seq<(usize, usize)>, roots: Seq<bool>, v: int) -> int {
    (if roots[v] { 0int } else { 2 }) + (if sources_any(pairs, v) { 1int } else { 0 })
}

/// Some pair leads to `v`.
pub open spec fn sources_any(pairs: Seq<(usize, usize)>, v: int) -> bool {
    exists|k: int| 0 <= k < pairs.len() && (#[trigger] pairs[k]).1 == v
}

/// The things below `n` of class `class`, in order.
pub open spec fn of_class(pairs: Seq<(usize, usize)>, roots: Seq<bool>, class: int, n: nat) -> Seq<usize>
    decreases n,
{
    if n == 0 {
        Seq::empty()
    } else {
        let before = of_class(pairs, roots, class, (n - 1) as nat);
        if start_class(pairs, roots, n - 1) == class { before.push((n - 1) as usize) } else { before }
    }
}

/// All things in the order they are started from.
pub open spec fn start_order(pairs: Seq<(usize, usize)>, roots: Seq<bool>) -> Seq<usize> {
    let n = roots.len();
    of_class(pairs, roots, 0, n) + of_class(pairs, roots, 1, n) + of_class(pairs, roots, 2, n)
        + of_class(pairs, roots, 3, n)
}

proof fn lemma_of_class(pairs: Seq<(usize, usize)>, roots: Seq<bool>, class: int, n: nat)
    requires
        n <= usize::MAX,
    ensures
        forall|i: int|
            0 <= i < of_class(pairs, roots, class, n).len() ==> (#[trigger] of_class(
                pairs,
                roots,
                class,
                n,
            )[i]) < n,
        forall|v: usize|
            v < n && start_class(pairs, roots, v as int) == class ==> #[trigger] of_class(
                pairs,
                roots,
                class,
                n,
            ).contains(v),
    decreases n,
{
    if n > 0 {
        lemma_of_class(pairs, roots, class, (n - 1) as nat);
        let before = of_class(pairs, roots, class, (n - 1) as nat);
        let now = of_class(pairs, roots, class, n);
        assert forall|v: usize| v < n && start_class(pairs, roots, v as int) == class implies #[trigger] now.contains(
            v,
        ) by {
            if v < n - 1 {
                assert(before.contains(v));
                let j = choose|j: int| 0 <= j < before.len() && before[j] == v;
                assert(now[j] == v);
            } else {
                assert(now[before.len() as int] == v);
            }
        }
    }
}

/// Every thing is started from once its turn comes.
pub proof fn start_order_is_complete(pairs: Seq<(usize, usize)>, roots: Seq<bool>)
    requires
        roots.len() <= usize::MAX,
    ensures
        forall|i: int|
            0 <= i < start_order(pairs, roots).len() ==> (#[trigger] start_order(pairs, roots)[i])
                < roots.len(),
        forall|v: usize| v < roots.len() ==> #[trigger] start_order(pairs, roots).contains(v),
{
    let n = roots.len();
    let (a, b, c, d) = (
        of_class(pairs, roots, 0, n),
        of_class(pairs, roots, 1, n),
        of_class(pairs, roots, 2, n),
        of_class(pairs, roots, 3, n),
    );
    lemma_of_class(pairs, roots, 0, n);
    lemma_of_class(pairs, roots, 1, n);
    lemma_of_class(pairs, roots, 2, n);
    lemma_of_class(pairs, roots, 3, n);
    let all = start_order(pairs, roots);
    assert forall|i: int| 0 <= i < all.len() implies (#[trigger] all[i]) < n by {
        if i < a.len() {
            assert(all[i] == a[i]);
        } else if i < a.len() + b.len() {
            assert(all[i] == b[i - a.len()]);
        } else if i < a.len() + b.len() + c.len() {
            assert(all[i] == c[i - a.len() - b.len()]);
        } else {
            assert(all[i] == d[i - a.len() - b.len() - c.len()]);
        }
    }
    assert forall|v: usize| v < n implies #[trigger] all.contains(v) by {
        let class = start_class(pairs, roots, v as int);
        if class == 0 {
            assert(a.contains(v));
            let j = choose|j: int| 0 <= j < a.len() && a[j] == v;
            assert(all[j] == v);
        } else if class == 1 {
            assert(b.contains(v));
            let j = choose|j: int| 0 <= j < b.len() && b[j] == v;
            assert(all[a.len() + j] == v);
        } else if class == 2 {
            assert(c.contains(v));
            let j = choose|j: int| 0 <= j < c.len() && c[j] == v;
            assert(all[a.len() + b.len() + j] == v);
        } else {
            assert(d.contains(v));
            let j = choose|j: int| 0 <= j < d.len() && d[j] == v;
            assert(all[a.len() + b.len() + c.len() + j] == v);
        }
    }
}

/// All things in the order the walk starts from them.
#[verifier::loop_isolation(false)]
pub fn order_starts(pairs: &Vec<(usize, usize)>, roots: &Vec<bool>) -> (r: Vec<usize>)
    requires
        pairs_below(roots@.len(), pairs@),
    ensures
        r@ == start_order(pairs@, roots@),
{
    let n: usize = roots.len();
    let mut entered: Vec<bool> = Vec::new();
    let mut z: usize = 0;
    while z < n
        invariant
            z <= n,
            entered@.len() == z,
            forall|v: int| 0 <= v < z ==> !#[trigger] entered@[v],
        decreases n - z,
    {
        entered.push(false);
        z = z + 1;
    }
    let mut k: usize = 0;
    while k < pairs.len()
        invariant
            k <= pairs@.len(),
            entered@.len() == n,
            forall|v: int|
                0 <= v < n ==> (#[trigger] entered@[v] <==> exists|j: int|
                    0 <= j < k && (#[trigger] pairs@[j]).1 == v),
        decreases pairs@.len() - k,
    {
        let ghost before = entered@;
        let b = pairs[k].1;
        assert(pairs@[k as int].1 < n);
        entered.set(b, true);
        assert forall|v: int| 0 <= v < n implies (#[trigger] entered@[v] <==> exists|j: int|
            0 <= j < k + 1 && (#[trigger] pairs@[j]).1 == v) by {
            if v == b {
                assert(pairs@[k as int].1 == v);
            } else {
                assert(entered@[v] == before[v]);
            }
        }
        k = k + 1;
    }
    let mut out: Vec<usize> = Vec::new();
    collect_class(pairs, roots, &entered, 0, &mut out);
    collect_class(pairs, roots, &entered, 1, &mut out);
    collect_class(pairs, roots, &entered, 2, &mut out);
    collect_class(pairs, roots, &entered, 3, &mut out);
    assert(out@ =~= start_order(pairs@, roots@));
    out
}

fn collect_class(
    pairs: &Vec<(usize, usize)>,
    roots: &Vec<bool>,
    entered: &Vec<bool>,
    class: usize,
    out: &mut Vec<usize>,
)
    requires
        entered@.len() == roots@.len(),
        forall|v: int|
            0 <= v < roots@.len() ==> #[trigger] entered@[v] == sources_any(pairs@, v),
    ensures
        final(out)@ == old(out)@ + of_class(pairs@, roots@, class as int, roots@.len()),
{
    let n: usize = roots.len();
    let ghost base = out@;
    let mut v: usize = 0;
    assert(base + Seq::<usize>::empty() =~= base);
    while v < n
        invariant
            v <= n,
            n == roots@.len(),
            entered@.len() == roots@.len(),
            forall|v: int|
                0 <= v < roots@.len() ==> #[trigger] entered@[v] == sources_any(pairs@, v),
            out@ == base + of_class(pairs@, roots@, class as int, v as nat),
        decreases n - v,
    {
        let first: usize = if roots[v] { 0 } else { 2 };
        let second: usize = if entered[v] { 1 } else { 0 };
        if first + second == class {
            out.push(v);
            assert(out@ =~= base + of_class(pairs@, roots@, class as int, v as nat + 1));
        }
        v = v + 1;
    }
}

} // verus!
