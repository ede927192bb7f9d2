//! Distance from the roots: a shallow layering that leaves some edges pointing backwards.

use vstd::prelude::*;

use crate::adjacency::{
    lemma_distinct_below, lemma_ends_below, lemma_targets, list_targets, lists_targets, pairs_below, targets,
};
use crate::cycles::sources_any;

verus! {

/// A root, or a thing that nothing leads to.
pub open spec fn is_source(pairs: Seq<(usize, usize)>, roots: Seq<bool>, v: int) -> bool {
    roots[v] || !sources_any(pairs, v)
}

/// Nothing is a source.
pub open spec fn no_source(pairs: Seq<(usize, usize)>, roots: Seq<bool>) -> bool {
    forall|v: int| 0 <= v < roots.len() ==> !#[trigger] is_source(pairs, roots, v)
}

/// `v` is where the wave `phase` starts: the wave 0 at all sources, or at 0 where there are none;
/// every other wave at the thing it is named after.
pub open spec fn starts_wave(
    pairs: Seq<(usize, usize)>,
    roots: Seq<bool>,
    phase: int,
    v: int,
) -> bool {
    if phase == 0 {
        is_source(pairs, roots, v) || (v == 0 && no_source(pairs, roots))
    } else {
        v == phase
    }
}

/// Something one rank earlier in the same wave leads to `v`.
pub open spec fn is_led_to(
    pairs: Seq<(usize, usize)>,
    phase: Seq<int>,
    rank: Seq<i32>,
    v: int,
) -> bool {
    exists|u: usize|
        #[trigger] pairs.contains((u, v as usize)) && phase[u as int] == phase[v] && rank[u as int]
            == rank[v] - 1
}

/// What the pair leads to was reached no later, and in the same wave at most one rank further.
pub open spec fn is_close(phase: Seq<int>, rank: Seq<i32>, u: int, w: int) -> bool {
    &&& phase[w] <= phase[u]
    &&& phase[w] == phase[u] ==> rank[w] <= rank[u] + 1
}

/// `rank` is the distance from the start within the wave that reached each thing first. The wave 0
/// starts from the sources; then each thing that no wave has reached yet starts one of its own, in
/// order. The thing 0 never starts a wave of its own after the wave 0, and has rank 0 where none
/// reaches it.
pub open spec fn is_layering(
    pairs: Seq<(usize, usize)>,
    roots: Seq<bool>,
    phase: Seq<int>,
    rank: Seq<i32>,
) -> bool {
    let m = roots.len() as int;
    &&& phase.len() == m
    &&& rank.len() == m
    &&& forall|v: int| 0 <= v < m ==> 0 <= #[trigger] phase[v] <= m
    &&& forall|v: int| 1 <= v < m ==> #[trigger] phase[v] <= v
    &&& forall|v: int| 0 <= v < m ==> 0 <= #[trigger] rank[v] < m
    &&& forall|v: int| 0 <= v < m && #[trigger] phase[v] == m ==> v == 0 && rank[v] == 0
    &&& forall|v: int|
        0 <= v < m && starts_wave(pairs, roots, 0, v) ==> #[trigger] phase[v] == 0
    &&& forall|v: int|
        0 <= v < m && #[trigger] phase[v] < m ==> (rank[v] == 0 <==> starts_wave(
            pairs,
            roots,
            phase[v],
            v,
        ))
    &&& forall|v: int|
        0 <= v < m && #[trigger] rank[v] > 0 ==> is_led_to(pairs, phase, rank, v)
    &&& forall|u: usize, w: usize|
        #[trigger] pairs.contains((u, w)) && phase[u as int] < m ==> is_close(
            phase,
            rank,
            u as int,
            w as int,
        )
}

/// The waves so far.
struct Spread {
    /// The rank of each thing; -1 where no wave has come.
    rank: Vec<i32>,
    /// What the waves have reached, in order.
    queue: Vec<usize>,
    /// How much of the queue was looked at.
    head: usize,
    phase: Ghost<Seq<int>>,
}

impl Spread {
    /// What `u` leads to was reached no later than from `u`.
    spec fn is_closed(self, pairs: Seq<(usize, usize)>, u: int) -> bool {
        forall|w: usize|
            #[trigger] pairs.contains((u as usize, w)) ==> self.rank@[w as int] >= 0 && is_close(
                self.phase@,
                self.rank@,
                u,
                w as int,
            )
    }

    /// The queue holds what was reached, each thing once, and nothing is further than its place.
    spec fn is_listed(self, m: int) -> bool {
        &&& self.rank@.len() == m
        &&& self.phase@.len() == m
        &&& self.queue@.no_duplicates()
        &&& self.head <= self.queue@.len()
        &&& forall|j: int|
            0 <= j < self.queue@.len() ==> (#[trigger] self.queue@[j]) < m && 0
                <= self.rank@[self.queue@[j] as int] <= j
        &&& forall|v: int|
            0 <= v < m && #[trigger] self.rank@[v] >= 0 ==> self.queue@.contains(v as usize)
        &&& forall|v: int| 0 <= v < m ==> #[trigger] self.rank@[v] >= -1
    }

    /// The wave `p` fills the queue from `seg` on, in order of rank.
    #[verifier::opaque]
    spec fn is_wave(self, p: int, seg: int) -> bool {
        &&& 0 <= seg <= self.head
        &&& forall|j: int|
            0 <= j < seg && j < self.queue@.len() ==> 0 <= self.phase@[(
            #[trigger] self.queue@[j]) as int] < p
        &&& forall|j: int|
            seg <= j < self.queue@.len() ==> self.phase@[(#[trigger] self.queue@[j]) as int] == p
        &&& forall|i: int, j: int|
            seg <= i < j < self.queue@.len() ==> self.rank@[(#[trigger] self.queue@[i]) as int]
                <= self.rank@[(#[trigger] self.queue@[j]) as int]
        &&& self.head < self.queue@.len() ==> forall|j: int|
            seg <= j < self.queue@.len() ==> self.rank@[(#[trigger] self.queue@[j]) as int]
                <= self.rank@[self.queue@[self.head as int] as int] + 1
    }

    /// Everything reached started its wave, or was led to.
    #[verifier::opaque]
    spec fn is_rooted(self, pairs: Seq<(usize, usize)>, roots: Seq<bool>) -> bool {
        &&& forall|v: int|
            0 <= v < self.rank@.len() && #[trigger] self.rank@[v] >= 0 ==> (self.rank@[v] == 0
                <==> starts_wave(pairs, roots, self.phase@[v], v))
        &&& forall|v: int|
            0 <= v < self.rank@.len() && #[trigger] self.rank@[v] > 0 ==> is_led_to(
                pairs,
                self.phase@,
                self.rank@,
                v,
            )
    }

    /// What was looked at is closed.
    #[verifier::opaque]
    spec fn is_done(self, pairs: Seq<(usize, usize)>) -> bool {
        forall|i: int|
            0 <= i < self.head ==> self.is_closed(pairs, (#[trigger] self.queue@[i]) as int)
    }

    /// Everything from 1 up to `p` was reached by earlier waves, and nothing by a wave it precedes.
    #[verifier::opaque]
    spec fn is_timely(self, p: int) -> bool {
        &&& forall|v: int|
            1 <= v < p && v < self.rank@.len() ==> #[trigger] self.rank@[v] >= 0 && self.phase@[v]
                < p
        &&& forall|v: int|
            1 <= v < self.rank@.len() && #[trigger] self.rank@[v] >= 0 ==> self.phase@[v] <= v
    }

    spec fn well_formed(
        self,
        pairs: Seq<(usize, usize)>,
        roots: Seq<bool>,
        p: int,
        seg: int,
    ) -> bool {
        &&& self.is_listed(roots.len() as int)
        &&& self.is_wave(p, seg)
        &&& self.is_rooted(pairs, roots)
        &&& self.is_done(pairs)
        &&& self.is_timely(p)
    }

    /// Reaches `w` from the thing being looked at.
    #[verifier::rlimit(60)]
    fn reach(
        &mut self,
        w: usize,
        rank: i32,
        Ghost(pairs): Ghost<Seq<(usize, usize)>>,
        Ghost(roots): Ghost<Seq<bool>>,
        Ghost(p): Ghost<int>,
        Ghost(seg): Ghost<int>,
    )
        requires
            old(self).well_formed(pairs, roots, p, seg),
            pairs_below(roots.len(), pairs),
            roots.len() < i32::MAX,
            0 <= p < roots.len(),
            w < roots.len(),
            old(self).rank@[w as int] < 0,
            old(self).head < old(self).queue@.len(),
            rank == old(self).rank@[old(self).queue@[old(self).head as int] as int] + 1,
            pairs.contains((old(self).queue@[old(self).head as int], w)),
            p == 0 ==> !is_source(pairs, roots, w as int) && (w == 0 ==> !no_source(pairs, roots)),
            p > 0 ==> w != p,
        ensures
            final(self).well_formed(pairs, roots, p, seg),
            final(self).head == old(self).head,
            final(self).queue@ == old(self).queue@.push(w),
            final(self).rank@ == old(self).rank@.update(w as int, rank),
            final(self).phase@ == old(self).phase@.update(w as int, p),
    {
        let ghost start = *self;
        let ghost u = self.queue@[self.head as int];
        proof {
            reveal(Spread::is_wave);
            reveal(Spread::is_rooted);
            reveal(Spread::is_done);
            reveal(Spread::is_timely);
            assert(self.rank@[u as int] <= self.head);
            assert(!start.queue@.contains(w)) by {
                if start.queue@.contains(w) {
                    let j = choose|j: int| 0 <= j < start.queue@.len() && start.queue@[j] == w;
                    assert(start.rank@[start.queue@[j] as int] >= 0);
                }
            }
            assert(w == 0 || p <= w) by {
                if 1 <= w < p {
                    assert(start.rank@[w as int] >= 0);
                }
            }
        }
        self.rank.set(w, rank);
        self.queue.push(w);
        proof {
            self.phase@ = self.phase@.update(w as int, p);
            let q = self.queue@;
            assert(q.no_duplicates());
            assert(u != w) by {
                assert(start.queue@.contains(u));
            }
            assert forall|v: int| 0 <= v < roots.len() && #[trigger] self.rank@[v] >= 0 implies q.contains(
                v as usize,
            ) by {
                if v == w {
                    assert(q[start.queue@.len() as int] == w);
                } else {
                    assert(start.queue@.contains(v as usize));
                    let j = choose|j: int|
                        0 <= j < start.queue@.len() && start.queue@[j] == v as usize;
                    assert(q[j] == v as usize);
                }
            }
            assert forall|j: int| 0 <= j < q.len() implies (#[trigger] q[j]) < roots.len() && 0
                <= self.rank@[q[j] as int] <= j by {
                if j < start.queue@.len() {
                    assert(q[j] == start.queue@[j]);
                }
            }
            assert(self.is_wave(p, seg)) by {
                assert forall|j: int| 0 <= j < start.queue@.len() implies (#[trigger] q[j]) != w by {
                    assert(start.queue@[j] == q[j]);
                }
                assert forall|i: int, j: int| seg <= i < j < q.len() implies self.rank@[(
                #[trigger] q[i]) as int] <= self.rank@[(#[trigger] q[j]) as int] by {
                    assert(q[i] == start.queue@[i]);
                    assert(start.rank@[start.queue@[i] as int] <= start.rank@[u as int] + 1);
                    if j < start.queue@.len() {
                        assert(q[j] == start.queue@[j]);
                    }
                }
                assert forall|j: int| seg <= j < q.len() implies self.rank@[(#[trigger] q[j]) as int]
                    <= self.rank@[q[self.head as int] as int] + 1 by {
                    if j < start.queue@.len() {
                        assert(q[j] == start.queue@[j]);
                    }
                }
            }
            assert(self.is_rooted(pairs, roots)) by {
                assert forall|v: int| 0 <= v < roots.len() && #[trigger] self.rank@[v] > 0 implies is_led_to(
                    pairs,
                    self.phase@,
                    self.rank@,
                    v,
                ) by {
                    if v == w {
                        assert(pairs.contains((u, v as usize)));
                        assert(start.phase@[u as int] == p);
                    } else {
                        assert(is_led_to(pairs, start.phase@, start.rank@, v));
                        let x = choose|x: usize|
                            #[trigger] pairs.contains((x, v as usize)) && start.phase@[x as int]
                                == start.phase@[v] && start.rank@[x as int] == start.rank@[v] - 1;
                        lemma_ends_below(roots.len(), pairs, (x, v as usize));
                        assert(x != w);
                        assert(pairs.contains((x, v as usize)));
                    }
                }
            }
            assert(self.is_done(pairs)) by {
                assert forall|i: int| 0 <= i < self.head implies self.is_closed(
                    pairs,
                    (#[trigger] q[i]) as int,
                ) by {
                    assert(q[i] == start.queue@[i]);
                    assert(start.is_closed(pairs, start.queue@[i] as int));
                    assert forall|x: usize| #[trigger] pairs.contains(((q[i] as int) as usize, x)) implies self.rank@[x as int]
                        >= 0 && is_close(self.phase@, self.rank@, q[i] as int, x as int) by {
                        lemma_ends_below(roots.len(), pairs, ((q[i] as int) as usize, x));
                        assert(start.rank@[x as int] >= 0);
                        assert(x != w);
                        assert(q[i] != w);
                    }
                }
            }
        }
    }

    /// Looks at everything the wave has reached until it reaches nothing more.
    #[verifier::rlimit(60)]
    fn drain(
        &mut self,
        fwd: &Vec<Vec<usize>>,
        Ghost(pairs): Ghost<Seq<(usize, usize)>>,
        Ghost(roots): Ghost<Seq<bool>>,
        Ghost(p): Ghost<int>,
        Ghost(seg): Ghost<int>,
    )
        requires
            old(self).well_formed(pairs, roots, p, seg),
            roots.len() < i32::MAX,
            0 <= p < roots.len(),
            lists_targets(roots.len(), pairs, fwd@),
            pairs_below(roots.len(), pairs),
            forall|v: int|
                0 <= v < roots.len() && starts_wave(pairs, roots, p, v)
                    ==> #[trigger] old(self).rank@[v] >= 0,
        ensures
            final(self).well_formed(pairs, roots, p, seg),
            final(self).head == final(self).queue@.len(),
            forall|v: int|
                0 <= v < roots.len() && old(self).rank@[v] >= 0 ==> #[trigger] final(self).rank@[v]
                    == old(self).rank@[v],
            forall|v: int|
                0 <= v < roots.len() && old(self).rank@[v] >= 0 ==> #[trigger] final(self).phase@[v]
                    == old(self).phase@[v],
    {
        let ghost first = *self;
        while self.head < self.queue.len()
            invariant
                self.well_formed(pairs, roots, p, seg),
                roots.len() < i32::MAX,
                0 <= p < roots.len(),
                lists_targets(roots.len(), pairs, fwd@),
                pairs_below(roots.len(), pairs),
                forall|v: int|
                    0 <= v < roots.len() && starts_wave(pairs, roots, p, v)
                        ==> #[trigger] self.rank@[v] >= 0,
                forall|v: int|
                    0 <= v < roots.len() && first.rank@[v] >= 0 ==> #[trigger] self.rank@[v]
                        == first.rank@[v],
                forall|v: int|
                    0 <= v < roots.len() && first.rank@[v] >= 0 ==> #[trigger] self.phase@[v]
                        == first.phase@[v],
            decreases roots.len() - self.head,
        {
            let u = self.queue[self.head];
            let d = self.rank[u];
            let ghost at = self.head as int;
            assert(fwd@[u as int]@ == targets(pairs, u as int));
            proof {
                lemma_targets(pairs, u as int);
                lemma_distinct_below(self.queue@, roots.len());
            }
            let n: usize = fwd[u].len();
            let mut k: usize = 0;
            while k < n
                invariant
                    k <= n,
                    n == fwd@[u as int]@.len(),
                    u < roots.len(),
                    fwd@[u as int]@ == targets(pairs, u as int),
                    self.well_formed(pairs, roots, p, seg),
                    roots.len() < i32::MAX,
                    0 <= p < roots.len(),
                    lists_targets(roots.len(), pairs, fwd@),
                    pairs_below(roots.len(), pairs),
                    self.head == at,
                    at < self.queue@.len(),
                    self.queue@[at] == u,
                    self.rank@[u as int] == d,
                    forall|w: usize|
                        #[trigger] targets(pairs, u as int).contains(w) <==> exists|k: int|
                            0 <= k < pairs.len() && (#[trigger] pairs[k]).0 == u && pairs[k].1 == w,
                    forall|v: int|
                        0 <= v < roots.len() && starts_wave(pairs, roots, p, v)
                            ==> #[trigger] self.rank@[v] >= 0,
                    forall|v: int|
                        0 <= v < roots.len() && first.rank@[v] >= 0 ==> #[trigger] self.rank@[v]
                            == first.rank@[v],
                    forall|v: int|
                        0 <= v < roots.len() && first.rank@[v] >= 0 ==> #[trigger] self.phase@[v]
                            == first.phase@[v],
                    forall|j: int|
                        0 <= j < k ==> self.rank@[(#[trigger] targets(pairs, u as int)[j]) as int]
                            >= 0,
                decreases n - k,
            {
                let w = fwd[u][k];
                let ghost entry = *self;
                proof {
                    assert(targets(pairs, u as int)[k as int] == w);
                    assert(targets(pairs, u as int).contains(w));
                    let i = choose|i: int|
                        0 <= i < pairs.len() && (#[trigger] pairs[i]).0 == u && pairs[i].1 == w;
                    assert(pairs[i] == (u, w));
                    assert(pairs.contains((u, w)));
                    assert(w < roots.len());
                }
                if self.rank[w] < 0 {
                    proof {
                        assert(self.rank@[self.queue@[at] as int] <= at);
                        lemma_distinct_below(self.queue@, roots.len());
                        assert(!starts_wave(pairs, roots, p, w as int));
                    }
                    let ghost before = *self;
                    self.reach(w, d + 1, Ghost(pairs), Ghost(roots), Ghost(p), Ghost(seg));
                    proof {
                        assert(before.queue@.contains(u));
                        assert(u != w);
                        assert(self.queue@[at] == before.queue@[at]);
                        assert forall|v: int| 0 <= v < roots.len() && first.rank@[v] >= 0 implies #[trigger] self.phase@[v]
                            == first.phase@[v] by {
                            assert(before.rank@[v] == first.rank@[v]);
                            assert(v != w);
                            assert(before.phase@[v] == first.phase@[v]);
                        }
                    }
                }
                assert forall|j: int| 0 <= j < k + 1 implies self.rank@[(#[trigger] targets(
                    pairs,
                    u as int,
                )[j]) as int] >= 0 by {
                    let x = targets(pairs, u as int)[j];
                    assert(targets(pairs, u as int).contains(x));
                    let i = choose|i: int|
                        0 <= i < pairs.len() && (#[trigger] pairs[i]).0 == u && pairs[i].1 == x;
                    assert(pairs[i].1 < roots.len());
                    if j < k {
                        assert(entry.rank@[x as int] >= 0);
                    }
                    assert(d >= -1);
                }
                k = k + 1;
            }
            proof {
                assert(self.is_closed(pairs, u as int)) by {
                    reveal(Spread::is_wave);
                    assert forall|w: usize| #[trigger] pairs.contains(((u as int) as usize, w)) implies self.rank@[w as int]
                        >= 0 && is_close(self.phase@, self.rank@, u as int, w as int) by {
                        let i = choose|i: int| 0 <= i < pairs.len() && pairs[i] == (u, w);
                        assert(pairs[i].0 == u && pairs[i].1 == w);
                        assert(targets(pairs, u as int).contains(w));
                        let j = choose|j: int|
                            0 <= j < targets(pairs, u as int).len() && targets(pairs, u as int)[j]
                                == w;
                        assert(self.rank@[targets(pairs, u as int)[j] as int] >= 0);
                        assert(w < roots.len());
                        assert(self.queue@.contains(w));
                        let x = choose|x: int| 0 <= x < self.queue@.len() && self.queue@[x] == w;
                        assert(self.queue@[x] == w);
                    }
                }
                lemma_distinct_below(self.queue@, roots.len());
            }
            let ghost before = *self;
            self.head = self.head + 1;
            proof {
                assert(self.is_done(pairs)) by {
                    reveal(Spread::is_done);
                    assert forall|i: int| 0 <= i < self.head implies self.is_closed(
                        pairs,
                        (#[trigger] self.queue@[i]) as int,
                    ) by {
                        assert(before.is_closed(pairs, before.queue@[i] as int));
                        assert forall|w: usize| #[trigger] pairs.contains(
                            ((self.queue@[i] as int) as usize, w),
                        ) implies self.rank@[w as int] >= 0 && is_close(
                            self.phase@,
                            self.rank@,
                            self.queue@[i] as int,
                            w as int,
                        ) by {}
                    }
                }
                assert(self.is_timely(p)) by {
                    reveal(Spread::is_timely);
                }
                assert(self.is_wave(p, seg)) by {
                    reveal(Spread::is_wave);
                    if self.head < self.queue@.len() {
                        let h = self.head as int;
                        assert(self.rank@[self.queue@[h - 1] as int]
                            <= self.rank@[self.queue@[h] as int]);
                        assert forall|j: int| seg <= j < self.queue@.len() implies self.rank@[(
                        #[trigger] self.queue@[j]) as int] <= self.rank@[self.queue@[h] as int] + 1 by {
                            assert(before.queue@[before.head as int] == self.queue@[h - 1]);
                        }
                    }
                }
                assert(self.is_rooted(pairs, roots)) by {
                    reveal(Spread::is_rooted);
                    assert(before.is_rooted(pairs, roots));
                }
            }
        }
    }

    /// Starts a wave at `v`.
    #[verifier::rlimit(60)]
    fn start(
        &mut self,
        v: usize,
        Ghost(pairs): Ghost<Seq<(usize, usize)>>,
        Ghost(roots): Ghost<Seq<bool>>,
        Ghost(p): Ghost<int>,
        Ghost(seg): Ghost<int>,
    )
        requires
            old(self).well_formed(pairs, roots, p, seg),
            pairs_below(roots.len(), pairs),
            old(self).head <= seg,
            v < roots.len(),
            old(self).rank@[v as int] < 0,
            starts_wave(pairs, roots, p, v as int),
            p >= 0,
            forall|j: int|
                seg <= j < old(self).queue@.len() ==> old(self).rank@[(
                #[trigger] old(self).queue@[j]) as int] == 0,
        ensures
            final(self).well_formed(pairs, roots, p, seg),
            final(self).head == old(self).head,
            final(self).queue@ == old(self).queue@.push(v),
            final(self).rank@ == old(self).rank@.update(v as int, 0),
            final(self).phase@ == old(self).phase@.update(v as int, p),
            forall|j: int|
                seg <= j < final(self).queue@.len() ==> final(self).rank@[(
                #[trigger] final(self).queue@[j]) as int] == 0,
    {
        let ghost start = *self;
        proof {
            reveal(Spread::is_wave);
            reveal(Spread::is_rooted);
            reveal(Spread::is_done);
            reveal(Spread::is_timely);
            assert(!start.queue@.contains(v)) by {
                if start.queue@.contains(v) {
                    let j = choose|j: int| 0 <= j < start.queue@.len() && start.queue@[j] == v;
                    assert(start.rank@[start.queue@[j] as int] >= 0);
                }
            }
        }
        self.rank.set(v, 0);
        self.queue.push(v);
        proof {
            self.phase@ = self.phase@.update(v as int, p);
            let q = self.queue@;
            assert(q.no_duplicates());
            assert forall|x: int| 0 <= x < roots.len() && #[trigger] self.rank@[x] >= 0 implies q.contains(
                x as usize,
            ) by {
                if x == v {
                    assert(q[start.queue@.len() as int] == v);
                } else {
                    assert(start.queue@.contains(x as usize));
                    let j = choose|j: int|
                        0 <= j < start.queue@.len() && start.queue@[j] == x as usize;
                    assert(q[j] == x as usize);
                }
            }
            assert forall|j: int| 0 <= j < q.len() implies (#[trigger] q[j]) < roots.len() && 0
                <= self.rank@[q[j] as int] <= j by {
                if j < start.queue@.len() {
                    assert(q[j] == start.queue@[j]);
                }
            }
            assert forall|j: int| 0 <= j < start.queue@.len() implies (#[trigger] q[j]) != v by {
                assert(start.queue@[j] == q[j]);
            }
            assert forall|j: int| seg <= j < q.len() implies self.rank@[(#[trigger] q[j]) as int] == 0 by {
                if j < start.queue@.len() {
                    assert(q[j] == start.queue@[j]);
                }
            }
            assert(self.is_rooted(pairs, roots)) by {
                assert forall|x: int| 0 <= x < roots.len() && #[trigger] self.rank@[x] > 0 implies is_led_to(
                    pairs,
                    self.phase@,
                    self.rank@,
                    x,
                ) by {
                    assert(is_led_to(pairs, start.phase@, start.rank@, x));
                    let y = choose|y: usize|
                        #[trigger] pairs.contains((y, x as usize)) && start.phase@[y as int]
                            == start.phase@[x] && start.rank@[y as int] == start.rank@[x] - 1;
                    lemma_ends_below(roots.len(), pairs, (y, x as usize));
                    assert(y != v);
                    assert(pairs.contains((y, x as usize)));
                }
            }
            assert(self.is_done(pairs)) by {
                assert forall|i: int| 0 <= i < self.head implies self.is_closed(
                    pairs,
                    (#[trigger] q[i]) as int,
                ) by {
                    assert(q[i] == start.queue@[i]);
                    assert(start.is_closed(pairs, start.queue@[i] as int));
                    assert forall|x: usize| #[trigger] pairs.contains(((q[i] as int) as usize, x)) implies self.rank@[x as int]
                        >= 0 && is_close(self.phase@, self.rank@, q[i] as int, x as int) by {
                        lemma_ends_below(roots.len(), pairs, ((q[i] as int) as usize, x));
                        assert(start.rank@[x as int] >= 0);
                        assert(x != v);
                        assert(q[i] != v);
                    }
                }
            }
            assert(self.is_timely(p)) by {
                assert(v == 0 || p <= v) by {
                    if 1 <= v < p {
                        assert(start.rank@[v as int] >= 0);
                    }
                }
            }
        }
    }
}

/// Distance from the roots. Roots, and things that nothing leads to, come first; what they do not
/// reach is laid out from where it begins.
#[verifier::rlimit(60)]
pub fn bfs_rank(pairs: &Vec<(usize, usize)>, roots: &Vec<bool>) -> (r: Vec<i32>)
    requires
        pairs_below(roots@.len(), pairs@),
        roots@.len() < i32::MAX,
    ensures
        exists|phase: Seq<int>| #[trigger] is_layering(pairs@, roots@, phase, r@),
{
    let m: usize = roots.len();
    let ghost ps = pairs@;
    let ghost rs = roots@;
    let fwd = list_targets(m, pairs);
    let mut entered: Vec<bool> = Vec::new();
    let mut rank: Vec<i32> = Vec::new();
    let mut z: usize = 0;
    while z < m
        invariant
            z <= m,
            entered@.len() == z,
            rank@.len() == z,
            forall|v: int| 0 <= v < z ==> !#[trigger] entered@[v],
            forall|v: int| 0 <= v < z ==> #[trigger] rank@[v] == -1,
        decreases m - z,
    {
        entered.push(false);
        rank.push(-1);
        z = z + 1;
    }
    let mut k: usize = 0;
    while k < pairs.len()
        invariant
            k <= pairs@.len(),
            entered@.len() == m,
            pairs_below(m as nat, pairs@),
            forall|v: int|
                0 <= v < m ==> (#[trigger] entered@[v] <==> exists|j: int|
                    0 <= j < k && (#[trigger] pairs@[j]).1 == v),
        decreases pairs@.len() - k,
    {
        let ghost before = entered@;
        let b = pairs[k].1;
        assert(pairs@[k as int].1 < m);
        entered.set(b, true);
        assert forall|v: int| 0 <= v < m implies (#[trigger] entered@[v] <==> exists|j: int|
            0 <= j < k + 1 && (#[trigger] pairs@[j]).1 == v) by {
            if v == b {
                assert(pairs@[k as int].1 == v);
            } else {
                assert(entered@[v] == before[v]);
            }
        }
        k = k + 1;
    }
    let mut spread = Spread {
        rank,
        queue: Vec::new(),
        head: 0,
        phase: Ghost(Seq::new(m as nat, |v: int| 0int)),
    };
    assert(spread.well_formed(ps, rs, 0, 0)) by {
        reveal(Spread::is_wave);
        reveal(Spread::is_rooted);
        reveal(Spread::is_done);
        reveal(Spread::is_timely);
    }
    let mut v: usize = 0;
    while v < m
        invariant
            v <= m,
            m == rs.len(),
            rs == roots@,
            ps == pairs@,
            entered@.len() == m,
            pairs_below(m as nat, ps),
            forall|v: int| 0 <= v < m ==> #[trigger] entered@[v] == sources_any(ps, v),
            spread.well_formed(ps, rs, 0, 0),
            spread.head == 0,
            forall|j: int|
                0 <= j < spread.queue@.len() ==> spread.rank@[(#[trigger] spread.queue@[j]) as int]
                    == 0,
            forall|x: int|
                0 <= x < v ==> (#[trigger] spread.rank@[x] >= 0 <==> is_source(ps, rs, x)),
            forall|x: int| v <= x < m ==> #[trigger] spread.rank@[x] < 0,
            spread.queue@.len() == 0 ==> forall|x: int|
                0 <= x < v ==> !#[trigger] is_source(ps, rs, x),
        decreases m - v,
    {
        let source: bool = roots[v] || !entered[v];
        assert(source == is_source(ps, rs, v as int));
        if source {
            spread.start(v, Ghost(ps), Ghost(rs), Ghost(0), Ghost(0));
        }
        v = v + 1;
    }
    if m > 0 {
        if spread.queue.len() == 0 {
            assert(no_source(ps, rs));
            spread.start(0, Ghost(ps), Ghost(rs), Ghost(0), Ghost(0));
        } else {
            assert(!no_source(ps, rs)) by {
                let x = spread.queue@[0];
                assert(spread.rank@[x as int] >= 0);
                assert(is_source(ps, rs, x as int));
            }
        }
        assert forall|x: int| 0 <= x < m && starts_wave(ps, rs, 0, x) implies #[trigger] spread.rank@[x]
            >= 0 by {
            assert(is_source(ps, rs, x) || x == 0);
        }
        let ghost sown = spread;
        spread.drain(&fwd, Ghost(ps), Ghost(rs), Ghost(0), Ghost(0));
        proof {
            assert forall|x: int| 0 <= x < m && starts_wave(ps, rs, 0, x) implies #[trigger] spread.phase@[x]
                == 0 && spread.rank@[x] >= 0 by {
                reveal(Spread::is_wave);
                assert(sown.rank@[x] >= 0);
                assert(spread.rank@[x] == sown.rank@[x]);
                assert(spread.queue@.contains(x as usize));
                let j = choose|j: int|
                    0 <= j < spread.queue@.len() && spread.queue@[j] == x as usize;
                assert(spread.phase@[spread.queue@[j] as int] == 0);
            }
        }
        let mut seed: usize = 1;
        let ghost mut wave: int = 0;
        let ghost mut from: int = 0;
        while seed < m
            invariant
                1 <= seed <= m,
                m == rs.len(),
                m < i32::MAX,
                fwd@.len() == m,
                lists_targets(m as nat, ps, fwd@),
                pairs_below(m as nat, ps),
                0 <= wave < seed,
                spread.well_formed(ps, rs, wave, from),
                spread.head == spread.queue@.len(),
                forall|x: int| 1 <= x < seed ==> #[trigger] spread.rank@[x] >= 0,
                forall|x: int|
                    0 <= x < m && starts_wave(ps, rs, 0, x) ==> #[trigger] spread.phase@[x] == 0
                        && spread.rank@[x] >= 0,
            decreases m - seed,
        {
            if spread.rank[seed] < 0 {
                let ghost p = seed as int;
                let ghost seg = spread.queue@.len() as int;
                assert(spread.well_formed(ps, rs, p, seg)) by {
                    reveal(Spread::is_wave);
                    reveal(Spread::is_timely);
                    assert(spread.is_wave(p, seg)) by {
                        assert forall|j: int| 0 <= j < seg && j < spread.queue@.len() implies 0
                            <= spread.phase@[(#[trigger] spread.queue@[j]) as int] < p by {}
                    }
                    assert(spread.is_timely(p)) by {
                        assert forall|x: int| 1 <= x < p && x < spread.rank@.len() implies #[trigger] spread.rank@[x]
                            >= 0 && spread.phase@[x] < p by {
                            assert(spread.rank@[x] >= 0);
                        }
                    }
                }
                let ghost before = spread;
                assert forall|x: int| 0 <= x < m && starts_wave(ps, rs, 0, x) implies #[trigger] before.phase@[x]
                    == 0 && before.rank@[x] >= 0 by {
                    assert(spread.phase@[x] == 0);
                }
                spread.start(seed, Ghost(ps), Ghost(rs), Ghost(p), Ghost(seg));
                assert forall|x: int| 0 <= x < m && starts_wave(ps, rs, p, x) implies #[trigger] spread.rank@[x]
                    >= 0 by {
                    assert(x == p);
                }
                let ghost mid = spread;
                spread.drain(&fwd, Ghost(ps), Ghost(rs), Ghost(p), Ghost(seg));
                proof {
                    assert forall|x: int| 0 <= x < m && starts_wave(ps, rs, 0, x) implies #[trigger] spread.phase@[x]
                        == 0 && spread.rank@[x] >= 0 by {
                        assert(starts_wave(ps, rs, 0, x));
                        assert(before.phase@[x] == 0);
                        assert(before.rank@[x] >= 0);
                        assert(x != seed);
                        assert(mid.rank@[x] >= 0 && mid.phase@[x] == 0);
                        assert(spread.rank@[x] == mid.rank@[x]);
                    }
                    wave = p;
                    from = seg;
                    assert forall|x: int| 1 <= x < seed + 1 implies #[trigger] spread.rank@[x] >= 0 by {
                        assert(mid.rank@[x] >= 0) by {
                            if x < seed {
                                assert(before.rank@[x] >= 0);
                            }
                        }
                    }
                }
            }
            seed = seed + 1;
        }
        let ghost last = spread;
        let mut out = spread.rank;
        let ghost mut phase = last.phase@;
        if out[0] < 0 {
            out.set(0, 0);
            proof {
                phase = phase.update(0, m as int);
            }
        }
        proof {
            reveal(Spread::is_wave);
            reveal(Spread::is_rooted);
            reveal(Spread::is_done);
            reveal(Spread::is_timely);
            lemma_distinct_below(last.queue@, m as nat);
            assert forall|x: int| 0 <= x < m implies 0 <= #[trigger] phase[x] <= m && 0 <= out@[x]
                < m by {
                if last.rank@[x] >= 0 {
                    assert(last.queue@.contains(x as usize));
                    let j = choose|j: int|
                        0 <= j < last.queue@.len() && last.queue@[j] == x as usize;
                    assert(last.rank@[last.queue@[j] as int] <= j);
                }
            }
            assert forall|x: int| 0 <= x < m && #[trigger] out@[x] > 0 implies is_led_to(
                ps,
                phase,
                out@,
                x,
            ) by {
                assert(is_led_to(ps, last.phase@, last.rank@, x));
                let y = choose|y: usize|
                    #[trigger] ps.contains((y, x as usize)) && last.phase@[y as int]
                        == last.phase@[x] && last.rank@[y as int] == last.rank@[x] - 1;
                assert(last.rank@[y as int] >= 0);
                assert(ps.contains((y, x as usize)));
            }
            assert forall|u: usize, w: usize| #[trigger] ps.contains((u, w)) && phase[u as int]
                < m implies is_close(phase, out@, u as int, w as int) by {
                let j = choose|j: int| 0 <= j < ps.len() && ps[j] == (u, w);
                assert(ps[j].0 < m && ps[j].1 < m);
                assert(last.rank@[u as int] >= 0);
                assert(last.queue@.contains(u));
                let i = choose|i: int| 0 <= i < last.queue@.len() && last.queue@[i] == u;
                assert(last.is_closed(ps, last.queue@[i] as int));
                assert(ps.contains(((u as int) as usize, w)));
            }
            assert forall|x: int| 0 <= x < m && starts_wave(ps, rs, 0, x) implies #[trigger] phase[x]
                == 0 by {
                assert(last.phase@[x] == 0 && last.rank@[x] >= 0);
            }
            assert(is_layering(ps, rs, phase, out@));
        }
        return out;
    }
    let out: Vec<i32> = Vec::new();
    assert(is_layering(ps, rs, Seq::empty(), out@)) by {
        assert forall|u: usize, w: usize| #[trigger] ps.contains((u, w)) implies false by {
            let j = choose|j: int| 0 <= j < ps.len() && ps[j] == (u, w);
            assert(ps[j].0 < m);
        }
    }
    out
}

// ── laws ───────────────────────────────────────────────────────────────────

/// Columns are distances: roots, and what nothing leads to, stand in the first one; what they lead to
/// stands in the second at the latest; and whatever stands in a later column is led to from the one
/// before it.
pub proof fn columns_are_distances(
    pairs: Seq<(usize, usize)>,
    roots: Seq<bool>,
    phase: Seq<int>,
    rank: Seq<i32>,
    v: int,
    w: usize,
)
    requires
        is_layering(pairs, roots, phase, rank),
        pairs_below(roots.len(), pairs),
        0 <= v < roots.len() <= usize::MAX,
    ensures
        roots[v] || (forall|k: int| 0 <= k < pairs.len() ==> (#[trigger] pairs[k]).1 != v) ==> rank[v]
            == 0,
        (roots[v] || (forall|k: int| 0 <= k < pairs.len() ==> (#[trigger] pairs[k]).1 != v))
            && pairs.contains((v as usize, w)) ==> rank[w as int] <= 1,
        rank[v] > 0 ==> exists|u: usize|
            #[trigger] pairs.contains((u, v as usize)) && rank[u as int] == rank[v] - 1,
{
    if forall|k: int| 0 <= k < pairs.len() ==> (#[trigger] pairs[k]).1 != v {
        assert(!sources_any(pairs, v));
    }
    if roots[v] || (forall|k: int| 0 <= k < pairs.len() ==> (#[trigger] pairs[k]).1 != v) {
        assert(is_source(pairs, roots, v));
        assert(starts_wave(pairs, roots, 0, v));
        assert(phase[v] == 0);
        if pairs.contains((v as usize, w)) {
            lemma_ends_below(roots.len(), pairs, (v as usize, w));
            assert(is_close(phase, rank, v, w as int));
            assert(0 <= phase[w as int]);
        }
    }
    if rank[v] > 0 {
        assert(is_led_to(pairs, phase, rank, v));
    }
}

/// Columns grow by one at most along what the roots reach: from a thing that the first wave reaches, a
/// pair leads to one that it reaches too, at most one column further.
pub proof fn pairs_lead_one_column_further(
    pairs: Seq<(usize, usize)>,
    roots: Seq<bool>,
    phase: Seq<int>,
    rank: Seq<i32>,
    u: usize,
    w: usize,
)
    requires
        is_layering(pairs, roots, phase, rank),
        pairs.contains((u, w)),
        u < roots.len(),
        w < roots.len(),
        phase[u as int] == 0,
    ensures
        phase[w as int] == 0,
        rank[w as int] <= rank[u as int] + 1,
{
    assert(is_close(phase, rank, u as int, w as int));
    assert(0 <= phase[w as int]);
}

} // verus!
