//! Joining numbered things into groups by pairs: union-find.

use vstd::prelude::*;

verus! {

// ── model ──────────────────────────────────────────────────────────────────

/// The pair `p` joins `a` and `b`, in either direction.
pub open spec fn pair_joins(p: (usize, usize), a: int, b: int) -> bool {
    (p.0 == a && p.1 == b) || (p.0 == b && p.1 == a)
}

/// Some pair joins `a` and `b`.
pub open spec fn joined(pairs: Seq<(usize, usize)>, a: int, b: int) -> bool {
    exists|k: int| 0 <= k < pairs.len() && pair_joins(#[trigger] pairs[k], a, b)
}

/// `w` walks along pairs.
pub open spec fn is_chain(pairs: Seq<(usize, usize)>, w: Seq<int>) -> bool {
    &&& w.len() > 0
    &&& forall|i: int| #![trigger w[i]] 0 < i < w.len() ==> joined(pairs, w[i - 1], w[i])
}

/// `a` and `b` hang together: a walk leads from one to the other.
pub open spec fn linked(pairs: Seq<(usize, usize)>, a: int, b: int) -> bool {
    exists|w: Seq<int>| #[trigger] is_chain(pairs, w) && w[0] == a && w.last() == b
}

/// Nothing before `i` hangs together with it.
pub open spec fn is_leader(pairs: Seq<(usize, usize)>, i: int) -> bool {
    forall|j: int| 0 <= j < i ==> !#[trigger] linked(pairs, j, i)
}

/// The first members of the groups among the first `n`, in order.
pub open spec fn leaders(pairs: Seq<(usize, usize)>, n: nat) -> Seq<int>
    decreases n,
{
    if n == 0 {
        Seq::empty()
    } else {
        let before = leaders(pairs, (n - 1) as nat);
        if is_leader(pairs, n - 1) { before.push(n - 1) } else { before }
    }
}

/// `group` numbers the groups in the order their first members appear.
pub open spec fn is_grouping(pairs: Seq<(usize, usize)>, n: nat, group: Seq<usize>) -> bool {
    &&& group.len() == n
    &&& forall|i: int|
        0 <= i < n ==> (#[trigger] group[i]) < leaders(pairs, n).len() && linked(
            pairs,
            leaders(pairs, n)[group[i] as int],
            i,
        )
}

// ── laws ───────────────────────────────────────────────────────────────────

proof fn lemma_joined_symmetric(pairs: Seq<(usize, usize)>, a: int, b: int)
    requires
        joined(pairs, a, b),
    ensures
        joined(pairs, b, a),
{
    let k = choose|k: int| 0 <= k < pairs.len() && pair_joins(#[trigger] pairs[k], a, b);
    assert(pair_joins(pairs[k], b, a));
}

/// Hanging together is an equivalence: every node hangs together with itself, and the relation is
/// symmetric and transitive.
pub proof fn linked_is_equivalence(
    pairs: Seq<(usize, usize)>,
    a: int,
    b: int,
    c: int,
)
    ensures
        linked(pairs, a, a),
        linked(pairs, a, b) ==> linked(pairs, b, a),
        linked(pairs, a, b) && linked(pairs, b, c) ==> linked(pairs, a, c),
{
    assert(is_chain(pairs, seq![a]));
    assert(seq![a][0] == a && seq![a].last() == a);
    if linked(pairs, a, b) {
        let w = choose|w: Seq<int>|
            #[trigger] is_chain(pairs, w) && w[0] == a && w.last() == b;
        let n = w.len() as int;
        let back = Seq::new(w.len(), |i: int| w[n - 1 - i]);
        assert forall|i: int| #![trigger back[i]] 0 < i < back.len() implies joined(
            pairs,
            back[i - 1],
            back[i],
        ) by {
            assert(w[n - i] == back[i - 1]);
            assert(joined(pairs, w[n - i - 1], w[n - i]));
            lemma_joined_symmetric(pairs, w[n - i - 1], w[n - i]);
        }
        assert(is_chain(pairs, back));
        assert(back[0] == b && back.last() == a);
        if linked(pairs, b, c) {
            let v = choose|v: Seq<int>|
                #[trigger] is_chain(pairs, v) && v[0] == b && v.last() == c;
            let whole = w + v.skip(1);
            assert forall|i: int| #![trigger whole[i]] 0 < i < whole.len() implies joined(
                pairs,
                whole[i - 1],
                whole[i],
            ) by {
                if i < n {
                    assert(whole[i] == w[i] && whole[i - 1] == w[i - 1]);
                } else {
                    assert(whole[i] == v[i - n + 1]);
                    if i == n {
                        assert(whole[i - 1] == w.last());
                    } else {
                        assert(whole[i - 1] == v[i - n]);
                    }
                }
            }
            assert(is_chain(pairs, whole));
            if v.len() == 1 {
                assert(whole =~= w);
            } else {
                assert(whole.last() == v.last());
            }
            assert(whole[0] == a);
        }
    }
}

/// The leaders are exactly those without an earlier member, in increasing order.
pub proof fn lemma_leaders(pairs: Seq<(usize, usize)>, n: nat)
    ensures
        leaders(pairs, n).len() <= n,
        forall|c: int|
            0 <= c < leaders(pairs, n).len() ==> 0 <= #[trigger] leaders(pairs, n)[c]
                < n && is_leader(pairs, leaders(pairs, n)[c]),
        forall|c: int, d: int|
            0 <= c < d < leaders(pairs, n).len() ==> #[trigger] leaders(pairs, n)[c]
                < #[trigger] leaders(pairs, n)[d],
        forall|i: int|
            0 <= i < n && #[trigger] is_leader(pairs, i) ==> leaders(
                pairs,
                n,
            ).contains(i),
    decreases n,
{
    if n > 0 {
        lemma_leaders(pairs, (n - 1) as nat);
        let before = leaders(pairs, (n - 1) as nat);
        let now = leaders(pairs, n);
        assert forall|i: int| 0 <= i < n && #[trigger] is_leader(pairs, i) implies now.contains(
            i,
        ) by {
            if i < n - 1 {
                let c = choose|c: int| 0 <= c < before.len() && before[c] == i;
                assert(now[c] == i);
            } else {
                assert(now[before.len() as int] == i);
            }
        }
    }
}

/// The least thing that hangs together with the one at `i`.
spec fn leader_of(pairs: Seq<(usize, usize)>, i: int) -> int
    decreases i,
{
    if i <= 0 || is_leader(pairs, i) {
        i
    } else {
        let j = choose|j: int| 0 <= j < i && #[trigger] linked(pairs, j, i);
        if 0 <= j < i { leader_of(pairs, j) } else { i }
    }
}

proof fn lemma_leader_of(pairs: Seq<(usize, usize)>, i: int)
    requires
        0 <= i,
    ensures
        0 <= leader_of(pairs, i) <= i,
        is_leader(pairs, leader_of(pairs, i)),
        linked(pairs, leader_of(pairs, i), i),
    decreases i,
{
    linked_is_equivalence(pairs, i, i, i);
    if !(i <= 0 || is_leader(pairs, i)) {
        let j = choose|j: int| 0 <= j < i && #[trigger] linked(pairs, j, i);
        lemma_leader_of(pairs, j);
        linked_is_equivalence(pairs, leader_of(pairs, j), j, i);
    }
}

/// Groups partition: everything is in one, and two things share one exactly when they hang together.
pub proof fn groups_partition(pairs: Seq<(usize, usize)>, n: nat, group: Seq<usize>, a: int, b: int)
    requires
        is_grouping(pairs, n, group),
        0 <= a < n,
        0 <= b < n,
    ensures
        group[a] == group[b] <==> linked(pairs, a, b),
{
    let ls = leaders(pairs, n);
    lemma_leaders(pairs, n);
    let (c, d) = (group[a] as int, group[b] as int);
    linked_is_equivalence(pairs, ls[c], a, b);
    linked_is_equivalence(pairs, ls[d], b, a);
    if c == d {
        linked_is_equivalence(pairs, ls[c], a, a);
        linked_is_equivalence(pairs, a, ls[c], b);
    }
    if linked(pairs, a, b) {
        linked_is_equivalence(pairs, ls[d], b, b);
        linked_is_equivalence(pairs, ls[c], b, ls[d]);
        linked_is_equivalence(pairs, ls[c], ls[d], ls[d]);
        if c < d {
            assert(ls[c] < ls[d]);
            assert(!linked(pairs, ls[c], ls[d]));
        } else if d < c {
            assert(ls[d] < ls[c]);
            assert(!linked(pairs, ls[d], ls[c]));
        }
    }
}

/// The first member of a group is in that group.
pub proof fn groups_lead(pairs: Seq<(usize, usize)>, n: nat, group: Seq<usize>, c: int)
    requires
        is_grouping(pairs, n, group),
        0 <= c < leaders(pairs, n).len(),
    ensures
        group[leaders(pairs, n)[c]] == c,
{
    let ls = leaders(pairs, n);
    lemma_leaders(pairs, n);
    let l = ls[c];
    let d = group[l] as int;
    linked_is_equivalence(pairs, ls[d], l, l);
    if d < c {
        assert(ls[d] < ls[c]);
        assert(!linked(pairs, ls[d], l));
    } else if c < d {
        assert(ls[c] < ls[d]);
        assert(!linked(pairs, l, ls[d]));
    }
}

/// Every group is led by somebody: the least thing that hangs together with `i` is a leader.
pub proof fn everything_has_a_leader(pairs: Seq<(usize, usize)>, n: nat, i: int)
    requires
        0 <= i < n,
    ensures
        exists|c: int|
            0 <= c < leaders(pairs, n).len() && linked(pairs, #[trigger] leaders(pairs, n)[c], i),
{
    lemma_leaders(pairs, n);
    lemma_leader_of(pairs, i);
    let l = leader_of(pairs, i);
    let c = choose|c: int| 0 <= c < leaders(pairs, n).len() && leaders(pairs, n)[c] == l;
    assert(linked(pairs, leaders(pairs, n)[c], i));
}

/// A pair links its two ends.
pub proof fn pairs_link(pairs: Seq<(usize, usize)>, k: int)
    requires
        0 <= k < pairs.len(),
    ensures
        linked(pairs, pairs[k].0 as int, pairs[k].1 as int),
{
    let (s, t) = (pairs[k].0 as int, pairs[k].1 as int);
    assert(pair_joins(pairs[k], s, t));
    let w = seq![s, t];
    assert(w.last() == t);
    assert forall|i: int| #![trigger w[i]] 0 < i < w.len() implies joined(pairs, w[i - 1], w[i]) by {
        assert(i == 1);
    }
    assert(is_chain(pairs, w));
}

// ── union-find ─────────────────────────────────────────────────────────────

/// The forest `parent` with representatives `rep`: everything's representative is its parent's,
/// roots represent themselves, and `rank` grows on the way up and stays within `bound`.
spec fn is_forest(parent: Seq<usize>, rank: Seq<usize>, rep: Seq<int>, bound: int) -> bool {
    &&& rank.len() == parent.len()
    &&& rep.len() == parent.len()
    &&& forall|x: int| 0 <= x < parent.len() ==> (#[trigger] parent[x]) < parent.len()
    &&& forall|x: int| 0 <= x < parent.len() ==> 0 <= (#[trigger] rep[x]) < parent.len()
    &&& forall|x: int| 0 <= x < parent.len() ==> rep[(#[trigger] parent[x]) as int] == rep[x]
    &&& forall|x: int| 0 <= x < parent.len() && #[trigger] parent[x] == x ==> rep[x] == x
    &&& forall|x: int|
        0 <= x < parent.len() && (#[trigger] parent[x]) != x ==> rank[x] < rank[parent[x] as int]
    &&& forall|x: int|
        0 <= x < parent.len() && #[trigger] rep[x] != x ==> rank[x] < rank[rep[x]]
    &&& forall|x: int| 0 <= x < parent.len() ==> rep[#[trigger] rep[x]] == rep[x]
    &&& forall|x: int| 0 <= x < parent.len() ==> (#[trigger] rank[x]) <= bound
}

/// The representative of `x`, with the path to it shortened.
fn find(
    parent: &mut Vec<usize>,
    rank: &Vec<usize>,
    x: usize,
    Ghost(rep): Ghost<Seq<int>>,
    Ghost(bound): Ghost<int>,
) -> (r: usize)
    requires
        is_forest(old(parent)@, rank@, rep, bound),
        x < old(parent)@.len(),
    ensures
        final(parent)@.len() == old(parent)@.len(),
        is_forest(final(parent)@, rank@, rep, bound),
        r < final(parent)@.len(),
        r == rep[x as int],
        final(parent)@[r as int] == r,
{
    let mut root = x;
    while parent[root] != root
        invariant
            is_forest(parent@, rank@, rep, bound),
            root < parent@.len(),
            x < parent@.len(),
            rep[root as int] == rep[x as int],
        decreases bound - rank@[root as int],
    {
        assert(rank@[root as int] < rank@[parent@[root as int] as int]);
        root = parent[root];
    }
    let mut cur = x;
    while parent[cur] != root
        invariant
            is_forest(parent@, rank@, rep, bound),
            parent@.len() == old(parent)@.len(),
            root < parent@.len(),
            cur < parent@.len(),
            rep[cur as int] == root,
            rep[root as int] == root,
            parent@[root as int] == root,
        decreases bound - rank@[cur as int],
    {
        let next = parent[cur];
        let ghost before = parent@;
        assert(cur != root);
        assert(rep[cur as int] != cur as int);
        assert(next != cur);
        parent.set(cur, root);
        assert(parent@ == before.update(cur as int, root));
        assert(is_forest(parent@, rank@, rep, bound));
        cur = next;
    }
    root
}

/// `rep` after the tree of `from` has been hung under `to`.
spec fn redirected(rep: Seq<int>, from: int, to: int) -> Seq<int> {
    rep.map_values(|r: int| if r == from { to } else { r })
}

/// Things with one representative along every pair have one along every walk.
proof fn lemma_same_rep(pairs: Seq<(usize, usize)>, rep: Seq<int>, w: Seq<int>)
    requires
        is_chain(pairs, w),
        forall|k: int|
            0 <= k < pairs.len() ==> rep[(#[trigger] pairs[k]).0 as int] == rep[pairs[k].1 as int],
    ensures
        rep[w[0]] == rep[w.last()],
    decreases w.len(),
{
    if w.len() > 1 {
        let shorter = w.drop_last();
        assert forall|i: int| #![trigger shorter[i]] 0 < i < shorter.len() implies joined(
            pairs,
            shorter[i - 1],
            shorter[i],
        ) by {
            assert(shorter[i] == w[i] && shorter[i - 1] == w[i - 1]);
        }
        lemma_same_rep(pairs, rep, shorter);
        let n = w.len() as int;
        assert(w[n - 1] == w.last());
        assert(joined(pairs, w[n - 2], w[n - 1]));
        let k = choose|k: int|
            0 <= k < pairs.len() && pair_joins(#[trigger] pairs[k], w[n - 2], w[n - 1]);
        assert(shorter.last() == w[n - 2]);
    }
}

/// Union-find over the pairs: `rep` tells what hangs together.
#[verifier::rlimit(60)]
fn join_all(n: usize, list: &Vec<(usize, usize)>) -> (r: (Vec<usize>, Vec<usize>, Ghost<Seq<int>>))
    requires
        forall|k: int| 0 <= k < list@.len() ==> (#[trigger] list@[k]).0 < n && list@[k].1 < n,
    ensures
        r.0@.len() == n,
        is_forest(r.0@, r.1@, r.2@, list@.len() as int),
        forall|a: int, b: int|
            0 <= a < n && 0 <= b < n ==> (#[trigger] r.2@[a] == #[trigger] r.2@[b] <==> linked(
                list@,
                a,
                b,
            )),
{
    let ghost pairs = list@;
    let mut parent: Vec<usize> = Vec::new();
    let mut rank: Vec<usize> = Vec::new();
    let mut i: usize = 0;
    while i < n
        invariant
            i <= n,
            parent@.len() == i,
            rank@.len() == i,
            forall|x: int| 0 <= x < i ==> #[trigger] parent@[x] == x,
            forall|x: int| 0 <= x < i ==> #[trigger] rank@[x] == 0,
        decreases n - i,
    {
        parent.push(i);
        rank.push(0);
        i = i + 1;
    }
    let ghost mut rep: Seq<int> = Seq::new(n as nat, |x: int| x);
    proof {
        assert forall|x: int| 0 <= x < n implies linked(pairs, x, #[trigger] rep[x]) by {
            linked_is_equivalence(pairs, x, x, x);
        }
    }
    let mut k: usize = 0;
    while k < list.len()
        invariant
            k <= list@.len(),
            pairs == list@,
            forall|k: int| 0 <= k < list@.len() ==> (#[trigger] list@[k]).0 < n && list@[k].1 < n,
            parent@.len() == n,
            is_forest(parent@, rank@, rep, k as int),
            forall|x: int| 0 <= x < n ==> linked(pairs, x, #[trigger] rep[x]),
            forall|j: int|
                0 <= j < k ==> rep[(#[trigger] pairs[j]).0 as int] == rep[pairs[j].1 as int],
        decreases list@.len() - k,
    {
        let ghost rep0 = rep;
        let (a, b) = list[k];
        assert(pairs[k as int] == (a, b));
        let ra = find(&mut parent, &rank, a, Ghost(rep), Ghost(k as int));
        let rb = find(&mut parent, &rank, b, Ghost(rep), Ghost(k as int));
        assert(parent@[ra as int] == ra) by {
            assert(rep[ra as int] == ra);
            if parent@[ra as int] != ra {
                assert(rank@[ra as int] < rank@[parent@[ra as int] as int]);
                let p = parent@[ra as int] as int;
                assert(rep[p] == ra);
                assert(rep[p] != p);
                assert(rank@[p] < rank@[rep[p]]);
            }
        }
        proof {
            pairs_link(pairs, k as int);
            linked_is_equivalence(pairs, a as int, ra as int, b as int);
            linked_is_equivalence(pairs, ra as int, a as int, b as int);
            linked_is_equivalence(pairs, ra as int, b as int, rb as int);
            linked_is_equivalence(pairs, ra as int, rb as int, rb as int);
            assert(linked(pairs, ra as int, rb as int));
            assert(linked(pairs, rb as int, ra as int));
            assert forall|x: int| 0 <= x < n && rep[x] == ra implies linked(pairs, x, rb as int) by {
                assert(linked(pairs, x, rep[x]));
                linked_is_equivalence(pairs, x, ra as int, rb as int);
            }
            assert forall|x: int| 0 <= x < n && rep[x] == rb implies linked(pairs, x, ra as int) by {
                assert(linked(pairs, x, rep[x]));
                linked_is_equivalence(pairs, x, rb as int, ra as int);
            }
        }
        if ra != rb {
            if rank[ra] < rank[rb] {
                parent.set(ra, rb);
                proof {
                    rep = redirected(rep, ra as int, rb as int);
                }
            } else if rank[rb] < rank[ra] {
                parent.set(rb, ra);
                proof {
                    rep = redirected(rep, rb as int, ra as int);
                }
            } else {
                parent.set(rb, ra);
                let up: usize = rank[ra] + 1;
                rank.set(ra, up);
                proof {
                    rep = redirected(rep, rb as int, ra as int);
                }
            }
            assert(is_forest(parent@, rank@, rep, k + 1));
        }
        assert forall|j: int| 0 <= j < k + 1 implies rep[(#[trigger] pairs[j]).0 as int]
            == rep[pairs[j].1 as int] by {
            assert(list@[j].0 < n && list@[j].1 < n);
            if j < k {
                assert(rep0[pairs[j].0 as int] == rep0[pairs[j].1 as int]);
            }
        }
        k = k + 1;
    }
    proof {
        assert forall|a: int, b: int| 0 <= a < n && 0 <= b < n implies (#[trigger] rep[a]
            == #[trigger] rep[b] <==> linked(pairs, a, b)) by {
            if rep[a] == rep[b] {
                linked_is_equivalence(pairs, b, rep[b], b);
                linked_is_equivalence(pairs, a, rep[a], b);
            }
            if linked(pairs, a, b) {
                let w = choose|w: Seq<int>| #[trigger] is_chain(pairs, w) && w[0] == a && w.last() == b;
                lemma_same_rep(pairs, rep, w);
            }
        }
    }
    (parent, rank, Ghost(rep))
}

/// The group of each of `n` things: things that pairs join, directly or through others, share one.
/// Groups are numbered in the order their first members appear. Also returns how many there are.
#[verifier::rlimit(60)]
pub fn groups(n: usize, list: &Vec<(usize, usize)>) -> (r: (Vec<usize>, usize))
    requires
        forall|k: int| 0 <= k < list@.len() ==> (#[trigger] list@[k]).0 < n && list@[k].1 < n,
    ensures
        is_grouping(list@, n as nat, r.0@),
        r.1 == leaders(list@, n as nat).len(),
{
    let ghost pairs = list@;
    let (parent, rank, Ghost(rep)) = join_all(n, list);
    let mut parent = parent;
    let mut number: Vec<Option<usize>> = Vec::new();
    let mut z: usize = 0;
    while z < n
        invariant
            z <= n,
            number@.len() == z,
            forall|x: int| 0 <= x < z ==> #[trigger] number@[x] is None,
        decreases n - z,
    {
        number.push(None);
        z = z + 1;
    }
    let mut group: Vec<usize> = Vec::new();
    let mut count: usize = 0;
    let mut i: usize = 0;
    while i < n
        invariant
            i <= n,
            pairs == list@,
            parent@.len() == n,
            is_forest(parent@, rank@, rep, list@.len() as int),
            forall|a: int, b: int|
                0 <= a < n && 0 <= b < n ==> (#[trigger] rep[a] == #[trigger] rep[b] <==> linked(
                    pairs,
                    a,
                    b,
                )),
            number@.len() == n,
            count == leaders(pairs, i as nat).len(),
            count <= i,
            is_grouping(pairs, i as nat, group@),
            forall|c: int|
                0 <= c < count ==> number@[rep[#[trigger] leaders(pairs, i as nat)[c]]] == Some(
                    c as usize,
                ),
            forall|x: int|
                0 <= x < n && #[trigger] number@[x] is Some ==> number@[x]->0 < count
                    && rep[leaders(pairs, i as nat)[number@[x]->0 as int]] == x,
            forall|j: int| 0 <= j < i ==> number@[#[trigger] rep[j]] is Some,
        decreases n - i,
    {
        let ghost ls = leaders(pairs, i as nat);
        let ghost before = group@;
        let ghost known = number@;
        proof {
            lemma_leaders(pairs, i as nat);
        }
        let root = find(&mut parent, &rank, i, Ghost(rep), Ghost(list@.len() as int));
        let slot: usize = match number[root] {
            Some(c) => {
                proof {
                    let l = ls[c as int];
                    assert(rep[l] == rep[i as int]);
                    assert(linked(pairs, l, i as int));
                    assert(!is_leader(pairs, i as int));
                }
                c
            },
            None => {
                let c: usize = count;
                count = count + 1;
                number.set(root, Some(c));
                proof {
                    assert forall|j: int| 0 <= j < i implies !#[trigger] linked(pairs, j, i as int) by {
                        assert(known[rep[j]] is Some);
                        assert(rep[j] != rep[i as int]);
                    }
                    assert(is_leader(pairs, i as int));
                    linked_is_equivalence(pairs, i as int, i as int, i as int);
                }
                c
            },
        };
        group.push(slot);
        proof {
            let now = leaders(pairs, (i + 1) as nat);
            assert(now.len() == count);
            assert(now[slot as int] == (if slot < ls.len() { ls[slot as int] } else { i as int }));
            assert(linked(pairs, now[slot as int], i as int));
            assert forall|j: int| 0 <= j < i + 1 implies (#[trigger] group@[j]) < now.len() && linked(
                pairs,
                now[group@[j] as int],
                j,
            ) by {
                if j < i {
                    assert(group@[j] == before[j]);
                    assert(now[before[j] as int] == ls[before[j] as int]);
                }
            }
            assert forall|c: int| 0 <= c < count implies number@[rep[#[trigger] now[c]]] == Some(
                c as usize,
            ) by {
                if c < ls.len() {
                    assert(now[c] == ls[c]);
                    assert(known[rep[ls[c]]] == Some(c as usize));
                }
            }
            assert forall|j: int| 0 <= j < i + 1 implies number@[#[trigger] rep[j]] is Some by {
                if j < i {
                    assert(known[rep[j]] is Some);
                }
            }
        }
        i = i + 1;
    }
    (group, count)
}

} // verus!
