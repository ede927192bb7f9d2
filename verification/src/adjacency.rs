//! Directed pairs of numbered things, and who follows whom.

use vstd::prelude::*;

verus! {

/// Both ends of every pair are below `n`.
pub open spec fn pairs_below(n: nat, pairs: Seq<(usize, usize)>) -> bool {
    forall|k: int| 0 <= k < pairs.len() ==> (#[trigger] pairs[k]).0 < n && pairs[k].1 < n
}

/// What is one of the pairs has its ends below `n`.
pub proof fn lemma_ends_below(n: nat, pairs: Seq<(usize, usize)>, p: (usize, usize))
    requires
        pairs_below(n, pairs),
        pairs.contains(p),
    ensures
        p.0 < n,
        p.1 < n,
{
    let k = choose|k: int| 0 <= k < pairs.len() && pairs[k] == p;
    assert(pairs[k].0 < n && pairs[k].1 < n);
}

/// The second ends of the pairs that start at `v`, in order.
pub open spec fn targets(pairs: Seq<(usize, usize)>, v: int) -> Seq<usize>
    decreases pairs.len(),
{
    if pairs.len() == 0 {
        Seq::empty()
    } else {
        let before = targets(pairs.drop_last(), v);
        if pairs.last().0 == v { before.push(pairs.last().1) } else { before }
    }
}

/// The first ends of the pairs that end at `v`, in order.
pub open spec fn sources(pairs: Seq<(usize, usize)>, v: int) -> Seq<usize>
    decreases pairs.len(),
{
    if pairs.len() == 0 {
        Seq::empty()
    } else {
        let before = sources(pairs.drop_last(), v);
        if pairs.last().1 == v { before.push(pairs.last().0) } else { before }
    }
}

/// `lists` holds the targets of each of `n` things.
pub open spec fn lists_targets(n: nat, pairs: Seq<(usize, usize)>, lists: Seq<Vec<usize>>) -> bool {
    &&& lists.len() == n
    &&& forall|v: int| 0 <= v < n ==> (#[trigger] lists[v])@ == targets(pairs, v)
}

/// `lists` holds the sources of each of `n` things.
pub open spec fn lists_sources(n: nat, pairs: Seq<(usize, usize)>, lists: Seq<Vec<usize>>) -> bool {
    &&& lists.len() == n
    &&& forall|v: int| 0 <= v < n ==> (#[trigger] lists[v])@ == sources(pairs, v)
}

/// The targets of `v` are exactly the second ends of its pairs.
pub proof fn lemma_targets(pairs: Seq<(usize, usize)>, v: int)
    ensures
        targets(pairs, v).len() <= pairs.len(),
        forall|w: usize|
            #[trigger] targets(pairs, v).contains(w) <==> exists|k: int|
                0 <= k < pairs.len() && (#[trigger] pairs[k]).0 == v && pairs[k].1 == w,
    decreases pairs.len(),
{
    if pairs.len() > 0 {
        let rest = pairs.drop_last();
        lemma_targets(rest, v);
        let before = targets(rest, v);
        let now = targets(pairs, v);
        assert forall|w: usize| #[trigger] now.contains(w) <==> exists|k: int|
            0 <= k < pairs.len() && (#[trigger] pairs[k]).0 == v && pairs[k].1 == w by {
            if now.contains(w) {
                let j = choose|j: int| 0 <= j < now.len() && now[j] == w;
                if j < before.len() {
                    assert(before[j] == w);
                    assert(before.contains(w));
                    let k = choose|k: int|
                        0 <= k < rest.len() && (#[trigger] rest[k]).0 == v && rest[k].1 == w;
                    assert(pairs[k] == rest[k]);
                } else {
                    assert(pairs[pairs.len() - 1].1 == w);
                }
            }
            if exists|k: int|
                0 <= k < pairs.len() && (#[trigger] pairs[k]).0 == v && pairs[k].1 == w {
                let k = choose|k: int|
                    0 <= k < pairs.len() && (#[trigger] pairs[k]).0 == v && pairs[k].1 == w;
                if k < rest.len() {
                    assert(rest[k] == pairs[k]);
                    assert(before.contains(w));
                    let j = choose|j: int| 0 <= j < before.len() && before[j] == w;
                    assert(now[j] == w);
                } else {
                    assert(now[before.len() as int] == w);
                }
            }
        }
    }
}

/// The sources of `v` are exactly the first ends of its pairs.
pub proof fn lemma_sources(pairs: Seq<(usize, usize)>, v: int)
    ensures
        sources(pairs, v).len() <= pairs.len(),
        forall|w: usize|
            #[trigger] sources(pairs, v).contains(w) <==> exists|k: int|
                0 <= k < pairs.len() && (#[trigger] pairs[k]).1 == v && pairs[k].0 == w,
    decreases pairs.len(),
{
    if pairs.len() > 0 {
        let rest = pairs.drop_last();
        lemma_sources(rest, v);
        let before = sources(rest, v);
        let now = sources(pairs, v);
        assert forall|w: usize| #[trigger] now.contains(w) <==> exists|k: int|
            0 <= k < pairs.len() && (#[trigger] pairs[k]).1 == v && pairs[k].0 == w by {
            if now.contains(w) {
                let j = choose|j: int| 0 <= j < now.len() && now[j] == w;
                if j < before.len() {
                    assert(before[j] == w);
                    assert(before.contains(w));
                    let k = choose|k: int|
                        0 <= k < rest.len() && (#[trigger] rest[k]).1 == v && rest[k].0 == w;
                    assert(pairs[k] == rest[k]);
                } else {
                    assert(pairs[pairs.len() - 1].0 == w);
                }
            }
            if exists|k: int|
                0 <= k < pairs.len() && (#[trigger] pairs[k]).1 == v && pairs[k].0 == w {
                let k = choose|k: int|
                    0 <= k < pairs.len() && (#[trigger] pairs[k]).1 == v && pairs[k].0 == w;
                if k < rest.len() {
                    assert(rest[k] == pairs[k]);
                    assert(before.contains(w));
                    let j = choose|j: int| 0 <= j < before.len() && before[j] == w;
                    assert(now[j] == w);
                } else {
                    assert(now[before.len() as int] == w);
                }
            }
        }
    }
}

fn empty_lists(n: usize) -> (r: Vec<Vec<usize>>)
    ensures
        r@.len() == n,
        forall|v: int| 0 <= v < n ==> (#[trigger] r@[v])@.len() == 0,
{
    let mut out: Vec<Vec<usize>> = Vec::new();
    let mut i: usize = 0;
    while i < n
        invariant
            i <= n,
            out@.len() == i,
            forall|v: int| 0 <= v < i ==> (#[trigger] out@[v])@.len() == 0,
        decreases n - i,
    {
        out.push(Vec::new());
        i = i + 1;
    }
    out
}

/// The targets of each of `n` things.
pub fn list_targets(n: usize, pairs: &Vec<(usize, usize)>) -> (r: Vec<Vec<usize>>)
    requires
        pairs_below(n as nat, pairs@),
    ensures
        lists_targets(n as nat, pairs@, r@),
{
    let mut out = empty_lists(n);
    let mut k: usize = 0;
    assert(pairs@.take(0) =~= Seq::<(usize, usize)>::empty());
    assert forall|v: int| 0 <= v < n implies (#[trigger] out@[v])@ == targets(pairs@.take(0), v) by {
        assert(out@[v]@ =~= Seq::<usize>::empty());
    }
    while k < pairs.len()
        invariant
            k <= pairs@.len(),
            pairs_below(n as nat, pairs@),
            out@.len() == n,
            forall|v: int|
                0 <= v < n ==> (#[trigger] out@[v])@ == targets(pairs@.take(k as int), v),
        decreases pairs@.len() - k,
    {
        assert(pairs@.take(k as int + 1).drop_last() =~= pairs@.take(k as int));
        let (a, b) = pairs[k];
        assert(pairs@[k as int].0 < n);
        let ghost before = out@;
        out[a].push(b);
        assert forall|v: int| 0 <= v < n implies (#[trigger] out@[v])@ == targets(
            pairs@.take(k as int + 1),
            v,
        ) by {
            if v != a {
                assert(out@[v] == before[v]);
            }
        }
        k = k + 1;
    }
    assert(pairs@.take(k as int) =~= pairs@);
    out
}

/// The sources of each of `n` things.
pub fn list_sources(n: usize, pairs: &Vec<(usize, usize)>) -> (r: Vec<Vec<usize>>)
    requires
        pairs_below(n as nat, pairs@),
    ensures
        lists_sources(n as nat, pairs@, r@),
{
    let mut out = empty_lists(n);
    let mut k: usize = 0;
    assert(pairs@.take(0) =~= Seq::<(usize, usize)>::empty());
    assert forall|v: int| 0 <= v < n implies (#[trigger] out@[v])@ == sources(pairs@.take(0), v) by {
        assert(out@[v]@ =~= Seq::<usize>::empty());
    }
    while k < pairs.len()
        invariant
            k <= pairs@.len(),
            pairs_below(n as nat, pairs@),
            out@.len() == n,
            forall|v: int|
                0 <= v < n ==> (#[trigger] out@[v])@ == sources(pairs@.take(k as int), v),
        decreases pairs@.len() - k,
    {
        assert(pairs@.take(k as int + 1).drop_last() =~= pairs@.take(k as int));
        let (a, b) = pairs[k];
        assert(pairs@[k as int].1 < n);
        let ghost before = out@;
        out[b].push(a);
        assert forall|v: int| 0 <= v < n implies (#[trigger] out@[v])@ == sources(
            pairs@.take(k as int + 1),
            v,
        ) by {
            if v != b {
                assert(out@[v] == before[v]);
            }
        }
        k = k + 1;
    }
    assert(pairs@.take(k as int) =~= pairs@);
    out
}

/// Distinct numbers below `n` are at most `n`.
pub proof fn lemma_distinct_below(s: Seq<usize>, n: nat)
    requires
        s.no_duplicates(),
        forall|i: int| 0 <= i < s.len() ==> (#[trigger] s[i]) < n,
    ensures
        s.len() <= n,
{
    let t = s.map_values(|x: usize| x as int);
    assert(t.no_duplicates());
    t.unique_seq_to_set();
    let all = vstd::set_lib::set_int_range(0, n as int);
    vstd::set_lib::lemma_int_range(0, n as int);
    assert forall|x: int| t.to_set().contains(x) implies all.contains(x) by {
        let i = choose|i: int| 0 <= i < t.len() && t[i] == x;
        assert(s[i] < n);
    }
    vstd::set_lib::lemma_len_subset(t.to_set(), all);
}

// ── distinct pairs ─────────────────────────────────────────────────────────

/// `a` comes before `b`: by the first end, then by the second.
pub open spec fn pair_before(a: (usize, usize), b: (usize, usize)) -> bool {
    a.0 < b.0 || (a.0 == b.0 && a.1 < b.1)
}

/// Each pair comes before every later one.
pub open spec fn strictly_sorted(pairs: Seq<(usize, usize)>) -> bool {
    forall|i: int, j: int|
        0 <= i < j < pairs.len() ==> pair_before(#[trigger] pairs[i], #[trigger] pairs[j])
}

/// Where `p` belongs in sorted `pairs`: behind everything before it. Says too whether it is there.
pub(crate) fn place_of_pair(pairs: &Vec<(usize, usize)>, p: (usize, usize)) -> (r: (usize, bool))
    requires
        strictly_sorted(pairs@),
    ensures
        r.0 <= pairs@.len(),
        r.1 <==> pairs@.contains(p),
        r.1 ==> r.0 < pairs@.len() && pairs@[r.0 as int] == p,
        forall|i: int| 0 <= i < r.0 ==> pair_before(#[trigger] pairs@[i], p),
        !r.1 ==> forall|i: int| r.0 <= i < pairs@.len() ==> pair_before(p, #[trigger] pairs@[i]),
{
    let mut lo: usize = 0;
    let mut hi: usize = pairs.len();
    while lo < hi
        invariant
            lo <= hi <= pairs@.len(),
            strictly_sorted(pairs@),
            forall|i: int| 0 <= i < lo ==> pair_before(#[trigger] pairs@[i], p),
            forall|i: int| hi <= i < pairs@.len() ==> !pair_before(#[trigger] pairs@[i], p),
        decreases hi - lo,
    {
        let mid: usize = lo + (hi - lo) / 2;
        let (a, b) = pairs[mid];
        if a < p.0 || (a == p.0 && b < p.1) {
            assert forall|i: int| 0 <= i < mid + 1 implies pair_before(#[trigger] pairs@[i], p) by {
                if i < mid {
                    assert(pair_before(pairs@[i], pairs@[mid as int]));
                }
            }
            lo = mid + 1;
        } else {
            assert forall|i: int| mid <= i < pairs@.len() implies !pair_before(
                #[trigger] pairs@[i],
                p,
            ) by {
                if i > mid {
                    assert(pair_before(pairs@[mid as int], pairs@[i]));
                }
            }
            hi = mid;
        }
    }
    let there: bool = lo < pairs.len() && pairs[lo].0 == p.0 && pairs[lo].1 == p.1;
    proof {
        if there {
            assert(pairs@[lo as int] == p);
        } else {
            if pairs@.contains(p) {
                let i = choose|i: int| 0 <= i < pairs@.len() && pairs@[i] == p;
                if i < lo {
                    assert(pair_before(pairs@[i], p));
                } else if i > lo {
                    assert(pair_before(pairs@[lo as int], pairs@[i]));
                    assert(!pair_before(pairs@[lo as int], p));
                }
            }
            assert forall|i: int| lo <= i < pairs@.len() implies pair_before(p, #[trigger] pairs@[i]) by {
                assert(!pair_before(pairs@[i], p));
                if i > lo {
                    assert(pair_before(pairs@[lo as int], pairs@[i]));
                    assert(!pair_before(pairs@[lo as int], p));
                }
            }
        }
    }
    (lo, there)
}

/// The pairs in order, each once, without those that join a thing to itself.
pub fn distinct_pairs(list: &Vec<(usize, usize)>) -> (r: Vec<(usize, usize)>)
    ensures
        strictly_sorted(r@),
        forall|p: (usize, usize)|
            #[trigger] r@.contains(p) <==> list@.contains(p) && p.0 != p.1,
{
    let mut out: Vec<(usize, usize)> = Vec::new();
    let mut k: usize = 0;
    while k < list.len()
        invariant
            k <= list@.len(),
            strictly_sorted(out@),
            forall|p: (usize, usize)|
                #[trigger] out@.contains(p) <==> list@.take(k as int).contains(p) && p.0 != p.1,
        decreases list@.len() - k,
    {
        let p = list[k];
        let ghost before = out@;
        assert forall|q: (usize, usize)| list@.take(k as int + 1).contains(q) <==> (list@.take(
            k as int,
        ).contains(q) || q == p) by {
            let t = list@.take(k as int);
            let u = list@.take(k as int + 1);
            if t.contains(q) {
                let j = choose|j: int| 0 <= j < t.len() && t[j] == q;
                assert(u[j] == q);
            }
            if q == p {
                assert(u[k as int] == q);
            }
            if u.contains(q) && q != p {
                let j = choose|j: int| 0 <= j < u.len() && u[j] == q;
                assert(t[j] == q);
            }
        }
        if p.0 != p.1 {
            let (at, there) = place_of_pair(&out, p);
            if !there {
                out.insert(at, p);
                proof {
                    before.insert_ensures(at as int, p);
                    assert(strictly_sorted(out@)) by {
                        assert forall|i: int, j: int| 0 <= i < j < out@.len() implies pair_before(
                            #[trigger] out@[i],
                            #[trigger] out@[j],
                        ) by {
                            let x = if i < at { before[i] } else if i == at { p } else { before[i - 1] };
                            let y = if j < at { before[j] } else if j == at { p } else { before[j - 1] };
                            assert(out@[i] == x && out@[j] == y);
                        }
                    }
                    assert forall|q: (usize, usize)| #[trigger] out@.contains(q) <==> (before.contains(
                        q,
                    ) || q == p) by {
                        if before.contains(q) {
                            let j = choose|j: int| 0 <= j < before.len() && before[j] == q;
                            assert(out@[if j < at { j } else { j + 1 }] == q);
                        }
                        if q == p {
                            assert(out@[at as int] == q);
                        }
                        if out@.contains(q) && q != p {
                            let j = choose|j: int| 0 <= j < out@.len() && out@[j] == q;
                            assert(before[if j < at { j } else { j - 1 }] == q);
                        }
                    }
                }
            }
        }
        k = k + 1;
    }
    assert(list@.take(k as int) =~= list@);
    out
}

} // verus!
