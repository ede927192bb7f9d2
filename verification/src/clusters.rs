//! Keeping the variants of a union together: a cluster's members stand in one unbroken run of their
//! column, and whole runs slide to where they cost the fewest crossings.

use vstd::prelude::*;

use crate::crossings::{
    above, below, cost_above, cost_below, crossings, crossings_between, links_columns, Board,
    Wiring,
};
use crate::ordering::{
    lemma_cost_stays, lemma_with_row, same_shape, slide_node_up, slide_up, with_row,
};
use crate::sweeps::{lemma_row_distinct, reorder, same_nodes, BoardModel};

verus! {

/// The most nodes a component may have for the crossings of whole runs to be counted.
pub const NODE_LIMIT: usize = 0x3000_0000;

// ── which cluster a node joins ─────────────────────────────────────────────

/// The cluster `c` comes before `d`: it is smaller, or as small and stands earlier.
pub open spec fn is_tighter(clusters: Seq<Vec<usize>>, c: int, d: int) -> bool {
    clusters[c]@.len() < clusters[d]@.len() || (clusters[c]@.len() == clusters[d]@.len() && c <= d)
}

/// `v` joins the cluster `c`: of those that it belongs to the tightest.
pub open spec fn joins(clusters: Seq<Vec<usize>>, v: usize, c: int) -> bool {
    &&& 0 <= c < clusters.len()
    &&& clusters[c]@.contains(v)
    &&& forall|d: int|
        0 <= d < clusters.len() && (#[trigger] clusters[d])@.contains(v) ==> is_tighter(
            clusters,
            c,
            d,
        )
}

/// The cluster that each of the first `n` nodes joins. A type can belong to several unions; it can
/// only be adjacent to one of them, so it joins the smallest, since a small union is the tighter
/// statement.
pub open spec fn are_joined(clusters: Seq<Vec<usize>>, n: nat, of: Seq<Option<usize>>) -> bool {
    &&& of.len() == n
    &&& forall|v: int|
        0 <= v < n ==> match #[trigger] of[v] {
            Some(c) => joins(clusters, v as usize, c as int),
            None => forall|d: int|
                0 <= d < clusters.len() ==> !(#[trigger] clusters[d])@.contains(v as usize),
        }
}

/// Finds the cluster that each of the first `n` nodes joins.
#[verifier::loop_isolation(false)]
pub fn assign_clusters(n: usize, clusters: &Vec<Vec<usize>>) -> (r: Vec<Option<usize>>)
    ensures
        are_joined(clusters@, n as nat, r@),
{
    let ghost cs = clusters@;
    let mut of: Vec<Option<usize>> = Vec::new();
    let mut z: usize = 0;
    while z < n
        invariant
            z <= n,
            of@.len() == z,
            forall|v: int| 0 <= v < z ==> #[trigger] of@[v] is None,
        decreases n - z,
    {
        of.push(None);
        z = z + 1;
    }
    let mut c: usize = 0;
    while c < clusters.len()
        invariant
            c <= clusters@.len(),
            of@.len() == n,
            forall|v: int|
                0 <= v < n ==> match #[trigger] of@[v] {
                    Some(b) => b < c && cs[b as int]@.contains(v as usize) && forall|d: int|
                        0 <= d < c && (#[trigger] cs[d])@.contains(v as usize) ==> is_tighter(
                            cs,
                            b as int,
                            d,
                        ),
                    None => forall|d: int|
                        0 <= d < c ==> !(#[trigger] cs[d])@.contains(v as usize),
                },
        decreases clusters@.len() - c,
    {
        let ghost before = of@;
        let ghost list = cs[c as int]@;
        let mut i: usize = 0;
        while i < clusters[c].len()
            invariant
                i <= list.len(),
                of@.len() == n,
                forall|v: int|
                    0 <= v < n ==> #[trigger] of@[v] == (if list.take(i as int).contains(v as usize)
                        && (before[v] is None || cs[c as int]@.len()
                        < cs[before[v]->0 as int]@.len()) {
                        Some(c)
                    } else {
                        before[v]
                    }),
            decreases list.len() - i,
        {
            let v = clusters[c][i];
            let ghost mid = of@;
            assert(list[i as int] == v);
            assert forall|x: usize| list.take(i as int + 1).contains(x) <==> (list.take(
                i as int,
            ).contains(x) || x == v) by {
                let (s, t) = (list.take(i as int), list.take(i as int + 1));
                if s.contains(x) {
                    let j = choose|j: int| 0 <= j < s.len() && s[j] == x;
                    assert(t[j] == x);
                }
                if x == v {
                    assert(t[i as int] == x);
                }
                if t.contains(x) && x != v {
                    let j = choose|j: int| 0 <= j < t.len() && t[j] == x;
                    assert(s[j] == x);
                }
            }
            if v < n {
                let better: bool = match of[v] {
                    None => true,
                    Some(b) => b != c && clusters[c].len() < clusters[b].len(),
                };
                if better {
                    of.set(v, Some(c));
                }
            }
            i = i + 1;
        }
        assert(list.take(i as int) =~= list);
        assert forall|v: int| 0 <= v < n implies match #[trigger] of@[v] {
            Some(b) => b < c + 1 && cs[b as int]@.contains(v as usize) && forall|d: int|
                0 <= d < c + 1 && (#[trigger] cs[d])@.contains(v as usize) ==> is_tighter(
                    cs,
                    b as int,
                    d,
                ),
            None => forall|d: int| 0 <= d < c + 1 ==> !(#[trigger] cs[d])@.contains(v as usize),
        } by {
            assert(before[v] is Some ==> before[v]->0 < c);
        }
        c = c + 1;
    }
    of
}

// ── gathering ──────────────────────────────────────────────────────────────

/// The members of the cluster `c` among the first `n` of the column, in order.
pub open spec fn run_of(row: Seq<usize>, of: Seq<Option<usize>>, c: usize, n: nat) -> Seq<usize>
    decreases n,
{
    if n == 0 {
        Seq::empty()
    } else {
        let before = run_of(row, of, c, (n - 1) as nat);
        if of[row[n - 1] as int] == Some(c) { before.push(row[n - 1]) } else { before }
    }
}

/// `v` is one of several members of its cluster in the column.
pub open spec fn has_company(row: Seq<usize>, of: Seq<Option<usize>>, v: usize) -> bool {
    of[v as int] matches Some(c) && run_of(row, of, c, row.len()).len() > 1
}

/// A member of the cluster of `v` stands among the first `n`.
pub open spec fn has_begun(row: Seq<usize>, of: Seq<Option<usize>>, v: usize, n: nat) -> bool {
    exists|j: int| 0 <= j < n && of[(#[trigger] row[j]) as int] == of[v as int]
}

/// The first `n` of the column gone through: everything keeps its order, except that a cluster with
/// several members is given out whole where its first member stands.
pub open spec fn gathered_to(row: Seq<usize>, of: Seq<Option<usize>>, n: nat) -> Seq<usize>
    decreases n,
{
    if n == 0 {
        Seq::empty()
    } else {
        let before = gathered_to(row, of, (n - 1) as nat);
        let v = row[n - 1];
        if !has_company(row, of, v) {
            before.push(v)
        } else if has_begun(row, of, v, (n - 1) as nat) {
            before
        } else {
            before + run_of(row, of, of[v as int]->0, row.len())
        }
    }
}

/// The column with its clusters gathered.
pub open spec fn gathered(row: Seq<usize>, of: Seq<Option<usize>>) -> Seq<usize> {
    gathered_to(row, of, row.len())
}

/// The members of every cluster stand in one unbroken run.
pub open spec fn is_packed(row: Seq<usize>, of: Seq<Option<usize>>) -> bool {
    forall|i: int, j: int, k: int|
        0 <= i < j < k < row.len() && of[(#[trigger] row[i]) as int] is Some
            && of[(#[trigger] row[k]) as int] == of[row[i] as int] ==> of[(
        #[trigger] row[j]) as int] == of[row[i] as int]
}

proof fn lemma_run(row: Seq<usize>, of: Seq<Option<usize>>, c: usize, n: nat)
    requires
        n <= row.len(),
        row.no_duplicates(),
    ensures
        run_of(row, of, c, n).no_duplicates(),
        forall|i: int|
            0 <= i < run_of(row, of, c, n).len() ==> of[(#[trigger] run_of(row, of, c, n)[i]) as int]
                == Some(c),
        forall|x: usize|
            #[trigger] run_of(row, of, c, n).contains(x) <==> of[x as int] == Some(c) && exists|j: int|
                0 <= j < n && #[trigger] row[j] == x,
    decreases n,
{
    if n > 0 {
        lemma_run(row, of, c, (n - 1) as nat);
        let before = run_of(row, of, c, (n - 1) as nat);
        let now = run_of(row, of, c, n);
        let v = row[n - 1];
        assert(!before.contains(v)) by {
            if before.contains(v) {
                let j = choose|j: int| 0 <= j < n - 1 && #[trigger] row[j] == v;
                assert(row[j] != row[n - 1]);
            }
        }
        assert forall|x: usize| #[trigger] now.contains(x) <==> of[x as int] == Some(c) && exists|j: int|
            0 <= j < n && #[trigger] row[j] == x by {
            if now.contains(x) {
                let i = choose|i: int| 0 <= i < now.len() && now[i] == x;
                if i < before.len() {
                    assert(before[i] == x);
                    assert(before.contains(x));
                    let j = choose|j: int| 0 <= j < n - 1 && #[trigger] row[j] == x;
                    assert(row[j] == x);
                } else {
                    assert(row[n - 1] == x);
                }
            }
            if of[x as int] == Some(c) && exists|j: int| 0 <= j < n && #[trigger] row[j] == x {
                let j = choose|j: int| 0 <= j < n && #[trigger] row[j] == x;
                if j < n - 1 {
                    assert(before.contains(x));
                    let i = choose|i: int| 0 <= i < before.len() && before[i] == x;
                    assert(now[i] == x);
                } else {
                    assert(now[before.len() as int] == x);
                }
            }
        }
        assert(now.no_duplicates());
    }
}

/// What has been given out: loners gone by, and clusters begun.
spec fn is_out(row: Seq<usize>, of: Seq<Option<usize>>, x: usize, n: nat) -> bool {
    row.contains(x) && if has_company(row, of, x) {
        has_begun(row, of, x, n)
    } else {
        exists|j: int| 0 <= j < n && #[trigger] row[j] == x
    }
}

#[verifier::rlimit(60)]
proof fn lemma_gathered(row: Seq<usize>, of: Seq<Option<usize>>, n: nat)
    requires
        n <= row.len(),
        row.no_duplicates(),
    ensures
        gathered_to(row, of, n).no_duplicates(),
        forall|x: usize|
            #[trigger] gathered_to(row, of, n).contains(x) <==> is_out(row, of, x, n),
        is_packed(gathered_to(row, of, n), of),
    decreases n,
{
    if n > 0 {
        let m = (n - 1) as nat;
        lemma_gathered(row, of, m);
        let before = gathered_to(row, of, m);
        let now = gathered_to(row, of, n);
        let v = row[n - 1];
        assert(row.contains(v));
        if !has_company(row, of, v) {
            assert(!before.contains(v)) by {
                if before.contains(v) {
                    assert(is_out(row, of, v, m));
                    let j = choose|j: int| 0 <= j < m && #[trigger] row[j] == v;
                    assert(row[j] != row[n - 1]);
                }
            }
            assert forall|x: usize| #[trigger] now.contains(x) <==> is_out(row, of, x, n) by {
                lemma_push_contains(before, v, x);
                assert(before.contains(x) <==> is_out(row, of, x, m));
                if is_out(row, of, x, n) && !is_out(row, of, x, m) {
                    if has_company(row, of, x) {
                        let j = choose|j: int|
                            0 <= j < n && of[(#[trigger] row[j]) as int] == of[x as int];
                        assert(j == n - 1);
                        assert(of[v as int] == of[x as int]);
                    } else {
                        let j = choose|j: int| 0 <= j < n && #[trigger] row[j] == x;
                        assert(j == n - 1);
                    }
                }
                if is_out(row, of, x, m) {
                    if has_company(row, of, x) {
                        let j = choose|j: int|
                            0 <= j < m && of[(#[trigger] row[j]) as int] == of[x as int];
                        assert(of[row[j] as int] == of[x as int]);
                    } else {
                        let j = choose|j: int| 0 <= j < m && #[trigger] row[j] == x;
                        assert(row[j] == x);
                    }
                }
                if x == v {
                    assert(row[n - 1] == x);
                }
            }
            assert forall|i: int, j: int, k: int|
                0 <= i < j < k < now.len() && of[(#[trigger] now[i]) as int] is Some
                    && of[(#[trigger] now[k]) as int] == of[now[i] as int] implies of[(
            #[trigger] now[j]) as int] == of[now[i] as int] by {
                assert(now[i] == before[i] && now[j] == before[j]);
                if k < before.len() {
                    assert(now[k] == before[k]);
                } else {
                    // `now[i]` would be a second member of the loner's cluster
                    let u = now[i];
                    let c = of[v as int]->0;
                    assert(before.contains(u));
                    assert(is_out(row, of, u, m));
                    lemma_run(row, of, c, row.len());
                    let run = run_of(row, of, c, row.len());
                    assert(run.contains(u)) by {
                        let x = choose|x: int| 0 <= x < row.len() && row[x] == u;
                        assert(row[x] == u);
                    }
                    assert(run.contains(v)) by {
                        assert(row[n - 1] == v);
                    }
                    assert(u != v);
                    let (p, q) = (
                        choose|p: int| 0 <= p < run.len() && run[p] == u,
                        choose|q: int| 0 <= q < run.len() && run[q] == v,
                    );
                    assert(p != q);
                }
            }
        } else if has_begun(row, of, v, m) {
            assert forall|x: usize| #[trigger] now.contains(x) <==> is_out(row, of, x, n) by {
                assert(before.contains(x) <==> is_out(row, of, x, m));
                if is_out(row, of, x, n) && !is_out(row, of, x, m) {
                    if has_company(row, of, x) {
                        let j = choose|j: int|
                            0 <= j < n && of[(#[trigger] row[j]) as int] == of[x as int];
                        assert(j == n - 1);
                        let i = choose|i: int|
                            0 <= i < m && of[(#[trigger] row[i]) as int] == of[v as int];
                        assert(of[row[i] as int] == of[x as int]);
                    } else {
                        let j = choose|j: int| 0 <= j < n && #[trigger] row[j] == x;
                        assert(j == n - 1);
                    }
                }
                if is_out(row, of, x, m) {
                    if has_company(row, of, x) {
                        let j = choose|j: int|
                            0 <= j < m && of[(#[trigger] row[j]) as int] == of[x as int];
                        assert(of[row[j] as int] == of[x as int]);
                    } else {
                        let j = choose|j: int| 0 <= j < m && #[trigger] row[j] == x;
                        assert(row[j] == x);
                    }
                }
            }
        } else {
            let c = of[v as int]->0;
            let run = run_of(row, of, c, row.len());
            lemma_run(row, of, c, row.len());
            assert forall|x: usize| before.contains(x) implies of[x as int] != Some(c) by {
                assert(is_out(row, of, x, m));
                if of[x as int] == Some(c) {
                    assert(has_company(row, of, x));
                    let j = choose|j: int|
                        0 <= j < m && of[(#[trigger] row[j]) as int] == of[x as int];
                    assert(of[row[j] as int] == of[v as int]);
                }
            }
            assert(now =~= before + run);
            assert(now.no_duplicates()) by {
                assert forall|i: int, j: int| 0 <= i < now.len() && 0 <= j < now.len() && i
                    != j implies now[i] != now[j] by {
                    let b = before.len();
                    if i < b && j < b {
                        assert(now[i] == before[i] && now[j] == before[j]);
                    } else if i >= b && j >= b {
                        assert(now[i] == run[i - b] && now[j] == run[j - b]);
                    } else if i < b {
                        assert(before.contains(now[i]));
                        assert(now[j] == run[j - b]);
                    } else {
                        assert(before.contains(now[j]));
                        assert(now[i] == run[i - b]);
                    }
                }
            }
            assert forall|x: usize| #[trigger] now.contains(x) <==> is_out(row, of, x, n) by {
                assert(before.contains(x) <==> is_out(row, of, x, m));
                assert(now.contains(x) <==> (before.contains(x) || run.contains(x))) by {
                    if before.contains(x) {
                        let i = choose|i: int| 0 <= i < before.len() && before[i] == x;
                        assert(now[i] == x);
                    }
                    if run.contains(x) {
                        let i = choose|i: int| 0 <= i < run.len() && run[i] == x;
                        assert(now[before.len() + i] == x);
                    }
                    if now.contains(x) {
                        let i = choose|i: int| 0 <= i < now.len() && now[i] == x;
                        if i < before.len() {
                            assert(before[i] == x);
                        } else {
                            assert(run[i - before.len()] == x);
                        }
                    }
                }
                if run.contains(x) {
                    let j = choose|j: int| 0 <= j < row.len() && #[trigger] row[j] == x;
                    assert(row.contains(x));
                    assert(has_company(row, of, x));
                    assert(of[row[n - 1] as int] == of[x as int]);
                    assert(has_begun(row, of, x, n));
                }
                if is_out(row, of, x, n) && !is_out(row, of, x, m) {
                    if has_company(row, of, x) {
                        let j = choose|j: int|
                            0 <= j < n && of[(#[trigger] row[j]) as int] == of[x as int];
                        assert(j == n - 1);
                        let k = choose|k: int| 0 <= k < row.len() && row[k] == x;
                        assert(row[k] == x);
                        assert(run.contains(x));
                    } else {
                        let j = choose|j: int| 0 <= j < n && #[trigger] row[j] == x;
                        assert(j == n - 1);
                    }
                }
                if is_out(row, of, x, m) {
                    if has_company(row, of, x) {
                        let j = choose|j: int|
                            0 <= j < m && of[(#[trigger] row[j]) as int] == of[x as int];
                        assert(of[row[j] as int] == of[x as int]);
                    } else {
                        let j = choose|j: int| 0 <= j < m && #[trigger] row[j] == x;
                        assert(row[j] == x);
                    }
                }
            }
            assert forall|i: int, j: int, k: int|
                0 <= i < j < k < now.len() && of[(#[trigger] now[i]) as int] is Some
                    && of[(#[trigger] now[k]) as int] == of[now[i] as int] implies of[(
            #[trigger] now[j]) as int] == of[now[i] as int] by {
                let b = before.len();
                if k < b {
                    assert(now[i] == before[i] && now[j] == before[j] && now[k] == before[k]);
                } else {
                    assert(now[k] == run[k - b]);
                    if i < b {
                        assert(before.contains(now[i]));
                    } else {
                        assert(now[i] == run[i - b] && now[j] == run[j - b]);
                    }
                }
            }
        }
    }
}

proof fn lemma_push_contains(s: Seq<usize>, v: usize, x: usize)
    ensures
        s.push(v).contains(x) <==> (s.contains(x) || x == v),
{
    if s.contains(x) {
        let j = choose|j: int| 0 <= j < s.len() && s[j] == x;
        assert(s.push(v)[j] == x);
    }
    if x == v {
        assert(s.push(v)[s.len() as int] == x);
    }
    if s.push(v).contains(x) && x != v {
        let j = choose|j: int| 0 <= j < s.push(v).len() && s.push(v)[j] == x;
        assert(s[j] == x);
    }
}

/// Gathering keeps the nodes of a column and leaves every cluster in one unbroken run.
pub proof fn gathering_packs(row: Seq<usize>, of: Seq<Option<usize>>)
    requires
        row.no_duplicates(),
    ensures
        same_nodes(gathered(row, of), row),
        is_packed(gathered(row, of), of),
{
    let n = row.len();
    lemma_gathered(row, of, n);
    assert forall|x: usize| #[trigger] gathered(row, of).contains(x) <==> row.contains(x) by {
        if row.contains(x) {
            let j = choose|j: int| 0 <= j < n && row[j] == x;
            assert(of[row[j] as int] == of[x as int]);
            assert(has_begun(row, of, x, n));
            assert(is_out(row, of, x, n));
        }
    }
}

fn run_in(row: &Vec<usize>, of: &Vec<Option<usize>>, c: usize) -> (r: Vec<usize>)
    requires
        forall|i: int| 0 <= i < row@.len() ==> (#[trigger] row@[i]) < of@.len(),
    ensures
        r@ == run_of(row@, of@, c, row@.len()),
{
    let mut out: Vec<usize> = Vec::new();
    let mut i: usize = 0;
    while i < row.len()
        invariant
            i <= row@.len(),
            forall|i: int| 0 <= i < row@.len() ==> (#[trigger] row@[i]) < of@.len(),
            out@ == run_of(row@, of@, c, i as nat),
        decreases row@.len() - i,
    {
        let v = row[i];
        let mine: bool = match of[v] {
            Some(d) => d == c,
            None => false,
        };
        if mine {
            out.push(v);
        }
        i = i + 1;
    }
    out
}

/// Gathers the clusters of a column.
fn gather_row(row: &Vec<usize>, of: &Vec<Option<usize>>) -> (r: Vec<usize>)
    requires
        forall|i: int| 0 <= i < row@.len() ==> (#[trigger] row@[i]) < of@.len(),
    ensures
        r@ == gathered(row@, of@),
{
    let mut out: Vec<usize> = Vec::new();
    let mut i: usize = 0;
    while i < row.len()
        invariant
            i <= row@.len(),
            forall|i: int| 0 <= i < row@.len() ==> (#[trigger] row@[i]) < of@.len(),
            out@ == gathered_to(row@, of@, i as nat),
        decreases row@.len() - i,
    {
        let v = row[i];
        match of[v] {
            Some(c) => {
                let mut run = run_in(row, of, c);
                if run.len() > 1 {
                    let mut begun: bool = false;
                    let mut j: usize = 0;
                    while j < i
                        invariant
                            j <= i,
                            i < row@.len(),
                            forall|i: int| 0 <= i < row@.len() ==> (#[trigger] row@[i]) < of@.len(),
                            begun <==> exists|k: int|
                                0 <= k < j && of@[(#[trigger] row@[k]) as int] == Some(c),
                        decreases i - j,
                    {
                        let mine: bool = match of[row[j]] {
                            Some(d) => d == c,
                            None => false,
                        };
                        if mine {
                            begun = true;
                        }
                        j = j + 1;
                    }
                    assert(begun == has_begun(row@, of@, v, i as nat));
                    if !begun {
                        out.append(&mut run);
                    }
                } else {
                    out.push(v);
                }
            },
            None => {
                out.push(v);
            },
        }
        i = i + 1;
    }
    out
}

/// Every column has its clusters in unbroken runs.
pub open spec fn all_packed(rows: Seq<Vec<usize>>, of: Seq<Option<usize>>) -> bool {
    forall|c: int| 0 <= c < rows.len() ==> is_packed((#[trigger] rows[c])@, of)
}

/// The board after the clusters of its first `k` columns were gathered.
pub open spec fn gathered_board(b: BoardModel, of: Seq<Option<usize>>, k: nat) -> BoardModel
    decreases k,
{
    if k == 0 {
        b
    } else {
        let t = gathered_board(b, of, (k - 1) as nat);
        with_row(t, k - 1, gathered(t.rows[k - 1], of))
    }
}

/// Pulls each cluster's members into one contiguous block. Union members carry no edge to one
/// another, so crossing reduction has no reason to keep them together; this decides adjacency after
/// the sweeps have settled, without fighting the edge-crossing work.
pub fn gather_clusters(board: &mut Board, of: &Vec<Option<usize>>, rank: &Vec<i32>)
    requires
        old(board).arranges(rank@),
        of@.len() == rank@.len(),
    ensures
        final(board).arranges(rank@),
        same_shape(final(board).rows@, old(board).rows@),
        forall|c: int|
            0 <= c < final(board).rows@.len() ==> (#[trigger] final(board).rows@[c])@ == gathered(
                old(board).rows@[c]@,
                of@,
            ),
        final(board).model() == gathered_board(old(board).model(), of@, old(board).rows@.len()),
        all_packed(final(board).rows@, of@),
{
    let ghost start = *board;
    let count: usize = board.rows.len();
    let mut c: usize = 0;
    while c < count
        invariant
            c <= count,
            count == board.rows@.len(),
            board.arranges(rank@),
            start.arranges(rank@),
            of@.len() == rank@.len(),
            same_shape(board.rows@, start.rows@),
            forall|d: int|
                0 <= d < c ==> (#[trigger] board.rows@[d])@ == gathered(start.rows@[d]@, of@),
            forall|d: int| c <= d < count ==> #[trigger] board.rows@[d] == start.rows@[d],
            forall|d: int| 0 <= d < c ==> is_packed((#[trigger] board.rows@[d])@, of@),
            board.model() == gathered_board(start.model(), of@, c as nat),
        decreases count - c,
    {
        let ghost before = *board;
        assert forall|i: int| 0 <= i < board.rows@[c as int]@.len() implies (
        #[trigger] board.rows@[c as int]@[i]) < of@.len() by {}
        let row = gather_row(&board.rows[c], of);
        proof {
            lemma_row_distinct(rank@, *board, c as int);
            gathering_packs(board.rows@[c as int]@, of@);
        }
        reorder(board, c, row, Ghost(rank@));
        proof {
            lemma_with_row(rank@, before, *board, c as int);
        }
        assert forall|d: int| 0 <= d < count && d != c implies #[trigger] board.rows@[d]
            == before.rows@[d] by {}
        c = c + 1;
    }
}

// ── sliding whole runs ─────────────────────────────────────────────────────

/// How many crossings the links of `y` make with those of `run` above it.
pub open spec fn run_above(
    place: Seq<usize>,
    links: Seq<(usize, usize)>,
    run: Seq<usize>,
    y: usize,
) -> int
    decreases run.len(),
{
    if run.len() == 0 {
        0
    } else {
        run_above(place, links, run.drop_first(), y) + cost_above(
            place,
            links,
            run[0] as int,
            y as int,
        )
    }
}

/// How many crossings the links of `y` make with those of `run` below it.
pub open spec fn run_below(
    place: Seq<usize>,
    links: Seq<(usize, usize)>,
    run: Seq<usize>,
    y: usize,
) -> int
    decreases run.len(),
{
    if run.len() == 0 {
        0
    } else {
        run_below(place, links, run.drop_first(), y) + cost_below(
            place,
            links,
            run[0] as int,
            y as int,
        )
    }
}

/// How many crossings two runs make with `upper` above `lower`.
pub open spec fn runs_above(
    place: Seq<usize>,
    links: Seq<(usize, usize)>,
    upper: Seq<usize>,
    lower: Seq<usize>,
) -> int
    decreases lower.len(),
{
    if lower.len() == 0 {
        0
    } else {
        runs_above(place, links, upper, lower.drop_last()) + run_above(
            place,
            links,
            upper,
            lower.last(),
        )
    }
}

/// How many crossings two runs make with `upper` below `lower`.
pub open spec fn runs_below(
    place: Seq<usize>,
    links: Seq<(usize, usize)>,
    upper: Seq<usize>,
    lower: Seq<usize>,
) -> int
    decreases lower.len(),
{
    if lower.len() == 0 {
        0
    } else {
        runs_below(place, links, upper, lower.drop_last()) + run_below(
            place,
            links,
            upper,
            lower.last(),
        )
    }
}

proof fn lemma_slide_passes_run(
    place: Seq<usize>,
    links: Seq<(usize, usize)>,
    row: Seq<usize>,
    start: int,
    at: int,
)
    requires
        0 <= at <= start < row.len(),
    ensures
        slide_up(place, links, row, start, at) == run_below(
            place,
            links,
            row.subrange(at, start),
            row[start],
        ) - run_above(place, links, row.subrange(at, start), row[start]),
    decreases start - at,
{
    let run = row.subrange(at, start);
    if at < start {
        lemma_slide_passes_run(place, links, row, start, at + 1);
        assert(run.drop_first() =~= row.subrange(at + 1, start));
        assert(run[0] == row[at]);
    }
}

proof fn lemma_run_stays(
    rank: Seq<i32>,
    place: Seq<usize>,
    now: Seq<usize>,
    links: Seq<(usize, usize)>,
    run: Seq<usize>,
    y: usize,
)
    requires
        links_columns(rank, links),
        y < rank.len(),
        forall|i: int|
            0 <= i < run.len() ==> (#[trigger] run[i]) < rank.len() && rank[run[i] as int]
                == rank[y as int],
        forall|v: int|
            0 <= v < rank.len() && rank[v] != rank[y as int] ==> #[trigger] now[v] == place[v],
    ensures
        run_above(now, links, run, y) == run_above(place, links, run, y),
        run_below(now, links, run, y) == run_below(place, links, run, y),
    decreases run.len(),
{
    if run.len() > 0 {
        let rest = run.drop_first();
        assert forall|i: int| 0 <= i < rest.len() implies (#[trigger] rest[i]) < rank.len()
            && rank[rest[i] as int] == rank[y as int] by {
            assert(rest[i] == run[i + 1]);
        }
        lemma_run_stays(rank, place, now, links, rest, y);
        assert(run[0] < rank.len());
        lemma_cost_stays(rank, place, now, links, run[0] as int, y as int);
    }
}

/// A column after the run from `m` to `e` was put before the one from `s` to `m`.
pub open spec fn runs_swapped(row: Seq<usize>, s: int, m: int, e: int) -> Seq<usize> {
    row.take(s) + row.subrange(m, e) + row.subrange(s, m) + row.skip(e)
}

/// A column in which the first `t` of the run from `m` on have slid up before the one from `s` to
/// `m`.
spec fn runs_swapping(row: Seq<usize>, s: int, m: int, t: int) -> Seq<usize> {
    row.take(s) + row.subrange(m, m + t) + row.subrange(s, m) + row.skip(m + t)
}

/// Swaps two adjacent runs of the column `c`: that from `s` to `m` and that from `m` to `e`.
#[verifier::rlimit(80)]
fn swap_runs(
    board: &mut Board,
    c: usize,
    s: usize,
    m: usize,
    e: usize,
    wiring: &Wiring,
    Ghost(rank): Ghost<Seq<i32>>,
)
    requires
        old(board).arranges(rank),
        wiring.wires(rank.len()),
        links_columns(rank, wiring.links@),
        c < old(board).rows@.len(),
        s <= m <= e <= old(board).rows@[c as int]@.len(),
    ensures
        final(board).arranges(rank),
        same_shape(final(board).rows@, old(board).rows@),
        final(board).rows@ == old(board).rows@.update(c as int, final(board).rows@[c as int]),
        final(board).rows@[c as int]@ == runs_swapped(
            old(board).rows@[c as int]@,
            s as int,
            m as int,
            e as int,
        ),
        crossings(rank, final(board).place@, wiring.links@) == crossings(
            rank,
            old(board).place@,
            wiring.links@,
        ) + runs_below(
            old(board).place@,
            wiring.links@,
            old(board).rows@[c as int]@.subrange(s as int, m as int),
            old(board).rows@[c as int]@.subrange(m as int, e as int),
        ) - runs_above(
            old(board).place@,
            wiring.links@,
            old(board).rows@[c as int]@.subrange(s as int, m as int),
            old(board).rows@[c as int]@.subrange(m as int, e as int),
        ),
{
    let ghost links = wiring.links@;
    let ghost first = *board;
    let ghost row0 = board.rows@[c as int]@;
    let ghost upper = row0.subrange(s as int, m as int);
    let ghost lower = row0.subrange(m as int, e as int);
    let len: usize = board.rows[c].len();
    let n: usize = e - m;
    let mut t: usize = 0;
    proof {
        assert(row0 =~= runs_swapping(row0, s as int, m as int, 0));
        assert(board.rows@ =~= first.rows@.update(c as int, board.rows@[c as int]));
        assert(lower.take(0) =~= Seq::<usize>::empty());
        assert forall|i: int| 0 <= i < row0.len() implies (#[trigger] row0[i]) < rank.len()
            && rank[row0[i] as int] == c by {}
    }
    while t < n
        invariant
            t <= n,
            n == e - m,
            s <= m <= e <= len,
            len == row0.len(),
            links == wiring.links@,
            board.arranges(rank),
            wiring.wires(rank.len()),
            links_columns(rank, links),
            c < board.rows@.len(),
            same_shape(board.rows@, first.rows@),
            board.rows@ == first.rows@.update(c as int, board.rows@[c as int]),
            first.rows@.len() == board.rows@.len(),
            upper == row0.subrange(s as int, m as int),
            lower == row0.subrange(m as int, e as int),
            row0 == first.rows@[c as int]@,
            forall|i: int|
                0 <= i < row0.len() ==> (#[trigger] row0[i]) < rank.len() && rank[row0[i] as int]
                    == c,
            board.rows@[c as int]@ == runs_swapping(row0, s as int, m as int, t as int),
            forall|x: int|
                0 <= x < rank.len() && rank[x] != c ==> #[trigger] board.place@[x]
                    == first.place@[x],
            crossings(rank, board.place@, links) == crossings(rank, first.place@, links)
                + runs_below(first.place@, links, upper, lower.take(t as int)) - runs_above(
                first.place@,
                links,
                upper,
                lower.take(t as int),
            ),
        decreases n - t,
    {
        let ghost row = board.rows@[c as int]@;
        let ghost y = row0[m + t];
        let ghost before = *board;
        proof {
            assert(row.len() == row0.len());
            assert(row[m + t] == y);
            assert(row.subrange(s + t, m + t) =~= upper);
            lemma_slide_passes_run(board.place@, links, row, m + t, s + t);
            assert forall|i: int| 0 <= i < upper.len() implies (#[trigger] upper[i]) < rank.len()
                && rank[upper[i] as int] == rank[y as int] by {
                assert(upper[i] == row0[s + i]);
            }
            lemma_run_stays(rank, first.place@, board.place@, links, upper, y);
            assert(lower.take(t as int + 1).drop_last() =~= lower.take(t as int));
            assert(lower.take(t as int + 1).last() == y);
        }
        slide_node_up(board, c, m + t, s + t, wiring, Ghost(rank));
        proof {
            assert(board.rows@[c as int]@ =~= runs_swapping(
                row0,
                s as int,
                m as int,
                t as int + 1,
            ));
            assert(board.rows@ =~= first.rows@.update(c as int, board.rows@[c as int]));
            assert forall|x: int| 0 <= x < rank.len() && rank[x] != c implies #[trigger] board.place@[x]
                == first.place@[x] by {
                assert(before.place@[x] == first.place@[x]);
            }
        }
        t = t + 1;
    }
    assert(lower.take(t as int) =~= lower);
    assert(board.rows@[c as int]@ =~= runs_swapped(row0, s as int, m as int, e as int));
}

/// `starts` cuts the column into runs: a run is of one cluster, or a node of none, and no two runs
/// are of one cluster.
#[verifier::opaque]
pub open spec fn are_runs(row: Seq<usize>, of: Seq<Option<usize>>, starts: Seq<usize>) -> bool {
    &&& starts.len() >= 1
    &&& starts[0] == 0
    &&& starts.last() == row.len()
    &&& forall|b: int, d: int| 0 <= b < d < starts.len() ==> #[trigger] starts[b] < #[trigger] starts[d]
    &&& forall|b: int, i: int|
        0 <= b && b + 1 < starts.len() && starts[b] <= i < starts[b + 1] ==> of[(
        #[trigger] row[i]) as int] == of[row[(#[trigger] starts[b]) as int] as int]
    &&& forall|b: int, d: int|
        0 <= b < d && d + 1 < starts.len() && of[row[starts[b] as int] as int] is Some
            ==> of[row[(#[trigger] starts[b]) as int] as int] != of[row[(
        #[trigger] starts[d]) as int] as int]
}

/// The run that the place `i` is in.
proof fn lemma_run_at(row: Seq<usize>, of: Seq<Option<usize>>, starts: Seq<usize>, i: int, k: int) -> (b:
    int)
    requires
        are_runs(row, of, starts),
        0 <= i < row.len(),
        0 <= k < starts.len(),
        i < starts[k],
    ensures
        0 <= b,
        b + 1 < starts.len(),
        starts[b] <= i < starts[b + 1],
    decreases k,
{
    reveal(are_runs);
    if starts[k - 1] <= i {
        k - 1
    } else {
        lemma_run_at(row, of, starts, i, k - 1)
    }
}

proof fn lemma_runs_packed(row: Seq<usize>, of: Seq<Option<usize>>, starts: Seq<usize>)
    requires
        are_runs(row, of, starts),
    ensures
        is_packed(row, of),
{
    reveal(are_runs);
    assert forall|i: int, j: int, k: int|
        0 <= i < j < k < row.len() && of[(#[trigger] row[i]) as int] is Some && of[(
        #[trigger] row[k]) as int] == of[row[i] as int] implies of[(#[trigger] row[j]) as int]
        == of[row[i] as int] by {
        let last = starts.len() - 1;
        let a = lemma_run_at(row, of, starts, i, last);
        let b = lemma_run_at(row, of, starts, j, last);
        let d = lemma_run_at(row, of, starts, k, last);
        assert(of[row[i] as int] == of[row[starts[a] as int] as int]);
        assert(of[row[j] as int] == of[row[starts[b] as int] as int]);
        assert(of[row[k] as int] == of[row[starts[d] as int] as int]);
        if a < d {
            assert(of[row[starts[a] as int] as int] != of[row[starts[d] as int] as int]);
        }
        if d < a {
            assert(starts[d + 1] <= starts[a]);
        }
        assert(a == d);
        if b < a {
            assert(starts[b + 1] <= starts[a]);
        }
        if a < b {
            assert(starts[a + 1] <= starts[b]);
        }
    }
}

/// A run begins at the place `i`: the node is of no cluster, or of another than the one before.
pub open spec fn begins_run(row: Seq<usize>, of: Seq<Option<usize>>, i: int) -> bool {
    i == 0 || of[row[i] as int] is None || of[row[i - 1] as int] != of[row[i] as int]
}

/// Where the runs among the first `n` places of a column begin.
pub open spec fn cuts_to(row: Seq<usize>, of: Seq<Option<usize>>, n: nat) -> Seq<usize>
    decreases n,
{
    if n == 0 {
        Seq::empty()
    } else {
        let rest = cuts_to(row, of, (n - 1) as nat);
        if begins_run(row, of, n - 1) {
            rest.push((n - 1) as usize)
        } else {
            rest
        }
    }
}

/// Where the runs of a column begin, and where the last one ends.
pub open spec fn cuts_of(row: Seq<usize>, of: Seq<Option<usize>>) -> Seq<usize> {
    cuts_to(row, of, row.len()).push(row.len() as usize)
}

/// Where no run begins between two places there is no cut between them.
proof fn lemma_no_cuts(row: Seq<usize>, of: Seq<Option<usize>>, a: nat, b: nat)
    requires
        a <= b,
        forall|i: int| a <= i < b ==> !#[trigger] begins_run(row, of, i),
    ensures
        cuts_to(row, of, b) == cuts_to(row, of, a),
    decreases b - a,
{
    if a < b {
        lemma_no_cuts(row, of, a, (b - 1) as nat);
        assert(!begins_run(row, of, b - 1));
    }
}

/// A run that begins at `i` and ends at `j` is cut off at its beginning alone, and where it ends the
/// next one begins.
proof fn lemma_one_run(row: Seq<usize>, of: Seq<Option<usize>>, i: int, j: int)
    requires
        0 <= i < j <= row.len(),
        row.len() <= usize::MAX,
        begins_run(row, of, i),
        of[row[i] as int] is None ==> j == i + 1,
        forall|x: int| i <= x < j ==> of[(#[trigger] row[x]) as int] == of[row[i] as int],
        of[row[i] as int] is Some && j < row.len() ==> of[row[j] as int] != of[row[i] as int],
    ensures
        cuts_to(row, of, j as nat) == cuts_to(row, of, i as nat).push(i as usize),
        j < row.len() ==> begins_run(row, of, j),
{
    assert forall|x: int| i + 1 <= x < j implies !#[trigger] begins_run(row, of, x) by {
        assert(of[row[x] as int] == of[row[i] as int]);
        assert(of[row[x - 1] as int] == of[row[i] as int]);
    }
    lemma_no_cuts(row, of, (i + 1) as nat, j as nat);
    if j < row.len() {
        assert(of[row[j - 1] as int] == of[row[i] as int]);
    }
}

/// Cuts a column whose clusters are gathered into runs.
#[verifier::rlimit(80)]
fn cut_runs(row: &Vec<usize>, of: &Vec<Option<usize>>) -> (r: Vec<usize>)
    requires
        forall|i: int| 0 <= i < row@.len() ==> (#[trigger] row@[i]) < of@.len(),
        is_packed(row@, of@),
    ensures
        r@ == cuts_of(row@, of@),
        are_runs(row@, of@, r@),
{
    let n: usize = row.len();
    let mut starts: Vec<usize> = Vec::new();
    starts.push(0);
    let mut i: usize = 0;
    while i < n
        invariant
            i <= n,
            n == row@.len(),
            forall|i: int| 0 <= i < row@.len() ==> (#[trigger] row@[i]) < of@.len(),
            is_packed(row@, of@),
            starts@.len() >= 1,
            starts@[0] == 0,
            starts@.last() == i,
            forall|b: int, d: int|
                0 <= b < d < starts@.len() ==> #[trigger] starts@[b] < #[trigger] starts@[d],
            forall|b: int, x: int|
                0 <= b && b + 1 < starts@.len() && starts@[b] <= x < starts@[b + 1] ==> of@[(
                #[trigger] row@[x]) as int] == of@[row@[(#[trigger] starts@[b]) as int] as int],
            forall|b: int, d: int|
                0 <= b < d && d + 1 < starts@.len() && of@[row@[starts@[b] as int] as int] is Some
                    ==> of@[row@[(#[trigger] starts@[b]) as int] as int] != of@[row@[(
                #[trigger] starts@[d]) as int] as int],
            // a run of a cluster goes on to its last member
            forall|b: int, x: int|
                0 <= b && b + 1 < starts@.len() && starts@[b + 1] <= x < n && of@[row@[(
                #[trigger] starts@[b]) as int] as int] is Some ==> of@[(
                #[trigger] row@[x]) as int] != of@[row@[starts@[b] as int] as int],
            i < n ==> begins_run(row@, of@, i as int),
            starts@ == cuts_to(row@, of@, i as nat).push(i),
        decreases n - i,
    {
        let ghost before = starts@;
        let mut j: usize = i + 1;
        if let Some(c) = of[row[i]] {
            let mut more: bool = true;
            while j < n && more
                invariant
                    i < j <= n,
                    n == row@.len(),
                    forall|i: int| 0 <= i < row@.len() ==> (#[trigger] row@[i]) < of@.len(),
                    of@[row@[i as int] as int] == Some(c),
                    forall|x: int| i <= x < j ==> of@[(#[trigger] row@[x]) as int] == Some(c),
                    !more ==> j < n && of@[row@[j as int] as int] != Some(c),
                decreases n - j, (if more { 1int } else { 0 }),
            {
                let mine: bool = match of[row[j]] {
                    Some(d) => d == c,
                    None => false,
                };
                if mine {
                    j = j + 1;
                } else {
                    more = false;
                }
            }
        }
        proof {
            assert forall|x: int| j <= x < n && of@[row@[i as int] as int] is Some implies of@[(
            #[trigger] row@[x]) as int] != of@[row@[i as int] as int] by {
                if of@[row@[x] as int] == of@[row@[i as int] as int] {
                    if x > j {
                        assert(of@[row@[j as int] as int] == of@[row@[i as int] as int]);
                    }
                }
            }
        }
        starts.push(j);
        proof {
            let last = before.len() - 1;
            assert(starts@[last] == i && starts@[last + 1] == j);
            assert forall|b: int, x: int|
                0 <= b && b + 1 < starts@.len() && starts@[b] <= x < starts@[b + 1] implies of@[(
            #[trigger] row@[x]) as int] == of@[row@[(#[trigger] starts@[b]) as int] as int] by {
                if b < last {
                    assert(starts@[b] == before[b] && starts@[b + 1] == before[b + 1]);
                }
            }
            assert forall|b: int, d: int|
                0 <= b < d && d + 1 < starts@.len() && of@[row@[starts@[b] as int] as int] is Some implies of@[row@[(
            #[trigger] starts@[b]) as int] as int] != of@[row@[(#[trigger] starts@[d]) as int] as int] by {
                assert(starts@[b] == before[b] && starts@[d] == before[d]);
                if d == last {
                    assert(before[b + 1] <= before[d]);
                    assert(of@[row@[i as int] as int] != of@[row@[before[b] as int] as int]);
                }
            }
            assert forall|b: int, x: int|
                0 <= b && b + 1 < starts@.len() && starts@[b + 1] <= x < n && of@[row@[(
                #[trigger] starts@[b]) as int] as int] is Some implies of@[(
            #[trigger] row@[x]) as int] != of@[row@[starts@[b] as int] as int] by {
                if b < last {
                    assert(starts@[b] == before[b] && starts@[b + 1] == before[b + 1]);
                }
            }
        }
        proof {
            lemma_one_run(row@, of@, i as int, j as int);
        }
        i = j;
    }
    proof {
        reveal(are_runs);
    }
    starts
}

/// Where the place `i` of a column with two runs swapped was before: the runs from `s` to `m` and
/// from `m` to `e`.
spec fn place_before(s: int, m: int, e: int, i: int) -> int {
    let cut = s + (e - m);
    if i < s {
        i
    } else if i < cut {
        m + (i - s)
    } else if i < e {
        s + (i - cut)
    } else {
        i
    }
}

/// Which run the run `b` was before the runs `k` and `k + 1` were swapped.
spec fn run_before(k: int, b: int) -> int {
    if b == k {
        k + 1
    } else if b == k + 1 {
        k
    } else {
        b
    }
}

/// A run starts before the next one, and within the column.
proof fn lemma_run_bounds(row: Seq<usize>, of: Seq<Option<usize>>, starts: Seq<usize>, k: int)
    requires
        are_runs(row, of, starts),
        0 <= k,
        k + 2 < starts.len(),
    ensures
        starts[k] < starts[k + 1] < starts[k + 2] <= row.len(),
{
    reveal(are_runs);
    if k + 2 < starts.len() - 1 {
        assert(starts[k + 2] < starts[starts.len() - 1]);
    }
}

/// Where a run of the swapped column starts, and that it stays within the column.
proof fn lemma_cut_before(row: Seq<usize>, of: Seq<Option<usize>>, starts: Seq<usize>, k: int, b: int)
    requires
        are_runs(row, of, starts),
        0 <= k,
        k + 2 < starts.len(),
        0 <= b,
        b + 1 < starts.len(),
    ensures
        ({
            let (s, m, e) = (starts[k] as int, starts[k + 1] as int, starts[k + 2] as int);
            let cuts = starts.update(k + 1, (s + (e - m)) as usize);
            let w = run_before(k, b);
            &&& 0 <= w
            &&& w + 1 < starts.len()
            &&& 0 <= cuts[b] < row.len()
            &&& place_before(s, m, e, cuts[b] as int) == starts[w]
            &&& forall|i: int|
                cuts[b] <= i < cuts[b + 1] ==> starts[w] <= #[trigger] place_before(s, m, e, i)
                    < starts[w + 1] && i < row.len()
        }),
{
    reveal(are_runs);
    lemma_run_bounds(row, of, starts, k);
    assert(starts[b] < starts[starts.len() - 1]);
    assert(starts[b] < starts[b + 1]);
    if b < k {
        assert(starts[b] < starts[k]);
        if b + 1 < k {
            assert(starts[b + 1] < starts[k]);
        }
    } else if b > k + 1 {
        if b > k + 2 {
            assert(starts[k + 2] < starts[b]);
        }
        if b + 1 < starts.len() - 1 {
            assert(starts[b + 1] < starts[starts.len() - 1]);
        }
    }
}

/// The starts of the runs of the swapped column ascend.
proof fn lemma_cuts_ascend(row: Seq<usize>, of: Seq<Option<usize>>, starts: Seq<usize>, k: int, b: int, d: int)
    requires
        are_runs(row, of, starts),
        0 <= k,
        k + 2 < starts.len(),
        0 <= b < d < starts.len(),
    ensures
        ({
            let cut = (starts[k] + (starts[k + 2] - starts[k + 1])) as usize;
            let cuts = starts.update(k + 1, cut);
            cuts[b] < cuts[d]
        }),
{
    reveal(are_runs);
    lemma_run_bounds(row, of, starts, k);
    assert(starts[b] < starts[d]);
    if b == k + 1 && d > k + 2 {
        assert(starts[k + 2] < starts[d]);
    }
    if d == k + 1 && b < k {
        assert(starts[b] < starts[k]);
    }
}

/// What stands at each place of a column with two runs swapped.
proof fn lemma_swapped_place(row: Seq<usize>, s: int, m: int, e: int, i: int)
    requires
        0 <= s <= m <= e <= row.len(),
        0 <= i < row.len(),
    ensures
        runs_swapped(row, s, m, e).len() == row.len(),
        runs_swapped(row, s, m, e)[i] == row[place_before(s, m, e, i)],
{
}

/// Swapping two runs leaves the column cut into runs.
#[verifier::spinoff_prover]
proof fn lemma_runs_swap(row: Seq<usize>, of: Seq<Option<usize>>, starts: Seq<usize>, k: int, cut: usize)
    requires
        are_runs(row, of, starts),
        0 <= k,
        k + 2 < starts.len(),
        cut == starts[k] + (starts[k + 2] - starts[k + 1]),
    ensures
        are_runs(
            runs_swapped(row, starts[k] as int, starts[k + 1] as int, starts[k + 2] as int),
            of,
            starts.update(k + 1, cut),
        ),
{
    reveal(are_runs);
    let (s, m, e) = (starts[k] as int, starts[k + 1] as int, starts[k + 2] as int);
    let now = runs_swapped(row, s, m, e);
    let cuts = starts.update(k + 1, cut);
    lemma_run_bounds(row, of, starts, k);
    assert(now.len() == row.len());
    assert forall|b: int, d: int| 0 <= b < d < cuts.len() implies #[trigger] cuts[b]
        < #[trigger] cuts[d] by {
        lemma_cuts_ascend(row, of, starts, k, b, d);
    }
    assert forall|b: int, i: int| 0 <= b && b + 1 < cuts.len() && cuts[b] <= i
        < cuts[b + 1] implies of[(#[trigger] now[i]) as int] == of[now[(
    #[trigger] cuts[b]) as int] as int] by {
        lemma_cut_before(row, of, starts, k, b);
        let w = run_before(k, b);
        let p = place_before(s, m, e, i);
        lemma_swapped_place(row, s, m, e, i);
        lemma_swapped_place(row, s, m, e, cuts[b] as int);
        assert(of[row[p] as int] == of[row[starts[w] as int] as int]);
    }
    assert forall|b: int, d: int|
        0 <= b < d && d + 1 < cuts.len() && of[now[cuts[b] as int] as int] is Some implies of[now[(
    #[trigger] cuts[b]) as int] as int] != of[now[(#[trigger] cuts[d]) as int] as int] by {
        lemma_cut_before(row, of, starts, k, b);
        lemma_cut_before(row, of, starts, k, d);
        lemma_swapped_place(row, s, m, e, cuts[b] as int);
        lemma_swapped_place(row, s, m, e, cuts[d] as int);
        let (w, z) = (run_before(k, b), run_before(k, d));
        if w < z {
            assert(of[row[starts[w] as int] as int] != of[row[starts[z] as int] as int]);
        } else if of[row[starts[z] as int] as int] is Some {
            assert(of[row[starts[z] as int] as int] != of[row[starts[w] as int] as int]);
        }
    }
}

/// Counts the crossings that two runs of a column make, in each order.
#[verifier::rlimit(40)]
fn count_runs(board: &Board, c: usize, s: usize, m: usize, e: usize, wiring: &Wiring, Ghost(rank): Ghost<
    Seq<i32>,
>) -> (r: (u128, u128))
    requires
        board.arranges(rank),
        wiring.wires(rank.len()),
        rank.len() <= NODE_LIMIT,
        c < board.rows@.len(),
        s <= m <= e <= board.rows@[c as int]@.len(),
        board.rows@[c as int]@.len() <= NODE_LIMIT,
    ensures
        r.0 == runs_above(
            board.place@,
            wiring.links@,
            board.rows@[c as int]@.subrange(s as int, m as int),
            board.rows@[c as int]@.subrange(m as int, e as int),
        ),
        r.1 == runs_below(
            board.place@,
            wiring.links@,
            board.rows@[c as int]@.subrange(s as int, m as int),
            board.rows@[c as int]@.subrange(m as int, e as int),
        ),
{
    let ghost links = wiring.links@;
    let ghost row = board.rows@[c as int]@;
    let ghost upper = row.subrange(s as int, m as int);
    let ghost lower = row.subrange(m as int, e as int);
    let n: usize = e - m;
    let mut up: u128 = 0;
    let mut down: u128 = 0;
    let mut t: usize = 0;
    assert(lower.take(0) =~= Seq::<usize>::empty());
    while t < n
        invariant
            t <= n,
            n == e - m,
            s <= m <= e <= row.len(),
            row.len() <= NODE_LIMIT,
            row == board.rows@[c as int]@,
            c < board.rows@.len(),
            board.arranges(rank),
            wiring.wires(rank.len()),
            links == wiring.links@,
            upper == row.subrange(s as int, m as int),
            lower == row.subrange(m as int, e as int),
            up == runs_above(board.place@, links, upper, lower.take(t as int)),
            down == runs_below(board.place@, links, upper, lower.take(t as int)),
            up <= t * 0x800_0000_0000_0000_0000_0000,
            down <= t * 0x800_0000_0000_0000_0000_0000,
        decreases n - t,
    {
        let y = board.rows[c][m + t];
        assert(row[m + t] == y);
        assert(lower.take(t as int + 1).drop_last() =~= lower.take(t as int));
        assert(lower.take(t as int + 1).last() == y);
        let mut one_up: u128 = 0;
        let mut one_down: u128 = 0;
        let mut i: usize = m;
        assert(row.subrange(m as int, m as int) =~= Seq::<usize>::empty());
        while i > s
            invariant
                s <= i <= m,
                m <= e <= row.len(),
                row.len() <= NODE_LIMIT,
                row == board.rows@[c as int]@,
                c < board.rows@.len(),
                board.arranges(rank),
                wiring.wires(rank.len()),
                links == wiring.links@,
                y < rank.len(),
                one_up == run_above(board.place@, links, row.subrange(i as int, m as int), y),
                one_down == run_below(board.place@, links, row.subrange(i as int, m as int), y),
                one_up <= (m - i) * 0x2000_0000_0000_0000,
                one_down <= (m - i) * 0x2000_0000_0000_0000,
            decreases i,
        {
            i = i - 1;
            let x = board.rows[c][i];
            assert(row[i as int] == x);
            let (a, b) = crossings_between(x, y, &board.place, wiring);
            proof {
                let run = row.subrange(i as int, m as int);
                assert(run.drop_first() =~= row.subrange(i + 1, m as int));
                assert(run[0] == x);
            }
            one_up = one_up + a as u128;
            one_down = one_down + b as u128;
        }
        up = up + one_up;
        down = down + one_down;
        t = t + 1;
    }
    assert(lower.take(t as int) =~= lower);
    (up, down)
}

/// A board, the cuts of its column `c` and whether anything was moved, after the first `k` pairs of
/// neighbouring runs were looked at: a pair that makes fewer crossings the other way round is
/// swapped.
pub open spec fn slide_runs(
    s: (BoardModel, Seq<usize>, bool),
    links: Seq<(usize, usize)>,
    c: int,
    k: nat,
) -> (BoardModel, Seq<usize>, bool)
    decreases k,
{
    if k == 0 {
        s
    } else {
        let t = slide_runs(s, links, c, (k - 1) as nat);
        let row = t.0.rows[c];
        let (from, mid, to) = (t.1[k - 1] as int, t.1[k as int] as int, t.1[k as int + 1] as int);
        let (upper, lower) = (row.subrange(from, mid), row.subrange(mid, to));
        if runs_below(t.0.place, links, upper, lower) < runs_above(
            t.0.place,
            links,
            upper,
            lower,
        ) {
            (
                with_row(t.0, c, runs_swapped(row, from, mid, to)),
                t.1.update(k as int, (from + (to - mid)) as usize),
                true,
            )
        } else {
            t
        }
    }
}

/// A board, and whether anything was moved on it, after the runs of the column `c` slid.
pub open spec fn settle_column(
    s: (BoardModel, bool),
    links: Seq<(usize, usize)>,
    of: Seq<Option<usize>>,
    c: int,
) -> (BoardModel, bool) {
    let cuts = cuts_of(s.0.rows[c], of);
    let pairs = if cuts.len() > 2 {
        (cuts.len() - 2) as nat
    } else {
        0
    };
    let t = slide_runs((s.0, cuts, s.1), links, c, pairs);
    (t.0, t.2)
}

/// The same after the first `k` columns.
pub open spec fn settle_columns(
    s: (BoardModel, bool),
    links: Seq<(usize, usize)>,
    of: Seq<Option<usize>>,
    k: nat,
) -> (BoardModel, bool)
    decreases k,
{
    if k == 0 {
        s
    } else {
        settle_column(settle_columns(s, links, of, (k - 1) as nat), links, of, k - 1)
    }
}

/// A board after at most `left` passes over its runs: one that moves nothing is the last.
pub open spec fn settle_passes(
    b: BoardModel,
    links: Seq<(usize, usize)>,
    of: Seq<Option<usize>>,
    left: nat,
) -> BoardModel
    decreases left,
{
    if left == 0 {
        b
    } else {
        let (now, moved) = settle_columns((b, false), links, of, b.rows.len());
        if moved {
            settle_passes(now, links, of, (left - 1) as nat)
        } else {
            now
        }
    }
}

/// `slide_runs` keeps what was moved before in mind, and nothing else depends on it.
proof fn lemma_moved_before(
    b: BoardModel,
    cuts: Seq<usize>,
    links: Seq<(usize, usize)>,
    c: int,
    k: nat,
    moved: bool,
)
    ensures
        slide_runs((b, cuts, moved), links, c, k).0 == slide_runs((b, cuts, false), links, c, k).0,
        slide_runs((b, cuts, moved), links, c, k).1 == slide_runs((b, cuts, false), links, c, k).1,
        slide_runs((b, cuts, moved), links, c, k).2 == (moved || slide_runs(
            (b, cuts, false),
            links,
            c,
            k,
        ).2),
    decreases k,
{
    if k > 0 {
        lemma_moved_before(b, cuts, links, c, (k - 1) as nat, moved);
    }
}

/// No two neighbouring runs of a column make fewer crossings the other way round.
pub open spec fn runs_at_rest(
    b: BoardModel,
    links: Seq<(usize, usize)>,
    of: Seq<Option<usize>>,
) -> bool {
    forall|c: int, k: int|
        0 <= c < b.rows.len() ==> #[trigger] pair_at_rest(b, links, cuts_of(b.rows[c], of), c, k)
}

/// The runs of the column `c` between the cuts at `k`, `k + 1` and `k + 2` make no fewer crossings the
/// other way round.
pub open spec fn pair_at_rest(
    b: BoardModel,
    links: Seq<(usize, usize)>,
    cuts: Seq<usize>,
    c: int,
    k: int,
) -> bool {
    0 <= k && k + 2 < cuts.len() ==> runs_above(
        b.place,
        links,
        b.rows[c].subrange(cuts[k] as int, cuts[k + 1] as int),
        b.rows[c].subrange(cuts[k + 1] as int, cuts[k + 2] as int),
    ) <= runs_below(
        b.place,
        links,
        b.rows[c].subrange(cuts[k] as int, cuts[k + 1] as int),
        b.rows[c].subrange(cuts[k + 1] as int, cuts[k + 2] as int),
    )
}

proof fn lemma_runs_rest(
    s: (BoardModel, Seq<usize>, bool),
    links: Seq<(usize, usize)>,
    c: int,
    k: nat,
)
    requires
        !slide_runs(s, links, c, k).2,
    ensures
        !s.2,
        slide_runs(s, links, c, k) == s,
        forall|j: int| 0 <= j < k ==> #[trigger] pair_at_rest(s.0, links, s.1, c, j),
    decreases k,
{
    if k > 0 {
        lemma_runs_rest(s, links, c, (k - 1) as nat);
    }
}

proof fn lemma_columns_rest(
    b: BoardModel,
    links: Seq<(usize, usize)>,
    of: Seq<Option<usize>>,
    k: nat,
)
    requires
        !settle_columns((b, false), links, of, k).1,
    ensures
        settle_columns((b, false), links, of, k) == (b, false),
        forall|c: int, j: int|
            0 <= c < k ==> #[trigger] pair_at_rest(b, links, cuts_of(b.rows[c], of), c, j),
    decreases k,
{
    if k > 0 {
        let t = settle_columns((b, false), links, of, (k - 1) as nat);
        let cuts = cuts_of(t.0.rows[k - 1], of);
        let pairs = if cuts.len() > 2 {
            (cuts.len() - 2) as nat
        } else {
            0
        };
        lemma_runs_rest((t.0, cuts, t.1), links, k - 1, pairs);
        lemma_columns_rest(b, links, of, (k - 1) as nat);
    }
}

/// Where no neighbours make fewer crossings the other way round, runs of one node each stay.
proof fn lemma_single_runs_stay(
    s: (BoardModel, Seq<usize>, bool),
    links: Seq<(usize, usize)>,
    c: int,
    k: nat,
)
    requires
        k + 1 < s.1.len() || k == 0,
        forall|i: int| 0 <= i < s.1.len() ==> #[trigger] s.1[i] == i,
        s.1.len() <= s.0.rows[c].len() + 1,
        forall|i: int|
            0 <= i && i + 1 < s.0.rows[c].len() ==> cost_above(
                s.0.place,
                links,
                #[trigger] s.0.rows[c][i] as int,
                s.0.rows[c][i + 1] as int,
            ) <= cost_below(s.0.place, links, s.0.rows[c][i] as int, s.0.rows[c][i + 1] as int),
    ensures
        slide_runs(s, links, c, k) == s,
    decreases k,
{
    if k > 0 {
        lemma_single_runs_stay(s, links, c, (k - 1) as nat);
        let row = s.0.rows[c];
        let (i, j) = (k - 1, k as int);
        assert(s.1[i] == i && s.1[j] == j && s.1[j + 1] == j + 1);
        let upper = row.subrange(i, j);
        let lower = row.subrange(j, j + 1);
        assert(upper.len() == 1 && upper[0] == row[i]);
        assert(lower.len() == 1 && lower.last() == row[j]);
        assert(lower.drop_last() =~= Seq::<usize>::empty());
        assert(upper.drop_first() =~= Seq::<usize>::empty());
        reveal_with_fuel(runs_above, 2);
        reveal_with_fuel(runs_below, 2);
        reveal_with_fuel(run_above, 2);
        reveal_with_fuel(run_below, 2);
        assert(cost_above(s.0.place, links, row[i] as int, row[i + 1] as int) <= cost_below(
            s.0.place,
            links,
            row[i] as int,
            row[i + 1] as int,
        ));
    }
}

proof fn lemma_cuts_of_singles(row: Seq<usize>, of: Seq<Option<usize>>, n: nat)
    requires
        n <= row.len() <= usize::MAX,
        forall|i: int| 0 <= i < row.len() ==> of[(#[trigger] row[i]) as int] is None,
    ensures
        cuts_to(row, of, n).len() == n,
        forall|i: int| 0 <= i < n ==> #[trigger] cuts_to(row, of, n)[i] == i,
    decreases n,
{
    if n > 0 {
        lemma_cuts_of_singles(row, of, (n - 1) as nat);
        assert(of[row[n - 1] as int] is None);
    }
}

/// A board without clusters on which no swap of neighbours removes a crossing has settled.
pub(crate) proof fn lemma_settled_stays(
    b: BoardModel,
    links: Seq<(usize, usize)>,
    of: Seq<Option<usize>>,
    left: nat,
)
    requires
        forall|c: int| 0 <= c < b.rows.len() ==> (#[trigger] b.rows[c]).len() <= usize::MAX,
        forall|c: int, i: int|
            0 <= c < b.rows.len() && 0 <= i < b.rows[c].len() ==> of[(
            #[trigger] b.rows[c][i]) as int] is None,
        forall|c: int, i: int|
            0 <= c < b.rows.len() && 0 <= i && i + 1 < b.rows[c].len() ==> cost_above(
                b.place,
                links,
                (#[trigger] b.rows[c][i]) as int,
                b.rows[c][i + 1] as int,
            ) <= cost_below(b.place, links, b.rows[c][i] as int, b.rows[c][i + 1] as int),
    ensures
        settle_passes(b, links, of, left) == b,
{
    if left > 0 {
        lemma_settled_columns(b, links, of, b.rows.len());
    }
}

proof fn lemma_settled_columns(
    b: BoardModel,
    links: Seq<(usize, usize)>,
    of: Seq<Option<usize>>,
    k: nat,
)
    requires
        k <= b.rows.len(),
        forall|c: int| 0 <= c < b.rows.len() ==> (#[trigger] b.rows[c]).len() <= usize::MAX,
        forall|c: int, i: int|
            0 <= c < b.rows.len() && 0 <= i < b.rows[c].len() ==> of[(
            #[trigger] b.rows[c][i]) as int] is None,
        forall|c: int, i: int|
            0 <= c < b.rows.len() && 0 <= i && i + 1 < b.rows[c].len() ==> cost_above(
                b.place,
                links,
                (#[trigger] b.rows[c][i]) as int,
                b.rows[c][i + 1] as int,
            ) <= cost_below(b.place, links, b.rows[c][i] as int, b.rows[c][i + 1] as int),
    ensures
        settle_columns((b, false), links, of, k) == (b, false),
    decreases k,
{
    if k > 0 {
        lemma_settled_columns(b, links, of, (k - 1) as nat);
        let c = k - 1;
        let row = b.rows[c];
        let cuts = cuts_of(row, of);
        lemma_cuts_of_singles(row, of, row.len());
        let pairs = if cuts.len() > 2 {
            (cuts.len() - 2) as nat
        } else {
            0
        };
        lemma_single_runs_stay((b, cuts, false), links, c, pairs);
    }
}

/// Gathering leaves a column without clusters as it is.
pub(crate) proof fn lemma_nothing_gathered(row: Seq<usize>, of: Seq<Option<usize>>, n: nat)
    requires
        n <= row.len(),
        forall|i: int| 0 <= i < row.len() ==> of[(#[trigger] row[i]) as int] is None,
    ensures
        gathered_to(row, of, n) == row.take(n as int),
    decreases n,
{
    if n > 0 {
        lemma_nothing_gathered(row, of, (n - 1) as nat);
        assert(of[row[n - 1] as int] is None);
        assert(row.take(n as int) =~= row.take(n - 1).push(row[n - 1]));
    } else {
        assert(row.take(0) =~= Seq::<usize>::empty());
    }
}

/// Lets the runs of the column `c` slide past each other where that saves crossings. Says whether
/// anything moved.
#[verifier::rlimit(60)]
fn settle_runs(
    board: &mut Board,
    c: usize,
    of: &Vec<Option<usize>>,
    wiring: &Wiring,
    Ghost(rank): Ghost<Seq<i32>>,
) -> (r: bool)
    requires
        old(board).arranges(rank),
        wiring.wires(rank.len()),
        links_columns(rank, wiring.links@),
        rank.len() <= NODE_LIMIT,
        of@.len() == rank.len(),
        c < old(board).rows@.len(),
        is_packed(old(board).rows@[c as int]@, of@),
    ensures
        final(board).arranges(rank),
        same_shape(final(board).rows@, old(board).rows@),
        final(board).rows@ == old(board).rows@.update(c as int, final(board).rows@[c as int]),
        is_packed(final(board).rows@[c as int]@, of@),
        (final(board).model(), r) == settle_column(
            (old(board).model(), false),
            wiring.links@,
            of@,
            c as int,
        ),
        crossings(rank, final(board).place@, wiring.links@) <= crossings(
            rank,
            old(board).place@,
            wiring.links@,
        ),
        r ==> crossings(rank, final(board).place@, wiring.links@) < crossings(
            rank,
            old(board).place@,
            wiring.links@,
        ),
{
    let ghost links = wiring.links@;
    let ghost first = *board;
    proof {
        lemma_row_distinct(rank, *board, c as int);
        crate::adjacency::lemma_distinct_below(board.rows@[c as int]@, rank.len());
        assert(board.rows@ =~= first.rows@.update(c as int, board.rows@[c as int]));
    }
    let mut starts = cut_runs(&board.rows[c], of);
    let cuts: usize = starts.len();
    let ghost cut = starts@;
    let mut improved: bool = false;
    let mut k: usize = 0;
    while k < cuts && cuts - k > 2
        invariant
            k <= cuts,
            cuts == starts@.len(),
            links == wiring.links@,
            board.arranges(rank),
            wiring.wires(rank.len()),
            links_columns(rank, links),
            rank.len() <= NODE_LIMIT,
            c < board.rows@.len(),
            board.rows@[c as int]@.len() <= NODE_LIMIT,
            same_shape(board.rows@, first.rows@),
            board.rows@ == first.rows@.update(c as int, board.rows@[c as int]),
            first.rows@.len() == board.rows@.len(),
            are_runs(board.rows@[c as int]@, of@, starts@),
            k == 0 || k + 2 <= cuts,
            (board.model(), starts@, improved) == slide_runs(
                (first.model(), cut, false),
                links,
                c as int,
                k as nat,
            ),
            crossings(rank, board.place@, links) <= crossings(rank, first.place@, links),
            improved ==> crossings(rank, board.place@, links) < crossings(
                rank,
                first.place@,
                links,
            ),
        decreases cuts - k,
    {
        let s = starts[k];
        let m = starts[k + 1];
        let e = starts[k + 2];
        proof {
            lemma_run_bounds(board.rows@[c as int]@, of@, starts@, k as int);
        }
        let (ab, ba) = count_runs(board, c, s, m, e, wiring, Ghost(rank));
        if ba < ab {
            let middle: usize = s + (e - m);
            proof {
                lemma_runs_swap(board.rows@[c as int]@, of@, starts@, k as int, middle);
            }
            let ghost before = *board;
            swap_runs(board, c, s, m, e, wiring, Ghost(rank));
            proof {
                lemma_with_row(rank, before, *board, c as int);
            }
            starts.set(k + 1, middle);
            assert(board.rows@ =~= first.rows@.update(c as int, board.rows@[c as int]));
            improved = true;
        }
        k = k + 1;
    }
    proof {
        lemma_runs_packed(board.rows@[c as int]@, of@, starts@);
    }
    improved
}

/// Slides whole runs, so that the groups keep their shape but stand where they cost the fewest
/// crossings. Never adds a crossing, and leaves every cluster in one unbroken run.
pub fn settle_clusters(
    board: &mut Board,
    of: &Vec<Option<usize>>,
    wiring: &Wiring,
    rank: &Vec<i32>,
    transpose_passes: usize,
)
    requires
        old(board).arranges(rank@),
        wiring.wires(rank@.len()),
        links_columns(rank@, wiring.links@),
        rank@.len() <= NODE_LIMIT,
        of@.len() == rank@.len(),
        all_packed(old(board).rows@, of@),
    ensures
        final(board).arranges(rank@),
        same_shape(final(board).rows@, old(board).rows@),
        all_packed(final(board).rows@, of@),
        final(board).model() == settle_passes(
            old(board).model(),
            wiring.links@,
            of@,
            transpose_passes as nat,
        ),
        crossings(rank@, final(board).place@, wiring.links@) <= crossings(
            rank@,
            old(board).place@,
            wiring.links@,
        ),
        runs_at_rest(final(board).model(), wiring.links@, of@) || crossings(
            rank@,
            final(board).place@,
            wiring.links@,
        ) + transpose_passes <= crossings(rank@, old(board).place@, wiring.links@),
{
    let ghost links = wiring.links@;
    let ghost first = *board;
    let count: usize = board.rows.len();
    let mut pass: usize = 0;
    let mut improved: bool = true;
    while pass < transpose_passes && improved
        invariant
            pass <= transpose_passes,
            count == board.rows@.len(),
            links == wiring.links@,
            board.arranges(rank@),
            wiring.wires(rank@.len()),
            links_columns(rank@, links),
            rank@.len() <= NODE_LIMIT,
            of@.len() == rank@.len(),
            all_packed(board.rows@, of@),
            same_shape(board.rows@, first.rows@),
            crossings(rank@, board.place@, links) <= crossings(rank@, first.place@, links),
            settle_passes(first.model(), links, of@, transpose_passes as nat) == if improved {
                settle_passes(board.model(), links, of@, (transpose_passes - pass) as nat)
            } else {
                board.model()
            },
            improved ==> crossings(rank@, board.place@, links) + pass <= crossings(
                rank@,
                first.place@,
                links,
            ),
            !improved ==> runs_at_rest(board.model(), links, of@),
        decreases transpose_passes - pass,
    {
        improved = false;
        let ghost base = *board;
        let mut c: usize = 0;
        while c < count
            invariant
                c <= count,
                count == board.rows@.len(),
                links == wiring.links@,
                board.arranges(rank@),
                wiring.wires(rank@.len()),
                links_columns(rank@, links),
                rank@.len() <= NODE_LIMIT,
                of@.len() == rank@.len(),
                all_packed(board.rows@, of@),
                same_shape(board.rows@, first.rows@),
                crossings(rank@, board.place@, links) <= crossings(rank@, base.place@, links),
                crossings(rank@, base.place@, links) <= crossings(rank@, first.place@, links),
                improved ==> crossings(rank@, board.place@, links) < crossings(
                    rank@,
                    base.place@,
                    links,
                ),
                (board.model(), improved) == settle_columns(
                    (base.model(), false),
                    links,
                    of@,
                    c as nat,
                ),
            decreases count - c,
        {
            let ghost before = *board;
            let moved = settle_runs(board, c, of, wiring, Ghost(rank@));
            proof {
                let cuts = cuts_of(before.model().rows[c as int], of@);
                if cuts.len() > 2 {
                    lemma_moved_before(
                        before.model(),
                        cuts,
                        links,
                        c as int,
                        (cuts.len() - 2) as nat,
                        improved,
                    );
                }
            }
            if moved {
                improved = true;
            }
            assert forall|d: int| 0 <= d < board.rows@.len() implies is_packed(
                (#[trigger] board.rows@[d])@,
                of@,
            ) by {
                if d != c {
                    assert(board.rows@[d] == before.rows@[d]);
                }
            }
            c = c + 1;
        }
        proof {
            if !improved {
                lemma_columns_rest(base.model(), links, of@, count as nat);
            }
        }
        pass = pass + 1;
    }
}

} // verus!
