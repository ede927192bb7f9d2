//! Splitting a graph to be laid out into its components, and a component into what moves together.

use vstd::prelude::*;

use crate::adjacency::pairs_below;
use crate::unions::{
    groups, groups_lead, groups_partition, is_grouping, leaders, lemma_leaders, linked,
};

verus! {

/// A parent type and the variants that should line up in the column directly to its right: a union
/// and its members.
#[derive(Debug, Clone)]
pub struct Cluster {
    pub parent: u32,
    pub members: Vec<u32>,
}

/// A component: its nodes and its edges, by number.
pub struct Part {
    pub members: Vec<usize>,
    pub edges: Vec<usize>,
}

// ── components ─────────────────────────────────────────────────────────────

/// The nodes among the first `n` that hang together with `leader`, in order.
pub open spec fn part_members(ends: Seq<(usize, usize)>, leader: int, n: nat) -> Seq<usize>
    decreases n,
{
    if n == 0 {
        Seq::empty()
    } else {
        let before = part_members(ends, leader, (n - 1) as nat);
        if linked(ends, leader, n - 1) { before.push((n - 1) as usize) } else { before }
    }
}

/// The edges among the first `k` that start where `leader` hangs together, in order.
pub open spec fn part_edges(ends: Seq<(usize, usize)>, leader: int, k: nat) -> Seq<usize>
    decreases k,
{
    if k == 0 {
        Seq::empty()
    } else {
        let before = part_edges(ends, leader, (k - 1) as nat);
        if linked(ends, leader, ends[k - 1].0 as int) { before.push((k - 1) as usize) } else { before }
    }
}

/// The components of `n` nodes, in the order their first nodes appear.
pub open spec fn are_parts(ends: Seq<(usize, usize)>, n: nat, parts: Seq<Part>) -> bool {
    &&& parts.len() == leaders(ends, n).len()
    &&& forall|c: int|
        0 <= c < parts.len() ==> (#[trigger] parts[c]).members@ == part_members(
            ends,
            leaders(ends, n)[c],
            n,
        ) && parts[c].edges@ == part_edges(ends, leaders(ends, n)[c], ends.len())
}

proof fn lemma_in_part(ends: Seq<(usize, usize)>, n: nat, group: Seq<usize>, c: int, v: int)
    requires
        is_grouping(ends, n, group),
        0 <= c < leaders(ends, n).len(),
        0 <= v < n,
    ensures
        linked(ends, leaders(ends, n)[c], v) <==> group[v] == c,
{
    lemma_leaders(ends, n);
    groups_lead(ends, n, group, c);
    groups_partition(ends, n, group, leaders(ends, n)[c], v);
}

/// Splits `n` nodes into components.
#[verifier::rlimit(40)]
pub fn split_parts(n: usize, ends: &Vec<(usize, usize)>) -> (r: Vec<Part>)
    requires
        pairs_below(n as nat, ends@),
    ensures
        are_parts(ends@, n as nat, r@),
{
    let ghost es = ends@;
    let (group, count) = groups(n, ends);
    let ghost ls = leaders(es, n as nat);
    let mut parts: Vec<Part> = Vec::new();
    let mut z: usize = 0;
    while z < count
        invariant
            z <= count,
            parts@.len() == z,
            forall|c: int|
                0 <= c < z ==> (#[trigger] parts@[c]).members@ == part_members(es, ls[c], 0)
                    && parts@[c].edges@ == part_edges(es, ls[c], 0),
        decreases count - z,
    {
        let part = Part { members: Vec::new(), edges: Vec::new() };
        assert(part.members@ =~= Seq::<usize>::empty());
        assert(part.edges@ =~= Seq::<usize>::empty());
        parts.push(part);
        z = z + 1;
    }
    let mut v: usize = 0;
    while v < n
        invariant
            v <= n,
            is_grouping(es, n as nat, group@),
            ls == leaders(es, n as nat),
            parts@.len() == ls.len(),
            forall|c: int|
                0 <= c < parts@.len() ==> (#[trigger] parts@[c]).members@ == part_members(
                    es,
                    ls[c],
                    v as nat,
                ) && parts@[c].edges@ == part_edges(es, ls[c], 0),
        decreases n - v,
    {
        let at = group[v];
        let ghost before = parts@;
        parts[at].members.push(v);
        assert forall|c: int| 0 <= c < parts@.len() implies (#[trigger] parts@[c]).members@
            == part_members(es, ls[c], (v + 1) as nat) && parts@[c].edges@ == part_edges(
            es,
            ls[c],
            0,
        ) by {
            lemma_in_part(es, n as nat, group@, c, v as int);
            assert(before[c].members@ == part_members(es, ls[c], v as nat));
        }
        v = v + 1;
    }
    let mut k: usize = 0;
    while k < ends.len()
        invariant
            k <= ends@.len(),
            es == ends@,
            pairs_below(n as nat, es),
            is_grouping(es, n as nat, group@),
            ls == leaders(es, n as nat),
            parts@.len() == ls.len(),
            forall|c: int|
                0 <= c < parts@.len() ==> (#[trigger] parts@[c]).members@ == part_members(
                    es,
                    ls[c],
                    n as nat,
                ) && parts@[c].edges@ == part_edges(es, ls[c], k as nat),
        decreases ends@.len() - k,
    {
        let from = ends[k].0;
        assert(es[k as int].0 < n);
        let at = group[from];
        let ghost before = parts@;
        parts[at].edges.push(k);
        assert forall|c: int| 0 <= c < parts@.len() implies (#[trigger] parts@[c]).members@
            == part_members(es, ls[c], n as nat) && parts@[c].edges@ == part_edges(
            es,
            ls[c],
            (k + 1) as nat,
        ) by {
            lemma_in_part(es, n as nat, group@, c, from as int);
            assert(before[c].edges@ == part_edges(es, ls[c], k as nat));
        }
        k = k + 1;
    }
    parts
}

/// The nodes that are roots, by number. Numbers that name no node are passed over.
pub fn root_flags(n: usize, roots: &Vec<u32>) -> (r: Vec<bool>)
    ensures
        r@.len() == n,
        forall|v: int|
            0 <= v < n ==> (#[trigger] r@[v] <==> exists|i: int|
                0 <= i < roots@.len() && (#[trigger] roots@[i]) as int == v),
{
    let mut flags: Vec<bool> = Vec::new();
    let mut z: usize = 0;
    while z < n
        invariant
            z <= n,
            flags@.len() == z,
            forall|v: int| 0 <= v < z ==> !#[trigger] flags@[v],
        decreases n - z,
    {
        flags.push(false);
        z = z + 1;
    }
    let mut i: usize = 0;
    while i < roots.len()
        invariant
            i <= roots@.len(),
            flags@.len() == n,
            forall|v: int|
                0 <= v < n ==> (#[trigger] flags@[v] <==> exists|j: int|
                    0 <= j < i && (#[trigger] roots@[j]) as int == v),
        decreases roots@.len() - i,
    {
        let r: usize = roots[i] as usize;
        let ghost before = flags@;
        if r < n {
            flags.set(r, true);
        }
        assert forall|v: int| 0 <= v < n implies (#[trigger] flags@[v] <==> exists|j: int|
            0 <= j < i + 1 && (#[trigger] roots@[j]) as int == v) by {
            if v == r {
                assert(roots@[i as int] as int == v);
            } else {
                assert(flags@[v] == before[v]);
            }
        }
        i = i + 1;
    }
    flags
}

// ── within a component ─────────────────────────────────────────────────────

/// The place of `v` in the component, or -1.
pub open spec fn local_of(members: Seq<usize>, v: int) -> int
    decreases members.len(),
{
    if members.len() == 0 {
        -1
    } else if members.last() == v {
        members.len() - 1
    } else {
        local_of(members.drop_last(), v)
    }
}

/// The places of all `n` nodes in the component.
pub fn local_places(n: usize, members: &Vec<usize>) -> (r: Vec<Option<usize>>)
    requires
        forall|i: int| 0 <= i < members@.len() ==> (#[trigger] members@[i]) < n,
    ensures
        r@.len() == n,
        forall|v: int|
            0 <= v < n ==> match #[trigger] r@[v] {
                Some(i) => i as int == local_of(members@, v) && i < members@.len()
                    && members@[i as int] == v,
                None => local_of(members@, v) == -1,
            },
{
    let mut out: Vec<Option<usize>> = Vec::new();
    let mut z: usize = 0;
    while z < n
        invariant
            z <= n,
            out@.len() == z,
            forall|v: int| 0 <= v < z ==> #[trigger] out@[v] is None,
        decreases n - z,
    {
        out.push(None);
        z = z + 1;
    }
    let mut i: usize = 0;
    assert(members@.take(0) =~= Seq::<usize>::empty());
    while i < members.len()
        invariant
            i <= members@.len(),
            out@.len() == n,
            forall|i: int| 0 <= i < members@.len() ==> (#[trigger] members@[i]) < n,
            forall|v: int|
                0 <= v < n ==> match #[trigger] out@[v] {
                    Some(j) => j as int == local_of(members@.take(i as int), v) && j < i
                        && members@[j as int] == v,
                    None => local_of(members@.take(i as int), v) == -1,
                },
        decreases members@.len() - i,
    {
        assert(members@.take(i as int + 1).drop_last() =~= members@.take(i as int));
        out.set(members[i], Some(i));
        i = i + 1;
    }
    assert(members@.take(i as int) =~= members@);
    out
}

/// The members of a cluster that are in the component, by their places there, in order.
pub open spec fn local_members(members: Seq<usize>, cluster: Seq<u32>) -> Seq<usize>
    decreases cluster.len(),
{
    if cluster.len() == 0 {
        Seq::empty()
    } else {
        let before = local_members(members, cluster.drop_last());
        let l = local_of(members, cluster.last() as int);
        if l >= 0 { before.push(l as usize) } else { before }
    }
}

/// The clusters that mean anything within the component: those whose parent is in it and that have
/// more than one member there.
pub open spec fn local_clusters(members: Seq<usize>, clusters: Seq<Cluster>) -> Seq<Seq<usize>>
    decreases clusters.len(),
{
    if clusters.len() == 0 {
        Seq::empty()
    } else {
        let before = local_clusters(members, clusters.drop_last());
        let c = clusters.last();
        let inside = local_members(members, c.members@);
        if local_of(members, c.parent as int) >= 0 && inside.len() > 1 {
            before.push(inside)
        } else {
            before
        }
    }
}

fn find_members(places: &Vec<Option<usize>>, cluster: &Vec<u32>, Ghost(members): Ghost<Seq<usize>>) -> (r:
    Vec<usize>)
    requires
        forall|v: int|
            0 <= v < places@.len() ==> match #[trigger] places@[v] {
                Some(i) => i as int == local_of(members, v),
                None => local_of(members, v) == -1,
            },
        forall|v: int| v >= places@.len() ==> #[trigger] local_of(members, v) == -1,
    ensures
        r@ == local_members(members, cluster@),
{
    let mut out: Vec<usize> = Vec::new();
    let mut i: usize = 0;
    assert(cluster@.take(0) =~= Seq::<u32>::empty());
    while i < cluster.len()
        invariant
            i <= cluster@.len(),
            forall|v: int|
                0 <= v < places@.len() ==> match #[trigger] places@[v] {
                    Some(i) => i as int == local_of(members, v),
                    None => local_of(members, v) == -1,
                },
            forall|v: int| v >= places@.len() ==> #[trigger] local_of(members, v) == -1,
            out@ == local_members(members, cluster@.take(i as int)),
        decreases cluster@.len() - i,
    {
        assert(cluster@.take(i as int + 1).drop_last() =~= cluster@.take(i as int));
        let v: usize = cluster[i] as usize;
        if v < places.len() {
            if let Some(l) = places[v] {
                out.push(l);
            }
        } else {
            assert(local_of(members, v as int) == -1);
        }
        i = i + 1;
    }
    assert(cluster@.take(i as int) =~= cluster@);
    out
}

proof fn lemma_local_bound(members: Seq<usize>, n: int, v: int)
    requires
        forall|i: int| 0 <= i < members.len() ==> (#[trigger] members[i]) < n,
        v >= n,
    ensures
        local_of(members, v) == -1,
    decreases members.len(),
{
    if members.len() > 0 {
        assert(members[members.len() - 1] < n);
        assert forall|i: int| 0 <= i < members.drop_last().len() implies (
        #[trigger] members.drop_last()[i]) < n by {
            assert(members.drop_last()[i] == members[i]);
        }
        lemma_local_bound(members.drop_last(), n, v);
    }
}

/// The clusters that mean anything within the component, by their members' places there.
pub fn clusters_within(n: usize, members: &Vec<usize>, clusters: &Vec<Cluster>) -> (r: Vec<Vec<usize>>)
    requires
        forall|i: int| 0 <= i < members@.len() ==> (#[trigger] members@[i]) < n,
    ensures
        r@.map_values(|v: Vec<usize>| v@) == local_clusters(members@, clusters@),
{
    let places = local_places(n, members);
    proof {
        assert forall|v: int| v >= places@.len() implies #[trigger] local_of(members@, v) == -1 by {
            lemma_local_bound(members@, n as int, v);
        }
    }
    let mut out: Vec<Vec<usize>> = Vec::new();
    let mut i: usize = 0;
    assert(clusters@.take(0) =~= Seq::<Cluster>::empty());
    assert(out@.map_values(|v: Vec<usize>| v@) =~= Seq::<Seq<usize>>::empty());
    while i < clusters.len()
        invariant
            i <= clusters@.len(),
            places@.len() == n,
            forall|v: int|
                0 <= v < places@.len() ==> match #[trigger] places@[v] {
                    Some(i) => i as int == local_of(members@, v) && i < members@.len()
                        && members@[i as int] == v,
                    None => local_of(members@, v) == -1,
                },
            forall|v: int| v >= places@.len() ==> #[trigger] local_of(members@, v) == -1,
            out@.map_values(|v: Vec<usize>| v@) == local_clusters(
                members@,
                clusters@.take(i as int),
            ),
        decreases clusters@.len() - i,
    {
        assert(clusters@.take(i as int + 1).drop_last() =~= clusters@.take(i as int));
        let ghost before = out@.map_values(|v: Vec<usize>| v@);
        let parent: usize = clusters[i].parent as usize;
        let known: bool = parent < n && places[parent].is_some();
        assert(known == (local_of(members@, parent as int) >= 0));
        let inside = find_members(&places, &clusters[i].members, Ghost(members@));
        if known && inside.len() > 1 {
            let ghost list = inside@;
            out.push(inside);
            assert(out@.map_values(|v: Vec<usize>| v@) =~= before.push(list));
        }
        i = i + 1;
    }
    assert(clusters@.take(i as int) =~= clusters@);
    out
}

/// The ends of the component's edges, by their places there.
pub open spec fn are_local_ends(
    members: Seq<usize>,
    ends: Seq<(usize, usize)>,
    edges: Seq<usize>,
    local: Seq<(usize, usize)>,
) -> bool {
    &&& local.len() == edges.len()
    &&& forall|k: int|
        0 <= k < local.len() ==> (#[trigger] local[k]).0 < members.len() && local[k].1
            < members.len() && members[local[k].0 as int] == ends[edges[k] as int].0
            && members[local[k].1 as int] == ends[edges[k] as int].1
}

/// Finds the ends of the component's edges by their places there; `None` where an edge leaves the
/// component.
pub fn local_ends(
    places: &Vec<Option<usize>>,
    members: &Vec<usize>,
    ends: &Vec<(usize, usize)>,
    edges: &Vec<usize>,
) -> (r: Option<Vec<(usize, usize)>>)
    requires
        forall|k: int| 0 <= k < edges@.len() ==> (#[trigger] edges@[k]) < ends@.len(),
        pairs_below(places@.len(), ends@),
        forall|v: int|
            0 <= v < places@.len() ==> match #[trigger] places@[v] {
                Some(i) => i as int == local_of(members@, v) && i < members@.len()
                    && members@[i as int] == v,
                None => local_of(members@, v) == -1,
            },
    ensures
        r is Some <==> forall|k: int|
            0 <= k < edges@.len() ==> local_of(
                members@,
                ends@[(#[trigger] edges@[k]) as int].0 as int,
            ) >= 0 && local_of(members@, ends@[edges@[k] as int].1 as int) >= 0,
        r matches Some(local) ==> are_local_ends(members@, ends@, edges@, local@),
{
    let mut out: Vec<(usize, usize)> = Vec::new();
    let mut k: usize = 0;
    while k < edges.len()
        invariant
            k <= edges@.len(),
            forall|k: int| 0 <= k < edges@.len() ==> (#[trigger] edges@[k]) < ends@.len(),
            pairs_below(places@.len(), ends@),
            forall|v: int|
                0 <= v < places@.len() ==> match #[trigger] places@[v] {
                    Some(i) => i as int == local_of(members@, v) && i < members@.len()
                        && members@[i as int] == v,
                    None => local_of(members@, v) == -1,
                },
            out@.len() == k,
            forall|j: int|
                0 <= j < k ==> (#[trigger] out@[j]).0 < members@.len() && out@[j].1
                    < members@.len() && members@[out@[j].0 as int] == ends@[edges@[j] as int].0
                    && members@[out@[j].1 as int] == ends@[edges@[j] as int].1,
            forall|j: int|
                0 <= j < k ==> local_of(
                    members@,
                    ends@[(#[trigger] edges@[j]) as int].0 as int,
                ) >= 0 && local_of(members@, ends@[edges@[j] as int].1 as int) >= 0,
        decreases edges@.len() - k,
    {
        let e = edges[k];
        let (a, b) = ends[e];
        assert(ends@[e as int].0 < places@.len() && ends@[e as int].1 < places@.len());
        match (places[a], places[b]) {
            (Some(x), Some(y)) => {
                out.push((x, y));
            },
            _ => {
                assert(local_of(members@, ends@[edges@[k as int] as int].0 as int) == -1
                    || local_of(members@, ends@[edges@[k as int] as int].1 as int) == -1);
                return None;
            },
        }
        k = k + 1;
    }
    Some(out)
}

// ── units ──────────────────────────────────────────────────────────────────

/// The members of a cluster that no unit has taken yet, in order.
pub open spec fn free_members(cluster: Seq<usize>, taken: Seq<bool>) -> Seq<usize>
    decreases cluster.len(),
{
    if cluster.len() == 0 {
        Seq::empty()
    } else {
        let before = free_members(cluster.drop_last(), taken);
        if !taken[cluster.last() as int] { before.push(cluster.last()) } else { before }
    }
}

/// All of `members` stand in one column.
pub open spec fn share_column(members: Seq<usize>, rank: Seq<i32>) -> bool {
    forall|i: int|
        0 <= i < members.len() ==> rank[(#[trigger] members[i]) as int] == rank[members[0] as int]
}

/// The free members of a cluster, if they can move together: there are two or more, and they stand
/// in one column.
pub fn movable_members(cluster: &Vec<usize>, taken: &Vec<bool>, rank: &Vec<i32>) -> (r: Option<
    Vec<usize>,
>)
    requires
        taken@.len() == rank@.len(),
        forall|i: int| 0 <= i < cluster@.len() ==> (#[trigger] cluster@[i]) < rank@.len(),
    ensures
        r is Some <==> free_members(cluster@, taken@).len() >= 2 && share_column(
            free_members(cluster@, taken@),
            rank@,
        ),
        r matches Some(v) ==> v@ == free_members(cluster@, taken@),
{
    let mut free: Vec<usize> = Vec::new();
    let mut i: usize = 0;
    assert(cluster@.take(0) =~= Seq::<usize>::empty());
    while i < cluster.len()
        invariant
            i <= cluster@.len(),
            taken@.len() == rank@.len(),
            forall|i: int| 0 <= i < cluster@.len() ==> (#[trigger] cluster@[i]) < rank@.len(),
            free@ == free_members(cluster@.take(i as int), taken@),
            forall|j: int| 0 <= j < free@.len() ==> (#[trigger] free@[j]) < rank@.len(),
        decreases cluster@.len() - i,
    {
        assert(cluster@.take(i as int + 1).drop_last() =~= cluster@.take(i as int));
        if !taken[cluster[i]] {
            free.push(cluster[i]);
        }
        i = i + 1;
    }
    assert(cluster@.take(i as int) =~= cluster@);
    if free.len() < 2 {
        return None;
    }
    let mut j: usize = 0;
    while j < free.len()
        invariant
            j <= free@.len(),
            free@.len() >= 2,
            forall|k: int| 0 <= k < free@.len() ==> (#[trigger] free@[k]) < rank@.len(),
            forall|k: int|
                0 <= k < j ==> rank@[(#[trigger] free@[k]) as int] == rank@[free@[0] as int],
            free@ == free_members(cluster@, taken@),
        decreases free@.len() - j,
    {
        if rank[free[j]] != rank[free[0]] {
            assert(!share_column(free@, rank@));
            return None;
        }
        j = j + 1;
    }
    Some(free)
}

/// Makes the members one unit with the number `id`.
pub fn claim_unit(unit_of: &mut Vec<usize>, taken: &mut Vec<bool>, members: &Vec<usize>, id: usize)
    requires
        old(taken)@.len() == old(unit_of)@.len(),
        forall|i: int|
            0 <= i < members@.len() ==> (#[trigger] members@[i]) < old(unit_of)@.len(),
    ensures
        final(unit_of)@.len() == old(unit_of)@.len(),
        final(taken)@.len() == old(taken)@.len(),
        forall|v: int|
            0 <= v < final(unit_of)@.len() ==> #[trigger] final(unit_of)@[v] == (
            if members@.contains(v as usize) { id } else { old(unit_of)@[v] }),
        forall|v: int|
            0 <= v < final(taken)@.len() ==> #[trigger] final(taken)@[v] == (members@.contains(
                v as usize,
            ) || old(taken)@[v]),
{
    let ghost unit0 = unit_of@;
    let ghost taken0 = taken@;
    let n: usize = unit_of.len();
    let mut i: usize = 0;
    while i < members.len()
        invariant
            i <= members@.len(),
            unit0.len() == n,
            unit_of@.len() == unit0.len(),
            taken@.len() == unit0.len(),
            taken0.len() == unit0.len(),
            forall|i: int| 0 <= i < members@.len() ==> (#[trigger] members@[i]) < unit0.len(),
            forall|v: int|
                0 <= v < unit0.len() ==> #[trigger] unit_of@[v] == (if members@.take(
                    i as int,
                ).contains(v as usize) {
                    id
                } else {
                    unit0[v]
                }),
            forall|v: int|
                0 <= v < unit0.len() ==> #[trigger] taken@[v] == (members@.take(i as int).contains(
                    v as usize,
                ) || taken0[v]),
        decreases members@.len() - i,
    {
        let m = members[i];
        assert forall|x: usize| members@.take(i as int + 1).contains(x) <==> (members@.take(
            i as int,
        ).contains(x) || x == m) by {
            let (s, t) = (members@.take(i as int), members@.take(i as int + 1));
            if s.contains(x) {
                let j = choose|j: int| 0 <= j < s.len() && s[j] == x;
                assert(t[j] == x);
            }
            if x == m {
                assert(t[i as int] == x);
            }
            if t.contains(x) && x != m {
                let j = choose|j: int| 0 <= j < t.len() && t[j] == x;
                assert(s[j] == x);
            }
        }
        unit_of.set(m, id);
        taken.set(m, true);
        assert forall|v: int| 0 <= v < unit0.len() implies #[trigger] unit_of@[v] == (
        if members@.take(i as int + 1).contains(v as usize) { id } else { unit0[v] }) by {
            let x = v as usize;
            assert(members@.take(i as int + 1).contains(x) <==> (members@.take(
                i as int,
            ).contains(x) || x == m));
        }
        assert forall|v: int| 0 <= v < unit0.len() implies #[trigger] taken@[v] == (members@.take(
            i as int + 1,
        ).contains(v as usize) || taken0[v]) by {
            let x = v as usize;
            assert(members@.take(i as int + 1).contains(x) <==> (members@.take(
                i as int,
            ).contains(x) || x == m));
        }
        i = i + 1;
    }
    assert(members@.take(i as int) =~= members@);
}

/// The clusters from the smallest to the largest; those of one size stay in order.
pub open spec fn is_by_size(clusters: Seq<Vec<usize>>, order: Seq<usize>) -> bool {
    &&& order.len() == clusters.len()
    &&& order.no_duplicates()
    &&& forall|i: int| 0 <= i < order.len() ==> (#[trigger] order[i]) < clusters.len()
    &&& forall|i: int, j: int|
        0 <= i < j < order.len() ==> clusters[(#[trigger] order[i]) as int]@.len() < clusters[(
        #[trigger] order[j]) as int]@.len() || (clusters[order[i] as int]@.len()
            == clusters[order[j] as int]@.len() && order[i] < order[j])
}

/// Orders the clusters from the smallest to the largest.
pub fn order_by_size(clusters: &Vec<Vec<usize>>) -> (r: Vec<usize>)
    ensures
        is_by_size(clusters@, r@),
{
    let n: usize = clusters.len();
    let mut order: Vec<usize> = Vec::new();
    let mut c: usize = 0;
    while c < n
        invariant
            c <= n,
            n == clusters@.len(),
            order@.len() == c,
            order@.no_duplicates(),
            forall|i: int| 0 <= i < order@.len() ==> (#[trigger] order@[i]) < c,
            forall|i: int, j: int|
                0 <= i < j < order@.len() ==> clusters@[(#[trigger] order@[i]) as int]@.len()
                    < clusters@[(#[trigger] order@[j]) as int]@.len() || (
                clusters@[order@[i] as int]@.len() == clusters@[order@[j] as int]@.len()
                    && order@[i] < order@[j]),
        decreases n - c,
    {
        let ghost before = order@;
        let mut at: usize = 0;
        while at < c && clusters[order[at]].len() <= clusters[c].len()
            invariant
                at <= c,
                c < n,
                n == clusters@.len(),
                order@ == before,
                order@.len() == c,
                forall|i: int| 0 <= i < order@.len() ==> (#[trigger] order@[i]) < c,
                forall|i: int|
                    0 <= i < at ==> clusters@[(#[trigger] before[i]) as int]@.len()
                        <= clusters@[c as int]@.len(),
            decreases c - at,
        {
            at = at + 1;
        }
        order.insert(at, c);
        proof {
            before.insert_ensures(at as int, c);
            assert forall|i: int| 0 <= i < order@.len() implies (#[trigger] order@[i]) < c + 1 by {
                let x = if i < at { before[i] } else if i == at { c } else { before[i - 1] };
                assert(order@[i] == x);
            }
            assert forall|i: int, j: int| 0 <= i < j < order@.len() implies (clusters@[(
            #[trigger] order@[i]) as int]@.len() < clusters@[(#[trigger] order@[j]) as int]@.len()
                || (clusters@[order@[i] as int]@.len() == clusters@[order@[j] as int]@.len()
                && order@[i] < order@[j])) && order@[i] != order@[j] by {
                let x = if i < at { before[i] } else if i == at { c } else { before[i - 1] };
                let y = if j < at { before[j] } else if j == at { c } else { before[j - 1] };
                assert(order@[i] == x && order@[j] == y);
                if i == at {
                    assert(at < c);
                    assert(clusters@[before[at as int] as int]@.len() > clusters@[c as int]@.len());
                    if j - 1 > at {
                        assert(clusters@[before[at as int] as int]@.len() < clusters@[before[j
                            - 1] as int]@.len() || clusters@[before[at as int] as int]@.len()
                            == clusters@[before[j - 1] as int]@.len());
                    }
                }
            }
        }
        c = c + 1;
    }
    order
}

} // verus!
