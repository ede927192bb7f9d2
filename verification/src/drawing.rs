//! Laying out one component, as far as it goes without geometry: which column each node stands in,
//! the lanes of long edges, and the order within each column.

use vstd::prelude::*;

use crate::adjacency::{
    distinct_pairs, lemma_ends_below, pairs_below, place_of_pair, strictly_sorted,
};
use crate::clusters::{
    all_packed, are_joined, assign_clusters, gather_clusters, gathered_board,
    lemma_nothing_gathered, lemma_settled_stays, runs_at_rest, settle_clusters, settle_passes,
};
use crate::crossings::{cost_above, cost_below, crossings, links_columns, wire, Board};
use crate::cycles::{
    break_cycles, grows, is_walked, order_starts, start_order, start_order_is_complete, stems_from,
    untangles, Dag,
};
use crate::lanes::{
    edge_behind, expand_lanes, ranks_between, ranks_count, routes_are_wanted, thread, threaded,
    Chain, LANE_BUDGET,
};
use crate::layers::{
    are_ranks, column, column_count, columns_are_few, lemma_column, list_columns, rank_component,
};
use crate::ordering::{is_at_rest, lemma_neighbours_at_rest, no_slide_helps, order_ranks, ordered};
use crate::sweeps::{sweeps, BoardModel};

verus! {

/// The most nodes, edges or columns of a component. With more, counts of crossings could leave the
/// integers they are kept in.
pub const COMPONENT_LIMIT: usize = 0x0fff_0000;

// ── layering ───────────────────────────────────────────────────────────────

/// A component with its cycles broken and its nodes in columns.
pub struct Layered {
    pub dag: Dag,
    pub rank: Vec<i32>,
}

/// `pairs` are the ends of the component's edges, in order and each once, without loops.
pub open spec fn are_pairs(ends: Seq<(usize, usize)>, pairs: Seq<(usize, usize)>) -> bool {
    &&& strictly_sorted(pairs)
    &&& forall|p: (usize, usize)|
        #[trigger] pairs.contains(p) <==> ends.contains(p) && p.0 != p.1
}

/// The component's edges, without doubles and loops, form `dag` once cycles are broken, and the
/// columns follow from that.
#[verifier::opaque]
pub open spec fn is_layered(
    ends: Seq<(usize, usize)>,
    roots: Seq<bool>,
    monotone: bool,
    dag: Dag,
    rank: Seq<i32>,
) -> bool {
    &&& exists|pairs: Seq<(usize, usize)>|
        {
            &&& #[trigger] are_pairs(ends, pairs)
            &&& untangles(pairs, dag)
            &&& is_walked(roots.len(), pairs, start_order(pairs, roots), dag)
        }
    &&& are_ranks(dag.pairs@, roots, monotone, rank)
}

/// The edge that the arc `k` stands for.
pub open spec fn source_of(dag: Dag, k: int) -> (usize, usize) {
    edge_behind(dag.pairs@[k], dag.reversed@[k])
}

/// There are no more arcs than edges.
pub proof fn arcs_are_few(ends: Seq<(usize, usize)>, pairs: Seq<(usize, usize)>, dag: Dag)
    requires
        are_pairs(ends, pairs),
        untangles(pairs, dag),
    ensures
        dag.pairs@.len() <= ends.len(),
{
    let arcs = dag.pairs@;
    let s = Seq::new(
        arcs.len(),
        |k: int| choose|i: int| 0 <= i < ends.len() && #[trigger] ends[i] == source_of(dag, k),
    );
    assert forall|k: int| 0 <= k < s.len() implies 0 <= #[trigger] s[k] < ends.len() && ends[s[k]]
        == source_of(dag, k) by {
        assert(stems_from(pairs, arcs[k], dag.reversed@[k]));
        assert(pairs.contains(source_of(dag, k)));
        assert(ends.contains(source_of(dag, k)));
    }
    assert(s.no_duplicates()) by {
        assert forall|i: int, j: int| 0 <= i < s.len() && 0 <= j < s.len() && i < j implies s[i]
            != s[j] by {
            let t = choose|t: spec_fn(int) -> nat| #[trigger] grows(arcs, t);
            assert(ends[s[i]] == source_of(dag, i) && ends[s[j]] == source_of(dag, j));
            assert(t(arcs[i].0 as int) < t(arcs[i].1 as int));
            assert(t(arcs[j].0 as int) < t(arcs[j].1 as int));
        }
    }
    s.unique_seq_to_set();
    vstd::set_lib::lemma_int_range(0, ends.len() as int);
    assert(s.to_set().subset_of(vstd::set_lib::set_int_range(0, ends.len() as int)));
    vstd::set_lib::lemma_len_subset(s.to_set(), vstd::set_lib::set_int_range(0, ends.len() as int));
}

/// Breaks the cycles of a component and puts its nodes in columns.
pub fn layer_component(ends: &Vec<(usize, usize)>, roots: &Vec<bool>, monotone: bool) -> (r: Layered)
    requires
        pairs_below(roots@.len(), ends@),
        roots@.len() <= COMPONENT_LIMIT,
    ensures
        is_layered(ends@, roots@, monotone, r.dag, r.rank@),
        r.dag.reversed@.len() == r.dag.pairs@.len(),
        pairs_below(roots@.len(), r.dag.pairs@),
        r.dag.pairs@.len() <= ends@.len(),
        forall|k: int|
            0 <= k < r.dag.pairs@.len() ==> (#[trigger] r.dag.pairs@[k]).0 != r.dag.pairs@[k].1,
        r.rank@.len() == roots@.len(),
        forall|v: int| 0 <= v < r.rank@.len() ==> 0 <= #[trigger] r.rank@[v] < roots@.len(),
{
    let m: usize = roots.len();
    let pairs = distinct_pairs(ends);
    proof {
        assert forall|k: int| 0 <= k < pairs@.len() implies (#[trigger] pairs@[k]).0 < m
            && pairs@[k].1 < m by {
            assert(pairs@.contains(pairs@[k]));
            lemma_ends_below(m as nat, ends@, pairs@[k]);
        }
    }
    let starts = order_starts(&pairs, roots);
    proof {
        start_order_is_complete(pairs@, roots@);
    }
    let dag = break_cycles(m, &pairs, &starts);
    proof {
        assert forall|k: int| 0 <= k < dag.pairs@.len() implies (#[trigger] dag.pairs@[k]).0 < m
            && dag.pairs@[k].1 < m by {
            let p = dag.pairs@[k];
            assert(stems_from(pairs@, p, dag.reversed@[k]));
            if dag.reversed@[k] {
                lemma_ends_below(m as nat, pairs@, (p.1, p.0));
            } else {
                lemma_ends_below(m as nat, pairs@, p);
            }
        }
        assert(are_pairs(ends@, pairs@));
        assert forall|k: int| 0 <= k < dag.pairs@.len() implies (#[trigger] dag.pairs@[k]).0
            != dag.pairs@[k].1 by {
            assert(stems_from(pairs@, dag.pairs@[k], dag.reversed@[k]));
            assert(pairs@.contains(source_of(dag, k)));
        }
    }
    let rank = rank_component(&dag.pairs, roots, monotone);
    proof {
        arcs_are_few(ends@, pairs@, dag);
        columns_are_few(dag.pairs@, roots@, monotone, rank@);
        reveal(is_layered);
    }
    Layered { dag, rank }
}

// ── which edges are routed ─────────────────────────────────────────────────

/// Some edge from `p.0` to `p.1` is to be routed.
pub open spec fn wants(ends: Seq<(usize, usize)>, routed: Seq<bool>, p: (usize, usize)) -> bool {
    exists|k: int| 0 <= k < ends.len() && #[trigger] ends[k] == p && routed[k]
}

/// Which arcs are to be routed: those with an edge behind them that is.
pub open spec fn wanted_arcs(ends: Seq<(usize, usize)>, routed: Seq<bool>, dag: Dag) -> Seq<bool> {
    Seq::new(dag.pairs@.len(), |k: int| wants(ends, routed, source_of(dag, k)))
}

/// Finds the arcs that are to be routed.
pub fn find_wanted(ends: &Vec<(usize, usize)>, routed: &Vec<bool>, dag: &Dag) -> (r: Vec<bool>)
    requires
        routed@.len() == ends@.len(),
        dag.reversed@.len() == dag.pairs@.len(),
        forall|k: int|
            0 <= k < dag.pairs@.len() ==> (#[trigger] dag.pairs@[k]).0 != dag.pairs@[k].1,
    ensures
        r@ == wanted_arcs(ends@, routed@, *dag),
{
    let n: usize = ends.len();
    let mut chosen: Vec<(usize, usize)> = Vec::new();
    let mut i: usize = 0;
    while i < n
        invariant
            i <= n,
            n == ends@.len(),
            routed@.len() == n,
            forall|p: (usize, usize)| #[trigger]
                chosen@.contains(p) <==> exists|k: int|
                    0 <= k < i && #[trigger] ends@[k] == p && routed@[k],
        decreases n - i,
    {
        let ghost before = chosen@;
        let e = ends[i];
        if routed[i] {
            chosen.push(e);
        }
        assert forall|p: (usize, usize)| #[trigger] chosen@.contains(p) <==> exists|k: int|
            0 <= k < i + 1 && #[trigger] ends@[k] == p && routed@[k] by {
            if chosen@.contains(p) {
                let j = choose|j: int| 0 <= j < chosen@.len() && chosen@[j] == p;
                if j < before.len() {
                    assert(before[j] == p);
                    assert(before.contains(p));
                } else {
                    assert(ends@[i as int] == p);
                }
            }
            if exists|k: int| 0 <= k < i + 1 && #[trigger] ends@[k] == p && routed@[k] {
                let k = choose|k: int| 0 <= k < i + 1 && #[trigger] ends@[k] == p && routed@[k];
                if k < i {
                    assert(before.contains(p));
                    let j = choose|j: int| 0 <= j < before.len() && before[j] == p;
                    assert(chosen@[j] == p);
                } else {
                    assert(chosen@[before.len() as int] == p);
                }
            }
        }
        i = i + 1;
    }
    let pairs = distinct_pairs(&chosen);
    let count: usize = dag.pairs.len();
    let mut out: Vec<bool> = Vec::new();
    let mut k: usize = 0;
    while k < count
        invariant
            k <= count,
            count == dag.pairs@.len(),
            dag.reversed@.len() == count,
            forall|k: int|
                0 <= k < dag.pairs@.len() ==> (#[trigger] dag.pairs@[k]).0 != dag.pairs@[k].1,
            strictly_sorted(pairs@),
            forall|p: (usize, usize)| #[trigger]
                pairs@.contains(p) <==> chosen@.contains(p) && p.0 != p.1,
            forall|p: (usize, usize)| #[trigger]
                chosen@.contains(p) <==> wants(ends@, routed@, p),
            out@.len() == k,
            forall|j: int|
                0 <= j < k ==> #[trigger] out@[j] == wants(ends@, routed@, source_of(*dag, j)),
        decreases count - k,
    {
        let (a, b) = dag.pairs[k];
        let p: (usize, usize) = if dag.reversed[k] { (b, a) } else { (a, b) };
        assert(dag.pairs@[k as int].0 != dag.pairs@[k as int].1);
        assert(p == source_of(*dag, k as int));
        let (_, there) = place_of_pair(&pairs, p);
        out.push(there);
        k = k + 1;
    }
    assert(out@ =~= wanted_arcs(ends@, routed@, *dag));
    out
}

// ── the board ──────────────────────────────────────────────────────────────

/// The board with the nodes of each column in order: a node stands behind those of its column that
/// come before it.
pub open spec fn first_board(rank: Seq<i32>) -> BoardModel {
    BoardModel {
        rows: Seq::new(
            column_count(rank, rank.len()) as nat,
            |c: int| column(rank, c, rank.len()),
        ),
        place: Seq::new(rank.len(), |v: int| column(rank, rank[v] as int, v as nat).len() as usize),
    }
}

/// A node stands in its column behind those that come before it.
proof fn lemma_place_in_column(rank: Seq<i32>, v: int, n: nat)
    requires
        0 <= v < n <= rank.len(),
        n <= usize::MAX,
    ensures
        column(rank, rank[v] as int, v as nat).len() < column(rank, rank[v] as int, n).len(),
        column(rank, rank[v] as int, n)[column(rank, rank[v] as int, v as nat).len() as int] == v,
    decreases n,
{
    if v < n - 1 {
        lemma_place_in_column(rank, v, (n - 1) as nat);
    }
}

/// Sets up the columns, the nodes of each in order.
pub fn set_up(rank: &Vec<i32>) -> (r: Board)
    requires
        ranks_count(rank@),
    ensures
        r.arranges(rank@),
        r.rows@.len() == column_count(rank@, rank@.len()),
        forall|c: int|
            0 <= c < r.rows@.len() ==> (#[trigger] r.rows@[c])@ == column(rank@, c, rank@.len()),
        r.model() == first_board(rank@),
{
    let n: usize = rank.len();
    let rows = list_columns(rank);
    let mut place: Vec<usize> = Vec::new();
    let mut z: usize = 0;
    while z < n
        invariant
            z <= n,
            place@.len() == z,
        decreases n - z,
    {
        place.push(0);
        z = z + 1;
    }
    let count: usize = rows.len();
    let mut c: usize = 0;
    while c < count
        invariant
            c <= count,
            count == rows@.len(),
            n == rank@.len(),
            place@.len() == n,
            forall|c: int|
                0 <= c < rows@.len() ==> (#[trigger] rows@[c])@ == column(rank@, c, n as nat),
            forall|d: int, i: int|
                0 <= d < c && 0 <= i < rows@[d]@.len() ==> place@[(
                #[trigger] rows@[d]@[i]) as int] == i,
        decreases count - c,
    {
        let ghost before = place@;
        let len: usize = rows[c].len();
        proof {
            lemma_column(rank@, c as int, n as nat);
        }
        let mut i: usize = 0;
        while i < len
            invariant
                i <= len,
                c < count,
                count == rows@.len(),
                len == rows@[c as int]@.len(),
                n == rank@.len(),
                place@.len() == n,
                rows@[c as int]@ == column(rank@, c as int, n as nat),
                column(rank@, c as int, n as nat).no_duplicates(),
                forall|i: int|
                    0 <= i < len ==> (#[trigger] column(rank@, c as int, n as nat)[i]) < n && rank@[column(
                        rank@,
                        c as int,
                        n as nat,
                    )[i] as int] == c,
                forall|j: int|
                    0 <= j < i ==> place@[(#[trigger] rows@[c as int]@[j]) as int] == j,
                forall|v: int|
                    0 <= v < n && rank@[v] != c ==> #[trigger] place@[v] == before[v],
            decreases len - i,
        {
            let v = rows[c][i];
            assert(v == column(rank@, c as int, n as nat)[i as int]);
            let ghost mid = place@;
            place.set(v, i);
            assert forall|j: int| 0 <= j < i + 1 implies place@[(
            #[trigger] rows@[c as int]@[j]) as int] == j by {
                if j < i {
                    assert(rows@[c as int]@[j] != rows@[c as int]@[i as int]);
                    assert(mid[rows@[c as int]@[j] as int] == j);
                }
            }
            i = i + 1;
        }
        assert forall|d: int, i: int| 0 <= d < c + 1 && 0 <= i < rows@[d]@.len() implies place@[(
        #[trigger] rows@[d]@[i]) as int] == i by {
            if d < c {
                lemma_column(rank@, d, n as nat);
                let v = rows@[d]@[i];
                assert(v == column(rank@, d, n as nat)[i]);
                assert(rank@[v as int] == d);
                assert(before[v as int] == i);
            }
        }
        c = c + 1;
    }
    let board = Board { rows, place };
    proof {
        lemma_counts(rank@, n as nat);
        assert forall|v: int| 0 <= v < n implies 0 <= #[trigger] rank@[v] < board.rows@.len()
            && board.place@[v] < board.rows@[rank@[v] as int]@.len()
            && board.rows@[rank@[v] as int]@[board.place@[v] as int] == v by {
            let r = rank@[v] as int;
            lemma_column(rank@, r, n as nat);
            assert(column(rank@, r, n as nat).contains(v as usize));
            let i = choose|i: int|
                0 <= i < column(rank@, r, n as nat).len() && column(rank@, r, n as nat)[i]
                    == v as usize;
            assert(board.rows@[r]@[i] == v as usize);
            assert(board.place@[board.rows@[r]@[i] as int] == i);
        }
        assert forall|d: int, i: int| 0 <= d < board.rows@.len() && 0 <= i
            < board.rows@[d]@.len() implies (#[trigger] board.rows@[d]@[i]) < n
            && rank@[board.rows@[d]@[i] as int] == d && board.place@[board.rows@[d]@[i] as int] == i by {
            lemma_column(rank@, d, n as nat);
            assert(board.rows@[d]@[i] == column(rank@, d, n as nat)[i]);
        }
        assert(board.model().rows =~= first_board(rank@).rows);
        assert forall|v: int| 0 <= v < n implies board.place@[v] == #[trigger] first_board(
            rank@,
        ).place[v] by {
            let r = rank@[v] as int;
            lemma_place_in_column(rank@, v, n as nat);
            lemma_column(rank@, r, n as nat);
            let at = column(rank@, r, v as nat).len() as int;
            assert(0 <= rank@[v] < board.rows@.len());
            assert(board.rows@[r]@[at] == v as usize);
            assert(board.rows@[r].len() == board.rows@[r]@.len());
        }
        assert(board.model().place =~= first_board(rank@).place);
    }
    board
}

proof fn lemma_counts(rank: Seq<i32>, n: nat)
    requires
        n <= rank.len(),
    ensures
        forall|v: int| 0 <= v < n ==> #[trigger] rank[v] < column_count(rank, n),
    decreases n,
{
    if n > 0 {
        lemma_counts(rank, (n - 1) as nat);
    }
}

// ── how large it gets ──────────────────────────────────────────────────────

/// No column is beyond `top`.
pub open spec fn ranks_within(rank: Seq<i32>, top: int) -> bool {
    forall|v: int| 0 <= v < rank.len() ==> 0 <= #[trigger] rank[v] <= top
}

/// Threading adds at most the budget and one more route of nodes, and at most one link more than
/// nodes for every arc.
#[verifier::rlimit(40)]
proof fn lemma_sizes(
    rank: Seq<i32>,
    arcs: Seq<(usize, usize)>,
    reversed: Seq<bool>,
    wanted: Seq<bool>,
    budget: nat,
    top: int,
)
    requires
        pairs_below(rank.len(), arcs),
        ranks_within(rank, top),
        0 <= top < i32::MAX,
    ensures
        ({
            let t = threaded(rank, arcs, reversed, wanted, budget);
            &&& ranks_within(t.rank, top)
            &&& rank.len() <= t.rank.len()
            &&& t.rank.take(rank.len() as int) == rank
            &&& t.budget <= budget
            &&& t.budget > 0 ==> t.rank.len() == rank.len() + (budget - t.budget)
            &&& t.rank.len() <= rank.len() + budget + top
            &&& t.links.len() <= arcs.len() + (t.rank.len() - rank.len())
        }),
    decreases arcs.len(),
{
    if arcs.len() == 0 {
        assert(rank.take(rank.len() as int) =~= rank);
    } else {
        let rest = arcs.drop_last();
        assert forall|k: int| 0 <= k < rest.len() implies (#[trigger] rest[k]).0 < rank.len()
            && rest[k].1 < rank.len() by {
            assert(rest[k] == arcs[k]);
        }
        lemma_sizes(rank, rest, reversed, wanted, budget, top);
        let m = threaded(rank, rest, reversed, wanted, budget);
        let arc = arcs[arcs.len() - 1];
        let flag = reversed[arcs.len() - 1];
        let want = wanted[arcs.len() - 1];
        let t = thread(m, arc, flag, want);
        assert(arc.0 < rank.len() && arc.1 < rank.len());
        let (ra, rb) = (m.rank[arc.0 as int], m.rank[arc.1 as int]);
        assert(0 <= ra <= top && 0 <= rb <= top);
        let between = ranks_between(ra, rb);
        if !(ra == rb || m.budget == 0 || rb == ra + 1 || !want) {
            assert(between.len() <= top);
            assert forall|v: int| 0 <= v < t.rank.len() implies 0 <= #[trigger] t.rank[v] <= top by {
                if v < m.rank.len() {
                    assert(t.rank[v] == m.rank[v]);
                } else {
                    assert(t.rank[v] == between[v - m.rank.len()]);
                }
            }
            assert(t.rank.take(rank.len() as int) =~= m.rank.take(rank.len() as int));
        }
    }
}

// ── ordering ───────────────────────────────────────────────────────────────

/// A component with its lanes threaded and its columns ordered.
pub struct Drawn {
    /// The column of every node; the virtual ones follow the real ones.
    pub rank: Vec<i32>,
    pub links: Vec<(usize, usize)>,
    pub chains: Vec<Chain>,
    pub board: Board,
}

/// The columns of a component: in order at first, then ordered for few crossings, with every
/// cluster `of` nodes gathered and the runs slid to where they cost the fewest crossings.
pub open spec fn drawn_board(
    rank: Seq<i32>,
    links: Seq<(usize, usize)>,
    of: Seq<Option<usize>>,
    ordering_sweeps: nat,
    transpose_passes: nat,
) -> BoardModel {
    let crossed = ordered(first_board(rank), links, ordering_sweeps, transpose_passes);
    settle_passes(
        gathered_board(crossed, of, crossed.rows.len()),
        links,
        of,
        transpose_passes,
    )
}

/// The component is drawn: the long edges that are wanted routed are threaded through lanes, the
/// columns are set up and ordered, and every cluster stands in one unbroken run.
#[verifier::opaque]
pub open spec fn is_drawn(
    rank: Seq<i32>,
    dag: Dag,
    wanted: Seq<bool>,
    clusters: Seq<Vec<usize>>,
    ordering_sweeps: nat,
    transpose_passes: nat,
    r: Drawn,
) -> bool {
    let lanes = threaded(rank, dag.pairs@, dag.reversed@, wanted, LANE_BUDGET as nat);
    &&& r.rank@ == lanes.rank
    &&& r.links@ == lanes.links
    &&& r.chains.deep_view() == lanes.chains
    &&& r.board.arranges(r.rank@)
    &&& r.board.rows@.len() == column_count(r.rank@, r.rank@.len())
    &&& exists|of: Seq<Option<usize>>|
        {
            &&& #[trigger] are_joined(clusters, r.rank@.len(), of)
            &&& all_packed(r.board.rows@, of)
            &&& r.board.model() == drawn_board(
                r.rank@,
                r.links@,
                of,
                ordering_sweeps,
                transpose_passes,
            )
        }
}

/// The columns are ordered for few crossings: there are no more than the median sweeps over the columns
/// as they came leave, and no node could be moved within 24 places of its own to remove one, unless
/// four at least were removed since the sweeps.
pub open spec fn crosses_little(d: Drawn, ordering_sweeps: nat) -> bool {
    let swept = crossings(
        d.rank@,
        sweeps(first_board(d.rank@), d.links@, ordering_sweeps).place,
        d.links@,
    );
    &&& crossings(d.rank@, d.board.place@, d.links@) <= swept
    &&& no_slide_helps(d.rank@, d.board.place@, d.links@) || crossings(
        d.rank@,
        d.board.place@,
        d.links@,
    ) + 4 <= swept
}

/// The clusters stand in unbroken runs, and the runs where they cost few crossings: no two neighbouring
/// runs make fewer the other way round, unless each pass over them has removed one of those that
/// gathering left.
pub open spec fn runs_cross_little(
    d: Drawn,
    of: Seq<Option<usize>>,
    ordering_sweeps: nat,
    transpose_passes: nat,
) -> bool {
    let crossed = ordered(first_board(d.rank@), d.links@, ordering_sweeps, transpose_passes);
    let gathered = crossings(
        d.rank@,
        gathered_board(crossed, of, crossed.rows.len()).place,
        d.links@,
    );
    &&& all_packed(d.board.rows@, of)
    &&& crossings(d.rank@, d.board.place@, d.links@) <= gathered
    &&& runs_at_rest(d.board.model(), d.links@, of) || crossings(
        d.rank@,
        d.board.place@,
        d.links@,
    ) + transpose_passes <= gathered
}

/// Columns without clusters stay as ordering left them, where that left nothing to gain.
proof fn lemma_no_clusters(
    rank: Seq<i32>,
    ordered: Board,
    gathered: Board,
    done: Board,
    links: Seq<(usize, usize)>,
    of: Seq<Option<usize>>,
    left: nat,
)
    requires
        ordered.arranges(rank),
        gathered.arranges(rank),
        done.arranges(rank),
        of.len() == rank.len(),
        forall|v: int| 0 <= v < of.len() ==> (#[trigger] of[v]) is None,
        gathered.rows@.len() == ordered.rows@.len(),
        forall|c: int|
            0 <= c < gathered.rows@.len() ==> (#[trigger] gathered.rows@[c])@
                == crate::clusters::gathered(ordered.rows@[c]@, of),
        done.model() == settle_passes(gathered.model(), links, of, left),
    ensures
        gathered.place@ == ordered.place@,
        is_at_rest(ordered.model(), links) ==> done.place@ == ordered.place@,
{
    assert forall|c: int| 0 <= c < ordered.rows@.len() implies gathered.rows@[c]@
        == #[trigger] ordered.rows@[c]@ by {
        let row = ordered.rows@[c]@;
        assert forall|i: int| 0 <= i < row.len() implies of[(#[trigger] row[i]) as int] is None by {
            assert(ordered.rows@[c]@[i] < rank.len());
        }
        lemma_nothing_gathered(row, of, row.len());
        assert(row.take(row.len() as int) =~= row);
    }
    assert forall|v: int| 0 <= v < rank.len() implies #[trigger] gathered.place@[v]
        == ordered.place@[v] by {
        let c = rank[v] as int;
        assert(gathered.rows@[c]@[ordered.place@[v] as int] == v);
    }
    assert(gathered.place@ =~= ordered.place@);
    let b = gathered.model();
    assert(b.rows =~= ordered.model().rows);
    assert(b == ordered.model());
    if is_at_rest(b, links) {
        assert forall|c: int| 0 <= c < b.rows.len() implies (#[trigger] b.rows[c]).len()
            <= usize::MAX by {
            assert(b.rows[c] == gathered.rows@[c]@);
            assert(gathered.rows@[c]@.len() == gathered.rows@[c].len());
        }
        assert forall|c: int, i: int| 0 <= c < b.rows.len() && 0 <= i < b.rows[c].len() implies of[(
        #[trigger] b.rows[c][i]) as int] is None by {
            assert(gathered.rows@[c]@[i] < rank.len());
        }
        assert forall|c: int, i: int|
            0 <= c < b.rows.len() && 0 <= i && i + 1 < b.rows[c].len() implies cost_above(
            b.place,
            links,
            (#[trigger] b.rows[c][i]) as int,
            b.rows[c][i + 1] as int,
        ) <= cost_below(b.place, links, b.rows[c][i] as int, b.rows[c][i + 1] as int) by {
            lemma_neighbours_at_rest(b, links, c, i);
        }
        lemma_settled_stays(b, links, of, left);
    }
}

/// Threads the long edges of a component that are wanted routed through lanes, orders its columns, and
/// keeps the variants of each cluster together.
pub fn order_component(
    rank: &Vec<i32>,
    dag: &Dag,
    wanted: &Vec<bool>,
    clusters: &Vec<Vec<usize>>,
    ordering_sweeps: usize,
    transpose_passes: usize,
) -> (r: Drawn)
    requires
        rank@.len() <= COMPONENT_LIMIT,
        dag.pairs@.len() <= COMPONENT_LIMIT,
        dag.reversed@.len() == dag.pairs@.len(),
        wanted@.len() == dag.pairs@.len(),
        pairs_below(rank@.len(), dag.pairs@),
        ranks_within(rank@, COMPONENT_LIMIT as int),
    ensures
        is_drawn(
            rank@,
            *dag,
            wanted@,
            clusters@,
            ordering_sweeps as nat,
            transpose_passes as nat,
            r,
        ),
        clusters@.len() == 0 ==> crosses_little(r, ordering_sweeps as nat),
        exists|of: Seq<Option<usize>>|
            #[trigger] are_joined(clusters@, r.rank@.len(), of) && runs_cross_little(
                r,
                of,
                ordering_sweeps as nat,
                transpose_passes as nat,
            ),
{
    let ghost top = COMPONENT_LIMIT as int;
    let ghost model = threaded(rank@, dag.pairs@, dag.reversed@, wanted@, LANE_BUDGET as nat);
    proof {
        lemma_sizes(rank@, dag.pairs@, dag.reversed@, wanted@, LANE_BUDGET as nat, top);
        assert(ranks_count(rank@)) by {
            assert forall|v: int| 0 <= v < rank@.len() implies 0 <= #[trigger] rank@[v] < i32::MAX by {}
        }
    }
    let lanes = expand_lanes(rank, &dag.pairs, &dag.reversed, wanted);
    let all_ranks = lanes.rank;
    let n: usize = all_ranks.len();
    let ghost links = lanes.links@;
    proof {
        assert(links_columns(all_ranks@, links)) by {
            assert forall|k: int| 0 <= k < links.len() implies (#[trigger] links[k]).0
                < all_ranks@.len() && links[k].1 < all_ranks@.len()
                && all_ranks@[links[k].1 as int] == all_ranks@[links[k].0 as int] + 1 by {
                assert(model.links[k] == links[k]);
            }
        }
        assert(pairs_below(n as nat, links)) by {
            assert forall|k: int| 0 <= k < links.len() implies (#[trigger] links[k]).0 < n
                && links[k].1 < n by {}
        }
    }
    let mut board = set_up(&all_ranks);
    let wiring = wire(n, lanes.links);
    order_ranks(&mut board, &wiring, &all_ranks, ordering_sweeps, transpose_passes);
    let ghost crossed = board;
    let of = assign_clusters(n, clusters);
    gather_clusters(&mut board, &of, &all_ranks);
    let ghost gathered = board;
    settle_clusters(&mut board, &of, &wiring, &all_ranks, transpose_passes);
    proof {
        if clusters@.len() == 0 {
            assert forall|v: int| 0 <= v < of@.len() implies (#[trigger] of@[v]) is None by {}
            lemma_no_clusters(
                all_ranks@,
                crossed,
                gathered,
                board,
                links,
                of@,
                transpose_passes as nat,
            );
        }
    }
    let r = Drawn { rank: all_ranks, links: wiring.links, chains: lanes.chains, board };
    assert(r.board.model() == drawn_board(
        r.rank@,
        r.links@,
        of@,
        ordering_sweeps as nat,
        transpose_passes as nat,
    ));
    assert(are_joined(clusters@, r.rank@.len(), of@) && all_packed(r.board.rows@, of@));
    proof {
        reveal(is_drawn);
        assert(runs_cross_little(r, of@, ordering_sweeps as nat, transpose_passes as nat));
        if clusters@.len() == 0 {
            assert(crosses_little(r, ordering_sweeps as nat));
        }
    }
    r
}

/// Every route of a drawn component is that of an edge that was to be routed.
pub proof fn drawn_routes_are_wanted(
    ends: Seq<(usize, usize)>,
    routed: Seq<bool>,
    rank: Seq<i32>,
    dag: Dag,
    clusters: Seq<Vec<usize>>,
    ordering_sweeps: nat,
    transpose_passes: nat,
    r: Drawn,
    j: int,
)
    requires
        is_drawn(
            rank,
            dag,
            wanted_arcs(ends, routed, dag),
            clusters,
            ordering_sweeps,
            transpose_passes,
            r,
        ),
        0 <= j < r.chains@.len(),
    ensures
        wants(ends, routed, (r.chains@[j].from, r.chains@[j].to)),
{
    reveal(is_drawn);
    let wanted = wanted_arcs(ends, routed, dag);
    let all = threaded(rank, dag.pairs@, dag.reversed@, wanted, LANE_BUDGET as nat).chains;
    assert(r.chains.deep_view().len() == all.len());
    assert(r.chains.deep_view()[j] == r.chains@[j].deep_view());
    routes_are_wanted(rank, dag.pairs@, dag.reversed@, wanted, LANE_BUDGET as nat, j);
    let k = choose|k: int|
        0 <= k < dag.pairs@.len() && wanted[k] && #[trigger] edge_behind(
            dag.pairs@[k],
            dag.reversed@[k],
        ) == (all[j].from, all[j].to);
    assert(wants(ends, routed, source_of(dag, k)));
}

} // verus!
