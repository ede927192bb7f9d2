//! Ordering the columns: median sweeps, then swaps and slides that never add a crossing.

use vstd::prelude::*;

use crate::adjacency::{sources, targets};
use crate::crossings::{
    all_above, all_below, above, are_neighbours, below, cost_above, cost_below, crossings,
    crossings_between, exchanged, links_columns, swapping_neighbours, Board, Wiring,
};
use crate::sweeps::{lemma_row_distinct, lemma_settled, settled, sweep_columns, sweeps, BoardModel};

verus! {

/// Sifting refinement: how many passes, and how far a node may slide.
pub const SIFT_PASSES: usize = 4;

/// How far a node may slide when sifted. A wider window keeps buying card crossings but starts
/// costing edge crossings and length, and edge crossings are the thing to minimise.
pub const SIFT_WINDOW: usize = 24;

// ── moving nodes within a column ───────────────────────────────────────────

/// Two nodes next to each other in a column are neighbours.
pub(crate) proof fn lemma_neighbours(rank: Seq<i32>, board: Board, c: int, i: int)
    requires
        board.arranges(rank),
        0 <= c < board.rows@.len(),
        0 <= i,
        i + 1 < board.rows@[c]@.len(),
    ensures
        are_neighbours(
            rank,
            board.place@,
            board.rows@[c]@[i] as int,
            board.rows@[c]@[i + 1] as int,
        ),
{
    let row = board.rows@[c]@;
    let (a, b) = (row[i] as int, row[i + 1] as int);
    assert(rank[a] == c && rank[b] == c);
    assert forall|v: int| 0 <= v < rank.len() && #[trigger] rank[v] == rank[a] && v != a && v
        != b implies board.place@[v] < board.place@[a] || board.place@[v] > board.place@[b] by {
        assert(row[board.place@[v] as int] == v);
    }
}

/// The same columns, each with as many nodes.
pub open spec fn same_shape(a: Seq<Vec<usize>>, b: Seq<Vec<usize>>) -> bool {
    &&& a.len() == b.len()
    &&& forall|c: int| 0 <= c < a.len() ==> (#[trigger] a[c])@.len() == b[c]@.len()
}

/// The board with the column `c` in another order.
pub open spec fn with_row(b: BoardModel, c: int, row: Seq<usize>) -> BoardModel {
    BoardModel { rows: b.rows.update(c, row), place: settled(b.place, row) }
}

/// Places follow from columns: where only the column `c` has another order, the board is the old one
/// with that order.
pub(crate) proof fn lemma_with_row(rank: Seq<i32>, before: Board, now: Board, c: int)
    requires
        before.arranges(rank),
        now.arranges(rank),
        0 <= c < before.rows@.len(),
        now.rows@ == before.rows@.update(c, now.rows@[c]),
    ensures
        now.model() == with_row(before.model(), c, now.rows@[c]@),
{
    let row = now.rows@[c]@;
    lemma_row_distinct(rank, now, c);
    assert forall|i: int| 0 <= i < row.len() implies (#[trigger] row[i]) < before.place@.len() by {
        assert(now.rows@[c]@[i] < rank.len());
    }
    assert(row.len() == now.rows@[c].len());
    lemma_settled(before.place@, row);
    let place = settled(before.place@, row);
    assert forall|v: int| 0 <= v < rank.len() implies #[trigger] now.place@[v] == place[v] by {
        if rank[v] == c {
            assert(now.rows@[rank[v] as int]@[now.place@[v] as int] == v);
            assert(row[now.place@[v] as int] == v);
        } else {
            assert(!row.contains(v as usize)) by {
                if row.contains(v as usize) {
                    let j = choose|j: int| 0 <= j < row.len() && row[j] == v as usize;
                    assert(rank[now.rows@[c]@[j] as int] == c);
                }
            }
            assert(now.rows@[rank[v] as int] == before.rows@[rank[v] as int]);
            assert(before.rows@[rank[v] as int]@[before.place@[v] as int] == v);
        }
    }
    assert(now.place@ =~= place);
    assert(now.model().rows =~= before.model().rows.update(c, row));
}

/// Swaps the nodes at `i` and `i + 1` of the column `c`.
#[verifier::rlimit(40)]
fn swap_at(board: &mut Board, c: usize, i: usize, Ghost(rank): Ghost<Seq<i32>>)
    requires
        old(board).arranges(rank),
        c < old(board).rows@.len(),
        i + 1 < old(board).rows@[c as int]@.len(),
    ensures
        final(board).arranges(rank),
        same_shape(final(board).rows@, old(board).rows@),
        final(board).place@ == exchanged(
            old(board).place@,
            old(board).rows@[c as int]@[i as int] as int,
            old(board).rows@[c as int]@[i + 1] as int,
        ),
        final(board).rows@ == old(board).rows@.update(c as int, final(board).rows@[c as int]),
        final(board).rows@[c as int]@ == old(board).rows@[c as int]@.update(
            i as int,
            old(board).rows@[c as int]@[i + 1],
        ).update(i + 1, old(board).rows@[c as int]@[i as int]),
{
    let ghost start = *board;
    let ghost row0 = board.rows@[c as int]@;
    let len: usize = board.rows[c].len();
    let a = board.rows[c][i];
    let b = board.rows[c][i + 1];
    assert(rank[a as int] == c && rank[b as int] == c);
    assert(start.place@[a as int] == i && start.place@[b as int] == i + 1);
    board.rows[c][i] = b;
    board.rows[c][i + 1] = a;
    board.place.set(a, i + 1);
    board.place.set(b, i);
    proof {
        let row = board.rows@[c as int]@;
        assert(row =~= row0.update(i as int, b).update(i + 1, a));
        assert(board.rows@ =~= start.rows@.update(c as int, board.rows@[c as int]));
        assert(board.place@ =~= exchanged(start.place@, a as int, b as int));
        assert forall|v: int| 0 <= v < rank.len() implies 0 <= #[trigger] rank[v] < board.rows@.len()
            && board.place@[v] < board.rows@[rank[v] as int]@.len()
            && board.rows@[rank[v] as int]@[board.place@[v] as int] == v by {
            if rank[v] == c {
                assert(row0[start.place@[v] as int] == v);
            } else {
                assert(board.rows@[rank[v] as int] == start.rows@[rank[v] as int]);
            }
        }
        assert forall|d: int, j: int| 0 <= d < board.rows@.len() && 0 <= j
            < board.rows@[d]@.len() implies (#[trigger] board.rows@[d]@[j]) < rank.len()
            && rank[board.rows@[d]@[j] as int] == d && board.place@[board.rows@[d]@[j] as int] == j by {
            if d != c {
                assert(board.rows@[d] == start.rows@[d]);
                let v = start.rows@[d]@[j];
                assert(rank[v as int] == d);
            } else {
                if j != i && j != i + 1 {
                    let v = row0[j];
                    assert(start.place@[v as int] == j);
                }
            }
        }
    }
}

/// The costs of two nodes depend on the columns beside theirs alone.
pub(crate) proof fn lemma_cost_stays(
    rank: Seq<i32>,
    place: Seq<usize>,
    now: Seq<usize>,
    links: Seq<(usize, usize)>,
    a: int,
    b: int,
)
    requires
        links_columns(rank, links),
        0 <= a < rank.len(),
        0 <= b < rank.len(),
        rank[a] == rank[b],
        forall|v: int|
            0 <= v < rank.len() && rank[v] != rank[a] ==> #[trigger] now[v] == place[v],
    ensures
        cost_above(now, links, a, b) == cost_above(place, links, a, b),
        cost_below(now, links, a, b) == cost_below(place, links, a, b),
{
    lemma_linked_elsewhere(rank, links, a);
    lemma_linked_elsewhere(rank, links, b);
    lemma_all_stay(place, now, sources(links, a), sources(links, b));
    lemma_all_stay(place, now, targets(links, a), targets(links, b));
}

proof fn lemma_linked_elsewhere(rank: Seq<i32>, links: Seq<(usize, usize)>, v: int)
    requires
        links_columns(rank, links),
        0 <= v < rank.len(),
    ensures
        forall|j: int|
            0 <= j < targets(links, v).len() ==> (#[trigger] targets(links, v)[j]) < rank.len()
                && rank[targets(links, v)[j] as int] != rank[v],
        forall|j: int|
            0 <= j < sources(links, v).len() ==> (#[trigger] sources(links, v)[j]) < rank.len()
                && rank[sources(links, v)[j] as int] != rank[v],
    decreases links.len(),
{
    if links.len() > 0 {
        let rest = links.drop_last();
        assert forall|j: int| 0 <= j < rest.len() implies (#[trigger] rest[j]).0 < rank.len()
            && rest[j].1 < rank.len() && rank[rest[j].1 as int] == rank[rest[j].0 as int] + 1 by {
            assert(rest[j] == links[j]);
        }
        lemma_linked_elsewhere(rank, rest, v);
        let l = links[links.len() - 1];
        assert(l.0 < rank.len() && l.1 < rank.len() && rank[l.1 as int] == rank[l.0 as int] + 1);
        let (t, s) = (targets(rest, v), sources(rest, v));
        assert forall|j: int| 0 <= j < targets(links, v).len() implies (#[trigger] targets(
            links,
            v,
        )[j]) < rank.len() && rank[targets(links, v)[j] as int] != rank[v] by {
            if j < t.len() {
                assert(targets(links, v)[j] == t[j]);
            }
        }
        assert forall|j: int| 0 <= j < sources(links, v).len() implies (#[trigger] sources(
            links,
            v,
        )[j]) < rank.len() && rank[sources(links, v)[j] as int] != rank[v] by {
            if j < s.len() {
                assert(sources(links, v)[j] == s[j]);
            }
        }
    }
}

proof fn lemma_one_stays(place: Seq<usize>, now: Seq<usize>, x: usize, ys: Seq<usize>)
    requires
        now[x as int] == place[x as int],
        forall|j: int| 0 <= j < ys.len() ==> now[(#[trigger] ys[j]) as int] == place[ys[j] as int],
    ensures
        above(now, x, ys) == above(place, x, ys),
        below(now, x, ys) == below(place, x, ys),
    decreases ys.len(),
{
    if ys.len() > 0 {
        let rest = ys.drop_last();
        assert forall|j: int| 0 <= j < rest.len() implies now[(#[trigger] rest[j]) as int]
            == place[rest[j] as int] by {
            assert(rest[j] == ys[j]);
        }
        lemma_one_stays(place, now, x, rest);
        assert(now[ys[ys.len() - 1] as int] == place[ys[ys.len() - 1] as int]);
    }
}

proof fn lemma_all_stay(place: Seq<usize>, now: Seq<usize>, xs: Seq<usize>, ys: Seq<usize>)
    requires
        forall|j: int| 0 <= j < xs.len() ==> now[(#[trigger] xs[j]) as int] == place[xs[j] as int],
        forall|j: int| 0 <= j < ys.len() ==> now[(#[trigger] ys[j]) as int] == place[ys[j] as int],
    ensures
        all_above(now, xs, ys) == all_above(place, xs, ys),
        all_below(now, xs, ys) == all_below(place, xs, ys),
    decreases xs.len(),
{
    if xs.len() > 0 {
        let rest = xs.drop_last();
        assert forall|j: int| 0 <= j < rest.len() implies now[(#[trigger] rest[j]) as int]
            == place[rest[j] as int] by {
            assert(rest[j] == xs[j]);
        }
        lemma_all_stay(place, now, rest, ys);
        assert(now[xs[xs.len() - 1] as int] == place[xs[xs.len() - 1] as int]);
        lemma_one_stays(place, now, xs.last(), ys);
    }
}

// ── adjacent swaps ─────────────────────────────────────────────────────────

/// A column with the nodes at `i` and `i + 1` swapped.
pub open spec fn swapped(row: Seq<usize>, i: int) -> Seq<usize> {
    row.update(i, row[i + 1]).update(i + 1, row[i])
}

/// Whether the nodes at `i` and `i + 1` of the column `c` are to be swapped: that takes crossings
/// away, or, with `tie`, leaves their number and puts the smaller node first.
pub open spec fn wants_swap(
    b: BoardModel,
    links: Seq<(usize, usize)>,
    c: int,
    i: int,
    tie: bool,
) -> bool {
    let (x, y) = (b.rows[c][i], b.rows[c][i + 1]);
    let now = cost_above(b.place, links, x as int, y as int);
    let then_ = cost_below(b.place, links, x as int, y as int);
    then_ < now || (tie && then_ == now && y < x)
}

/// A board and whether anything was moved on it, after the first `k` pairs of neighbours of the
/// column `c` were looked at.
pub open spec fn swap_column(
    s: (BoardModel, bool),
    links: Seq<(usize, usize)>,
    c: int,
    tie: bool,
    k: nat,
) -> (BoardModel, bool)
    decreases k,
{
    if k == 0 {
        s
    } else {
        let t = swap_column(s, links, c, tie, (k - 1) as nat);
        if wants_swap(t.0, links, c, k - 1, tie) {
            (with_row(t.0, c, swapped(t.0.rows[c], k - 1)), true)
        } else {
            t
        }
    }
}

/// The same after the first `k` columns.
pub open spec fn swap_columns(
    s: (BoardModel, bool),
    links: Seq<(usize, usize)>,
    tie: bool,
    k: nat,
) -> (BoardModel, bool)
    decreases k,
{
    if k == 0 {
        s
    } else {
        let t = swap_columns(s, links, tie, (k - 1) as nat);
        let n = t.0.rows[k - 1].len();
        swap_column(
            t,
            links,
            k - 1,
            tie,
            if n > 0 {
                (n - 1) as nat
            } else {
                0
            },
        )
    }
}

/// A board after one pass of adjacent swaps, and whether anything was swapped.
pub open spec fn swap_pass(
    b: BoardModel,
    links: Seq<(usize, usize)>,
    tie: bool,
) -> (BoardModel, bool) {
    swap_columns((b, false), links, tie, b.rows.len())
}

/// A board after at most `left` passes of adjacent swaps, the first of them pass `t`: every other
/// pass takes ties, and a pass that swaps nothing is the last.
pub open spec fn swap_passes(
    b: BoardModel,
    links: Seq<(usize, usize)>,
    t: nat,
    left: nat,
) -> BoardModel
    decreases left,
{
    if left == 0 {
        b
    } else {
        let (now, moved) = swap_pass(b, links, t % 2 == 1);
        if moved {
            swap_passes(now, links, t + 1, (left - 1) as nat)
        } else {
            now
        }
    }
}

/// One pass of adjacent swaps that reduce crossings. With `tie` set it also takes swaps that leave
/// the count unchanged and put the smaller number first: strict improvement alone stalls on a
/// plateau, and drifting sideways across it is what lets the next strict swap become available.
/// Says whether anything was swapped.
#[verifier::rlimit(40)]
fn transpose_pass(board: &mut Board, wiring: &Wiring, tie: bool, Ghost(rank): Ghost<Seq<i32>>) -> (r:
    bool)
    requires
        old(board).arranges(rank),
        wiring.wires(rank.len()),
        links_columns(rank, wiring.links@),
    ensures
        final(board).arranges(rank),
        same_shape(final(board).rows@, old(board).rows@),
        crossings(rank, final(board).place@, wiring.links@) <= crossings(
            rank,
            old(board).place@,
            wiring.links@,
        ),
        (final(board).model(), r) == swap_pass(old(board).model(), wiring.links@, tie),
{
    let ghost links = wiring.links@;
    let ghost start = *board;
    let mut improved: bool = false;
    let count: usize = board.rows.len();
    let mut c: usize = 0;
    while c < count
        invariant
            c <= count,
            count == board.rows@.len(),
            links == wiring.links@,
            board.arranges(rank),
            wiring.wires(rank.len()),
            links_columns(rank, links),
            same_shape(board.rows@, start.rows@),
            crossings(rank, board.place@, links) <= crossings(rank, start.place@, links),
            (board.model(), improved) == swap_columns(
                (start.model(), false),
                links,
                tie,
                c as nat,
            ),
        decreases count - c,
    {
        let len: usize = board.rows[c].len();
        let ghost base = (board.model(), improved);
        let mut i: usize = 0;
        while i < len && len - i > 1
            invariant
                c < count,
                count == board.rows@.len(),
                len == board.rows@[c as int]@.len(),
                i <= len,
                links == wiring.links@,
                board.arranges(rank),
                wiring.wires(rank.len()),
                links_columns(rank, links),
                same_shape(board.rows@, start.rows@),
                crossings(rank, board.place@, links) <= crossings(rank, start.place@, links),
                (board.model(), improved) == swap_column(base, links, c as int, tie, i as nat),
                i > 0 ==> i < len,
            decreases len - i,
        {
            let a = board.rows[c][i];
            let b = board.rows[c][i + 1];
            assert(board.rows@[c as int]@[i as int] == a);
            assert(board.rows@[c as int]@[i + 1] == b);
            let (ab, ba) = crossings_between(a, b, &board.place, wiring);
            let ghost before = *board;
            if ba < ab || (tie && ba == ab && b < a) {
                proof {
                    lemma_neighbours(rank, *board, c as int, i as int);
                    swapping_neighbours(rank, board.place@, links, a as int, b as int);
                }
                swap_at(board, c, i, Ghost(rank));
                improved = true;
                proof {
                    lemma_with_row(rank, before, *board, c as int);
                    assert(board.rows@[c as int]@ =~= swapped(before.rows@[c as int]@, i as int));
                }
            }
            i = i + 1;
        }
        c = c + 1;
    }
    improved
}

// ── sifting ────────────────────────────────────────────────────────────────

/// What sliding the node at `start` up to `at` does to the crossings.
pub open spec fn slide_up(
    place: Seq<usize>,
    links: Seq<(usize, usize)>,
    row: Seq<usize>,
    start: int,
    at: int,
) -> int
    decreases start - at,
{
    if at >= start {
        0
    } else {
        slide_up(place, links, row, start, at + 1) + cost_below(
            place,
            links,
            row[at] as int,
            row[start] as int,
        ) - cost_above(place, links, row[at] as int, row[start] as int)
    }
}

/// What sliding the node at `start` down to `at` does to the crossings.
pub open spec fn slide_down(
    place: Seq<usize>,
    links: Seq<(usize, usize)>,
    row: Seq<usize>,
    start: int,
    at: int,
) -> int
    decreases at - start,
{
    if at <= start {
        0
    } else {
        slide_down(place, links, row, start, at - 1) + cost_below(
            place,
            links,
            row[start] as int,
            row[at] as int,
        ) - cost_above(place, links, row[start] as int, row[at] as int)
    }
}

/// A column after the node at `start` slid up to `at`.
pub open spec fn slid_up(row: Seq<usize>, start: int, at: int) -> Seq<usize> {
    Seq::new(
        row.len(),
        |i: int|
            if i == at {
                row[start]
            } else if at < i <= start {
                row[i - 1]
            } else {
                row[i]
            },
    )
}

/// A column after the node at `start` slid down to `at`.
pub open spec fn slid_down(row: Seq<usize>, start: int, at: int) -> Seq<usize> {
    Seq::new(
        row.len(),
        |i: int|
            if i == at {
                row[start]
            } else if start <= i < at {
                row[i + 1]
            } else {
                row[i]
            },
    )
}

/// The first place within a window of a node at `start` that sifting looks at.
pub open spec fn window_from(start: int) -> int {
    if start > SIFT_WINDOW {
        start - SIFT_WINDOW
    } else {
        0
    }
}

/// The last place within a window of a node at `start` of a column of `len` nodes.
pub open spec fn window_to(len: int, start: int) -> int {
    if len - 1 - start > SIFT_WINDOW {
        start + SIFT_WINDOW
    } else {
        len - 1
    }
}

/// What the best place from `at` up to `start` costs, and the place: of those that cost the least
/// the nearest, and `start` itself where none costs less than nothing.
pub open spec fn best_up(
    b: BoardModel,
    links: Seq<(usize, usize)>,
    c: int,
    start: int,
    at: int,
) -> (int, int)
    decreases start - at,
{
    if at >= start {
        (0, start)
    } else {
        let best = best_up(b, links, c, start, at + 1);
        let cost = slide_up(b.place, links, b.rows[c], start, at);
        if cost < best.0 {
            (cost, at)
        } else {
            best
        }
    }
}

/// The best of `best` and the places from `start` down to `at`.
pub open spec fn best_down(
    b: BoardModel,
    links: Seq<(usize, usize)>,
    c: int,
    start: int,
    at: int,
    best: (int, int),
) -> (int, int)
    decreases at - start,
{
    if at <= start {
        best
    } else {
        let near = best_down(b, links, c, start, at - 1, best);
        let cost = slide_down(b.place, links, b.rows[c], start, at);
        if cost < near.0 {
            (cost, at)
        } else {
            near
        }
    }
}

/// What the best place in the window of the node at `start` of the column `c` costs, and the place.
pub open spec fn best_place(
    b: BoardModel,
    links: Seq<(usize, usize)>,
    c: int,
    start: int,
) -> (int, int) {
    best_down(
        b,
        links,
        c,
        start,
        window_to(b.rows[c].len() as int, start),
        best_up(b, links, c, start, window_from(start)),
    )
}

/// A board, and whether anything was moved on it, after the node at `start` of the column `c` slid
/// to the best place in its window.
pub open spec fn sifted(
    s: (BoardModel, bool),
    links: Seq<(usize, usize)>,
    c: int,
    start: int,
) -> (BoardModel, bool) {
    let row = s.0.rows[c];
    let best = best_place(s.0, links, c, start);
    if best.0 >= 0 {
        s
    } else if best.1 <= start {
        (with_row(s.0, c, slid_up(row, start, best.1)), true)
    } else {
        (with_row(s.0, c, slid_down(row, start, best.1)), true)
    }
}

/// The same after the first `k` places of the column `c`.
pub open spec fn sift_column(
    s: (BoardModel, bool),
    links: Seq<(usize, usize)>,
    c: int,
    k: nat,
) -> (BoardModel, bool)
    decreases k,
{
    if k == 0 {
        s
    } else {
        sifted(sift_column(s, links, c, (k - 1) as nat), links, c, k - 1)
    }
}

/// The same after the first `k` columns.
pub open spec fn sift_columns(
    s: (BoardModel, bool),
    links: Seq<(usize, usize)>,
    k: nat,
) -> (BoardModel, bool)
    decreases k,
{
    if k == 0 {
        s
    } else {
        let t = sift_columns(s, links, (k - 1) as nat);
        sift_column(t, links, k - 1, t.0.rows[k - 1].len())
    }
}

/// A board after at most `left` passes of sifting: one that moves nothing is the last.
pub open spec fn sift_passes(b: BoardModel, links: Seq<(usize, usize)>, left: nat) -> BoardModel
    decreases left,
{
    if left == 0 {
        b
    } else {
        let (now, moved) = sift_columns((b, false), links, b.rows.len());
        if moved {
            sift_passes(now, links, (left - 1) as nat)
        } else {
            now
        }
    }
}

/// Slides the node at `start` of the column `c` up to `at`.
#[verifier::rlimit(60)]
pub(crate) fn slide_node_up(
    board: &mut Board,
    c: usize,
    start: usize,
    at: usize,
    wiring: &Wiring,
    Ghost(rank): Ghost<Seq<i32>>,
)
    requires
        old(board).arranges(rank),
        wiring.wires(rank.len()),
        links_columns(rank, wiring.links@),
        c < old(board).rows@.len(),
        at <= start < old(board).rows@[c as int]@.len(),
    ensures
        final(board).arranges(rank),
        same_shape(final(board).rows@, old(board).rows@),
        crossings(rank, final(board).place@, wiring.links@) == crossings(
            rank,
            old(board).place@,
            wiring.links@,
        ) + slide_up(
            old(board).place@,
            wiring.links@,
            old(board).rows@[c as int]@,
            start as int,
            at as int,
        ),
        final(board).rows@ == old(board).rows@.update(c as int, final(board).rows@[c as int]),
        final(board).rows@[c as int]@ == slid_up(
            old(board).rows@[c as int]@,
            start as int,
            at as int,
        ),
        forall|x: int|
            0 <= x < rank.len() && rank[x] != c ==> #[trigger] final(board).place@[x] == old(board).place@[x],
{
    let ghost links = wiring.links@;
    let ghost first = *board;
    let ghost row0 = board.rows@[c as int]@;
    let ghost v = row0[start as int];
    let mut j: usize = start;
    assert(row0 =~= slid_up(row0, start as int, start as int));
    assert(board.rows@ =~= first.rows@.update(c as int, board.rows@[c as int]));
    while j > at
        invariant
            at <= j <= start,
            links == wiring.links@,
            board.arranges(rank),
            first.arranges(rank),
            wiring.wires(rank.len()),
            links_columns(rank, links),
            same_shape(board.rows@, first.rows@),
            c < board.rows@.len(),
            row0 == first.rows@[c as int]@,
            start < row0.len(),
            v == row0[start as int],
            board.rows@[c as int]@.len() == row0.len(),
            board.rows@[c as int]@[j as int] == v,
            board.rows@ == first.rows@.update(c as int, board.rows@[c as int]),
            board.rows@[c as int]@ == slid_up(row0, start as int, j as int),
            forall|x: int|
                0 <= x < rank.len() && rank[x] != c ==> #[trigger] board.place@[x]
                    == first.place@[x],
            crossings(rank, board.place@, links) == crossings(rank, first.place@, links) + slide_up(
                first.place@,
                links,
                row0,
                start as int,
                j as int,
            ),
        decreases j,
    {
        let ghost before = *board;
        let ghost u = board.rows@[c as int]@[j - 1];
        proof {
            assert(u == row0[j - 1]);
            assert(rank[u as int] == c && rank[v as int] == c) by {
                assert(board.rows@[c as int]@[j as int] == v);
            }
            lemma_neighbours(rank, *board, c as int, j - 1);
            swapping_neighbours(rank, board.place@, links, u as int, v as int);
            lemma_cost_stays(rank, first.place@, board.place@, links, u as int, v as int);
        }
        swap_at(board, c, j - 1, Ghost(rank));
        j = j - 1;
        proof {
            assert(board.rows@[c as int]@ =~= slid_up(row0, start as int, j as int));
            assert(board.rows@ =~= first.rows@.update(c as int, board.rows@[c as int]));
        }
    }
}

/// Slides the node at `start` of the column `c` down to `at`.
#[verifier::rlimit(60)]
fn slide_node_down(
    board: &mut Board,
    c: usize,
    start: usize,
    at: usize,
    wiring: &Wiring,
    Ghost(rank): Ghost<Seq<i32>>,
)
    requires
        old(board).arranges(rank),
        wiring.wires(rank.len()),
        links_columns(rank, wiring.links@),
        c < old(board).rows@.len(),
        start <= at < old(board).rows@[c as int]@.len(),
    ensures
        final(board).arranges(rank),
        same_shape(final(board).rows@, old(board).rows@),
        crossings(rank, final(board).place@, wiring.links@) == crossings(
            rank,
            old(board).place@,
            wiring.links@,
        ) + slide_down(
            old(board).place@,
            wiring.links@,
            old(board).rows@[c as int]@,
            start as int,
            at as int,
        ),
        final(board).rows@ == old(board).rows@.update(c as int, final(board).rows@[c as int]),
        final(board).rows@[c as int]@ == slid_down(
            old(board).rows@[c as int]@,
            start as int,
            at as int,
        ),
{
    let ghost links = wiring.links@;
    let ghost first = *board;
    let ghost row0 = board.rows@[c as int]@;
    let ghost v = row0[start as int];
    let mut j: usize = start;
    assert(row0 =~= slid_down(row0, start as int, start as int));
    assert(board.rows@ =~= first.rows@.update(c as int, board.rows@[c as int]));
    while j < at
        invariant
            start <= j <= at,
            links == wiring.links@,
            board.arranges(rank),
            first.arranges(rank),
            wiring.wires(rank.len()),
            links_columns(rank, links),
            same_shape(board.rows@, first.rows@),
            c < board.rows@.len(),
            row0 == first.rows@[c as int]@,
            at < row0.len(),
            v == row0[start as int],
            board.rows@[c as int]@.len() == row0.len(),
            board.rows@[c as int]@[j as int] == v,
            board.rows@ == first.rows@.update(c as int, board.rows@[c as int]),
            board.rows@[c as int]@ == slid_down(row0, start as int, j as int),
            forall|x: int|
                0 <= x < rank.len() && rank[x] != c ==> #[trigger] board.place@[x]
                    == first.place@[x],
            crossings(rank, board.place@, links) == crossings(rank, first.place@, links)
                + slide_down(first.place@, links, row0, start as int, j as int),
        decreases at - j,
    {
        let ghost u = board.rows@[c as int]@[j + 1];
        proof {
            assert(u == row0[j + 1]);
            assert(rank[u as int] == c && rank[v as int] == c) by {
                assert(board.rows@[c as int]@[j as int] == v);
            }
            lemma_neighbours(rank, *board, c as int, j as int);
            swapping_neighbours(rank, board.place@, links, v as int, u as int);
            lemma_cost_stays(rank, first.place@, board.place@, links, v as int, u as int);
        }
        swap_at(board, c, j, Ghost(rank));
        j = j + 1;
        proof {
            assert(board.rows@[c as int]@ =~= slid_down(row0, start as int, j as int));
            assert(board.rows@ =~= first.rows@.update(c as int, board.rows@[c as int]));
        }
    }
}

/// Slides the node at `start` to the best place within the window, if that is better than where it
/// stands.
#[verifier::rlimit(60)]
fn sift_node(
    board: &mut Board,
    c: usize,
    start: usize,
    wiring: &Wiring,
    Ghost(rank): Ghost<Seq<i32>>,
) -> (r: bool)
    requires
        old(board).arranges(rank),
        wiring.wires(rank.len()),
        links_columns(rank, wiring.links@),
        c < old(board).rows@.len(),
        start < old(board).rows@[c as int]@.len(),
    ensures
        final(board).arranges(rank),
        same_shape(final(board).rows@, old(board).rows@),
        r ==> crossings(rank, final(board).place@, wiring.links@) < crossings(
            rank,
            old(board).place@,
            wiring.links@,
        ),
        (final(board).model(), r) == sifted(
            (old(board).model(), false),
            wiring.links@,
            c as int,
            start as int,
        ),
{
    let ghost links = wiring.links@;
    let ghost first = *board;
    let ghost row = board.rows@[c as int]@;
    let len: usize = board.rows[c].len();
    let v = board.rows[c][start];
    assert(row[start as int] == v);
    let lo: usize = if start > SIFT_WINDOW { start - SIFT_WINDOW } else { 0 };
    let hi: usize = if len - 1 - start > SIFT_WINDOW { start + SIFT_WINDOW } else { len - 1 };
    let mut best: i128 = 0;
    let mut best_at: usize = start;
    let mut delta: i128 = 0;
    let mut i: usize = start;
    while i > lo
        invariant
            lo <= i <= start,
            start - lo <= SIFT_WINDOW,
            *board == first,
            board.arranges(rank),
            wiring.wires(rank.len()),
            links == wiring.links@,
            row == board.rows@[c as int]@,
            c < board.rows@.len(),
            start < row.len(),
            v == row[start as int],
            delta == slide_up(board.place@, links, row, start as int, i as int),
            -(start - i) * 0x2000_0000_0000_0000 <= delta <= (start - i) * 0x2000_0000_0000_0000,
            best <= 0,
            best_at <= start,
            best == slide_up(board.place@, links, row, start as int, best_at as int),
            (best as int, best_at as int) == best_up(
                board.model(),
                links,
                c as int,
                start as int,
                i as int,
            ),
        decreases i,
    {
        i = i - 1;
        let u = board.rows[c][i];
        assert(row[i as int] == u);
        let (uv, vu) = crossings_between(u, v, &board.place, wiring);
        delta = delta + (vu as i128 - uv as i128);
        if delta < best {
            best = delta;
            best_at = i;
        }
    }
    delta = 0;
    let ghost up = (best as int, best_at as int);
    let mut k: usize = start;
    while k < hi
        invariant
            start <= k <= hi,
            hi - start <= SIFT_WINDOW,
            *board == first,
            board.arranges(rank),
            wiring.wires(rank.len()),
            links == wiring.links@,
            row == board.rows@[c as int]@,
            c < board.rows@.len(),
            hi < row.len(),
            v == row[start as int],
            delta == slide_down(board.place@, links, row, start as int, k as int),
            -(k - start) * 0x2000_0000_0000_0000 <= delta <= (k - start) * 0x2000_0000_0000_0000,
            best <= 0,
            best_at < row.len(),
            best_at <= start ==> best == slide_up(
                board.place@,
                links,
                row,
                start as int,
                best_at as int,
            ),
            best_at > start ==> best == slide_down(
                board.place@,
                links,
                row,
                start as int,
                best_at as int,
            ),
            (best as int, best_at as int) == best_down(
                board.model(),
                links,
                c as int,
                start as int,
                k as int,
                up,
            ),
        decreases hi - k,
    {
        k = k + 1;
        let u = board.rows[c][k];
        assert(row[k as int] == u);
        let (vu, uv) = crossings_between(v, u, &board.place, wiring);
        delta = delta + (uv as i128 - vu as i128);
        if delta < best {
            best = delta;
            best_at = k;
        }
    }
    assert((best as int, best_at as int) == best_place(
        first.model(),
        links,
        c as int,
        start as int,
    ));
    if best < 0 {
        if best_at <= start {
            slide_node_up(board, c, start, best_at, wiring, Ghost(rank));
        } else {
            slide_node_down(board, c, start, best_at, wiring, Ghost(rank));
        }
        proof {
            lemma_with_row(rank, first, *board, c as int);
        }
        true
    } else {
        false
    }
}

/// One pass of sifting over every column. Adjacent swaps can only walk downhill one step at a time,
/// so a node that belongs thirty places away never gets there; sifting slides one node across a
/// window and drops it at the best place it saw. Says whether anything moved.
fn sift_pass(board: &mut Board, wiring: &Wiring, Ghost(rank): Ghost<Seq<i32>>) -> (r: bool)
    requires
        old(board).arranges(rank),
        wiring.wires(rank.len()),
        links_columns(rank, wiring.links@),
    ensures
        final(board).arranges(rank),
        same_shape(final(board).rows@, old(board).rows@),
        crossings(rank, final(board).place@, wiring.links@) <= crossings(
            rank,
            old(board).place@,
            wiring.links@,
        ),
        r ==> crossings(rank, final(board).place@, wiring.links@) < crossings(
            rank,
            old(board).place@,
            wiring.links@,
        ),
        (final(board).model(), r) == sift_columns(
            (old(board).model(), false),
            wiring.links@,
            old(board).rows@.len(),
        ),
        !r ==> is_at_rest(final(board).model(), wiring.links@),
{
    let ghost links = wiring.links@;
    let ghost start = *board;
    let mut improved: bool = false;
    let count: usize = board.rows.len();
    let mut c: usize = 0;
    while c < count
        invariant
            c <= count,
            count == board.rows@.len(),
            links == wiring.links@,
            board.arranges(rank),
            wiring.wires(rank.len()),
            links_columns(rank, links),
            same_shape(board.rows@, start.rows@),
            crossings(rank, board.place@, links) <= crossings(rank, start.place@, links),
            improved ==> crossings(rank, board.place@, links) < crossings(
                rank,
                start.place@,
                links,
            ),
            (board.model(), improved) == sift_columns((start.model(), false), links, c as nat),
        decreases count - c,
    {
        let len: usize = board.rows[c].len();
        let ghost base = (board.model(), improved);
        let mut i: usize = 0;
        while i < len
            invariant
                c < count,
                count == board.rows@.len(),
                len == board.rows@[c as int]@.len(),
                i <= len,
                links == wiring.links@,
                board.arranges(rank),
                wiring.wires(rank.len()),
                links_columns(rank, links),
                same_shape(board.rows@, start.rows@),
                crossings(rank, board.place@, links) <= crossings(rank, start.place@, links),
                improved ==> crossings(rank, board.place@, links) < crossings(
                    rank,
                    start.place@,
                    links,
                ),
                (board.model(), improved) == sift_column(base, links, c as int, i as nat),
            decreases len - i,
        {
            if sift_node(board, c, i, wiring, Ghost(rank)) {
                improved = true;
            }
            i = i + 1;
        }
        c = c + 1;
    }
    proof {
        if !improved {
            lemma_columns_at_rest(start.model(), links, count as nat);
        }
    }
    improved
}

// ── where nothing helps any more ───────────────────────────────────────────

/// The places after `v` moved to the place `at` of its column, with what stood between moved up.
pub open spec fn slid_places(rank: Seq<i32>, place: Seq<usize>, v: int, at: int) -> Seq<usize> {
    Seq::new(
        place.len(),
        |w: int|
            if w == v {
                at as usize
            } else if rank[w] == rank[v] && at <= place[w] < place[v] {
                (place[w] + 1) as usize
            } else if rank[w] == rank[v] && place[v] < place[w] <= at {
                (place[w] - 1) as usize
            } else {
                place[w]
            },
    )
}

/// There is a place `at` in the column of `v`.
pub open spec fn is_place_beside(rank: Seq<i32>, place: Seq<usize>, v: int, at: int) -> bool {
    exists|w: int| 0 <= w < rank.len() && rank[w] == rank[v] && #[trigger] place[w] == at
}

/// No node could be moved up or down its column, by 24 places at most, to remove a crossing.
pub open spec fn no_slide_helps(
    rank: Seq<i32>,
    place: Seq<usize>,
    links: Seq<(usize, usize)>,
) -> bool {
    forall|v: int, at: int|
        0 <= v < rank.len() && is_place_beside(rank, place, v, at) && place[v] - 24 <= at
            <= place[v] + 24 ==> crossings(rank, #[trigger] slid_places(rank, place, v, at), links)
            >= crossings(rank, place, links)
}

/// No two neighbours of a column could be swapped to remove a crossing.
pub open spec fn no_swap_helps(
    rank: Seq<i32>,
    place: Seq<usize>,
    links: Seq<(usize, usize)>,
) -> bool {
    forall|a: int, b: int| #[trigger]
        are_neighbours(rank, place, a, b) ==> crossings(rank, exchanged(place, a, b), links)
            >= crossings(rank, place, links)
}

/// Where no slide removes a crossing, no swap of neighbours does: a swap is the shortest slide.
pub proof fn swaps_are_slides(rank: Seq<i32>, place: Seq<usize>, links: Seq<(usize, usize)>)
    requires
        no_slide_helps(rank, place, links),
    ensures
        no_swap_helps(rank, place, links),
{
    assert forall|a: int, b: int| #[trigger] are_neighbours(rank, place, a, b) implies crossings(
        rank,
        exchanged(place, a, b),
        links,
    ) >= crossings(rank, place, links) by {
        let at = place[b] as int;
        assert(rank[b] == rank[a] && place[b] == at);
        assert(is_place_beside(rank, place, a, at));
        assert(slid_places(rank, place, a, at) =~= exchanged(place, a, b));
    }
}

/// The column `c` is `row`, top to bottom.
spec fn stands_as(rank: Seq<i32>, place: Seq<usize>, c: int, row: Seq<usize>) -> bool {
    &&& place.len() == rank.len()
    &&& forall|i: int|
        0 <= i < row.len() ==> (#[trigger] row[i]) < rank.len() && rank[row[i] as int] == c
            && place[row[i] as int] == i
    &&& forall|v: int|
        0 <= v < rank.len() && #[trigger] rank[v] == c ==> place[v] < row.len() && row[place[v] as int]
            == v
}

proof fn lemma_slide_up_counts(
    rank: Seq<i32>,
    place: Seq<usize>,
    links: Seq<(usize, usize)>,
    c: int,
    row: Seq<usize>,
    start: int,
    at: int,
)
    requires
        stands_as(rank, place, c, row),
        links_columns(rank, links),
        0 <= at <= start < row.len(),
    ensures
        crossings(rank, slid_places(rank, place, row[start] as int, at), links) == crossings(
            rank,
            place,
            links,
        ) + slide_up(place, links, row, start, at),
    decreases start - at,
{
    let v = row[start] as int;
    let now = slid_places(rank, place, v, at);
    assert(rank[v] == c && place[v] == start);
    if at == start {
        assert(now =~= place);
    } else {
        lemma_slide_up_counts(rank, place, links, c, row, start, at + 1);
        let before = slid_places(rank, place, v, at + 1);
        let u = row[at] as int;
        assert(rank[u] == c && place[u] == at);
        assert(before[u] == at && before[v] == at + 1);
        assert forall|w: int| 0 <= w < rank.len() && #[trigger] rank[w] == rank[u] && w != u && w
            != v implies before[w] < before[u] || before[w] > before[v] by {
            assert(row[place[w] as int] == w);
        }
        assert(are_neighbours(rank, before, u, v));
        swapping_neighbours(rank, before, links, u, v);
        lemma_cost_stays(rank, place, before, links, u, v);
        assert(exchanged(before, u, v) =~= now) by {
            assert forall|w: int| 0 <= w < rank.len() implies #[trigger] exchanged(before, u, v)[w]
                == now[w] by {
                if rank[w] == c {
                    assert(row[place[w] as int] == w);
                }
            }
        }
    }
}

proof fn lemma_slide_down_counts(
    rank: Seq<i32>,
    place: Seq<usize>,
    links: Seq<(usize, usize)>,
    c: int,
    row: Seq<usize>,
    start: int,
    at: int,
)
    requires
        stands_as(rank, place, c, row),
        links_columns(rank, links),
        0 <= start <= at < row.len(),
    ensures
        crossings(rank, slid_places(rank, place, row[start] as int, at), links) == crossings(
            rank,
            place,
            links,
        ) + slide_down(place, links, row, start, at),
    decreases at - start,
{
    let v = row[start] as int;
    let now = slid_places(rank, place, v, at);
    assert(rank[v] == c && place[v] == start);
    let u = row[at] as int;
    assert(rank[u] == c && place[u] == at);
    if at == start {
        assert(now =~= place);
    } else {
        lemma_slide_down_counts(rank, place, links, c, row, start, at - 1);
        let before = slid_places(rank, place, v, at - 1);
        assert(before[u] == at && before[v] == at - 1);
        assert forall|w: int| 0 <= w < rank.len() && #[trigger] rank[w] == rank[v] && w != v && w
            != u implies before[w] < before[v] || before[w] > before[u] by {
            assert(row[place[w] as int] == w);
        }
        assert(are_neighbours(rank, before, v, u));
        swapping_neighbours(rank, before, links, v, u);
        lemma_cost_stays(rank, place, before, links, v, u);
        assert(exchanged(before, v, u) =~= now) by {
            assert forall|w: int| 0 <= w < rank.len() implies #[trigger] exchanged(before, v, u)[w]
                == now[w] by {
                if rank[w] == c {
                    assert(row[place[w] as int] == w);
                }
            }
        }
    }
}

/// Sifting would move nothing.
pub open spec fn is_at_rest(b: BoardModel, links: Seq<(usize, usize)>) -> bool {
    forall|c: int, i: int|
        0 <= c < b.rows.len() && 0 <= i < b.rows[c].len() ==> (#[trigger] best_place(
            b,
            links,
            c,
            i,
        )).0 >= 0
}

/// The best place costs no more than any in the window.
proof fn lemma_best_is_least(b: BoardModel, links: Seq<(usize, usize)>, c: int, start: int, at: int)
    requires
        0 <= start < b.rows[c].len(),
        window_from(start) <= at <= window_to(b.rows[c].len() as int, start),
    ensures
        at <= start ==> best_place(b, links, c, start).0 <= slide_up(
            b.place,
            links,
            b.rows[c],
            start,
            at,
        ),
        at >= start ==> best_place(b, links, c, start).0 <= slide_down(
            b.place,
            links,
            b.rows[c],
            start,
            at,
        ),
{
    let up = best_up(b, links, c, start, window_from(start));
    let to = window_to(b.rows[c].len() as int, start);
    lemma_best_up(b, links, c, start, window_from(start), if at <= start { at } else { start });
    lemma_best_down(b, links, c, start, to, up, if at >= start { at } else { start });
}

proof fn lemma_best_up(
    b: BoardModel,
    links: Seq<(usize, usize)>,
    c: int,
    start: int,
    from: int,
    at: int,
)
    requires
        from <= at <= start,
    ensures
        best_up(b, links, c, start, from).0 <= slide_up(b.place, links, b.rows[c], start, at),
        best_up(b, links, c, start, from).0 <= 0,
    decreases start - from,
{
    if from < start {
        if at > from {
            lemma_best_up(b, links, c, start, from + 1, at);
        } else {
            lemma_best_up(b, links, c, start, from + 1, start);
        }
    }
}

proof fn lemma_best_down(
    b: BoardModel,
    links: Seq<(usize, usize)>,
    c: int,
    start: int,
    to: int,
    best: (int, int),
    at: int,
)
    requires
        start <= at <= to,
        best.0 <= 0,
    ensures
        best_down(b, links, c, start, to, best).0 <= slide_down(b.place, links, b.rows[c], start, at),
        best_down(b, links, c, start, to, best).0 <= best.0,
    decreases to - start,
{
    if to > start {
        if at < to {
            lemma_best_down(b, links, c, start, to - 1, best, at);
        } else {
            lemma_best_down(b, links, c, start, to - 1, best, start);
        }
    }
}

/// Where sifting would move nothing, neighbours make no fewer crossings the other way round.
pub(crate) proof fn lemma_neighbours_at_rest(
    b: BoardModel,
    links: Seq<(usize, usize)>,
    c: int,
    i: int,
)
    requires
        is_at_rest(b, links),
        0 <= c < b.rows.len(),
        0 <= i,
        i + 1 < b.rows[c].len(),
    ensures
        cost_above(b.place, links, b.rows[c][i] as int, b.rows[c][i + 1] as int) <= cost_below(
            b.place,
            links,
            b.rows[c][i] as int,
            b.rows[c][i + 1] as int,
        ),
{
    assert(best_place(b, links, c, i).0 >= 0);
    lemma_best_is_least(b, links, c, i, i + 1);
    reveal_with_fuel(slide_down, 2);
}

/// Where sifting would move nothing, no slide removes a crossing.
proof fn lemma_rest_is_best(rank: Seq<i32>, board: Board, links: Seq<(usize, usize)>)
    requires
        board.arranges(rank),
        links_columns(rank, links),
        is_at_rest(board.model(), links),
    ensures
        no_slide_helps(rank, board.place@, links),
{
    let place = board.place@;
    let b = board.model();
    assert forall|v: int, at: int|
        0 <= v < rank.len() && is_place_beside(rank, place, v, at) && place[v] - 24 <= at <= place[v]
            + 24 implies crossings(rank, #[trigger] slid_places(rank, place, v, at), links)
        >= crossings(rank, place, links) by {
        let c = rank[v] as int;
        let row = b.rows[c];
        let start = place[v] as int;
        assert(row == board.rows@[c]@);
        assert(row[start] == v);
        let w = choose|w: int|
            0 <= w < rank.len() && rank[w] == rank[v] && #[trigger] place[w] == at;
        assert(rank[w] == c && place[w] < row.len());
        assert(stands_as(rank, place, c, row)) by {
            assert forall|i: int| 0 <= i < row.len() implies (#[trigger] row[i]) < rank.len()
                && rank[row[i] as int] == c && place[row[i] as int] == i by {
                assert(board.rows@[c]@[i] == row[i]);
            }
        }
        assert(best_place(b, links, c, start).0 >= 0);
        lemma_best_is_least(b, links, c, start, at);
        if at <= start {
            lemma_slide_up_counts(rank, place, links, c, row, start, at);
        } else {
            lemma_slide_down_counts(rank, place, links, c, row, start, at);
        }
    }
}

/// A column on which sifting moved nothing stays as it is, and none of its nodes has a better place.
proof fn lemma_column_at_rest(
    s: (BoardModel, bool),
    links: Seq<(usize, usize)>,
    c: int,
    k: nat,
)
    requires
        !sift_column(s, links, c, k).1,
    ensures
        !s.1,
        sift_column(s, links, c, k) == s,
        forall|i: int| 0 <= i < k ==> (#[trigger] best_place(s.0, links, c, i)).0 >= 0,
    decreases k,
{
    if k > 0 {
        lemma_column_at_rest(s, links, c, (k - 1) as nat);
    }
}

proof fn lemma_columns_at_rest(b: BoardModel, links: Seq<(usize, usize)>, k: nat)
    requires
        !sift_columns((b, false), links, k).1,
    ensures
        sift_columns((b, false), links, k) == (b, false),
        forall|c: int, i: int|
            0 <= c < k && 0 <= i < b.rows[c].len() ==> (#[trigger] best_place(b, links, c, i)).0 >= 0,
    decreases k,
{
    if k > 0 {
        let t = sift_columns((b, false), links, (k - 1) as nat);
        lemma_column_at_rest(t, links, k - 1, t.0.rows[k - 1].len());
        lemma_columns_at_rest(b, links, (k - 1) as nat);
    }
}

// ── all together ───────────────────────────────────────────────────────────

/// A board after the sweeps, the adjacent swaps and the sifting.
pub open spec fn ordered(
    b: BoardModel,
    links: Seq<(usize, usize)>,
    ordering_sweeps: nat,
    transpose_passes: nat,
) -> BoardModel {
    sift_passes(
        swap_passes(sweeps(b, links, ordering_sweeps), links, 0, transpose_passes),
        links,
        SIFT_PASSES as nat,
    )
}

/// Median sweeps followed by adjacent swaps and sifting, the standard crossing reduction, run over
/// real *and* virtual nodes. The swaps and slides never add a crossing to what the sweeps left, and go
/// on until no slide removes one, unless each of the four passes of sifting has removed one.
pub fn order_ranks(
    board: &mut Board,
    wiring: &Wiring,
    rank: &Vec<i32>,
    ordering_sweeps: usize,
    transpose_passes: usize,
)
    requires
        old(board).arranges(rank@),
        wiring.wires(rank@.len()),
        links_columns(rank@, wiring.links@),
    ensures
        final(board).arranges(rank@),
        same_shape(final(board).rows@, old(board).rows@),
        final(board).model() == ordered(
            old(board).model(),
            wiring.links@,
            ordering_sweeps as nat,
            transpose_passes as nat,
        ),
        crossings(rank@, final(board).place@, wiring.links@) <= crossings(
            rank@,
            sweeps(old(board).model(), wiring.links@, ordering_sweeps as nat).place,
            wiring.links@,
        ),
        is_at_rest(final(board).model(), wiring.links@) || crossings(
            rank@,
            final(board).place@,
            wiring.links@,
        ) + 4 <= crossings(
            rank@,
            sweeps(old(board).model(), wiring.links@, ordering_sweeps as nat).place,
            wiring.links@,
        ),
        no_slide_helps(rank@, final(board).place@, wiring.links@) || crossings(
            rank@,
            final(board).place@,
            wiring.links@,
        ) + 4 <= crossings(
            rank@,
            sweeps(old(board).model(), wiring.links@, ordering_sweeps as nat).place,
            wiring.links@,
        ),
{
    let ghost links = wiring.links@;
    let ghost start = *board;
    sweep_columns(board, wiring, ordering_sweeps, Ghost(rank@));
    let ghost swept = *board;
    let mut pass: usize = 0;
    let mut improved: bool = true;
    while pass < transpose_passes && improved
        invariant
            pass <= transpose_passes,
            links == wiring.links@,
            board.arranges(rank@),
            wiring.wires(rank@.len()),
            links_columns(rank@, links),
            same_shape(board.rows@, start.rows@),
            crossings(rank@, board.place@, links) <= crossings(rank@, swept.place@, links),
            swap_passes(swept.model(), links, 0, transpose_passes as nat) == if improved {
                swap_passes(
                    board.model(),
                    links,
                    pass as nat,
                    (transpose_passes - pass) as nat,
                )
            } else {
                board.model()
            },
        decreases transpose_passes - pass,
    {
        improved = transpose_pass(board, wiring, pass % 2 == 1, Ghost(rank@));
        pass = pass + 1;
    }
    let ghost swapped = *board;
    let mut round: usize = 0;
    let mut moved: bool = true;
    while round < SIFT_PASSES && moved
        invariant
            round <= SIFT_PASSES,
            links == wiring.links@,
            board.arranges(rank@),
            wiring.wires(rank@.len()),
            links_columns(rank@, links),
            same_shape(board.rows@, start.rows@),
            crossings(rank@, board.place@, links) <= crossings(rank@, swept.place@, links),
            sift_passes(swapped.model(), links, SIFT_PASSES as nat) == if moved {
                sift_passes(board.model(), links, (SIFT_PASSES - round) as nat)
            } else {
                board.model()
            },
            moved ==> crossings(rank@, board.place@, links) + round <= crossings(
                rank@,
                swept.place@,
                links,
            ),
            !moved ==> is_at_rest(board.model(), links),
        decreases SIFT_PASSES - round,
    {
        moved = sift_pass(board, wiring, Ghost(rank@));
        round = round + 1;
    }
    proof {
        if is_at_rest(board.model(), links) {
            lemma_rest_is_best(rank@, *board, links);
        }
    }
}

} // verus!
