//! Median sweeps: each column is ordered by where its nodes' neighbours stand, column after column.

use vstd::prelude::*;

use crate::adjacency::{sources, targets};
use crate::crossings::{Board, Wiring};
use crate::ordering::same_shape;

verus! {

// ── sorting ────────────────────────────────────────────────────────────────

/// The first place in `s` with a key above `key`.
pub open spec fn place_above(s: Seq<(usize, usize)>, key: usize) -> int
    decreases s.len(),
{
    if s.len() == 0 {
        0
    } else {
        let before = place_above(s.drop_last(), key);
        if before < s.len() - 1 || s.last().0 > key { before } else { s.len() as int }
    }
}

/// `s` by key, smallest first; what has one key stays in order.
pub open spec fn by_key(s: Seq<(usize, usize)>) -> Seq<(usize, usize)>
    decreases s.len(),
{
    if s.len() == 0 {
        s
    } else {
        let before = by_key(s.drop_last());
        before.insert(place_above(before, s.last().0), s.last())
    }
}

/// No key is below an earlier one.
pub open spec fn keys_ascend(s: Seq<(usize, usize)>) -> bool {
    forall|i: int, j: int| 0 <= i <= j < s.len() ==> (#[trigger] s[i]).0 <= (#[trigger] s[j]).0
}

proof fn lemma_place_above(s: Seq<(usize, usize)>, key: usize)
    ensures
        0 <= place_above(s, key) <= s.len(),
        forall|i: int| 0 <= i < place_above(s, key) ==> (#[trigger] s[i]).0 <= key,
        place_above(s, key) < s.len() ==> s[place_above(s, key)].0 > key,
    decreases s.len(),
{
    if s.len() > 0 {
        let rest = s.drop_last();
        lemma_place_above(rest, key);
        assert forall|i: int| 0 <= i < place_above(s, key) implies (#[trigger] s[i]).0 <= key by {
            if i < rest.len() {
                assert(rest[i] == s[i]);
            }
        }
    }
}

/// Sorting by key sorts, and loses and invents nothing.
pub proof fn sorting_by_key(s: Seq<(usize, usize)>)
    ensures
        keys_ascend(by_key(s)),
        by_key(s).len() == s.len(),
        by_key(s).to_multiset() == s.to_multiset(),
    decreases s.len(),
{
    if s.len() > 0 {
        broadcast use vstd::seq_lib::group_to_multiset_ensures;

        let rest = s.drop_last();
        sorting_by_key(rest);
        let before = by_key(rest);
        let x = s.last();
        let p = place_above(before, x.0);
        lemma_place_above(before, x.0);
        before.insert_ensures(p, x);
        let now = by_key(s);
        assert forall|i: int, j: int| 0 <= i <= j < now.len() implies (#[trigger] now[i]).0 <= (
        #[trigger] now[j]).0 by {
            let a = if i < p { before[i] } else if i == p { x } else { before[i - 1] };
            let b = if j < p { before[j] } else if j == p { x } else { before[j - 1] };
            assert(now[i] == a && now[j] == b);
            if p < before.len() && j > p {
                assert(before[p].0 <= before[j - 1].0);
            }
        }
        assert(rest.push(x) =~= s);
        assert(now.to_multiset() =~= s.to_multiset());
    }
}

/// Puts an entry behind those with its key.
fn insert_by_key(s: &mut Vec<(usize, usize)>, x: (usize, usize))
    ensures
        final(s)@ == old(s)@.insert(place_above(old(s)@, x.0), x),
{
    let ghost before = s@;
    let n: usize = s.len();
    let mut p: usize = 0;
    while p < n && s[p].0 <= x.0
        invariant
            p <= n,
            n == s@.len(),
            s@ == before,
            forall|i: int| 0 <= i < p ==> (#[trigger] before[i]).0 <= x.0,
        decreases n - p,
    {
        p = p + 1;
    }
    proof {
        lemma_place_above(before, x.0);
    }
    s.insert(p, x);
}

fn sort_by_key(list: &Vec<(usize, usize)>) -> (r: Vec<(usize, usize)>)
    ensures
        r@ == by_key(list@),
{
    let mut out: Vec<(usize, usize)> = Vec::new();
    let mut i: usize = 0;
    assert(list@.take(0) =~= Seq::<(usize, usize)>::empty());
    while i < list.len()
        invariant
            i <= list@.len(),
            out@ == by_key(list@.take(i as int)),
        decreases list@.len() - i,
    {
        assert(list@.take(i as int + 1).drop_last() =~= list@.take(i as int));
        insert_by_key(&mut out, list[i]);
        i = i + 1;
    }
    assert(list@.take(i as int) =~= list@);
    out
}

// ── medians ────────────────────────────────────────────────────────────────

/// The numbers as keys with nothing behind them.
pub open spec fn as_keys(xs: Seq<usize>) -> Seq<(usize, usize)> {
    xs.map_values(|x: usize| (x, 0usize))
}

/// The middle number; the upper one of the two in the middle.
pub open spec fn middle(xs: Seq<usize>) -> Option<usize> {
    if xs.len() == 0 { None } else { Some(by_key(as_keys(xs))[xs.len() as int / 2].0) }
}

/// Middle value, or `None` for no numbers. The point that minimises the total distance to the
/// inputs, which is what "put this node where its neighbours are" means when the cost is edge
/// length.
pub fn median(xs: &Vec<usize>) -> (r: Option<usize>)
    ensures
        r == middle(xs@),
{
    let n: usize = xs.len();
    if n == 0 {
        return None;
    }
    let mut keys: Vec<(usize, usize)> = Vec::new();
    let mut i: usize = 0;
    while i < n
        invariant
            i <= n,
            n == xs@.len(),
            keys@ == as_keys(xs@).take(i as int),
        decreases n - i,
    {
        keys.push((xs[i], 0));
        assert(as_keys(xs@).take(i as int + 1) =~= as_keys(xs@).take(i as int).push(
            as_keys(xs@)[i as int],
        ));
        i = i + 1;
    }
    assert(keys@ =~= as_keys(xs@));
    let sorted = sort_by_key(&keys);
    proof {
        sorting_by_key(as_keys(xs@));
    }
    Some(sorted[n / 2].0)
}

// ── sweeping ───────────────────────────────────────────────────────────────

/// The columns and places of a board.
#[verifier::ext_equal]
pub struct BoardModel {
    pub rows: Seq<Seq<usize>>,
    pub place: Seq<usize>,
}

impl Board {
    /// The columns and places.
    pub open spec fn model(self) -> BoardModel {
        BoardModel {
            rows: self.rows@.map_values(|row: Vec<usize>| row@),
            place: self.place@,
        }
    }
}

/// The neighbours that a sweep looks at: those to the left on the way right, and the other way round.
pub open spec fn beside(links: Seq<(usize, usize)>, downward: bool, v: usize) -> Seq<usize> {
    if downward { sources(links, v as int) } else { targets(links, v as int) }
}

/// Where `v` is drawn to: the median place of its neighbours, or its own where it has none.
pub open spec fn pull(
    place: Seq<usize>,
    links: Seq<(usize, usize)>,
    downward: bool,
    v: usize,
) -> usize {
    match middle(beside(links, downward, v).map_values(|u: usize| place[u as int])) {
        Some(k) => k,
        None => place[v as int],
    }
}

/// The nodes of a column, each with where it is drawn to.
pub open spec fn keyed(
    place: Seq<usize>,
    links: Seq<(usize, usize)>,
    downward: bool,
    row: Seq<usize>,
) -> Seq<(usize, usize)> {
    row.map_values(|v: usize| (pull(place, links, downward, v), v))
}

/// What stands behind the keys.
pub open spec fn seconds(s: Seq<(usize, usize)>) -> Seq<usize> {
    s.map_values(|p: (usize, usize)| p.1)
}

/// A column ordered by where its nodes are drawn to.
pub open spec fn swept_row(
    place: Seq<usize>,
    links: Seq<(usize, usize)>,
    downward: bool,
    row: Seq<usize>,
) -> Seq<usize> {
    seconds(by_key(keyed(place, links, downward, row)))
}

/// The places after the nodes of `row` have taken theirs, top to bottom.
pub open spec fn settled(place: Seq<usize>, row: Seq<usize>) -> Seq<usize>
    decreases row.len(),
{
    if row.len() == 0 {
        place
    } else {
        settled(place, row.drop_last()).update(row.last() as int, (row.len() - 1) as usize)
    }
}

/// The board after the column `c` was ordered.
pub open spec fn sweep_column(
    b: BoardModel,
    links: Seq<(usize, usize)>,
    downward: bool,
    c: int,
) -> BoardModel {
    let row = swept_row(b.place, links, downward, b.rows[c]);
    BoardModel { rows: b.rows.update(c, row), place: settled(b.place, row) }
}

/// The board after `k` columns were ordered, from the left or from the right.
pub open spec fn swept(
    b: BoardModel,
    links: Seq<(usize, usize)>,
    downward: bool,
    k: nat,
) -> BoardModel
    decreases k,
{
    if k == 0 {
        b
    } else {
        let c = if downward { k - 1 } else { b.rows.len() - k };
        sweep_column(swept(b, links, downward, (k - 1) as nat), links, downward, c)
    }
}

/// The board after `t` sweeps, to the right and to the left in turn.
pub open spec fn sweeps(b: BoardModel, links: Seq<(usize, usize)>, t: nat) -> BoardModel
    decreases t,
{
    if t == 0 {
        b
    } else {
        let before = sweeps(b, links, (t - 1) as nat);
        swept(before, links, (t - 1) % 2 == 0, before.rows.len())
    }
}

proof fn lemma_seconds(s: Seq<(usize, usize)>)
    ensures
        seconds(by_key(s)).to_multiset() == seconds(s).to_multiset(),
    decreases s.len(),
{
    if s.len() > 0 {
        broadcast use vstd::seq_lib::group_to_multiset_ensures;

        let rest = s.drop_last();
        lemma_seconds(rest);
        let before = by_key(rest);
        let p = place_above(before, s.last().0);
        lemma_place_above(before, s.last().0);
        before.insert_ensures(p, s.last());
        assert(seconds(by_key(s)) =~= seconds(before).insert(p, s.last().1));
        assert(seconds(s) =~= seconds(rest).push(s.last().1));
        assert(seconds(by_key(s)).to_multiset() =~= seconds(s).to_multiset());
    }
}

/// Ordering a column keeps its nodes.
pub proof fn sweeping_keeps_nodes(
    place: Seq<usize>,
    links: Seq<(usize, usize)>,
    downward: bool,
    row: Seq<usize>,
)
    ensures
        swept_row(place, links, downward, row).to_multiset() == row.to_multiset(),
{
    lemma_seconds(keyed(place, links, downward, row));
    assert(seconds(keyed(place, links, downward, row)) =~= row);
}

/// What two sequences of the same things share.
proof fn lemma_same_things(a: Seq<usize>, b: Seq<usize>)
    requires
        a.to_multiset() == b.to_multiset(),
        b.no_duplicates(),
    ensures
        a.len() == b.len(),
        a.no_duplicates(),
        forall|x: usize| #[trigger] a.contains(x) <==> b.contains(x),
{
    broadcast use vstd::seq_lib::group_to_multiset_ensures;

    assert(a.len() == a.to_multiset().len());
    assert(b.len() == b.to_multiset().len());
    b.lemma_multiset_has_no_duplicates();
    assert forall|x: usize| #[trigger] a.contains(x) <==> b.contains(x) by {
        assert(a.contains(x) <==> a.to_multiset().count(x) > 0);
        assert(b.contains(x) <==> b.to_multiset().count(x) > 0);
    }
    a.lemma_multiset_has_no_duplicates_conv();
}

/// The places that `settled` gives out.
pub(crate) proof fn lemma_settled(place: Seq<usize>, row: Seq<usize>)
    requires
        row.no_duplicates(),
        row.len() <= usize::MAX,
        forall|i: int| 0 <= i < row.len() ==> (#[trigger] row[i]) < place.len(),
    ensures
        settled(place, row).len() == place.len(),
        forall|i: int| 0 <= i < row.len() ==> settled(place, row)[(#[trigger] row[i]) as int] == i,
        forall|v: int|
            0 <= v < place.len() && !row.contains(v as usize) ==> #[trigger] settled(place, row)[v]
                == place[v],
    decreases row.len(),
{
    if row.len() > 0 {
        let rest = row.drop_last();
        assert forall|i: int| 0 <= i < rest.len() implies (#[trigger] rest[i]) < place.len() by {
            assert(rest[i] == row[i]);
        }
        lemma_settled(place, rest);
        assert(row[row.len() - 1] < place.len());
        assert forall|i: int| 0 <= i < row.len() implies settled(place, row)[(
        #[trigger] row[i]) as int] == i by {
            if i < rest.len() {
                assert(rest[i] == row[i]);
                assert(row[i] != row[row.len() - 1]);
            }
        }
        assert forall|v: int| 0 <= v < place.len() && !row.contains(
            v as usize,
        ) implies #[trigger] settled(place, row)[v] == place[v] by {
            assert(row[row.len() - 1] != v as usize);
            if rest.contains(v as usize) {
                let j = choose|j: int| 0 <= j < rest.len() && rest[j] == v as usize;
                assert(row[j] == v as usize);
            }
        }
    }
}

/// The nodes of a column are distinct.
pub(crate) proof fn lemma_row_distinct(rank: Seq<i32>, board: Board, c: int)
    requires
        board.arranges(rank),
        0 <= c < board.rows@.len(),
    ensures
        board.rows@[c]@.no_duplicates(),
{
    let row = board.rows@[c]@;
    assert forall|i: int, j: int| 0 <= i < row.len() && 0 <= j < row.len() && i != j implies row[i]
        != row[j] by {
        assert(board.place@[row[i] as int] == i);
        assert(board.place@[row[j] as int] == j);
    }
}

/// The same nodes, each once.
pub open spec fn same_nodes(a: Seq<usize>, b: Seq<usize>) -> bool {
    &&& a.no_duplicates()
    &&& forall|x: usize| #[trigger] a.contains(x) <==> b.contains(x)
}

/// Columns with the same distinct nodes are as long.
proof fn lemma_same_length(a: Seq<usize>, b: Seq<usize>)
    requires
        same_nodes(a, b),
        b.no_duplicates(),
    ensures
        a.len() == b.len(),
{
    a.unique_seq_to_set();
    b.unique_seq_to_set();
    assert(a.to_set() =~= b.to_set()) by {
        assert forall|x: usize| a.to_set().contains(x) <==> b.to_set().contains(x) by {
            assert(a.contains(x) <==> b.contains(x));
        }
    }
}

/// Gives the column `c` a new order of the same nodes.
#[verifier::rlimit(60)]
pub(crate) fn reorder(board: &mut Board, c: usize, row: Vec<usize>, Ghost(rank): Ghost<Seq<i32>>)
    requires
        old(board).arranges(rank),
        c < old(board).rows@.len(),
        same_nodes(row@, old(board).rows@[c as int]@),
    ensures
        final(board).arranges(rank),
        same_shape(final(board).rows@, old(board).rows@),
        final(board).place@ == settled(old(board).place@, row@),
        final(board).rows@ == old(board).rows@.update(c as int, final(board).rows@[c as int]),
        final(board).rows@[c as int]@ == row@,
{
    let ghost start = *board;
    let ghost list = row@;
    let ghost row0 = board.rows@[c as int]@;
    proof {
        lemma_row_distinct(rank, *board, c as int);
        lemma_same_length(list, row0);
        assert forall|i: int| 0 <= i < list.len() implies (#[trigger] list[i]) < rank.len()
            && rank[list[i] as int] == c by {
            assert(list.contains(list[i]));
            assert(row0.contains(list[i]));
            let j = choose|j: int| 0 <= j < row0.len() && row0[j] == list[i];
            assert(rank[row0[j] as int] == c);
        }
    }
    let n: usize = row.len();
    let mut i: usize = 0;
    assert(list.take(0) =~= Seq::<usize>::empty());
    while i < n
        invariant
            i <= n,
            n == row@.len(),
            list == row@,
            rank.len() == board.place@.len(),
            forall|i: int| 0 <= i < list.len() ==> (#[trigger] list[i]) < rank.len(),
            board.place@ == settled(start.place@, list.take(i as int)),
            board.rows@ == start.rows@,
        decreases n - i,
    {
        assert(list.take(i as int + 1).drop_last() =~= list.take(i as int));
        board.place.set(row[i], i);
        i = i + 1;
    }
    assert(list.take(i as int) =~= list);
    board.rows.set(c, row);
    proof {
        lemma_settled(start.place@, list);
        assert forall|v: int| 0 <= v < rank.len() implies 0 <= #[trigger] rank[v] < board.rows@.len()
            && board.place@[v] < board.rows@[rank[v] as int]@.len()
            && board.rows@[rank[v] as int]@[board.place@[v] as int] == v by {
            assert(start.rows@[rank[v] as int]@[start.place@[v] as int] == v);
            if rank[v] == c {
                assert(row0.contains(v as usize));
                assert(list.contains(v as usize));
                let j = choose|j: int| 0 <= j < list.len() && list[j] == v as usize;
                assert(board.place@[list[j] as int] == j);
            } else {
                assert(!list.contains(v as usize)) by {
                    if list.contains(v as usize) {
                        let j = choose|j: int| 0 <= j < list.len() && list[j] == v as usize;
                        assert(rank[list[j] as int] == c);
                    }
                }
                assert(board.rows@[rank[v] as int] == start.rows@[rank[v] as int]);
            }
        }
        assert forall|d: int, j: int| 0 <= d < board.rows@.len() && 0 <= j
            < board.rows@[d]@.len() implies (#[trigger] board.rows@[d]@[j]) < rank.len()
            && rank[board.rows@[d]@[j] as int] == d && board.place@[board.rows@[d]@[j] as int] == j by {
            if d == c {
                assert(board.rows@[d]@[j] == list[j]);
            } else {
                assert(board.rows@[d] == start.rows@[d]);
                let v = start.rows@[d]@[j];
                assert(rank[v as int] == d && start.place@[v as int] == j);
                assert(!list.contains(v)) by {
                    if list.contains(v) {
                        let x = choose|x: int| 0 <= x < list.len() && list[x] == v;
                        assert(rank[list[x] as int] == c);
                    }
                }
                assert(((v as int) as usize) == v);
            }
        }
    }
}

fn pull_of(place: &Vec<usize>, near: &Vec<usize>, v: usize) -> (r: usize)
    requires
        v < place@.len(),
        forall|j: int| 0 <= j < near@.len() ==> (#[trigger] near@[j]) < place@.len(),
    ensures
        r == (match middle(near@.map_values(|u: usize| place@[u as int])) {
            Some(k) => k,
            None => place@[v as int],
        }),
{
    let ghost want = near@.map_values(|u: usize| place@[u as int]);
    let mut places: Vec<usize> = Vec::new();
    let mut i: usize = 0;
    while i < near.len()
        invariant
            i <= near@.len(),
            want == near@.map_values(|u: usize| place@[u as int]),
            forall|j: int| 0 <= j < near@.len() ==> (#[trigger] near@[j]) < place@.len(),
            places@ == want.take(i as int),
        decreases near@.len() - i,
    {
        places.push(place[near[i]]);
        assert(want.take(i as int + 1) =~= want.take(i as int).push(want[i as int]));
        i = i + 1;
    }
    assert(places@ =~= want);
    match median(&places) {
        Some(k) => k,
        None => place[v],
    }
}

/// Orders the column `c` by where its nodes are drawn to.
#[verifier::rlimit(40)]
fn order_column(
    board: &mut Board,
    wiring: &Wiring,
    downward: bool,
    c: usize,
    Ghost(rank): Ghost<Seq<i32>>,
)
    requires
        old(board).arranges(rank),
        wiring.wires(rank.len()),
        c < old(board).rows@.len(),
    ensures
        final(board).arranges(rank),
        same_shape(final(board).rows@, old(board).rows@),
        final(board).model() == sweep_column(
            old(board).model(),
            wiring.links@,
            downward,
            c as int,
        ),
{
    let ghost links = wiring.links@;
    let ghost start = *board;
    let ghost row = board.rows@[c as int]@;
    let ghost want = keyed(board.place@, links, downward, row);
    let n: usize = board.rows[c].len();
    let mut keys: Vec<(usize, usize)> = Vec::new();
    let mut i: usize = 0;
    while i < n
        invariant
            i <= n,
            n == row.len(),
            *board == start,
            board.arranges(rank),
            wiring.wires(rank.len()),
            links == wiring.links@,
            c < board.rows@.len(),
            row == board.rows@[c as int]@,
            want == keyed(board.place@, links, downward, row),
            keys@ == want.take(i as int),
        decreases n - i,
    {
        let v = board.rows[c][i];
        assert(row[i as int] == v);
        assert(v < rank.len());
        proof {
            crate::crossings::lemma_ends(links, v as int, rank.len());
            assert(wiring.ins@[v as int]@ == sources(links, v as int));
            assert(wiring.outs@[v as int]@ == targets(links, v as int));
        }
        let key = if downward {
            pull_of(&board.place, &wiring.ins[v], v)
        } else {
            pull_of(&board.place, &wiring.outs[v], v)
        };
        keys.push((key, v));
        assert(want[i as int] == (key, v));
        assert(want.take(i as int + 1) =~= want.take(i as int).push(want[i as int]));
        i = i + 1;
    }
    assert(keys@ =~= want);
    let sorted = sort_by_key(&keys);
    let ghost target = seconds(sorted@);
    let mut list: Vec<usize> = Vec::new();
    let mut k: usize = 0;
    while k < sorted.len()
        invariant
            k <= sorted@.len(),
            target == seconds(sorted@),
            list@ == target.take(k as int),
        decreases sorted@.len() - k,
    {
        list.push(sorted[k].1);
        assert(target.take(k as int + 1) =~= target.take(k as int).push(target[k as int]));
        k = k + 1;
    }
    assert(list@ =~= target);
    proof {
        sweeping_keeps_nodes(start.place@, links, downward, row);
        lemma_row_distinct(rank, *board, c as int);
        lemma_same_things(list@, row);
    }
    let ghost goal = sweep_column(start.model(), links, downward, c as int);
    assert(start.model().rows[c as int] == row);
    reorder(board, c, list, Ghost(rank));
    assert(board.model().rows =~= goal.rows);
    assert(board.model() =~= goal);
}

/// Sweeps back and forth over the columns.
pub(crate) fn sweep_columns(
    board: &mut Board,
    wiring: &Wiring,
    times: usize,
    Ghost(rank): Ghost<Seq<i32>>,
)
    requires
        old(board).arranges(rank),
        wiring.wires(rank.len()),
    ensures
        final(board).arranges(rank),
        same_shape(final(board).rows@, old(board).rows@),
        final(board).model() == sweeps(old(board).model(), wiring.links@, times as nat),
{
    let ghost links = wiring.links@;
    let ghost start = *board;
    let count: usize = board.rows.len();
    let mut t: usize = 0;
    while t < times
        invariant
            t <= times,
            count == board.rows@.len(),
            board.arranges(rank),
            wiring.wires(rank.len()),
            links == wiring.links@,
            same_shape(board.rows@, start.rows@),
            board.model() == sweeps(start.model(), links, t as nat),
        decreases times - t,
    {
        let downward: bool = t % 2 == 0;
        let ghost before = board.model();
        assert(before.rows.len() == count);
        let mut k: usize = 0;
        while k < count
            invariant
                k <= count,
                count == board.rows@.len(),
                count == before.rows.len(),
                board.arranges(rank),
                wiring.wires(rank.len()),
                links == wiring.links@,
                same_shape(board.rows@, start.rows@),
                board.model() == swept(before, links, downward, k as nat),
            decreases count - k,
        {
            let c: usize = if downward { k } else { count - 1 - k };
            order_column(board, wiring, downward, c, Ghost(rank));
            k = k + 1;
        }
        t = t + 1;
    }
}

} // verus!
