//! What a type is connected to, told of the cards; and what an until marker says, told of the reason.

use vstd::prelude::*;

use crate::browse::{
    are_connected, are_sections, by_card_name, fields_to, implementing, members_among, referencing,
    MentionModel, Sections,
};
use crate::cards::{CardModel, RowKind, RowModel};
use crate::panels::numbers;
use crate::sorting::{arranged, arranging_sorts, ascends};
use crate::text::{is_white, skip_white};
use crate::types::NodeKind;
use crate::until::{expired, first_marker, iso_date_at, is_date, is_marker, marker_date, until_date};

verus! {

// ── sections ───────────────────────────────────────────────────────────────

/// The list mentions the card.
pub open spec fn mentions(list: Seq<MentionModel>, card: int) -> bool {
    exists|k: int| 0 <= k < list.len() && (#[trigger] list[k]).card == card
}

/// Some field of the card leads to `to`.
pub open spec fn has_field_to(c: CardModel, to: u32) -> bool {
    exists|k: int|
        0 <= k < c.rows.len() && (#[trigger] c.rows[k]).kind == RowKind::Field && c.rows[k].target
            == Some(to)
}

/// Some row of the union leads to its member `to`.
pub open spec fn has_variant(c: CardModel, to: int) -> bool {
    exists|k: int|
        0 <= k < c.rows.len() && (#[trigger] c.rows[k]).kind == RowKind::UnionMember && (
        c.rows[k].target matches Some(t) && t == to)
}

proof fn lemma_sorted_mentions(cards: Seq<CardModel>, list: Seq<MentionModel>, card: int)
    requires
        list.len() <= usize::MAX,
    ensures
        mentions(by_card_name(cards, list), card) <==> mentions(list, card),
{
    broadcast use vstd::seq_lib::group_to_multiset_ensures;

    let keys = list.map_values(|m: MentionModel| (cards[m.card as int].name, Seq::<char>::empty()));
    let all = numbers(list.len());
    assert(ascends(all));
    arranging_sorts(keys, all);
    let order = arranged(keys, all);
    let s = by_card_name(cards, list);
    if mentions(list, card) {
        let k = choose|k: int| 0 <= k < list.len() && (#[trigger] list[k]).card == card;
        assert(all[k] == k as usize);
        assert(all.to_multiset().count(k as usize) > 0);
        assert(order.contains(k as usize));
        let x = choose|x: int| 0 <= x < order.len() && order[x] == k as usize;
        assert(s[x] == list[k]);
    }
    if mentions(s, card) {
        let x = choose|x: int| 0 <= x < s.len() && (#[trigger] s[x]).card == card;
        let v = order[x];
        assert(order.to_multiset().count(v) > 0);
        assert(all.contains(v));
        let k = choose|k: int| 0 <= k < all.len() && all[k] == v;
        assert(list[v as int] == s[x]);
    }
}

proof fn lemma_implementing(cards: Seq<CardModel>, name: Seq<char>, n: nat, i: int)
    requires
        are_connected(cards),
        n <= cards.len(),
        0 <= i < cards.len(),
    ensures
        implementing(cards.take(n as int), name).len() <= n,
        mentions(implementing(cards.take(n as int), name), i) <==> i < n
            && cards[i].implements.contains(name),
    decreases n,
{
    let now = cards.take(n as int);
    if n > 0 {
        lemma_implementing(cards, name, (n - 1) as nat, i);
        assert(now.drop_last() =~= cards.take(n - 1));
        let before = implementing(cards.take(n - 1), name);
        let all = implementing(now, name);
        assert(now.last() == cards[n - 1]);
        assert(cards[n - 1].index == n - 1);
        if mentions(before, i) {
            let k = choose|k: int| 0 <= k < before.len() && (#[trigger] before[k]).card == i;
            assert(all[k] == before[k]);
        }
        if mentions(all, i) {
            let k = choose|k: int| 0 <= k < all.len() && (#[trigger] all[k]).card == i;
            if k < before.len() {
                assert(all[k] == before[k]);
                assert(before[k].card == i);
            }
        }
        if i == n - 1 && cards[i].implements.contains(name) {
            assert(all[before.len() as int].card == i);
        }
    }
}

proof fn lemma_fields_to(rows: Seq<RowModel>, card: u32)
    ensures
        fields_to(rows, card).len() > 0 <==> exists|k: int|
            0 <= k < rows.len() && (#[trigger] rows[k]).kind == RowKind::Field && rows[k].target
                == Some(card),
    decreases rows.len(),
{
    if rows.len() > 0 {
        let less = rows.drop_last();
        lemma_fields_to(less, card);
        let end = rows.len() - 1;
        assert(rows.last() == rows[end]);
        if fields_to(less, card).len() > 0 {
            let k = choose|k: int|
                0 <= k < less.len() && (#[trigger] less[k]).kind == RowKind::Field && less[k].target
                    == Some(card);
            assert(rows[k] == less[k]);
        }
        if exists|k: int|
            0 <= k < rows.len() && (#[trigger] rows[k]).kind == RowKind::Field && rows[k].target
                == Some(card) {
            let k = choose|k: int|
                0 <= k < rows.len() && (#[trigger] rows[k]).kind == RowKind::Field && rows[k].target
                    == Some(card);
            if k < end {
                assert(less[k] == rows[k]);
            }
        }
    }
}

proof fn lemma_referencing(cards: Seq<CardModel>, card: u32, n: nat, i: int)
    requires
        are_connected(cards),
        n <= cards.len(),
        0 <= i < cards.len(),
    ensures
        referencing(cards.take(n as int), card).len() <= n,
        mentions(referencing(cards.take(n as int), card), i) <==> i < n && has_field_to(
            cards[i],
            card,
        ),
    decreases n,
{
    let now = cards.take(n as int);
    if n > 0 {
        lemma_referencing(cards, card, (n - 1) as nat, i);
        assert(now.drop_last() =~= cards.take(n - 1));
        let before = referencing(cards.take(n - 1), card);
        let all = referencing(now, card);
        assert(now.last() == cards[n - 1]);
        assert(cards[n - 1].index == n - 1);
        lemma_fields_to(cards[n - 1].rows, card);
        if mentions(before, i) {
            let k = choose|k: int| 0 <= k < before.len() && (#[trigger] before[k]).card == i;
            assert(all[k] == before[k]);
        }
        if mentions(all, i) {
            let k = choose|k: int| 0 <= k < all.len() && (#[trigger] all[k]).card == i;
            if k < before.len() {
                assert(all[k] == before[k]);
                assert(before[k].card == i);
            }
        }
        if i == n - 1 && has_field_to(cards[i], card) {
            assert(all[before.len() as int].card == i);
        }
    }
}

proof fn lemma_members(cards: Seq<CardModel>, rows: Seq<RowModel>, name: Seq<char>, i: int)
    ensures
        members_among(cards, rows, name).len() <= rows.len(),
        mentions(members_among(cards, rows, name), i) <==> exists|k: int|
            0 <= k < rows.len() && (#[trigger] rows[k]).kind == RowKind::UnionMember && (
            rows[k].target matches Some(t) && t == i),
    decreases rows.len(),
{
    if rows.len() > 0 {
        let less = rows.drop_last();
        lemma_members(cards, less, name, i);
        let before = members_among(cards, less, name);
        let all = members_among(cards, rows, name);
        let end = rows.len() - 1;
        assert(rows.last() == rows[end]);
        if mentions(all, i) {
            let k = choose|k: int| 0 <= k < all.len() && (#[trigger] all[k]).card == i;
            if k < before.len() {
                assert(before[k].card == i);
                let j = choose|j: int|
                    0 <= j < less.len() && (#[trigger] less[j]).kind == RowKind::UnionMember && (
                    less[j].target matches Some(t) && t == i);
                assert(rows[j] == less[j]);
            } else {
                assert(rows[end].kind == RowKind::UnionMember);
            }
        }
        if exists|k: int|
            0 <= k < rows.len() && (#[trigger] rows[k]).kind == RowKind::UnionMember && (
            rows[k].target matches Some(t) && t == i) {
            let k = choose|k: int|
                0 <= k < rows.len() && (#[trigger] rows[k]).kind == RowKind::UnionMember && (
                rows[k].target matches Some(t) && t == i);
            if k < end {
                assert(less[k] == rows[k]);
                let j = choose|j: int| 0 <= j < before.len() && (#[trigger] before[j]).card == i;
                assert(all[j] == before[j]);
            } else {
                assert(all[before.len() as int].card == i);
            }
        }
    }
}

/// What a type is connected to: an interface lists exactly the types that implement it, a union exactly
/// the types that its rows lead to, and every type exactly those that have a field of it.
pub proof fn sections_list_what_is_connected(
    s: Sections,
    cards: Seq<CardModel>,
    card: u32,
    i: int,
)
    requires
        are_sections(s, cards, card),
        are_connected(cards),
        card < cards.len() <= usize::MAX,
        cards[card as int].rows.len() <= usize::MAX,
        0 <= i < cards.len(),
    ensures
        mentions(s.implementers.deep_view(), i) <==> cards[card as int].kind == NodeKind::Interface
            && cards[i].implements.contains(cards[card as int].name),
        mentions(s.union_members.deep_view(), i) <==> cards[card as int].kind == NodeKind::Union
            && has_variant(cards[card as int], i),
        mentions(s.referenced_by.deep_view(), i) <==> has_field_to(cards[i], card),
{
    let c = cards[card as int];
    assert(cards.take(cards.len() as int) =~= cards);
    lemma_implementing(cards, c.name, cards.len(), i);
    lemma_referencing(cards, card, cards.len(), i);
    lemma_members(cards, c.rows, c.name, i);
    lemma_sorted_mentions(cards, implementing(cards, c.name), i);
    lemma_sorted_mentions(cards, referencing(cards, card), i);
    lemma_sorted_mentions(cards, members_among(cards, c.rows, c.name), i);
    assert(!mentions(Seq::<MentionModel>::empty(), i));
}

// ── until markers ──────────────────────────────────────────────────────────

/// A date as it is written: four digits, two and two, with dashes between.
pub open spec fn is_written_date(d: Seq<char>) -> bool {
    &&& d.len() == 10
    &&& d[4] == '-' && d[7] == '-'
    &&& forall|k: int| 0 <= k < 10 && k != 4 && k != 7 ==> '0' <= #[trigger] d[k] <= '9'
}

/// A reason that says `[until …]` gives the date in the brackets, whatever stands before and after;
/// before it there is no other bracket.
pub proof fn markers_give_their_date(before: Seq<char>, date: Seq<char>, after: Seq<char>)
    requires
        !before.contains('['),
        is_written_date(date),
    ensures
        until_date(before + "[until "@ + date + "]"@ + after) == Some(date),
{
    reveal_strlit("[until ");
    reveal_strlit("]");
    let s = before + "[until "@ + date + "]"@ + after;
    let b = before.len() as int;
    assert(s[b] == '[' && s[b + 1] == 'u' && s[b + 2] == 'n' && s[b + 3] == 't' && s[b + 4] == 'i'
        && s[b + 5] == 'l' && s[b + 6] == ' ');
    let d = b + 7;
    assert forall|k: int| 0 <= k < 10 implies s[d + k] == #[trigger] date[k] by {}
    assert(s[d + 10] == ']');
    assert('0' <= date[0] <= '9');
    assert(s[d] == date[0]);
    assert(skip_white(s, b + 1) == b + 1);
    assert(!is_white(s[d]));
    assert(skip_white(s, d) == d);
    assert(skip_white(s, b + 6) == d);
    assert(marker_date(s, b + 1) == d);
    assert(skip_white(s, d + 10) == d + 10);
    assert(iso_date_at(s, d)) by {
        assert(s[d + 1] == date[1] && s[d + 2] == date[2] && s[d + 3] == date[3]);
        assert(s[d + 4] == date[4] && s[d + 5] == date[5] && s[d + 6] == date[6]);
        assert(s[d + 7] == date[7] && s[d + 8] == date[8] && s[d + 9] == date[9]);
    }
    assert(is_marker(s, b + 1));
    lemma_marker_at(s, 0, b);
    assert(s.subrange(d, d + 10) =~= date);
}

proof fn lemma_marker_at(s: Seq<char>, i: int, b: int)
    requires
        0 <= i <= b < s.len(),
        s[b] == '[',
        is_marker(s, b + 1),
        forall|k: int| i <= k < b ==> s[k] != '[',
    ensures
        first_marker(s, i) == b,
    decreases b - i,
{
    if i < b {
        lemma_marker_at(s, i + 1, b);
    }
}

/// A member is due through the whole of its day: on the day itself it has not expired.
pub proof fn the_day_itself_is_not_over(date: Seq<char>)
    ensures
        !expired(Some(date), date),
{
}

/// A date has expired on every later day of its month, and in every later month of its year.
pub proof fn dates_expire_afterwards(date: Seq<char>, today: Seq<char>)
    requires
        is_date(date),
        is_date(today),
    ensures
        date.take(8) == today.take(8) ==> (expired(Some(date), today) <==> date[8] < today[8] || (
        date[8] == today[8] && date[9] < today[9])),
        date.take(5) == today.take(5) && date.subrange(5, 7) != today.subrange(5, 7) ==> (expired(
            Some(date),
            today,
        ) <==> date[5] < today[5] || (date[5] == today[5] && date[6] < today[6])),
{
    if date.take(8) == today.take(8) {
        assert forall|k: int| 0 <= k < 8 implies #[trigger] date[k] == today[k] by {
            assert(date.take(8)[k] == today.take(8)[k]);
        }
        assert(date[0] == today[0] && date[1] == today[1] && date[2] == today[2] && date[3]
            == today[3] && date[5] == today[5] && date[6] == today[6]);
    }
    if date.take(5) == today.take(5) {
        assert forall|k: int| 0 <= k < 5 implies #[trigger] date[k] == today[k] by {
            assert(date.take(5)[k] == today.take(5)[k]);
        }
        assert(date[0] == today[0] && date[1] == today[1] && date[2] == today[2] && date[3]
            == today[3]);
        if date.subrange(5, 7) != today.subrange(5, 7) {
            if date[5] == today[5] && date[6] == today[6] {
                assert(date.subrange(5, 7) =~= today.subrange(5, 7));
            }
        }
    }
}

} // verus!
