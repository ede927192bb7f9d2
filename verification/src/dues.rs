//! Which deprecated members the list of deadlines shows, told of the fields and values themselves.

use vstd::prelude::*;

use crate::deadlines::Variant;
use crate::finds::field_count;
use crate::panels::{
    all_group_rows, entries_of, entry_key, entry_row, group_place, group_rows, groups_of,
    member_entries, members_of, numbers, ordered_entries, section_of, section_rows, until_rows,
    EntryModel, MemberModel, UntilModel,
};
use crate::sorting::{arranged, arranging_sorts, ascends};
use crate::types::{NodeKind, NodeModel};
use crate::until::{expired, until_of};

verus! {

/// The list has a row of that section for the member `row` of the type `card`.
pub open spec fn lists(
    rows: Seq<UntilModel>,
    variant: Variant,
    card: int,
    row: int,
    name: Seq<char>,
    date: Option<Seq<char>>,
) -> bool {
    exists|k: int|
        0 <= k < rows.len() && ((#[trigger] rows[k]) matches UntilModel::Field {
            variant: v,
            card: c,
            row: r,
            name: n,
            date: d,
            meta: m,
        } && v == variant && c == card && r == row && n == name && d == date)
}

proof fn lemma_joined(a: Seq<UntilModel>, b: Seq<UntilModel>, x: UntilModel)
    ensures
        a.contains(x) ==> (a + b).contains(x),
        b.contains(x) ==> (a + b).contains(x),
{
    if a.contains(x) {
        let k = choose|k: int| 0 <= k < a.len() && a[k] == x;
        assert((a + b)[k] == x);
    }
    if b.contains(x) {
        let k = choose|k: int| 0 <= k < b.len() && b[k] == x;
        assert((a + b)[a.len() + k] == x);
    }
}

proof fn lemma_member_listed(
    members: Seq<MemberModel>,
    card: usize,
    today: Seq<char>,
    variant: Variant,
    k: int,
)
    requires
        0 <= k < members.len(),
        section_of(members[k], today) == Some(variant),
    ensures
        member_entries(members, card, today, variant).contains(
            EntryModel {
                card,
                row: k as usize,
                name: members[k].name,
                until: until_of(members[k].reason),
                reason: members[k].reason,
            },
        ),
    decreases members.len(),
{
    let less = members.drop_last();
    let before = member_entries(less, card, today, variant);
    let all = member_entries(members, card, today, variant);
    let e = EntryModel {
        card,
        row: k as usize,
        name: members[k].name,
        until: until_of(members[k].reason),
        reason: members[k].reason,
    };
    if k < less.len() {
        assert(less[k] == members[k]);
        lemma_member_listed(less, card, today, variant, k);
        let x = choose|x: int| 0 <= x < before.len() && before[x] == e;
        assert(all[x] == e);
    } else {
        assert(all[before.len() as int] == e);
    }
}

proof fn lemma_entry_listed(
    nodes: Seq<NodeModel>,
    today: Seq<char>,
    variant: Variant,
    i: int,
    e: EntryModel,
)
    requires
        0 <= i < nodes.len() <= usize::MAX,
        member_entries(members_of(nodes[i]), i as usize, today, variant).contains(e),
    ensures
        entries_of(nodes, today, variant).contains(e),
    decreases nodes.len(),
{
    let less = nodes.drop_last();
    let before = entries_of(less, today, variant);
    let all = entries_of(nodes, today, variant);
    if i < less.len() {
        assert(less[i] == nodes[i]);
        lemma_entry_listed(less, today, variant, i, e);
        let x = choose|x: int| 0 <= x < before.len() && before[x] == e;
        assert(all[x] == e);
    } else {
        let more = member_entries(members_of(nodes[i]), i as usize, today, variant);
        let x = choose|x: int| 0 <= x < more.len() && more[x] == e;
        assert(all[before.len() + x] == e);
    }
}

proof fn lemma_ordered(nodes: Seq<NodeModel>, entries: Seq<EntryModel>, e: EntryModel)
    requires
        entries.len() <= usize::MAX,
        entries.contains(e),
    ensures
        ordered_entries(nodes, entries).contains(e),
{
    broadcast use vstd::seq_lib::group_to_multiset_ensures;

    let keys = entries.map_values(|e: EntryModel| entry_key(nodes, e));
    let all = numbers(entries.len());
    assert(ascends(all));
    arranging_sorts(keys, all);
    let order = arranged(keys, all);
    let k = choose|k: int| 0 <= k < entries.len() && entries[k] == e;
    assert(all[k] == k as usize);
    assert(all.contains(k as usize));
    assert(all.to_multiset().count(k as usize) > 0);
    assert(order.contains(k as usize));
    let x = choose|x: int| 0 <= x < order.len() && order[x] == k as usize;
    assert(ordered_entries(nodes, entries)[x] == e);
}

/// The groups hold the entry.
spec fn is_grouped(groups: Seq<Seq<EntryModel>>, e: EntryModel) -> bool {
    exists|g: int| 0 <= g < groups.len() && (#[trigger] groups[g]).contains(e)
}

proof fn lemma_place(groups: Seq<Seq<EntryModel>>, card: usize)
    ensures
        -1 <= group_place(groups, card) < groups.len(),
    decreases groups.len(),
{
    if groups.len() > 0 {
        lemma_place(groups.drop_last(), card);
    }
}

proof fn lemma_grouped(entries: Seq<EntryModel>, e: EntryModel)
    requires
        entries.contains(e),
    ensures
        is_grouped(groups_of(entries), e),
    decreases entries.len(),
{
    let less = entries.drop_last();
    let before = groups_of(less);
    let all = groups_of(entries);
    let last = entries.last();
    lemma_place(before, last.card);
    let p = group_place(before, last.card);
    let k = choose|k: int| 0 <= k < entries.len() && entries[k] == e;
    if k < less.len() {
        assert(less[k] == e);
        lemma_grouped(less, e);
        let g = choose|g: int| 0 <= g < before.len() && (#[trigger] before[g]).contains(e);
        let x = choose|x: int| 0 <= x < before[g].len() && before[g][x] == e;
        assert(all[g][x] == e);
        assert(all[g].contains(e));
    } else if p >= 0 {
        assert(all[p][before[p].len() as int] == e);
        assert(all[p].contains(e));
    } else {
        assert(all[before.len() as int][0] == e);
        assert(all[before.len() as int].contains(e));
    }
}

proof fn lemma_group_shown(
    nodes: Seq<NodeModel>,
    variant: Variant,
    today: Seq<char>,
    groups: Seq<Seq<EntryModel>>,
    e: EntryModel,
)
    requires
        is_grouped(groups, e),
    ensures
        all_group_rows(nodes, variant, today, groups).contains(entry_row(variant, today, e)),
    decreases groups.len(),
{
    let g = choose|g: int| 0 <= g < groups.len() && (#[trigger] groups[g]).contains(e);
    let less = groups.drop_last();
    let before = all_group_rows(nodes, variant, today, less);
    let more = group_rows(nodes, variant, today, groups.last());
    let row = entry_row(variant, today, e);
    lemma_joined(before, more, row);
    if g < less.len() {
        assert(less[g].contains(e));
        lemma_group_shown(nodes, variant, today, less, e);
    } else {
        let group = groups.last();
        let x = choose|x: int| 0 <= x < group.len() && group[x] == e;
        assert(more[x + 1] == row);
    }
}

proof fn lemma_listed(
    nodes: Seq<NodeModel>,
    today: Seq<char>,
    variant: Variant,
    i: int,
    k: int,
)
    requires
        0 <= i < nodes.len() <= usize::MAX,
        entries_of(nodes, today, variant).len() <= usize::MAX,
        0 <= k < members_of(nodes[i]).len() <= usize::MAX,
        section_of(members_of(nodes[i])[k], today) == Some(variant),
    ensures
        ({
            let m = members_of(nodes[i])[k];
            lists(until_rows(nodes, today), variant, i, k, m.name, until_of(m.reason))
        }),
{
    let m = members_of(nodes[i])[k];
    let e = EntryModel {
        card: i as usize,
        row: k as usize,
        name: m.name,
        until: until_of(m.reason),
        reason: m.reason,
    };
    let row = entry_row(variant, today, e);
    lemma_member_listed(members_of(nodes[i]), i as usize, today, variant, k);
    lemma_entry_listed(nodes, today, variant, i, e);
    let entries = entries_of(nodes, today, variant);
    lemma_ordered(nodes, entries, e);
    let ordered = ordered_entries(nodes, entries);
    lemma_grouped(ordered, e);
    lemma_group_shown(nodes, variant, today, groups_of(ordered), e);
    let rows = all_group_rows(nodes, variant, today, groups_of(ordered));
    let section = section_rows(nodes, today, variant);
    let head = seq![
        UntilModel::Banner { variant, count: crate::panels::count_text(entries.len()) },
    ];
    lemma_joined(head, rows, row);
    assert(section == head + rows);
    let a = section_rows(nodes, today, Variant::Expired);
    let b = section_rows(nodes, today, Variant::Upcoming);
    let c = section_rows(nodes, today, Variant::Undated);
    lemma_joined(a, b, row);
    lemma_joined(a + b, c, row);
    let all = until_rows(nodes, today);
    assert(all.contains(row));
    let x = choose|x: int| 0 <= x < all.len() && all[x] == row;
    assert(all[x] == row);
}

/// There are few enough entries to number them.
pub open spec fn can_list(nodes: Seq<NodeModel>, today: Seq<char>) -> bool {
    &&& nodes.len() <= usize::MAX
    &&& forall|v: Variant| (#[trigger] entries_of(nodes, today, v)).len() <= usize::MAX
}

/// Every field whose reason names a date is listed with it, among the expired ones or the upcoming
/// ones as the date says; every other deprecated field is listed among those without a date.
pub proof fn deprecated_fields_are_listed(nodes: Seq<NodeModel>, today: Seq<char>, i: int, k: int)
    requires
        can_list(nodes, today),
        0 <= i < nodes.len(),
        nodes[i].kind != NodeKind::Enum,
        0 <= k < field_count(nodes[i]) <= usize::MAX,
    ensures
        ({
            let f = nodes[i].fields->0[k];
            let rows = until_rows(nodes, today);
            match until_of(f.deprecation_reason) {
                Some(date) => lists(
                    rows,
                    if expired(Some(date), today) {
                        Variant::Expired
                    } else {
                        Variant::Upcoming
                    },
                    i,
                    k,
                    f.name,
                    Some(date),
                ),
                None => f.is_deprecated ==> lists(rows, Variant::Undated, i, k, f.name, None),
            }
        }),
{
    let f = nodes[i].fields->0[k];
    let m = members_of(nodes[i])[k];
    assert(m.name == f.name && m.reason == f.deprecation_reason && m.is_deprecated
        == f.is_deprecated);
    if let Some(v) = section_of(m, today) {
        assert(entries_of(nodes, today, v).len() <= usize::MAX);
        lemma_listed(nodes, today, v, i, k);
    }
}

/// The same of the values of an enum.
pub proof fn deprecated_values_are_listed(nodes: Seq<NodeModel>, today: Seq<char>, i: int, k: int)
    requires
        can_list(nodes, today),
        0 <= i < nodes.len(),
        nodes[i].kind == NodeKind::Enum,
        nodes[i].values is Some,
        0 <= k < nodes[i].values->0.len() <= usize::MAX,
    ensures
        ({
            let f = nodes[i].values->0[k];
            let rows = until_rows(nodes, today);
            match until_of(f.deprecation_reason) {
                Some(date) => lists(
                    rows,
                    if expired(Some(date), today) {
                        Variant::Expired
                    } else {
                        Variant::Upcoming
                    },
                    i,
                    k,
                    f.name,
                    Some(date),
                ),
                None => f.is_deprecated ==> lists(rows, Variant::Undated, i, k, f.name, None),
            }
        }),
{
    let f = nodes[i].values->0[k];
    let m = members_of(nodes[i])[k];
    assert(m.name == f.name && m.reason == f.deprecation_reason && m.is_deprecated
        == f.is_deprecated);
    if let Some(v) = section_of(m, today) {
        assert(entries_of(nodes, today, v).len() <= usize::MAX);
        lemma_listed(nodes, today, v, i, k);
    }
}

} // verus!
