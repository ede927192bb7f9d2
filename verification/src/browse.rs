//! The sidebar tree: filtering of search hits, root operations, and what a selected type is
//! connected to.

use vstd::prelude::*;

use crate::cards::{
    can_number, card_index, field_rows, index_of, lemma_weight, rows_of, Card, CardModel, KnobModel,
    RowKind, RowModel,
};
use crate::copies::Duplicate;
use crate::edges::{builtin_scalar, is_builtin_scalar, node_ids};
use crate::extensions::or_empty;
use crate::geometry::cards_of;
use crate::lists::{has_name, lemma_last_place};
use crate::panels::numbers;
use crate::recents::{remove_search, without};
use crate::search::SearchResult;
use crate::slices::{declared_roots, push_slot};
use crate::sorting::{arrange, arranged};
use crate::types::{FieldModel, GraphNodeData, NodeKind, NodeModel, RootTypeMap};

verus! {

// ── search hits ────────────────────────────────────────────────────────────

/// The kinds of hits.
pub open spec fn hit_kinds(results: Seq<SearchResult>) -> Seq<NodeKind> {
    results.map_values(|r: SearchResult| r.type_kind)
}

/// The filter lets the kind through; an empty filter lets all through.
pub open spec fn lets_through(filter: Seq<NodeKind>, kind: NodeKind) -> bool {
    filter.len() == 0 || filter.contains(kind)
}

/// The places of the hits that the filter lets through, in order.
pub open spec fn kept_hits(kinds: Seq<NodeKind>, filter: Seq<NodeKind>) -> Seq<usize>
    decreases kinds.len(),
{
    if kinds.len() == 0 {
        Seq::empty()
    } else if lets_through(filter, kinds.last()) {
        kept_hits(kinds.drop_last(), filter).push((kinds.len() - 1) as usize)
    } else {
        kept_hits(kinds.drop_last(), filter)
    }
}

/// How many hits are of a kind.
pub open spec fn kind_count(kinds: Seq<NodeKind>, kind: NodeKind) -> nat
    decreases kinds.len(),
{
    if kinds.len() == 0 {
        0
    } else {
        kind_count(kinds.drop_last(), kind) + (if kinds.last() == kind {
            1nat
        } else {
            0
        })
    }
}

/// A filter of one kind keeps as many hits as the kind's chip counts.
pub proof fn a_chip_counts_what_it_keeps(kinds: Seq<NodeKind>, kind: NodeKind)
    ensures
        kept_hits(kinds, seq![kind]).len() == kind_count(kinds, kind),
    decreases kinds.len(),
{
    if kinds.len() > 0 {
        a_chip_counts_what_it_keeps(kinds.drop_last(), kind);
        let filter = seq![kind];
        assert(filter[0] == kind);
        assert(filter.contains(kinds.last()) <==> kinds.last() == kind);
    }
}

#[verifier::loop_isolation(false)]
pub(crate) fn has_kind(filter: &Vec<NodeKind>, kind: NodeKind) -> (r: bool)
    ensures
        r == filter@.contains(kind),
{
    let mut i: usize = 0;
    while i < filter.len()
        invariant
            i <= filter@.len(),
            forall|k: int| 0 <= k < i ==> #[trigger] filter@[k] != kind,
        decreases filter@.len() - i,
    {
        if filter[i] == kind {
            assert(filter@[i as int] == kind);
            return true;
        }
        i = i + 1;
    }
    false
}

/// The places of the hits that the kind filter lets through.
pub fn filter_hits(results: &Vec<SearchResult>, filter: &Vec<NodeKind>) -> (r: Vec<usize>)
    ensures
        r@ == kept_hits(hit_kinds(results@), filter@),
{
    let ghost kinds = hit_kinds(results@);
    let mut out: Vec<usize> = Vec::new();
    let mut i: usize = 0;
    assert(kinds.take(0) =~= Seq::<NodeKind>::empty());
    while i < results.len()
        invariant
            i <= results@.len(),
            kinds == hit_kinds(results@),
            out@ == kept_hits(kinds.take(i as int), filter@),
        decreases results@.len() - i,
    {
        assert(kinds.take(i as int + 1).drop_last() =~= kinds.take(i as int));
        if filter.len() == 0 || has_kind(filter, results[i].type_kind) {
            out.push(i);
        }
        i = i + 1;
    }
    assert(kinds.take(i as int) =~= kinds);
    out
}

/// How many hits are of a kind: the number on the kind's chip.
pub fn count_kind(results: &Vec<SearchResult>, kind: NodeKind) -> (r: usize)
    ensures
        r == kind_count(hit_kinds(results@), kind),
{
    let ghost kinds = hit_kinds(results@);
    let mut n: usize = 0;
    let mut i: usize = 0;
    assert(kinds.take(0) =~= Seq::<NodeKind>::empty());
    while i < results.len()
        invariant
            i <= results@.len(),
            kinds == hit_kinds(results@),
            n == kind_count(kinds.take(i as int), kind),
            n <= i,
        decreases results@.len() - i,
    {
        assert(kinds.take(i as int + 1).drop_last() =~= kinds.take(i as int));
        if results[i].type_kind == kind {
            n = n + 1;
        }
        i = i + 1;
    }
    assert(kinds.take(i as int) =~= kinds);
    n
}

/// The kinds other than `kind`, in order.
pub open spec fn kinds_without(filter: Seq<NodeKind>, kind: NodeKind) -> Seq<NodeKind>
    decreases filter.len(),
{
    if filter.len() == 0 {
        Seq::empty()
    } else if filter.last() != kind {
        kinds_without(filter.drop_last(), kind).push(filter.last())
    } else {
        kinds_without(filter.drop_last(), kind)
    }
}

/// The filter after a click on the chip of `kind`.
pub open spec fn toggled(filter: Seq<NodeKind>, kind: NodeKind) -> Seq<NodeKind> {
    if filter.contains(kind) {
        kinds_without(filter, kind)
    } else {
        filter.push(kind)
    }
}

proof fn lemma_kinds_without(filter: Seq<NodeKind>, kind: NodeKind)
    ensures
        forall|k: NodeKind|
            #[trigger] kinds_without(filter, kind).contains(k) <==> filter.contains(k) && k != kind,
        !filter.contains(kind) ==> kinds_without(filter, kind) == filter,
    decreases filter.len(),
{
    if filter.len() > 0 {
        let rest = filter.drop_last();
        let last = filter.last();
        lemma_kinds_without(rest, kind);
        let kept = kinds_without(rest, kind);
        assert(filter =~= rest.push(last));
        assert forall|k: NodeKind| #[trigger] kinds_without(filter, kind).contains(k)
            <==> filter.contains(k) && k != kind by {
            lemma_push(rest, last, k);
            lemma_push(kept, last, k);
            assert(kept.contains(k) <==> rest.contains(k) && k != kind);
        }
        if !filter.contains(kind) {
            lemma_push(rest, last, kind);
            assert(kinds_without(filter, kind) =~= filter);
        }
    }
}

proof fn lemma_push<A>(s: Seq<A>, x: A, y: A)
    ensures
        s.push(x).contains(y) <==> s.contains(y) || x == y,
{
    let t = s.push(x);
    if s.contains(y) {
        let i = choose|i: int| 0 <= i < s.len() && s[i] == y;
        assert(t[i] == y);
    }
    assert(t[s.len() as int] == x);
    if t.contains(y) {
        let i = choose|i: int| 0 <= i < t.len() && t[i] == y;
        if i < s.len() {
            assert(s[i] == y);
        }
    }
}

/// Two clicks on a chip that is off leave the filter as it was, and a click changes that kind only.
pub proof fn two_clicks_undo_each_other(filter: Seq<NodeKind>, kind: NodeKind)
    ensures
        !filter.contains(kind) ==> toggled(toggled(filter, kind), kind) == filter,
        toggled(filter, kind).contains(kind) <==> !filter.contains(kind),
        forall|k: NodeKind|
            k != kind ==> (#[trigger] toggled(filter, kind).contains(k) <==> filter.contains(k)),
{
    lemma_kinds_without(filter, kind);
    let on = filter.push(kind);
    if !filter.contains(kind) {
        lemma_push(filter, kind, kind);
        lemma_kinds_without(on, kind);
        assert(on.drop_last() =~= filter);
    }
    assert forall|k: NodeKind| k != kind implies (#[trigger] toggled(filter, kind).contains(k)
        <==> filter.contains(k)) by {
        lemma_push(filter, kind, k);
    }
}

/// The filter after a click on the chip of `kind`.
pub fn toggle_kind(filter: Vec<NodeKind>, kind: NodeKind) -> (r: Vec<NodeKind>)
    ensures
        r@ == toggled(filter@, kind),
{
    let mut filter = filter;
    if !has_kind(&filter, kind) {
        filter.push(kind);
        return filter;
    }
    let mut out: Vec<NodeKind> = Vec::new();
    let mut i: usize = 0;
    assert(filter@.take(0) =~= Seq::<NodeKind>::empty());
    while i < filter.len()
        invariant
            i <= filter@.len(),
            out@ == kinds_without(filter@.take(i as int), kind),
        decreases filter@.len() - i,
    {
        assert(filter@.take(i as int + 1).drop_last() =~= filter@.take(i as int));
        if filter[i] != kind {
            out.push(filter[i]);
        }
        i = i + 1;
    }
    assert(filter@.take(i as int) =~= filter@);
    out
}

// ── root operations ────────────────────────────────────────────────────────

/// Every root operation the schema *declares*, in the order query, mutation, subscription.
///
/// Read from the declared roots rather than from the cards: the reachable slice keeps one root's
/// subgraph only, so the other roots have no card.
pub fn root_names(roots: &RootTypeMap) -> (r: Vec<String>)
    ensures
        r.deep_view() == declared_roots(roots.deep_view()),
{
    let mut out: Vec<String> = Vec::new();
    assert(out.deep_view() =~= Seq::<Seq<char>>::empty());
    push_slot(&mut out, &roots.query);
    push_slot(&mut out, &roots.mutation);
    push_slot(&mut out, &roots.subscription);
    out
}

/// The first declared root.
pub fn first_root(roots: &RootTypeMap) -> (r: Option<String>)
    ensures
        r.deep_view() == (if declared_roots(roots.deep_view()).len() > 0 {
            Some(declared_roots(roots.deep_view())[0])
        } else {
            None
        }),
{
    let names = root_names(roots);
    assert(names.deep_view().len() == names@.len());
    if names.len() > 0 {
        assert(names.deep_view()[0] == names@[0]@);
        Some(names[0].clone())
    } else {
        None
    }
}

/// Whether `name` is still one of the schema's declared roots.
pub fn declares_root(roots: &RootTypeMap, name: Option<&str>) -> (r: bool)
    ensures
        r == (name matches Some(n) && declared_roots(roots.deep_view()).contains(n@)),
{
    match name {
        Some(n) => {
            let names = root_names(roots);
            has_name(&names, n)
        },
        None => false,
    }
}

/// The picked root after another slice came in: the pick stays while the schema declares it, and the
/// first declared root takes its place otherwise.
pub fn keep_root(roots: &RootTypeMap, pick: Option<String>) -> (r: Option<String>)
    ensures
        r.deep_view() == (match pick {
            Some(n) => if declared_roots(roots.deep_view()).contains(n@) {
                Some(n@)
            } else if declared_roots(roots.deep_view()).len() > 0 {
                Some(declared_roots(roots.deep_view())[0])
            } else {
                None
            },
            None => if declared_roots(roots.deep_view()).len() > 0 {
                Some(declared_roots(roots.deep_view())[0])
            } else {
                None
            },
        }),
{
    match pick {
        Some(n) => if declares_root(roots, Some(n.as_str())) {
            Some(n)
        } else {
            first_root(roots)
        },
        None => first_root(roots),
    }
}

/// Whether a click on a type name leads anywhere: to a type that has a card and is no builtin
/// scalar.
pub fn is_navigable(nodes: &Vec<GraphNodeData>, name: &str) -> (r: bool)
    requires
        nodes@.len() <= u32::MAX,
    ensures
        r == (!builtin_scalar(name@) && card_index(nodes.deep_view(), name@) is Some),
{
    !is_builtin_scalar(name) && index_of(nodes, name).is_some()
}

// ── what a type is connected to ────────────────────────────────────────────

/// A card and texts beside it.
#[derive(Debug, PartialEq, Eq)]
pub struct Mention {
    pub card: u32,
    pub notes: Vec<String>,
}

/// Model of a [`Mention`].
#[verifier::ext_equal]
pub struct MentionModel {
    pub card: u32,
    pub notes: Seq<Seq<char>>,
}

impl DeepView for Mention {
    type V = MentionModel;

    open spec fn deep_view(&self) -> MentionModel {
        MentionModel { card: self.card, notes: self.notes.deep_view() }
    }
}

impl Duplicate for Mention {
    fn duplicate(&self) -> (r: Self) {
        Mention { card: self.card, notes: self.notes.duplicate() }
    }
}

/// The three context sections of a selected type.
#[derive(Debug, PartialEq, Eq)]
pub struct Sections {
    /// The implementers of an interface, with the other interfaces that each implements.
    pub implementers: Vec<Mention>,
    /// The members of a union, with the other unions that each belongs to.
    pub union_members: Vec<Mention>,
    /// The types with fields of the selected type, with those fields.
    pub referenced_by: Vec<Mention>,
}

/// The cards that implement the interface, with the other interfaces that each implements.
pub open spec fn implementing(cards: Seq<CardModel>, name: Seq<char>) -> Seq<MentionModel>
    decreases cards.len(),
{
    if cards.len() == 0 {
        Seq::empty()
    } else {
        let before = implementing(cards.drop_last(), name);
        let c = cards.last();
        if c.implements.contains(name) {
            before.push(MentionModel { card: c.index as u32, notes: without(c.implements, name) })
        } else {
            before
        }
    }
}

/// The targets of the union member rows, with the other unions that each belongs to.
pub open spec fn members_among(
    cards: Seq<CardModel>,
    rows: Seq<RowModel>,
    name: Seq<char>,
) -> Seq<MentionModel>
    decreases rows.len(),
{
    if rows.len() == 0 {
        Seq::empty()
    } else {
        let before = members_among(cards, rows.drop_last(), name);
        let r = rows.last();
        match r.target {
            Some(t) => if r.kind == RowKind::UnionMember {
                before.push(
                    MentionModel {
                        card: t,
                        notes: without(cards[t as int].member_of_unions, name),
                    },
                )
            } else {
                before
            },
            None => before,
        }
    }
}

/// The fields that lead to the card, as `.field`.
pub open spec fn fields_to(rows: Seq<RowModel>, card: u32) -> Seq<Seq<char>>
    decreases rows.len(),
{
    if rows.len() == 0 {
        Seq::empty()
    } else {
        let before = fields_to(rows.drop_last(), card);
        let r = rows.last();
        if r.kind == RowKind::Field && r.target == Some(card) {
            before.push("."@ + r.left)
        } else {
            before
        }
    }
}

/// The cards with fields that lead to the card.
pub open spec fn referencing(cards: Seq<CardModel>, card: u32) -> Seq<MentionModel>
    decreases cards.len(),
{
    if cards.len() == 0 {
        Seq::empty()
    } else {
        let before = referencing(cards.drop_last(), card);
        let c = cards.last();
        if fields_to(c.rows, card).len() > 0 {
            before.push(MentionModel { card: c.index as u32, notes: fields_to(c.rows, card) })
        } else {
            before
        }
    }
}

/// The mentions by the names of their cards.
pub open spec fn by_card_name(
    cards: Seq<CardModel>,
    list: Seq<MentionModel>,
) -> Seq<MentionModel> {
    arranged(
        list.map_values(|m: MentionModel| (cards[m.card as int].name, Seq::<char>::empty())),
        numbers(list.len()),
    ).map_values(|i: usize| list[i as int])
}

/// Every mentioned card is a card.
pub open spec fn are_cards(list: Seq<MentionModel>, n: nat) -> bool {
    forall|i: int| 0 <= i < list.len() ==> (#[trigger] list[i]).card < n
}

/// Cards are numbered by their places, and rows lead to cards.
pub open spec fn are_connected(cards: Seq<CardModel>) -> bool {
    &&& cards.len() <= u32::MAX
    &&& forall|i: int| 0 <= i < cards.len() ==> (#[trigger] cards[i]).index == i
    &&& forall|i: int, k: int|
        0 <= i < cards.len() && 0 <= k < cards[i].rows.len() ==> (
        (#[trigger] cards[i].rows[k]).target matches Some(t) ==> t < cards.len())
}

/// A row of a field leads to a card or nowhere.
proof fn lemma_field_targets(
    nodes: Seq<NodeModel>,
    fields: Seq<FieldModel>,
    knobs: KnobModel,
    k: int,
)
    requires
        nodes.len() <= u32::MAX,
        0 <= k < field_rows(nodes, fields, knobs).len(),
    ensures
        field_rows(nodes, fields, knobs)[k].target matches Some(t) ==> t < nodes.len(),
    decreases fields.len(),
{
    if fields.len() > 0 {
        let before = field_rows(nodes, fields.drop_last(), knobs);
        if k < before.len() {
            lemma_field_targets(nodes, fields.drop_last(), knobs, k);
        } else {
            lemma_last_place(node_ids(nodes), fields.last().base_type);
        }
    }
}

/// The cards of a graph are numbered by their places, and their rows lead to cards.
pub proof fn built_cards_are_connected(nodes: Seq<NodeModel>, knobs: KnobModel)
    requires
        can_number(nodes),
    ensures
        are_connected(cards_of(nodes, knobs)),
{
    lemma_weight(nodes, nodes.len() as int);
    let cards = cards_of(nodes, knobs);
    assert forall|i: int, k: int| 0 <= i < cards.len() && 0 <= k < cards[i].rows.len() implies (
    (#[trigger] cards[i].rows[k]).target matches Some(t) ==> t < cards.len()) by {
        let n = nodes[i];
        let fields = field_rows(nodes, or_empty(n.fields), knobs);
        let values = or_empty(n.values);
        assert(cards[i].rows == rows_of(nodes, n, knobs));
        if k < fields.len() {
            lemma_field_targets(nodes, or_empty(n.fields), knobs, k);
        } else if k >= fields.len() + values.len() {
            lemma_last_place(
                node_ids(nodes),
                or_empty(n.members)[k - fields.len() - values.len()],
            );
        }
    }
}

fn find_implementers(cards: &Vec<Card>, name: &str) -> (r: Vec<Mention>)
    requires
        are_connected(cards.deep_view()),
    ensures
        r.deep_view() == implementing(cards.deep_view(), name@),
        are_cards(r.deep_view(), cards@.len()),
{
    let ghost all = cards.deep_view();
    let mut out: Vec<Mention> = Vec::new();
    let mut i: usize = 0;
    assert(all.take(0) =~= Seq::<CardModel>::empty());
    assert(out.deep_view() =~= implementing(all.take(0), name@));
    while i < cards.len()
        invariant
            i <= cards@.len(),
            all == cards.deep_view(),
            are_connected(all),
            out.deep_view() == implementing(all.take(i as int), name@),
            are_cards(out.deep_view(), cards@.len()),
        decreases cards@.len() - i,
    {
        let ghost before = out.deep_view();
        let c = &cards[i];
        assert(all[i as int] == c.deep_view());
        assert(all.take(i as int + 1).drop_last() =~= all.take(i as int));
        if has_name(&c.implements, name) {
            out.push(Mention { card: c.index, notes: remove_search(&c.implements, name) });
            let ghost now = out.deep_view();
            assert(now =~= before.push(now.last()));
            assert(now.last().card == all[i as int].index);
        }
        i = i + 1;
    }
    assert(all.take(i as int) =~= all);
    out
}

fn find_members(cards: &Vec<Card>, at: usize, name: &str) -> (r: Vec<Mention>)
    requires
        are_connected(cards.deep_view()),
        at < cards@.len(),
    ensures
        r.deep_view() == members_among(
            cards.deep_view(),
            cards.deep_view()[at as int].rows,
            name@,
        ),
        are_cards(r.deep_view(), cards@.len()),
{
    let ghost all = cards.deep_view();
    let rows = &cards[at].rows;
    let ghost rs = rows.deep_view();
    assert(all[at as int] == cards@[at as int].deep_view());
    assert(all[at as int].rows == rs);
    let mut out: Vec<Mention> = Vec::new();
    let mut i: usize = 0;
    assert(rs.take(0) =~= Seq::<RowModel>::empty());
    assert(out.deep_view() =~= members_among(all, rs.take(0), name@));
    while i < rows.len()
        invariant
            i <= rows@.len(),
            at < cards@.len(),
            all == cards.deep_view(),
            rs == rows.deep_view(),
            all[at as int].rows == rs,
            are_connected(all),
            out.deep_view() == members_among(all, rs.take(i as int), name@),
            are_cards(out.deep_view(), cards@.len()),
        decreases rows@.len() - i,
    {
        let ghost before = out.deep_view();
        assert(rs[i as int] == rows@[i as int].deep_view());
        assert(rs[i as int] == all[at as int].rows[i as int]);
        assert(rs.take(i as int + 1).drop_last() =~= rs.take(i as int));
        match rows[i].target {
            Some(t) => {
                if matches!(rows[i].kind, RowKind::UnionMember) {
                    assert(all[t as int] == cards@[t as int].deep_view());
                    out.push(
                        Mention {
                            card: t,
                            notes: remove_search(&cards[t as usize].member_of_unions, name),
                        },
                    );
                    let ghost now = out.deep_view();
                    assert(now =~= before.push(now.last()));
                }
            },
            None => {},
        }
        i = i + 1;
    }
    assert(rs.take(i as int) =~= rs);
    out
}

fn find_fields(c: &Card, card: u32) -> (r: Vec<String>)
    ensures
        r.deep_view() == fields_to(c.deep_view().rows, card),
{
    let ghost rs = c.rows.deep_view();
    let mut out: Vec<String> = Vec::new();
    let mut i: usize = 0;
    assert(rs.take(0) =~= Seq::<RowModel>::empty());
    assert(out.deep_view() =~= Seq::<Seq<char>>::empty());
    while i < c.rows.len()
        invariant
            i <= c.rows@.len(),
            rs == c.rows.deep_view(),
            out.deep_view() == fields_to(rs.take(i as int), card),
        decreases c.rows@.len() - i,
    {
        let ghost before = out.deep_view();
        assert(rs[i as int] == c.rows@[i as int].deep_view());
        assert(rs.take(i as int + 1).drop_last() =~= rs.take(i as int));
        let there = match c.rows[i].target {
            Some(t) => t == card,
            None => false,
        };
        if there && matches!(c.rows[i].kind, RowKind::Field) {
            let mut text = ".".to_owned();
            text.append(c.rows[i].left.as_str());
            out.push(text);
            assert(out.deep_view() =~= before.push("."@ + rs[i as int].left));
        }
        i = i + 1;
    }
    assert(rs.take(i as int) =~= rs);
    out
}

fn find_references(cards: &Vec<Card>, card: u32) -> (r: Vec<Mention>)
    requires
        are_connected(cards.deep_view()),
    ensures
        r.deep_view() == referencing(cards.deep_view(), card),
        are_cards(r.deep_view(), cards@.len()),
{
    let ghost all = cards.deep_view();
    let mut out: Vec<Mention> = Vec::new();
    let mut i: usize = 0;
    assert(all.take(0) =~= Seq::<CardModel>::empty());
    assert(out.deep_view() =~= referencing(all.take(0), card));
    while i < cards.len()
        invariant
            i <= cards@.len(),
            all == cards.deep_view(),
            are_connected(all),
            out.deep_view() == referencing(all.take(i as int), card),
            are_cards(out.deep_view(), cards@.len()),
        decreases cards@.len() - i,
    {
        let ghost before = out.deep_view();
        let c = &cards[i];
        assert(all[i as int] == c.deep_view());
        assert(all.take(i as int + 1).drop_last() =~= all.take(i as int));
        let notes = find_fields(c, card);
        assert(notes.deep_view().len() == notes@.len());
        if notes.len() > 0 {
            out.push(Mention { card: c.index, notes });
            let ghost now = out.deep_view();
            assert(now =~= before.push(now.last()));
            assert(now.last().card == all[i as int].index);
        }
        i = i + 1;
    }
    assert(all.take(i as int) =~= all);
    out
}

/// Sorts mentions by the names of their cards.
fn sort_mentions(cards: &Vec<Card>, list: &Vec<Mention>) -> (r: Vec<Mention>)
    requires
        are_cards(list.deep_view(), cards@.len()),
    ensures
        r.deep_view() == by_card_name(cards.deep_view(), list.deep_view()),
{
    let ghost cs = cards.deep_view();
    let ghost ms = list.deep_view();
    let ghost wanted = ms.map_values(
        |m: MentionModel| (cs[m.card as int].name, Seq::<char>::empty()),
    );
    let mut keys: Vec<(String, String)> = Vec::new();
    let mut all: Vec<usize> = Vec::new();
    let mut i: usize = 0;
    while i < list.len()
        invariant
            i <= list@.len(),
            cs == cards.deep_view(),
            ms == list.deep_view(),
            are_cards(ms, cards@.len()),
            wanted == ms.map_values(
                |m: MentionModel| (cs[m.card as int].name, Seq::<char>::empty()),
            ),
            keys@.len() == i,
            forall|k: int| 0 <= k < i ==> (#[trigger] keys@[k]).deep_view() == wanted[k],
            all@.len() == i,
            forall|k: int| 0 <= k < i ==> #[trigger] all@[k] == k,
        decreases list@.len() - i,
    {
        assert(ms[i as int] == list@[i as int].deep_view());
        let at: usize = list[i].card as usize;
        assert(ms[i as int].card < cards@.len());
        assert(cs[at as int] == cards@[at as int].deep_view());
        let empty = String::new();
        assert(empty@ =~= Seq::<char>::empty());
        keys.push((cards[at].name.clone(), empty));
        all.push(i);
        i = i + 1;
    }
    assert(keys.deep_view() =~= wanted);
    assert(all@ =~= numbers(ms.len()));
    let order = arrange(&keys, &all);
    let mut out: Vec<Mention> = Vec::new();
    let mut k: usize = 0;
    while k < order.len()
        invariant
            k <= order@.len(),
            ms == list.deep_view(),
            forall|j: int| 0 <= j < order@.len() ==> #[trigger] order@[j] < list@.len(),
            out@.len() == k,
            forall|j: int| 0 <= j < k ==> (#[trigger] out@[j]).deep_view() == ms[order@[j] as int],
        decreases order@.len() - k,
    {
        let at: usize = order[k];
        assert(ms[at as int] == list@[at as int].deep_view());
        out.push(list[at].duplicate());
        k = k + 1;
    }
    assert(out.deep_view() =~= by_card_name(cs, ms));
    out
}

/// The sections hold what the card is connected to: an interface's implementers, a union's members,
/// and the types whose fields lead to it, each list by name.
pub open spec fn are_sections(s: Sections, cs: Seq<CardModel>, card: u32) -> bool {
    let c = cs[card as int];
    &&& s.implementers.deep_view() == (if c.kind == NodeKind::Interface {
        by_card_name(cs, implementing(cs, c.name))
    } else {
        Seq::empty()
    })
    &&& s.union_members.deep_view() == (if c.kind == NodeKind::Union {
        by_card_name(cs, members_among(cs, c.rows, c.name))
    } else {
        Seq::empty()
    })
    &&& s.referenced_by.deep_view() == by_card_name(cs, referencing(cs, card))
}

/// What the selected card is connected to.
pub fn context_sections(cards: &Vec<Card>, card: u32) -> (r: Sections)
    requires
        are_connected(cards.deep_view()),
        card < cards@.len(),
    ensures
        are_sections(r, cards.deep_view(), card),
{
    let at: usize = card as usize;
    let c = &cards[at];
    assert(cards.deep_view()[at as int] == c.deep_view());
    let none: Vec<Mention> = Vec::new();
    let none_too: Vec<Mention> = Vec::new();
    assert(none.deep_view() =~= Seq::<MentionModel>::empty());
    assert(none_too.deep_view() =~= Seq::<MentionModel>::empty());
    let implementers = match c.kind {
        NodeKind::Interface => {
            let found = find_implementers(cards, c.name.as_str());
            sort_mentions(cards, &found)
        },
        _ => none,
    };
    let union_members = match c.kind {
        NodeKind::Union => {
            let found = find_members(cards, at, c.name.as_str());
            sort_mentions(cards, &found)
        },
        _ => none_too,
    };
    let references = find_references(cards, card);
    let referenced_by = sort_mentions(cards, &references);
    Sections { implementers, union_members, referenced_by }
}

/// The cards by name, for the list of all types.
pub fn sorted_cards(cards: &Vec<Card>) -> (r: Vec<usize>)
    ensures
        r@ == arranged(
            cards.deep_view().map_values(|c: CardModel| (c.name, Seq::<char>::empty())),
            numbers(cards@.len()),
        ),
{
    let ghost cs = cards.deep_view();
    let ghost wanted = cs.map_values(|c: CardModel| (c.name, Seq::<char>::empty()));
    let mut keys: Vec<(String, String)> = Vec::new();
    let mut all: Vec<usize> = Vec::new();
    let mut i: usize = 0;
    while i < cards.len()
        invariant
            i <= cards@.len(),
            cs == cards.deep_view(),
            wanted == cs.map_values(|c: CardModel| (c.name, Seq::<char>::empty())),
            keys@.len() == i,
            forall|k: int| 0 <= k < i ==> (#[trigger] keys@[k]).deep_view() == wanted[k],
            all@.len() == i,
            forall|k: int| 0 <= k < i ==> #[trigger] all@[k] == k,
        decreases cards@.len() - i,
    {
        assert(cs[i as int] == cards@[i as int].deep_view());
        let empty = String::new();
        assert(empty@ =~= Seq::<char>::empty());
        keys.push((cards[i].name.clone(), empty));
        all.push(i);
        i = i + 1;
    }
    assert(keys.deep_view() =~= wanted);
    assert(all@ =~= numbers(cards@.len()));
    arrange(&keys, &all)
}

/// `Type.field`: the name of the row itself, not of what it leads to.
pub fn field_path(card: &Card, row: usize) -> (r: String)
    requires
        row < card.rows@.len(),
    ensures
        r@ == card.name@ + "."@ + card.rows@[row as int].left@,
{
    let mut path = card.name.clone();
    path.append(".");
    path.append(card.rows[row].left.as_str());
    path
}

} // verus!
