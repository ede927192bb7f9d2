//! The rows of the two sidebar lists that are not the tree: the types that no root can reach, by
//! kind, and the deprecated members, by how their sunset date stands to today.

use vstd::prelude::*;

use crate::copies::Duplicate;
use crate::deadlines::{meta_line, meta_text, Variant};
use crate::extensions::or_empty;
use crate::geometry::{kind_upper, upper_name};
use crate::lists::has_name;
use crate::reachable::{all_reachable_ids, reach_any};
use crate::slices::{root_ops, root_ops_of};
use crate::sorting::{arrange, arranged, lemma_arranged_members};
use crate::text::{decimal, decimal_string};
use crate::types::{
    FieldModel, GraphModel, GraphNodeData, NodeKind, NodeModel, ParsedGraph, ValueModel,
};
use crate::until::{expired, is_until_expired, parse_until, until_of};

verus! {

/// A count in brackets.
pub open spec fn count_text(n: nat) -> Seq<char> {
    "("@ + decimal(n) + ")"@
}

/// A count in brackets.
pub(crate) fn count_string(n: usize) -> (r: String)
    ensures
        r@ == count_text(n as nat),
{
    let mut r = "(".to_owned();
    r.append(decimal_string(n).as_str());
    r.append(")");
    r
}

/// The number of fields, as in `12f`.
pub open spec fn fields_text(n: nat) -> Seq<char> {
    decimal(n) + "f"@
}

// ── types that no root reaches ─────────────────────────────────────────────

/// One row of the list of unreachable types.
#[derive(Debug, PartialEq, Eq)]
pub enum OrphanRow {
    /// A kind group header: `OBJECT (12)`.
    Kind { label: &'static str, count: String },
    Type {
        card: u32,
        kind: NodeKind,
        name: String,
        /// `12f`, present only for kinds that have a field list.
        fields: Option<String>,
    },
}

/// Model of an [`OrphanRow`].
pub enum OrphanModel {
    Kind { label: Seq<char>, count: Seq<char> },
    Type { card: int, kind: NodeKind, name: Seq<char>, fields: Option<Seq<char>> },
}

impl DeepView for OrphanRow {
    type V = OrphanModel;

    open spec fn deep_view(&self) -> OrphanModel {
        match self {
            OrphanRow::Kind { label, count } => OrphanModel::Kind {
                label: label@,
                count: count@,
            },
            OrphanRow::Type { card, kind, name, fields } => OrphanModel::Type {
                card: *card as int,
                kind: *kind,
                name: name@,
                fields: fields.deep_view(),
            },
        }
    }
}

/// The places of the nodes of a kind whose ids are not among `ids`, in order.
pub open spec fn places_outside(
    nodes: Seq<NodeModel>,
    ids: Set<Seq<char>>,
    kind: NodeKind,
) -> Seq<usize>
    decreases nodes.len(),
{
    if nodes.len() == 0 {
        Seq::empty()
    } else if !ids.contains(nodes.last().id) && nodes.last().kind == kind {
        places_outside(nodes.drop_last(), ids, kind).push((nodes.len() - 1) as usize)
    } else {
        places_outside(nodes.drop_last(), ids, kind)
    }
}

/// How many nodes have ids that are not among `ids`.
pub open spec fn count_outside(nodes: Seq<NodeModel>, ids: Set<Seq<char>>) -> nat
    decreases nodes.len(),
{
    if nodes.len() == 0 {
        0
    } else {
        count_outside(nodes.drop_last(), ids) + (if ids.contains(nodes.last().id) {
            0nat
        } else {
            1
        })
    }
}

/// The names of the nodes, as sorting keys.
pub open spec fn name_keys(nodes: Seq<NodeModel>) -> Seq<(Seq<char>, Seq<char>)> {
    nodes.map_values(|n: NodeModel| (n.name, Seq::<char>::empty()))
}

/// The row of one type.
pub open spec fn type_row(nodes: Seq<NodeModel>, at: usize) -> OrphanModel {
    let n = nodes[at as int];
    OrphanModel::Type {
        card: at as int,
        kind: n.kind,
        name: n.name,
        fields: match n.fields {
            Some(f) => Some(fields_text(f.len())),
            None => None,
        },
    }
}

/// The rows of one kind: a header and then the types by name, or nothing where there is no type.
pub open spec fn kind_rows(
    nodes: Seq<NodeModel>,
    ids: Set<Seq<char>>,
    kind: NodeKind,
) -> Seq<OrphanModel> {
    let list = arranged(name_keys(nodes), places_outside(nodes, ids, kind));
    if list.len() == 0 {
        Seq::empty()
    } else {
        seq![
            OrphanModel::Kind { label: upper_name(kind), count: count_text(list.len()) },
        ] + list.map_values(|at: usize| type_row(nodes, at))
    }
}

/// The ids that some root operation reaches.
pub open spec fn reached_ids(g: GraphModel) -> Set<Seq<char>> {
    reach_any(g.nodes, g.edges, root_ops(g.root_types))
}

/// The rows of all kinds, in the order object, interface, union, enum, input, scalar.
pub open spec fn orphan_rows(g: GraphModel) -> Seq<OrphanModel> {
    let ids = reached_ids(g);
    kind_rows(g.nodes, ids, NodeKind::Object) + kind_rows(g.nodes, ids, NodeKind::Interface)
        + kind_rows(g.nodes, ids, NodeKind::Union) + kind_rows(g.nodes, ids, NodeKind::Enum)
        + kind_rows(g.nodes, ids, NodeKind::Input) + kind_rows(g.nodes, ids, NodeKind::Scalar)
}

/// Every place that is listed is a place, and the list ascends.
proof fn lemma_places_outside(nodes: Seq<NodeModel>, ids: Set<Seq<char>>, kind: NodeKind)
    requires
        nodes.len() <= usize::MAX,
    ensures
        forall|i: int|
            0 <= i < places_outside(nodes, ids, kind).len() ==> #[trigger] places_outside(
                nodes,
                ids,
                kind,
            )[i] < nodes.len(),
        places_outside(nodes, ids, kind).len() <= nodes.len(),
    decreases nodes.len(),
{
    if nodes.len() > 0 {
        lemma_places_outside(nodes.drop_last(), ids, kind);
    }
}

/// Every unreachable type is counted in exactly one group: the groups together are as many as the
/// unreachable types.
pub proof fn groups_count_every_orphan(nodes: Seq<NodeModel>, ids: Set<Seq<char>>)
    ensures
        places_outside(nodes, ids, NodeKind::Object).len() + places_outside(
            nodes,
            ids,
            NodeKind::Interface,
        ).len() + places_outside(nodes, ids, NodeKind::Union).len() + places_outside(
            nodes,
            ids,
            NodeKind::Enum,
        ).len() + places_outside(nodes, ids, NodeKind::Input).len() + places_outside(
            nodes,
            ids,
            NodeKind::Scalar,
        ).len() == count_outside(nodes, ids),
    decreases nodes.len(),
{
    if nodes.len() > 0 {
        groups_count_every_orphan(nodes.drop_last(), ids);
    }
}

fn make_name_keys(nodes: &Vec<GraphNodeData>) -> (r: Vec<(String, String)>)
    ensures
        r.deep_view() == name_keys(nodes.deep_view()),
        r@.len() == nodes@.len(),
{
    let mut out: Vec<(String, String)> = Vec::new();
    let mut i: usize = 0;
    while i < nodes.len()
        invariant
            i <= nodes@.len(),
            out@.len() == i,
            forall|k: int|
                0 <= k < i ==> (#[trigger] out@[k]).deep_view() == (
                    nodes@[k].name@,
                    Seq::<char>::empty(),
                ),
        decreases nodes@.len() - i,
    {
        let empty = String::new();
        assert(empty@ =~= Seq::<char>::empty());
        out.push((nodes[i].name.clone(), empty));
        i = i + 1;
    }
    assert(out.deep_view() =~= name_keys(nodes.deep_view()));
    out
}

fn is_kind(a: NodeKind, b: NodeKind) -> (r: bool)
    ensures
        r == (a == b),
{
    a == b
}

/// Finds the places of the nodes of a kind that are not among `names`.
fn find_outside(nodes: &Vec<GraphNodeData>, names: &Vec<String>, kind: NodeKind) -> (r: Vec<usize>)
    ensures
        r@ == places_outside(nodes.deep_view(), names.deep_view().to_set(), kind),
{
    let ghost ns = nodes.deep_view();
    let ghost ids = names.deep_view().to_set();
    let mut out: Vec<usize> = Vec::new();
    let mut i: usize = 0;
    assert(ns.take(0) =~= Seq::<NodeModel>::empty());
    while i < nodes.len()
        invariant
            i <= nodes@.len(),
            ns == nodes.deep_view(),
            ids == names.deep_view().to_set(),
            out@ == places_outside(ns.take(i as int), ids, kind),
        decreases nodes@.len() - i,
    {
        assert(ns[i as int] == nodes@[i as int].deep_view());
        assert(ns.take(i as int + 1).drop_last() =~= ns.take(i as int));
        assert(ids.contains(ns[i as int].id) == names.deep_view().contains(ns[i as int].id));
        if !has_name(names, nodes[i].id.as_str()) && is_kind(nodes[i].kind, kind) {
            out.push(i);
        }
        i = i + 1;
    }
    assert(ns.take(i as int) =~= ns);
    out
}

fn push_kind(
    rows: &mut Vec<OrphanRow>,
    nodes: &Vec<GraphNodeData>,
    keys: &Vec<(String, String)>,
    names: &Vec<String>,
    kind: NodeKind,
)
    requires
        nodes@.len() <= u32::MAX,
        keys.deep_view() == name_keys(nodes.deep_view()),
        keys@.len() == nodes@.len(),
    ensures
        final(rows).deep_view() == old(rows).deep_view() + kind_rows(
            nodes.deep_view(),
            names.deep_view().to_set(),
            kind,
        ),
{
    let ghost ns = nodes.deep_view();
    let ghost ids = names.deep_view().to_set();
    let ghost start = rows.deep_view();
    let found = find_outside(nodes, names, kind);
    proof {
        assert(ns.len() == nodes@.len());
        lemma_places_outside(ns, ids, kind);
    }
    let list = arrange(keys, &found);
    if list.len() == 0 {
        assert(start + kind_rows(ns, ids, kind) =~= start);
        return;
    }
    rows.push(OrphanRow::Kind { label: kind_upper(kind), count: count_string(list.len()) });
    let ghost head = OrphanModel::Kind { label: upper_name(kind), count: count_text(list@.len()) };
    assert(rows.deep_view() =~= start.push(head));
    let ghost body = list@.map_values(|at: usize| type_row(ns, at));
    assert(start.push(head) + body.take(0) =~= start.push(head));
    let mut i: usize = 0;
    while i < list.len()
        invariant
            i <= list@.len(),
            nodes@.len() <= u32::MAX,
            ns == nodes.deep_view(),
            forall|k: int| 0 <= k < list@.len() ==> #[trigger] list@[k] < nodes@.len(),
            body == list@.map_values(|at: usize| type_row(ns, at)),
            rows.deep_view() == start.push(head) + body.take(i as int),
        decreases list@.len() - i,
    {
        let ghost before = rows.deep_view();
        let at: usize = list[i];
        let n = &nodes[at];
        assert(ns[at as int] == n.deep_view());
        let fields: Option<String> = match &n.fields {
            Some(f) => {
                let mut t = decimal_string(f.len());
                t.append("f");
                Some(t)
            },
            None => None,
        };
        rows.push(OrphanRow::Type { card: at as u32, kind: n.kind, name: n.name.clone(), fields });
        assert(rows.deep_view() =~= before.push(type_row(ns, at)));
        assert(body[i as int] == type_row(ns, at));
        assert(rows.deep_view() =~= start.push(head) + body.take(i as int + 1));
        i = i + 1;
    }
    assert(body.take(i as int) =~= body);
    assert(rows.deep_view() =~= start + kind_rows(ns, ids, kind));
}

fn count_unlisted(nodes: &Vec<GraphNodeData>, names: &Vec<String>) -> (r: usize)
    ensures
        r == count_outside(nodes.deep_view(), names.deep_view().to_set()),
{
    let ghost ns = nodes.deep_view();
    let ghost ids = names.deep_view().to_set();
    let mut total: usize = 0;
    let mut i: usize = 0;
    assert(ns.take(0) =~= Seq::<NodeModel>::empty());
    while i < nodes.len()
        invariant
            i <= nodes@.len(),
            ns == nodes.deep_view(),
            ids == names.deep_view().to_set(),
            total == count_outside(ns.take(i as int), ids),
            total <= i,
        decreases nodes@.len() - i,
    {
        assert(ns[i as int] == nodes@[i as int].deep_view());
        assert(ns.take(i as int + 1).drop_last() =~= ns.take(i as int));
        assert(ids.contains(ns[i as int].id) == names.deep_view().contains(ns[i as int].id));
        if !has_name(names, nodes[i].id.as_str()) {
            total = total + 1;
        }
        i = i + 1;
    }
    assert(ns.take(i as int) =~= ns);
    total
}

/// Groups the types that no root can reach by kind, names sorted, and counts them.
///
/// Reachability is computed from the graph that was handed in: where the graph was already cut down
/// to the orphans there is no root operation left in it, so every node is listed.
pub fn build_orphan_rows(graph: &ParsedGraph) -> (r: (Vec<OrphanRow>, usize))
    requires
        graph.nodes@.len() <= u32::MAX,
    ensures
        r.0.deep_view() == orphan_rows(graph.deep_view()),
        r.1 == count_outside(graph.deep_view().nodes, reached_ids(graph.deep_view())),
{
    let ops = root_ops_of(&graph.root_types);
    let reached = all_reachable_ids(&graph.nodes, &graph.edges, &ops);
    let keys = make_name_keys(&graph.nodes);
    let total: usize = count_unlisted(&graph.nodes, &reached);
    let mut rows: Vec<OrphanRow> = Vec::new();
    let ghost none = rows.deep_view();
    push_kind(&mut rows, &graph.nodes, &keys, &reached, NodeKind::Object);
    assert(none + kind_rows(
        graph.deep_view().nodes,
        reached_ids(graph.deep_view()),
        NodeKind::Object,
    ) =~= kind_rows(graph.deep_view().nodes, reached_ids(graph.deep_view()), NodeKind::Object));
    push_kind(&mut rows, &graph.nodes, &keys, &reached, NodeKind::Interface);
    push_kind(&mut rows, &graph.nodes, &keys, &reached, NodeKind::Union);
    push_kind(&mut rows, &graph.nodes, &keys, &reached, NodeKind::Enum);
    push_kind(&mut rows, &graph.nodes, &keys, &reached, NodeKind::Input);
    push_kind(&mut rows, &graph.nodes, &keys, &reached, NodeKind::Scalar);
    (rows, total)
}

// ── deprecated members ─────────────────────────────────────────────────────

/// One row of the list of deprecated members.
#[derive(Debug, PartialEq, Eq)]
pub enum UntilRow {
    Banner { variant: Variant, count: String },
    /// Owning-type header: kind, type name and member count.
    Group { kind: NodeKind, name: String, count: String },
    Field {
        variant: Variant,
        card: u32,
        row: usize,
        name: String,
        date: Option<String>,
        meta: String,
    },
}

/// Model of an [`UntilRow`].
pub enum UntilModel {
    Banner { variant: Variant, count: Seq<char> },
    Group { kind: NodeKind, name: Seq<char>, count: Seq<char> },
    Field {
        variant: Variant,
        card: int,
        row: int,
        name: Seq<char>,
        date: Option<Seq<char>>,
        meta: Seq<char>,
    },
}

impl DeepView for UntilRow {
    type V = UntilModel;

    open spec fn deep_view(&self) -> UntilModel {
        match self {
            UntilRow::Banner { variant, count } => UntilModel::Banner {
                variant: *variant,
                count: count@,
            },
            UntilRow::Group { kind, name, count } => UntilModel::Group {
                kind: *kind,
                name: name@,
                count: count@,
            },
            UntilRow::Field { variant, card, row, name, date, meta } => UntilModel::Field {
                variant: *variant,
                card: *card as int,
                row: *row as int,
                name: name@,
                date: date.deep_view(),
                meta: meta@,
            },
        }
    }
}

/// One deprecated member of the node at `card`, before it is put into a section.
#[derive(Debug, PartialEq, Eq)]
pub struct Entry {
    pub card: usize,
    pub row: usize,
    pub name: String,
    pub until: Option<String>,
    pub reason: Option<String>,
}

/// Model of an [`Entry`].
#[verifier::ext_equal]
pub struct EntryModel {
    pub card: usize,
    pub row: usize,
    pub name: Seq<char>,
    pub until: Option<Seq<char>>,
    pub reason: Option<Seq<char>>,
}

impl DeepView for Entry {
    type V = EntryModel;

    open spec fn deep_view(&self) -> EntryModel {
        EntryModel {
            card: self.card,
            row: self.row,
            name: self.name@,
            until: self.until.deep_view(),
            reason: self.reason.deep_view(),
        }
    }
}

impl Duplicate for Entry {
    fn duplicate(&self) -> (r: Self) {
        Entry {
            card: self.card,
            row: self.row,
            name: self.name.clone(),
            until: self.until.duplicate(),
            reason: self.reason.duplicate(),
        }
    }
}

/// A member as the list reads it: name, reason, and whether it is marked deprecated.
#[verifier::ext_equal]
pub struct MemberModel {
    pub name: Seq<char>,
    pub reason: Option<Seq<char>>,
    pub is_deprecated: bool,
}

/// The members of a node: an enum's values, any other type's fields.
pub open spec fn members_of(n: NodeModel) -> Seq<MemberModel> {
    if n.kind == NodeKind::Enum {
        or_empty(n.values).map_values(
            |v: ValueModel|
                MemberModel {
                    name: v.name,
                    reason: v.deprecation_reason,
                    is_deprecated: v.is_deprecated,
                },
        )
    } else {
        or_empty(n.fields).map_values(
            |f: FieldModel|
                MemberModel {
                    name: f.name,
                    reason: f.deprecation_reason,
                    is_deprecated: f.is_deprecated,
                },
        )
    }
}

/// Which section a member belongs to: none where it is not deprecated and its reason has no date.
pub open spec fn section_of(m: MemberModel, today: Seq<char>) -> Option<Variant> {
    match until_of(m.reason) {
        Some(u) => if expired(Some(u), today) {
            Some(Variant::Expired)
        } else {
            Some(Variant::Upcoming)
        },
        None => if m.is_deprecated {
            Some(Variant::Undated)
        } else {
            None
        },
    }
}

/// The entries of one section among the members of the node at `card`.
pub open spec fn member_entries(
    members: Seq<MemberModel>,
    card: usize,
    today: Seq<char>,
    variant: Variant,
) -> Seq<EntryModel>
    decreases members.len(),
{
    if members.len() == 0 {
        Seq::empty()
    } else {
        let before = member_entries(members.drop_last(), card, today, variant);
        let m = members.last();
        if section_of(m, today) == Some(variant) {
            before.push(
                EntryModel {
                    card,
                    row: (members.len() - 1) as usize,
                    name: m.name,
                    until: until_of(m.reason),
                    reason: m.reason,
                },
            )
        } else {
            before
        }
    }
}

/// The entries of one section, in the order of the schema.
pub open spec fn entries_of(
    nodes: Seq<NodeModel>,
    today: Seq<char>,
    variant: Variant,
) -> Seq<EntryModel>
    decreases nodes.len(),
{
    if nodes.len() == 0 {
        Seq::empty()
    } else {
        entries_of(nodes.drop_last(), today, variant) + member_entries(
            members_of(nodes.last()),
            (nodes.len() - 1) as usize,
            today,
            variant,
        )
    }
}

/// What an entry is sorted by: dated ones by date (most overdue or soonest first), the others by
/// type and then member name.
pub open spec fn entry_key(nodes: Seq<NodeModel>, e: EntryModel) -> (Seq<char>, Seq<char>) {
    match e.until {
        Some(u) => (u, Seq::empty()),
        None => (nodes[e.card as int].name, e.name),
    }
}

/// The numbers below `n`.
pub open spec fn numbers(n: nat) -> Seq<usize> {
    Seq::new(n, |i: int| i as usize)
}

/// The entries in the order that the list shows them.
pub open spec fn ordered_entries(
    nodes: Seq<NodeModel>,
    entries: Seq<EntryModel>,
) -> Seq<EntryModel> {
    arranged(
        entries.map_values(|e: EntryModel| entry_key(nodes, e)),
        numbers(entries.len()),
    ).map_values(|i: usize| entries[i as int])
}

/// The first group that holds entries of `card`, or -1.
pub open spec fn group_place(groups: Seq<Seq<EntryModel>>, card: usize) -> int
    decreases groups.len(),
{
    if groups.len() == 0 {
        -1
    } else {
        let before = group_place(groups.drop_last(), card);
        if before >= 0 {
            before
        } else if groups.last().len() > 0 && groups.last()[0].card == card {
            groups.len() - 1
        } else {
            -1
        }
    }
}

/// The entries by owning type, the types in the order that they first occur in.
pub open spec fn groups_of(entries: Seq<EntryModel>) -> Seq<Seq<EntryModel>>
    decreases entries.len(),
{
    if entries.len() == 0 {
        Seq::empty()
    } else {
        let before = groups_of(entries.drop_last());
        let e = entries.last();
        let k = group_place(before, e.card);
        if k >= 0 {
            before.update(k, before[k].push(e))
        } else {
            before.push(seq![e])
        }
    }
}

/// The row of one entry.
pub open spec fn entry_row(variant: Variant, today: Seq<char>, e: EntryModel) -> UntilModel {
    UntilModel::Field {
        variant,
        card: e.card as int,
        row: e.row as int,
        name: e.name,
        date: e.until,
        meta: meta_text(variant, e.until, e.reason, today),
    }
}

/// The rows of one group: the owning type and then its entries.
pub open spec fn group_rows(
    nodes: Seq<NodeModel>,
    variant: Variant,
    today: Seq<char>,
    group: Seq<EntryModel>,
) -> Seq<UntilModel> {
    let n = nodes[group[0].card as int];
    seq![
        UntilModel::Group { kind: n.kind, name: n.name, count: count_text(group.len()) },
    ] + group.map_values(|e: EntryModel| entry_row(variant, today, e))
}

/// The rows of all groups.
pub open spec fn all_group_rows(
    nodes: Seq<NodeModel>,
    variant: Variant,
    today: Seq<char>,
    groups: Seq<Seq<EntryModel>>,
) -> Seq<UntilModel>
    decreases groups.len(),
{
    if groups.len() == 0 {
        Seq::empty()
    } else {
        all_group_rows(nodes, variant, today, groups.drop_last()) + group_rows(
            nodes,
            variant,
            today,
            groups.last(),
        )
    }
}

/// The rows of one section: its banner and then its groups, or nothing where it is empty.
pub open spec fn section_rows(
    nodes: Seq<NodeModel>,
    today: Seq<char>,
    variant: Variant,
) -> Seq<UntilModel> {
    let entries = entries_of(nodes, today, variant);
    if entries.len() == 0 {
        Seq::empty()
    } else {
        seq![UntilModel::Banner { variant, count: count_text(entries.len()) }] + all_group_rows(
            nodes,
            variant,
            today,
            groups_of(ordered_entries(nodes, entries)),
        )
    }
}

/// The rows of the list: expired, upcoming and undated members.
pub open spec fn until_rows(nodes: Seq<NodeModel>, today: Seq<char>) -> Seq<UntilModel> {
    section_rows(nodes, today, Variant::Expired) + section_rows(nodes, today, Variant::Upcoming)
        + section_rows(nodes, today, Variant::Undated)
}

/// The entry belongs to a node.
pub open spec fn owned(nodes: nat, e: EntryModel) -> bool {
    e.card < nodes
}

proof fn lemma_member_entries(
    members: Seq<MemberModel>,
    card: usize,
    today: Seq<char>,
    variant: Variant,
)
    ensures
        forall|i: int|
            0 <= i < member_entries(members, card, today, variant).len() ==> (
            #[trigger] member_entries(members, card, today, variant)[i]).card == card,
    decreases members.len(),
{
    if members.len() > 0 {
        lemma_member_entries(members.drop_last(), card, today, variant);
    }
}

proof fn lemma_entries(nodes: Seq<NodeModel>, today: Seq<char>, variant: Variant)
    requires
        nodes.len() <= usize::MAX,
    ensures
        forall|i: int|
            0 <= i < entries_of(nodes, today, variant).len() ==> owned(
                nodes.len(),
                #[trigger] entries_of(nodes, today, variant)[i],
            ),
    decreases nodes.len(),
{
    if nodes.len() > 0 {
        let rest = nodes.drop_last();
        let card = (nodes.len() - 1) as usize;
        lemma_entries(rest, today, variant);
        lemma_member_entries(members_of(nodes.last()), card, today, variant);
        let before = entries_of(rest, today, variant);
        let all = entries_of(nodes, today, variant);
        assert forall|i: int| 0 <= i < all.len() implies owned(
            nodes.len(),
            #[trigger] all[i],
        ) by {
            if i < before.len() {
                assert(all[i] == before[i]);
                assert(owned(rest.len(), before[i]));
            } else {
                assert(all[i] == member_entries(
                    members_of(nodes.last()),
                    card,
                    today,
                    variant,
                )[i - before.len()]);
            }
        }
    }
}

/// Groups are not empty, and each holds the entries of one type only.
pub open spec fn group_fits(group: Seq<EntryModel>, nodes: nat) -> bool {
    &&& group.len() > 0
    &&& forall|i: int|
        0 <= i < group.len() ==> (#[trigger] group[i]).card == group[0].card && group[i].card
            < nodes
}

proof fn lemma_group_place(groups: Seq<Seq<EntryModel>>, card: usize)
    ensures
        -1 <= group_place(groups, card) < groups.len(),
        group_place(groups, card) >= 0 ==> groups[group_place(groups, card)].len() > 0 && groups[
            group_place(groups, card)
        ][0].card == card,
        group_place(groups, card) < 0 ==> forall|k: int|
            0 <= k < groups.len() && (#[trigger] groups[k]).len() > 0 ==> groups[k][0].card != card,
        forall|k: int|
            0 <= k < group_place(groups, card) && (#[trigger] groups[k]).len() > 0
                ==> groups[k][0].card != card,
    decreases groups.len(),
{
    if groups.len() > 0 {
        let rest = groups.drop_last();
        lemma_group_place(rest, card);
        let at = group_place(groups, card);
        assert forall|k: int|
            0 <= k < groups.len() && at < 0 && (#[trigger] groups[k]).len() > 0 implies groups[k][0].card
            != card by {
            if k < rest.len() {
                assert(rest[k] == groups[k]);
            }
        }
        assert forall|k: int| 0 <= k < at && (#[trigger] groups[k]).len() > 0 implies groups[k][0].card
            != card by {
            assert(rest[k] == groups[k]);
        }
    }
}

/// How many entries the groups hold together.
pub open spec fn grouped_count(groups: Seq<Seq<EntryModel>>) -> nat
    decreases groups.len(),
{
    if groups.len() == 0 {
        0
    } else {
        grouped_count(groups.drop_last()) + groups.last().len()
    }
}

proof fn lemma_grouped_update(groups: Seq<Seq<EntryModel>>, k: int, g: Seq<EntryModel>)
    requires
        0 <= k < groups.len(),
    ensures
        grouped_count(groups.update(k, g)) == grouped_count(groups) - groups[k].len() + g.len(),
    decreases groups.len(),
{
    let rest = groups.drop_last();
    if k == groups.len() - 1 {
        assert(groups.update(k, g).drop_last() =~= rest);
    } else {
        lemma_grouped_update(rest, k, g);
        assert(groups.update(k, g).drop_last() =~= rest.update(k, g));
    }
}

/// Grouping by owning type loses no entry, makes no group twice and mixes no two types.
pub proof fn grouping_keeps_entries(entries: Seq<EntryModel>, nodes: nat)
    requires
        forall|i: int| 0 <= i < entries.len() ==> owned(nodes, #[trigger] entries[i]),
    ensures
        grouped_count(groups_of(entries)) == entries.len(),
        forall|k: int|
            0 <= k < groups_of(entries).len() ==> group_fits(
                #[trigger] groups_of(entries)[k],
                nodes,
            ),
        forall|j: int, k: int|
            0 <= j < k < groups_of(entries).len() ==> (#[trigger] groups_of(entries)[j])[0].card
                != (#[trigger] groups_of(entries)[k])[0].card,
    decreases entries.len(),
{
    if entries.len() > 0 {
        let rest = entries.drop_last();
        assert forall|i: int| 0 <= i < rest.len() implies owned(nodes, #[trigger] rest[i]) by {
            assert(owned(nodes, entries[i]));
        }
        grouping_keeps_entries(rest, nodes);
        let before = groups_of(rest);
        let now = groups_of(entries);
        let e = entries.last();
        assert(owned(nodes, entries[entries.len() - 1]));
        lemma_group_place(before, e.card);
        let at = group_place(before, e.card);
        if at >= 0 {
            let more = before[at].push(e);
            lemma_grouped_update(before, at, more);
            assert(group_fits(before[at], nodes));
            assert forall|k: int| 0 <= k < now.len() implies group_fits(
                #[trigger] now[k],
                nodes,
            ) by {
                assert(group_fits(before[k], nodes));
                if k == at {
                    assert forall|i: int| 0 <= i < more.len() implies (#[trigger] more[i]).card
                        == more[0].card && more[i].card < nodes by {
                        if i < before[at].len() {
                            assert(more[i] == before[at][i]);
                        }
                        assert(more[0] == before[at][0]);
                    }
                }
            }
            assert forall|j: int, k: int| 0 <= j < k < now.len() implies (#[trigger] now[j])[0].card
                != (#[trigger] now[k])[0].card by {
                assert(before[j][0].card != before[k][0].card);
                assert(group_fits(before[j], nodes) && group_fits(before[k], nodes));
            }
        } else {
            assert(now.drop_last() =~= before);
            assert forall|k: int| 0 <= k < now.len() implies group_fits(
                #[trigger] now[k],
                nodes,
            ) by {
                if k < before.len() {
                    assert(now[k] == before[k]);
                } else {
                    assert(now[k] == seq![e]);
                }
            }
            assert forall|j: int, k: int| 0 <= j < k < now.len() implies (#[trigger] now[j])[0].card
                != (#[trigger] now[k])[0].card by {
                assert(now[j] == before[j]);
                assert(group_fits(before[j], nodes));
                if k < before.len() {
                    assert(now[k] == before[k]);
                    assert(before[j][0].card != before[k][0].card);
                } else {
                    assert(now[k] == seq![e]);
                }
            }
        }
    }
}

// ── building the list of deprecated members ────────────────────────────────

/// Appends the entry of a member where it belongs to the section.
fn push_member(
    out: &mut Vec<Entry>,
    name: &String,
    reason: &Option<String>,
    is_deprecated: bool,
    card: usize,
    row: usize,
    today: &str,
    variant: Variant,
)
    ensures
        final(out).deep_view() == ({
            let m = MemberModel { name: name@, reason: reason.deep_view(), is_deprecated };
            if section_of(m, today@) == Some(variant) {
                old(out).deep_view().push(
                    EntryModel {
                        card,
                        row,
                        name: name@,
                        until: until_of(m.reason),
                        reason: m.reason,
                    },
                )
            } else {
                old(out).deep_view()
            }
        }),
{
    let text: Option<&str> = match reason {
        Some(t) => Some(t.as_str()),
        None => None,
    };
    let until = parse_until(text);
    let section: Option<Variant> = match &until {
        Some(u) => if is_until_expired(Some(u.as_str()), today) {
            Some(Variant::Expired)
        } else {
            Some(Variant::Upcoming)
        },
        None => if is_deprecated {
            Some(Variant::Undated)
        } else {
            None
        },
    };
    let wanted = match section {
        Some(v) => v == variant,
        None => false,
    };
    if wanted {
        let ghost before = out.deep_view();
        let entry = Entry { card, row, name: name.clone(), until, reason: reason.duplicate() };
        let ghost e = entry.deep_view();
        out.push(entry);
        assert(out.deep_view() =~= before.push(e));
    }
}

/// Appends the entries of one section among the members of a node.
fn push_entries(
    out: &mut Vec<Entry>,
    n: &GraphNodeData,
    card: usize,
    today: &str,
    variant: Variant,
)
    ensures
        final(out).deep_view() == old(out).deep_view() + member_entries(
            members_of(n.deep_view()),
            card,
            today@,
            variant,
        ),
{
    let ghost start = out.deep_view();
    let ghost ms = members_of(n.deep_view());
    assert(ms.take(0) =~= Seq::<MemberModel>::empty());
    assert(start + member_entries(ms.take(0), card, today@, variant) =~= start);
    if is_kind(n.kind, NodeKind::Enum) {
        match &n.values {
            Some(values) => {
                let mut i: usize = 0;
                while i < values.len()
                    invariant
                        i <= values@.len(),
                        ms.len() == values@.len(),
                        forall|k: int|
                            0 <= k < ms.len() ==> #[trigger] ms[k] == (MemberModel {
                                name: values@[k].name@,
                                reason: values@[k].deprecation_reason.deep_view(),
                                is_deprecated: values@[k].is_deprecated,
                            }),
                        out.deep_view() == start + member_entries(
                            ms.take(i as int),
                            card,
                            today@,
                            variant,
                        ),
                    decreases values@.len() - i,
                {
                    let ghost before = out.deep_view();
                    assert(ms.take(i as int + 1).drop_last() =~= ms.take(i as int));
                    assert(ms.take(i as int + 1).last() == ms[i as int]);
                    push_member(
                        out,
                        &values[i].name,
                        &values[i].deprecation_reason,
                        values[i].is_deprecated,
                        card,
                        i,
                        today,
                        variant,
                    );
                    assert(out.deep_view() =~= start + member_entries(
                        ms.take(i as int + 1),
                        card,
                        today@,
                        variant,
                    ));
                    i = i + 1;
                }
                assert(ms.take(i as int) =~= ms);
            },
            None => {
                assert(ms.take(0) =~= ms);
            },
        }
    } else {
        match &n.fields {
            Some(fields) => {
                let mut i: usize = 0;
                while i < fields.len()
                    invariant
                        i <= fields@.len(),
                        ms.len() == fields@.len(),
                        forall|k: int|
                            0 <= k < ms.len() ==> #[trigger] ms[k] == (MemberModel {
                                name: fields@[k].name@,
                                reason: fields@[k].deprecation_reason.deep_view(),
                                is_deprecated: fields@[k].is_deprecated,
                            }),
                        out.deep_view() == start + member_entries(
                            ms.take(i as int),
                            card,
                            today@,
                            variant,
                        ),
                    decreases fields@.len() - i,
                {
                    let ghost before = out.deep_view();
                    assert(ms.take(i as int + 1).drop_last() =~= ms.take(i as int));
                    assert(ms.take(i as int + 1).last() == ms[i as int]);
                    push_member(
                        out,
                        &fields[i].name,
                        &fields[i].deprecation_reason,
                        fields[i].is_deprecated,
                        card,
                        i,
                        today,
                        variant,
                    );
                    assert(out.deep_view() =~= start + member_entries(
                        ms.take(i as int + 1),
                        card,
                        today@,
                        variant,
                    ));
                    i = i + 1;
                }
                assert(ms.take(i as int) =~= ms);
            },
            None => {
                assert(ms.take(0) =~= ms);
            },
        }
    }
}

/// Finds the entries of one section.
fn find_entries(nodes: &Vec<GraphNodeData>, today: &str, variant: Variant) -> (r: Vec<Entry>)
    ensures
        r.deep_view() == entries_of(nodes.deep_view(), today@, variant),
{
    let ghost ns = nodes.deep_view();
    let mut out: Vec<Entry> = Vec::new();
    let mut i: usize = 0;
    assert(ns.take(0) =~= Seq::<NodeModel>::empty());
    assert(out.deep_view() =~= entries_of(ns.take(0), today@, variant));
    while i < nodes.len()
        invariant
            i <= nodes@.len(),
            ns == nodes.deep_view(),
            out.deep_view() == entries_of(ns.take(i as int), today@, variant),
        decreases nodes@.len() - i,
    {
        assert(ns[i as int] == nodes@[i as int].deep_view());
        assert(ns.take(i as int + 1).drop_last() =~= ns.take(i as int));
        push_entries(&mut out, &nodes[i], i, today, variant);
        i = i + 1;
    }
    assert(ns.take(i as int) =~= ns);
    out
}

/// Puts the entries in the order that the list shows them.
fn order_entries(nodes: &Vec<GraphNodeData>, entries: &Vec<Entry>) -> (r: Vec<Entry>)
    requires
        forall|i: int|
            0 <= i < entries@.len() ==> owned(
                nodes@.len(),
                #[trigger] entries.deep_view()[i],
            ),
    ensures
        r.deep_view() == ordered_entries(nodes.deep_view(), entries.deep_view()),
{
    let ghost ns = nodes.deep_view();
    let ghost es = entries.deep_view();
    let ghost wanted = es.map_values(|e: EntryModel| entry_key(ns, e));
    let mut keys: Vec<(String, String)> = Vec::new();
    let mut all: Vec<usize> = Vec::new();
    let mut i: usize = 0;
    while i < entries.len()
        invariant
            i <= entries@.len(),
            ns == nodes.deep_view(),
            es == entries.deep_view(),
            wanted == es.map_values(|e: EntryModel| entry_key(ns, e)),
            forall|k: int| 0 <= k < entries@.len() ==> owned(nodes@.len(), #[trigger] es[k]),
            keys@.len() == i,
            forall|k: int| 0 <= k < i ==> (#[trigger] keys@[k]).deep_view() == wanted[k],
            all@.len() == i,
            forall|k: int| 0 <= k < i ==> #[trigger] all@[k] == k,
        decreases entries@.len() - i,
    {
        let e = &entries[i];
        assert(es[i as int] == e.deep_view());
        assert(owned(nodes@.len(), es[i as int]));
        assert(ns[e.card as int] == nodes@[e.card as int].deep_view());
        let key: (String, String) = match &e.until {
            Some(u) => (u.clone(), String::new()),
            None => (nodes[e.card].name.clone(), e.name.clone()),
        };
        assert(key.deep_view() =~= wanted[i as int]) by {
            if e.until is Some {
                assert(key.1@ =~= Seq::<char>::empty());
            }
        }
        keys.push(key);
        all.push(i);
        i = i + 1;
    }
    assert(keys.deep_view() =~= wanted);
    assert(all@ =~= numbers(es.len()));
    let order = arrange(&keys, &all);
    let mut out: Vec<Entry> = Vec::new();
    let mut k: usize = 0;
    while k < order.len()
        invariant
            k <= order@.len(),
            es == entries.deep_view(),
            forall|j: int| 0 <= j < order@.len() ==> #[trigger] order@[j] < entries@.len(),
            out@.len() == k,
            forall|j: int| 0 <= j < k ==> (#[trigger] out@[j]).deep_view() == es[order@[j] as int],
        decreases order@.len() - k,
    {
        let at: usize = order[k];
        assert(es[at as int] == entries@[at as int].deep_view());
        out.push(entries[at].duplicate());
        k = k + 1;
    }
    assert(out.deep_view() =~= ordered_entries(ns, es));
    out
}

#[verifier::loop_isolation(false)]
fn find_group(groups: &Vec<Vec<Entry>>, card: usize) -> (r: Option<usize>)
    ensures
        r is Some <==> group_place(groups.deep_view(), card) >= 0,
        r matches Some(k) ==> k == group_place(groups.deep_view(), card) && k < groups@.len(),
{
    let ghost all = groups.deep_view();
    proof {
        lemma_group_place(all, card);
    }
    let mut k: usize = 0;
    while k < groups.len()
        invariant
            k <= groups@.len(),
            forall|j: int|
                0 <= j < k && (#[trigger] all[j]).len() > 0 ==> all[j][0].card != card,
        decreases groups@.len() - k,
    {
        assert(all[k as int] == groups@[k as int].deep_view());
        if groups[k].len() > 0 && groups[k][0].card == card {
            assert(all[k as int][0] == groups@[k as int]@[0].deep_view());
            return Some(k);
        }
        assert(groups@[k as int]@.len() > 0 ==> all[k as int][0] == groups@[k as int]@[0].deep_view());
        k = k + 1;
    }
    None
}

/// Groups the entries by owning type.
fn group_entries(entries: &Vec<Entry>) -> (r: Vec<Vec<Entry>>)
    ensures
        r.deep_view() == groups_of(entries.deep_view()),
{
    let ghost es = entries.deep_view();
    let mut groups: Vec<Vec<Entry>> = Vec::new();
    let mut i: usize = 0;
    assert(es.take(0) =~= Seq::<EntryModel>::empty());
    assert(groups.deep_view() =~= groups_of(es.take(0)));
    while i < entries.len()
        invariant
            i <= entries@.len(),
            es == entries.deep_view(),
            groups.deep_view() == groups_of(es.take(i as int)),
        decreases entries@.len() - i,
    {
        let ghost before = groups.deep_view();
        let ghost e = es[i as int];
        assert(e == entries@[i as int].deep_view());
        assert(es.take(i as int + 1).drop_last() =~= es.take(i as int));
        let copy = entries[i].duplicate();
        match find_group(&groups, entries[i].card) {
            Some(k) => {
                let ghost was = before[k as int];
                assert(was == groups@[k as int].deep_view());
                groups[k].push(copy);
                assert(groups@[k as int].deep_view() =~= was.push(e));
                assert(groups.deep_view() =~= before.update(k as int, was.push(e)));
            },
            None => {
                let mut one: Vec<Entry> = Vec::new();
                one.push(copy);
                assert(one.deep_view() =~= seq![e]);
                groups.push(one);
                assert(groups.deep_view() =~= before.push(seq![e]));
            },
        }
        i = i + 1;
    }
    assert(es.take(i as int) =~= es);
    groups
}

fn push_group(
    rows: &mut Vec<UntilRow>,
    nodes: &Vec<GraphNodeData>,
    variant: Variant,
    group: &Vec<Entry>,
    today: &str,
)
    requires
        nodes@.len() <= u32::MAX,
        group_fits(group.deep_view(), nodes@.len()),
    ensures
        final(rows).deep_view() == old(rows).deep_view() + group_rows(
            nodes.deep_view(),
            variant,
            today@,
            group.deep_view(),
        ),
{
    let ghost ns = nodes.deep_view();
    let ghost start = rows.deep_view();
    let ghost gs = group.deep_view();
    assert(gs[0] == group@[0].deep_view());
    let owner: usize = group[0].card;
    let n = &nodes[owner];
    assert(ns[owner as int] == n.deep_view());
    rows.push(
        UntilRow::Group {
            kind: n.kind,
            name: n.name.clone(),
            count: count_string(group.len()),
        },
    );
    let ghost head = group_rows(ns, variant, today@, gs)[0];
    assert(rows.deep_view() =~= start.push(head));
    let ghost body = gs.map_values(|e: EntryModel| entry_row(variant, today@, e));
    assert(start.push(head) + body.take(0) =~= start.push(head));
    let mut i: usize = 0;
    while i < group.len()
        invariant
            i <= group@.len(),
            nodes@.len() <= u32::MAX,
            gs == group.deep_view(),
            group_fits(gs, nodes@.len()),
            body == gs.map_values(|e: EntryModel| entry_row(variant, today@, e)),
            rows.deep_view() == start.push(head) + body.take(i as int),
        decreases group@.len() - i,
    {
        let ghost before = rows.deep_view();
        let e = &group[i];
        assert(gs[i as int] == e.deep_view());
        let until: Option<&str> = match &e.until {
            Some(u) => Some(u.as_str()),
            None => None,
        };
        let reason: Option<&str> = match &e.reason {
            Some(t) => Some(t.as_str()),
            None => None,
        };
        let meta = meta_line(variant, until, reason, today);
        rows.push(
            UntilRow::Field {
                variant,
                card: e.card as u32,
                row: e.row,
                name: e.name.clone(),
                date: e.until.duplicate(),
                meta,
            },
        );
        assert(rows.deep_view() =~= before.push(entry_row(variant, today@, gs[i as int])));
        assert(rows.deep_view() =~= start.push(head) + body.take(i as int + 1));
        i = i + 1;
    }
    assert(body.take(i as int) =~= body);
    assert(rows.deep_view() =~= start + group_rows(ns, variant, today@, gs));
}

/// Appends one section: its banner, then a header and the rows of each owning type.
fn push_section(
    rows: &mut Vec<UntilRow>,
    nodes: &Vec<GraphNodeData>,
    variant: Variant,
    today: &str,
)
    requires
        nodes@.len() <= u32::MAX,
    ensures
        final(rows).deep_view() == old(rows).deep_view() + section_rows(
            nodes.deep_view(),
            today@,
            variant,
        ),
{
    let ghost ns = nodes.deep_view();
    let ghost start = rows.deep_view();
    assert(ns.len() == nodes@.len());
    let found = find_entries(nodes, today, variant);
    proof {
        lemma_entries(ns, today@, variant);
    }
    let ghost es = found.deep_view();
    assert(es.len() == found@.len());
    if found.len() == 0 {
        assert(start + section_rows(ns, today@, variant) =~= start);
        return;
    }
    rows.push(UntilRow::Banner { variant, count: count_string(found.len()) });
    let ghost head = UntilModel::Banner { variant, count: count_text(es.len()) };
    assert(rows.deep_view() =~= start.push(head));
    let entries = order_entries(nodes, &found);
    let groups = group_entries(&entries);
    let ghost gs = groups.deep_view();
    proof {
        let order = ordered_entries(ns, es);
        let keys = es.map_values(|e: EntryModel| entry_key(ns, e));
        lemma_arranged_members(keys, numbers(es.len()), es.len() as int);
        assert forall|i: int| 0 <= i < order.len() implies owned(
            ns.len(),
            #[trigger] order[i],
        ) by {
            let at = arranged(keys, numbers(es.len()))[i];
            assert(order[i] == es[at as int]);
        }
        grouping_keeps_entries(order, ns.len());
    }
    assert(gs.take(0) =~= Seq::<Seq<EntryModel>>::empty());
    assert(start.push(head) + all_group_rows(ns, variant, today@, gs.take(0)) =~= start.push(head));
    let mut i: usize = 0;
    while i < groups.len()
        invariant
            i <= groups@.len(),
            nodes@.len() <= u32::MAX,
            ns == nodes.deep_view(),
            gs == groups.deep_view(),
            forall|k: int|
                0 <= k < gs.len() ==> group_fits(#[trigger] gs[k], nodes@.len()),
            rows.deep_view() == start.push(head) + all_group_rows(
                ns,
                variant,
                today@,
                gs.take(i as int),
            ),
        decreases groups@.len() - i,
    {
        assert(gs[i as int] == groups@[i as int].deep_view());
        assert(group_fits(gs[i as int], nodes@.len()));
        assert(gs.take(i as int + 1).drop_last() =~= gs.take(i as int));
        let ghost before = rows.deep_view();
        push_group(rows, nodes, variant, &groups[i], today);
        assert(rows.deep_view() =~= start.push(head) + all_group_rows(
            ns,
            variant,
            today@,
            gs.take(i as int + 1),
        ));
        i = i + 1;
    }
    assert(gs.take(i as int) =~= gs);
    assert(rows.deep_view() =~= start + section_rows(ns, today@, variant));
}

/// Scans every type for deprecated members and splits them into the three sections, each grouped
/// by owning type.
pub fn build_until_rows(nodes: &Vec<GraphNodeData>, today: &str) -> (r: Vec<UntilRow>)
    requires
        nodes@.len() <= u32::MAX,
    ensures
        r.deep_view() == until_rows(nodes.deep_view(), today@),
{
    let mut rows: Vec<UntilRow> = Vec::new();
    let ghost none = rows.deep_view();
    push_section(&mut rows, nodes, Variant::Expired, today);
    assert(none + section_rows(nodes.deep_view(), today@, Variant::Expired) =~= section_rows(
        nodes.deep_view(),
        today@,
        Variant::Expired,
    ));
    push_section(&mut rows, nodes, Variant::Upcoming, today);
    push_section(&mut rows, nodes, Variant::Undated, today);
    rows
}

} // verus!
