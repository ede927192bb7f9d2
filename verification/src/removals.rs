//! Deleting members that an overlay subtracts.
//!
//! A member name is looked up in whichever list the target kind renders: enum values, union
//! members, otherwise fields. It falls back to the implemented-interface list, so `-Node` inside an
//! object block drops the `implements Node` rather than reporting a missing field.

use vstd::prelude::*;

use crate::extensions::{field_names, node_names, or_empty, value_names};
use crate::lists::{first_place, lemma_first_place_is};
use crate::text::same;
use crate::types::{
    EnumValue, FieldModel, GraphField, GraphNodeData, NodeKind, NodeModel, RemovalModel,
    SchemaRemoval, ValueModel,
};

verus! {

/// The fields but those named `name`.
pub open spec fn fields_without(rows: Seq<FieldModel>, name: Seq<char>) -> Seq<FieldModel>
    decreases rows.len(),
{
    if rows.len() == 0 {
        rows
    } else {
        let rest = fields_without(rows.drop_last(), name);
        if rows.last().name == name { rest } else { rest.push(rows.last()) }
    }
}

/// The enum values but those named `name`.
pub open spec fn values_without(rows: Seq<ValueModel>, name: Seq<char>) -> Seq<ValueModel>
    decreases rows.len(),
{
    if rows.len() == 0 {
        rows
    } else {
        let rest = values_without(rows.drop_last(), name);
        if rows.last().name == name { rest } else { rest.push(rows.last()) }
    }
}

/// The names but `name`.
pub open spec fn names_without(names: Seq<Seq<char>>, name: Seq<char>) -> Seq<Seq<char>>
    decreases names.len(),
{
    if names.len() == 0 {
        names
    } else {
        let rest = names_without(names.drop_last(), name);
        if names.last() == name { rest } else { rest.push(names.last()) }
    }
}

/// Whether `member` is in the list that the node's kind renders, or among its interfaces.
pub open spec fn holds_member(n: NodeModel, member: Seq<char>) -> bool {
    match n.kind {
        NodeKind::Enum => value_names(or_empty(n.values)).contains(member),
        NodeKind::Union => or_empty(n.members).contains(member),
        _ => field_names(or_empty(n.fields)).contains(member) || or_empty(n.interfaces).contains(
            member,
        ),
    }
}

/// The node without `member`. A list that the node does not have is not made up.
pub open spec fn node_without(n: NodeModel, member: Seq<char>) -> NodeModel {
    match n.kind {
        NodeKind::Enum => NodeModel {
            values: match n.values {
                Some(rows) => Some(values_without(rows, member)),
                None => None,
            },
            ..n
        },
        NodeKind::Union => NodeModel {
            members: match n.members {
                Some(rows) => Some(names_without(rows, member)),
                None => None,
            },
            ..n
        },
        _ => NodeModel {
            fields: match n.fields {
                Some(rows) => Some(fields_without(rows, member)),
                None => None,
            },
            interfaces: if field_names(or_empty(n.fields)).contains(member) {
                n.interfaces
            } else {
                match n.interfaces {
                    Some(names) => Some(names_without(names, member)),
                    None => None,
                }
            },
            ..n
        },
    }
}

/// What a missing member of a kind is called.
pub open spec fn member_word(kind: NodeKind) -> Seq<char> {
    match kind {
        NodeKind::Enum => "value"@,
        NodeKind::Union => "member"@,
        _ => "field"@,
    }
}

/// The warning about a removal whose type is not there.
pub open spec fn no_type_text(r: RemovalModel) -> Seq<char> {
    match r.member {
        Some(m) => "Cannot remove \""@ + r.type_ + "."@ + m + "\" — no type \""@ + r.type_ + "\""@,
        None => "Cannot remove unknown type \""@ + r.type_ + "\""@,
    }
}

/// The warning about a removal whose member is not there.
pub open spec fn no_member_text(type_: Seq<char>, member: Seq<char>, kind: NodeKind) -> Seq<char> {
    "Cannot remove \""@ + type_ + "."@ + member + "\" — no such "@ + member_word(kind)
}

/// Nodes and warnings after one more removal; the first node of a name is the target.
pub open spec fn remove_step(
    nodes: Seq<NodeModel>,
    warnings: Seq<Seq<char>>,
    r: RemovalModel,
) -> (Seq<NodeModel>, Seq<Seq<char>>) {
    let i = first_place(node_names(nodes), r.type_);
    if i >= nodes.len() {
        (nodes, warnings.push(no_type_text(r)))
    } else {
        match r.member {
            None => (nodes.remove(i), warnings),
            Some(m) => (
                nodes.update(i, node_without(nodes[i], m)),
                if holds_member(nodes[i], m) {
                    warnings
                } else {
                    warnings.push(no_member_text(r.type_, m, nodes[i].kind))
                },
            ),
        }
    }
}

/// Nodes after every removal, and the warnings raised.
pub open spec fn removed(
    nodes: Seq<NodeModel>,
    removals: Seq<RemovalModel>,
) -> (Seq<NodeModel>, Seq<Seq<char>>)
    decreases removals.len(),
{
    if removals.len() == 0 {
        (nodes, Seq::empty())
    } else {
        let (before, warnings) = removed(nodes, removals.drop_last());
        remove_step(before, warnings, removals.last())
    }
}

fn drop_fields(rows: Vec<GraphField>, name: &str) -> (r: (Vec<GraphField>, bool))
    ensures
        r.0.deep_view() == fields_without(rows.deep_view(), name@),
        r.1 == field_names(rows.deep_view()).contains(name@),
{
    let ghost all = rows.deep_view();
    let ghost names = field_names(all);
    let mut out: Vec<GraphField> = Vec::new();
    let mut dropped: bool = false;
    assert(all.take(0) =~= Seq::<FieldModel>::empty());
    assert(out.deep_view() =~= Seq::<FieldModel>::empty());
    for f in it: rows
        invariant
            it.seq() == rows@,
            all == rows.deep_view(),
            names == field_names(all),
            out.deep_view() == fields_without(all.take(it.index() as int), name@),
            dropped ==> names.contains(name@),
            !dropped ==> forall|j: int| 0 <= j < it.index() ==> #[trigger] names[j] != name@,
    {
        let ghost i = it.index() as int;
        let ghost before = out.deep_view();
        assert(all[i] == f.deep_view());
        assert(names[i] == f.name@);
        assert(all.take(i + 1).drop_last() =~= all.take(i));
        if same(f.name.as_str(), name) {
            dropped = true;
        } else {
            out.push(f);
            assert(out.deep_view() =~= before.push(f.deep_view()));
        }
    }
    assert(all.take(all.len() as int) =~= all);
    (out, dropped)
}

fn drop_values(rows: Vec<EnumValue>, name: &str) -> (r: (Vec<EnumValue>, bool))
    ensures
        r.0.deep_view() == values_without(rows.deep_view(), name@),
        r.1 == value_names(rows.deep_view()).contains(name@),
{
    let ghost all = rows.deep_view();
    let ghost names = value_names(all);
    let mut out: Vec<EnumValue> = Vec::new();
    let mut dropped: bool = false;
    assert(all.take(0) =~= Seq::<ValueModel>::empty());
    assert(out.deep_view() =~= Seq::<ValueModel>::empty());
    for v in it: rows
        invariant
            it.seq() == rows@,
            all == rows.deep_view(),
            names == value_names(all),
            out.deep_view() == values_without(all.take(it.index() as int), name@),
            dropped ==> names.contains(name@),
            !dropped ==> forall|j: int| 0 <= j < it.index() ==> #[trigger] names[j] != name@,
    {
        let ghost i = it.index() as int;
        let ghost before = out.deep_view();
        assert(all[i] == v.deep_view());
        assert(names[i] == v.name@);
        assert(all.take(i + 1).drop_last() =~= all.take(i));
        if same(v.name.as_str(), name) {
            dropped = true;
        } else {
            out.push(v);
            assert(out.deep_view() =~= before.push(v.deep_view()));
        }
    }
    assert(all.take(all.len() as int) =~= all);
    (out, dropped)
}

fn drop_names(names: Vec<String>, name: &str) -> (r: (Vec<String>, bool))
    ensures
        r.0.deep_view() == names_without(names.deep_view(), name@),
        r.1 == names.deep_view().contains(name@),
{
    let ghost all = names.deep_view();
    let mut out: Vec<String> = Vec::new();
    let mut dropped: bool = false;
    assert(all.take(0) =~= Seq::<Seq<char>>::empty());
    assert(out.deep_view() =~= Seq::<Seq<char>>::empty());
    for s in it: names
        invariant
            it.seq() == names@,
            all == names.deep_view(),
            out.deep_view() == names_without(all.take(it.index() as int), name@),
            dropped ==> all.contains(name@),
            !dropped ==> forall|j: int| 0 <= j < it.index() ==> #[trigger] all[j] != name@,
    {
        let ghost i = it.index() as int;
        let ghost before = out.deep_view();
        assert(all[i] == s@);
        assert(all.take(i + 1).drop_last() =~= all.take(i));
        if same(s.as_str(), name) {
            dropped = true;
        } else {
            out.push(s);
            assert(out.deep_view() =~= before.push(s@));
        }
    }
    assert(all.take(all.len() as int) =~= all);
    (out, dropped)
}

/// Drops `member` from a node, and says whether it was there.
fn drop_member(node: GraphNodeData, member: &str) -> (r: (GraphNodeData, bool))
    ensures
        r.0.deep_view() == node_without(node.deep_view(), member@),
        r.1 == holds_member(node.deep_view(), member@),
{
    let mut node = node;
    match node.kind {
        NodeKind::Enum => {
            let mut dropped: bool = false;
            if let Some(rows) = node.values {
                let (rows, gone) = drop_values(rows, member);
                node.values = Some(rows);
                dropped = gone;
            } else {
                node.values = None;
                assert(value_names(Seq::<ValueModel>::empty()) =~= Seq::<Seq<char>>::empty());
            }
            (node, dropped)
        },
        NodeKind::Union => {
            let mut dropped: bool = false;
            if let Some(names) = node.members {
                let (names, gone) = drop_names(names, member);
                node.members = Some(names);
                dropped = gone;
            } else {
                node.members = None;
            }
            (node, dropped)
        },
        _ => {
            let mut dropped: bool = false;
            if let Some(rows) = node.fields {
                let (rows, gone) = drop_fields(rows, member);
                node.fields = Some(rows);
                dropped = gone;
            } else {
                node.fields = None;
                assert(field_names(Seq::<FieldModel>::empty()) =~= Seq::<Seq<char>>::empty());
            }
            if dropped {
                (node, true)
            } else {
                match node.interfaces {
                    Some(names) => {
                        let (kept, gone) = drop_names(names, member);
                        node.interfaces = Some(kept);
                        (node, gone)
                    },
                    None => {
                        node.interfaces = None;
                        assert(!Seq::<Seq<char>>::empty().contains(member@));
                        (node, false)
                    },
                }
            }
        },
    }
}

fn first_node(nodes: &Vec<GraphNodeData>, name: &str) -> (r: usize)
    ensures
        r == first_place(node_names(nodes.deep_view()), name@),
        r <= nodes@.len(),
{
    let ghost names = node_names(nodes.deep_view());
    let mut i: usize = 0;
    while i < nodes.len()
        invariant
            i <= nodes@.len(),
            names == node_names(nodes.deep_view()),
            forall|j: int| 0 <= j < i ==> #[trigger] names[j] != name@,
        decreases nodes@.len() - i,
    {
        assert(names[i as int] == nodes@[i as int].name@);
        if same(nodes[i].name.as_str(), name) {
            proof {
                lemma_first_place_is(names, name@, i as int);
            }
            return i;
        }
        i = i + 1;
    }
    proof {
        lemma_first_place_is(names, name@, i as int);
    }
    i
}

fn no_type_warning(r: &SchemaRemoval) -> (s: String)
    ensures
        s@ == no_type_text(r.deep_view()),
{
    match &r.member {
        Some(m) => {
            let mut s = "Cannot remove \"".to_owned();
            s.append(r.type_.as_str());
            s.append(".");
            s.append(m.as_str());
            s.append("\" — no type \"");
            s.append(r.type_.as_str());
            s.append("\"");
            s
        },
        None => {
            let mut s = "Cannot remove unknown type \"".to_owned();
            s.append(r.type_.as_str());
            s.append("\"");
            s
        },
    }
}

fn no_member_warning(type_: &str, member: &str, kind: NodeKind) -> (s: String)
    ensures
        s@ == no_member_text(type_@, member@, kind),
{
    let mut s = "Cannot remove \"".to_owned();
    s.append(type_);
    s.append(".");
    s.append(member);
    s.append("\" — no such ");
    match kind {
        NodeKind::Enum => s.append("value"),
        NodeKind::Union => s.append("member"),
        _ => s.append("field"),
    }
    s
}

fn remove_one(nodes: &mut Vec<GraphNodeData>, warnings: &mut Vec<String>, r: &SchemaRemoval)
    ensures
        (final(nodes).deep_view(), final(warnings).deep_view()) == remove_step(
            old(nodes).deep_view(),
            old(warnings).deep_view(),
            r.deep_view(),
        ),
{
    let ghost nodes0 = nodes.deep_view();
    let ghost warnings0 = warnings.deep_view();
    let i: usize = first_node(nodes, r.type_.as_str());
    if i == nodes.len() {
        warnings.push(no_type_warning(r));
        assert(warnings.deep_view() =~= warnings0.push(no_type_text(r.deep_view())));
        return;
    }
    match &r.member {
        None => {
            nodes.remove(i);
            assert(nodes.deep_view() =~= nodes0.remove(i as int));
        },
        Some(member) => {
            let kind = nodes[i].kind;
            assert(nodes0[i as int].kind == kind);
            let mut node = GraphNodeData::new("", NodeKind::Scalar);
            std::mem::swap(&mut node, &mut nodes[i]);
            assert(node.deep_view() == nodes0[i as int]);
            let (kept, dropped) = drop_member(node, member.as_str());
            nodes.set(i, kept);
            assert(nodes.deep_view() =~= nodes0.update(i as int, kept.deep_view()));
            if !dropped {
                warnings.push(no_member_warning(r.type_.as_str(), member.as_str(), kind));
                assert(warnings.deep_view() =~= warnings0.push(
                    no_member_text(r.type_@, member@, kind),
                ));
            }
        },
    }
}

/// Deletes the requested members from `nodes` and returns the warnings.
pub fn apply_removals(nodes: &mut Vec<GraphNodeData>, removals: &Vec<SchemaRemoval>) -> (warnings:
    Vec<String>)
    ensures
        (final(nodes).deep_view(), warnings.deep_view()) == removed(
            old(nodes).deep_view(),
            removals.deep_view(),
        ),
{
    let ghost base = nodes.deep_view();
    let ghost all = removals.deep_view();
    let mut warnings: Vec<String> = Vec::new();
    let mut i: usize = 0;
    assert(all.take(0) =~= Seq::<RemovalModel>::empty());
    assert(warnings.deep_view() =~= Seq::<Seq<char>>::empty());
    while i < removals.len()
        invariant
            i <= removals@.len(),
            all == removals.deep_view(),
            (nodes.deep_view(), warnings.deep_view()) == removed(base, all.take(i as int)),
        decreases removals@.len() - i,
    {
        assert(all.take(i as int + 1).drop_last() =~= all.take(i as int));
        assert(all[i as int] == removals@[i as int].deep_view());
        remove_one(nodes, &mut warnings, &removals[i]);
        i = i + 1;
    }
    assert(all.take(i as int) =~= all);
    warnings
}

/// A node without a member does not hold it any more, unless a field and an interface share its
/// name: then the field goes first.
pub proof fn removal_removes(n: NodeModel, member: Seq<char>)
    requires
        !(field_names(or_empty(n.fields)).contains(member) && or_empty(n.interfaces).contains(member)),
    ensures
        !holds_member(node_without(n, member), member),
{
    lemma_fields_without(or_empty(n.fields), member);
    lemma_values_without(or_empty(n.values), member);
    lemma_names_without(or_empty(n.members), member);
    lemma_names_without(or_empty(n.interfaces), member);
}

/// A node that has no list to remove from stays as it is.
pub proof fn nothing_comes_from_no_list(n: NodeModel, member: Seq<char>)
    requires
        match n.kind {
            NodeKind::Enum => n.values is None,
            NodeKind::Union => n.members is None,
            _ => n.fields is None && n.interfaces is None,
        },
    ensures
        node_without(n, member) == n,
        !holds_member(n, member),
{
    assert(value_names(Seq::<ValueModel>::empty()) =~= Seq::<Seq<char>>::empty());
    assert(field_names(Seq::<FieldModel>::empty()) =~= Seq::<Seq<char>>::empty());
}

proof fn lemma_fields_without(rows: Seq<FieldModel>, name: Seq<char>)
    ensures
        !field_names(fields_without(rows, name)).contains(name),
        !field_names(rows).contains(name) ==> fields_without(rows, name) == rows,
    decreases rows.len(),
{
    if rows.len() > 0 {
        lemma_fields_without(rows.drop_last(), name);
        let rest = fields_without(rows.drop_last(), name);
        let all = fields_without(rows, name);
        if field_names(all).contains(name) {
            let i = choose|i: int| 0 <= i < field_names(all).len() && field_names(all)[i] == name;
            if i < rest.len() {
                assert(field_names(rest)[i] == name);
            }
        }
        if !field_names(rows).contains(name) {
            assert(field_names(rows)[rows.len() - 1] == rows.last().name);
            assert(!field_names(rows.drop_last()).contains(name)) by {
                if field_names(rows.drop_last()).contains(name) {
                    let i = choose|i: int|
                        0 <= i < rows.len() - 1 && field_names(rows.drop_last())[i] == name;
                    assert(field_names(rows)[i] == name);
                }
            }
            assert(rows.drop_last().push(rows.last()) =~= rows);
        }
    }
}

proof fn lemma_values_without(rows: Seq<ValueModel>, name: Seq<char>)
    ensures
        !value_names(values_without(rows, name)).contains(name),
    decreases rows.len(),
{
    if rows.len() > 0 {
        lemma_values_without(rows.drop_last(), name);
        let rest = values_without(rows.drop_last(), name);
        let all = values_without(rows, name);
        if value_names(all).contains(name) {
            let i = choose|i: int| 0 <= i < value_names(all).len() && value_names(all)[i] == name;
            if i < rest.len() {
                assert(value_names(rest)[i] == name);
            }
        }
    }
}

proof fn lemma_names_without(names: Seq<Seq<char>>, name: Seq<char>)
    ensures
        !names_without(names, name).contains(name),
    decreases names.len(),
{
    if names.len() > 0 {
        lemma_names_without(names.drop_last(), name);
        let rest = names_without(names.drop_last(), name);
        let all = names_without(names, name);
        if all.contains(name) {
            let i = choose|i: int| 0 <= i < all.len() && all[i] == name;
            if i < rest.len() {
                assert(rest[i] == name);
            }
        }
    }
}

} // verus!
