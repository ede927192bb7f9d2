//! What removals take away, told of the types before and after.

use vstd::prelude::*;

use crate::extensions::{field_names, node_names, or_empty, value_names};
use crate::growth::{has_field, has_interface, has_member, has_value};
use crate::lists::{lemma_first_place, lemma_first_place_is};
use crate::removals::{fields_without, names_without, node_without, removed, values_without};
use crate::types::{FieldModel, NodeKind, NodeModel, RemovalModel, ValueModel};

verus! {

/// `i` is the first of `nodes` that is named `name`.
pub open spec fn is_named_first(nodes: Seq<NodeModel>, name: Seq<char>, i: int) -> bool {
    &&& 0 <= i < nodes.len()
    &&& nodes[i].name == name
    &&& forall|j: int| 0 <= j < i ==> (#[trigger] nodes[j]).name != name
}

/// The removed name is a row of the type: a value of an enum, a member of a union, a field of the rest;
/// or else an interface that it implements.
pub open spec fn can_lose(n: NodeModel, member: Seq<char>) -> bool {
    if n.kind == NodeKind::Enum {
        has_value(n, member)
    } else if n.kind == NodeKind::Union {
        has_member(n, member)
    } else {
        has_field(n, member) || has_interface(n, member)
    }
}

/// `b` has the fields of `a` but those of that name.
pub open spec fn lost_fields(a: NodeModel, b: NodeModel, member: Seq<char>) -> bool {
    &&& a.fields is Some <==> b.fields is Some
    &&& !has_field(b, member)
    &&& forall|f: FieldModel| #[trigger]
        or_empty(b.fields).contains(f) <==> or_empty(a.fields).contains(f) && f.name != member
    &&& !has_field(a, member) ==> b.fields == a.fields
}

/// `b` has the values of `a` but those of that name.
pub open spec fn lost_values(a: NodeModel, b: NodeModel, member: Seq<char>) -> bool {
    &&& a.values is Some <==> b.values is Some
    &&& !has_value(b, member)
    &&& forall|v: ValueModel| #[trigger]
        or_empty(b.values).contains(v) <==> or_empty(a.values).contains(v) && v.name != member
    &&& !has_value(a, member) ==> b.values == a.values
}

/// `b` are the names of `a` but for `member`.
pub open spec fn lost_name(
    a: Option<Seq<Seq<char>>>,
    b: Option<Seq<Seq<char>>>,
    member: Seq<char>,
) -> bool {
    &&& a is Some <==> b is Some
    &&& forall|x: Seq<char>| #[trigger]
        or_empty(b).contains(x) <==> or_empty(a).contains(x) && x != member
    &&& !or_empty(a).contains(member) ==> b == a
}

/// `b` is `a` without `member`: without the row of that name, or, where no field has it, without the
/// interface. Everything else is kept.
pub open spec fn lost_member(a: NodeModel, b: NodeModel, member: Seq<char>) -> bool {
    &&& b.id == a.id && b.name == a.name && b.kind == a.kind && b.description == a.description
    &&& b.member_of_unions == a.member_of_unions && b.is_overlay == a.is_overlay
    &&& if a.kind == NodeKind::Enum {
        lost_values(a, b, member) && b.fields == a.fields && b.members == a.members && b.interfaces
            == a.interfaces
    } else if a.kind == NodeKind::Union {
        lost_name(a.members, b.members, member) && b.fields == a.fields && b.values == a.values
            && b.interfaces == a.interfaces
    } else {
        &&& lost_fields(a, b, member)
        &&& b.values == a.values && b.members == a.members
        &&& if has_field(a, member) {
            b.interfaces == a.interfaces
        } else {
            lost_name(a.interfaces, b.interfaces, member)
        }
    }
}

proof fn lemma_fields_left(rows: Seq<FieldModel>, name: Seq<char>)
    ensures
        forall|f: FieldModel| #[trigger]
            fields_without(rows, name).contains(f) <==> rows.contains(f) && f.name != name,
        !field_names(rows).contains(name) ==> fields_without(rows, name) == rows,
    decreases rows.len(),
{
    if rows.len() > 0 {
        let less = rows.drop_last();
        lemma_fields_left(less, name);
        let rest = fields_without(less, name);
        let all = fields_without(rows, name);
        assert forall|f: FieldModel| #[trigger] all.contains(f) <==> rows.contains(f) && f.name
            != name by {
            if all.contains(f) {
                let k = choose|k: int| 0 <= k < all.len() && all[k] == f;
                if k < rest.len() {
                    assert(rest[k] == f);
                    assert(rest.contains(f));
                    let j = choose|j: int| 0 <= j < less.len() && less[j] == f;
                    assert(rows[j] == f);
                } else {
                    assert(rows[rows.len() - 1] == f);
                }
            }
            if rows.contains(f) && f.name != name {
                let j = choose|j: int| 0 <= j < rows.len() && rows[j] == f;
                if j < less.len() {
                    assert(less[j] == f);
                    assert(rest.contains(f));
                    let k = choose|k: int| 0 <= k < rest.len() && rest[k] == f;
                    assert(all[k] == f);
                } else {
                    assert(all[rest.len() as int] == f);
                }
            }
        }
        if !field_names(rows).contains(name) {
            assert(field_names(rows)[rows.len() - 1] == rows.last().name);
            if field_names(less).contains(name) {
                let k = choose|k: int| 0 <= k < less.len() && field_names(less)[k] == name;
                assert(field_names(rows)[k] == name);
            }
            assert(all =~= rows);
        }
    }
}

proof fn lemma_values_left(rows: Seq<ValueModel>, name: Seq<char>)
    ensures
        forall|v: ValueModel| #[trigger]
            values_without(rows, name).contains(v) <==> rows.contains(v) && v.name != name,
        !value_names(rows).contains(name) ==> values_without(rows, name) == rows,
    decreases rows.len(),
{
    if rows.len() > 0 {
        let less = rows.drop_last();
        lemma_values_left(less, name);
        let rest = values_without(less, name);
        let all = values_without(rows, name);
        assert forall|f: ValueModel| #[trigger] all.contains(f) <==> rows.contains(f) && f.name
            != name by {
            if all.contains(f) {
                let k = choose|k: int| 0 <= k < all.len() && all[k] == f;
                if k < rest.len() {
                    assert(rest[k] == f);
                    assert(rest.contains(f));
                    let j = choose|j: int| 0 <= j < less.len() && less[j] == f;
                    assert(rows[j] == f);
                } else {
                    assert(rows[rows.len() - 1] == f);
                }
            }
            if rows.contains(f) && f.name != name {
                let j = choose|j: int| 0 <= j < rows.len() && rows[j] == f;
                if j < less.len() {
                    assert(less[j] == f);
                    assert(rest.contains(f));
                    let k = choose|k: int| 0 <= k < rest.len() && rest[k] == f;
                    assert(all[k] == f);
                } else {
                    assert(all[rest.len() as int] == f);
                }
            }
        }
        if !value_names(rows).contains(name) {
            assert(value_names(rows)[rows.len() - 1] == rows.last().name);
            if value_names(less).contains(name) {
                let k = choose|k: int| 0 <= k < less.len() && value_names(less)[k] == name;
                assert(value_names(rows)[k] == name);
            }
            assert(all =~= rows);
        }
    }
}

proof fn lemma_names_left(names: Seq<Seq<char>>, name: Seq<char>)
    ensures
        forall|x: Seq<char>| #[trigger]
            names_without(names, name).contains(x) <==> names.contains(x) && x != name,
        !names.contains(name) ==> names_without(names, name) == names,
    decreases names.len(),
{
    if names.len() > 0 {
        let less = names.drop_last();
        lemma_names_left(less, name);
        let rest = names_without(less, name);
        let all = names_without(names, name);
        assert forall|f: Seq<char>| #[trigger] all.contains(f) <==> names.contains(f) && f != name by {
            if all.contains(f) {
                let k = choose|k: int| 0 <= k < all.len() && all[k] == f;
                if k < rest.len() {
                    assert(rest[k] == f);
                    assert(rest.contains(f));
                    let j = choose|j: int| 0 <= j < less.len() && less[j] == f;
                    assert(names[j] == f);
                } else {
                    assert(names[names.len() - 1] == f);
                }
            }
            if names.contains(f) && f != name {
                let j = choose|j: int| 0 <= j < names.len() && names[j] == f;
                if j < less.len() {
                    assert(less[j] == f);
                    assert(rest.contains(f));
                    let k = choose|k: int| 0 <= k < rest.len() && rest[k] == f;
                    assert(all[k] == f);
                } else {
                    assert(all[rest.len() as int] == f);
                }
            }
        }
        if !names.contains(name) {
            assert(names[names.len() - 1] != name);
            if less.contains(name) {
                let k = choose|k: int| 0 <= k < less.len() && less[k] == name;
                assert(names[k] == name);
            }
            assert(all =~= names);
        }
    }
}

proof fn lemma_has(n: NodeModel, name: Seq<char>)
    ensures
        field_names(or_empty(n.fields)).contains(name) <==> has_field(n, name),
        value_names(or_empty(n.values)).contains(name) <==> has_value(n, name),
        or_empty(n.members).contains(name) <==> has_member(n, name),
        or_empty(n.interfaces).contains(name) <==> has_interface(n, name),
{
    let (f, v) = (field_names(or_empty(n.fields)), value_names(or_empty(n.values)));
    let (m, i) = (or_empty(n.members), or_empty(n.interfaces));
    if f.contains(name) {
        let r = choose|r: int| 0 <= r < f.len() && f[r] == name;
        assert(n.fields->0[r].name == name);
    }
    if has_field(n, name) {
        let r = choose|r: int| 0 <= r < n.fields->0.len() && (#[trigger] n.fields->0[r]).name == name;
        assert(f[r] == name);
    }
    if v.contains(name) {
        let r = choose|r: int| 0 <= r < v.len() && v[r] == name;
        assert(n.values->0[r].name == name);
    }
    if has_value(n, name) {
        let r = choose|r: int| 0 <= r < n.values->0.len() && (#[trigger] n.values->0[r]).name == name;
        assert(v[r] == name);
    }
    if m.contains(name) {
        let r = choose|r: int| 0 <= r < m.len() && m[r] == name;
        assert(n.members->0[r] == name);
    }
    if has_member(n, name) {
        let r = choose|r: int| 0 <= r < n.members->0.len() && #[trigger] n.members->0[r] == name;
        assert(m[r] == name);
    }
    if i.contains(name) {
        let r = choose|r: int| 0 <= r < i.len() && i[r] == name;
        assert(n.interfaces->0[r] == name);
    }
    if has_interface(n, name) {
        let r = choose|r: int|
            0 <= r < n.interfaces->0.len() && #[trigger] n.interfaces->0[r] == name;
        assert(i[r] == name);
    }
}

proof fn lemma_lost_member(n: NodeModel, member: Seq<char>)
    ensures
        lost_member(n, node_without(n, member), member),
{
    let b = node_without(n, member);
    lemma_fields_left(or_empty(n.fields), member);
    lemma_values_left(or_empty(n.values), member);
    lemma_names_left(or_empty(n.members), member);
    lemma_names_left(or_empty(n.interfaces), member);
    lemma_has(n, member);
    if has_field(b, member) && b.kind != NodeKind::Enum && b.kind != NodeKind::Union {
        let r = choose|r: int|
            0 <= r < b.fields->0.len() && (#[trigger] b.fields->0[r]).name == member;
        assert(or_empty(b.fields).contains(b.fields->0[r]));
    }
    if has_value(b, member) && b.kind == NodeKind::Enum {
        let r = choose|r: int|
            0 <= r < b.values->0.len() && (#[trigger] b.values->0[r]).name == member;
        assert(or_empty(b.values).contains(b.values->0[r]));
    }
}

/// A removal takes away exactly what it names: `Type.member` the rows of that name from the type, or
/// the interface where no field has the name, and nothing else anywhere; `Type` the type as a whole,
/// with every other one kept in its place among the rest. Nothing is warned of where there was
/// something to take. `i` is the type, the first of its name, after the removals before this one.
pub proof fn removals_take_what_they_name(
    nodes: Seq<NodeModel>,
    removals: Seq<RemovalModel>,
    i: int,
)
    requires
        removals.len() > 0,
        is_named_first(removed(nodes, removals.drop_last()).0, removals.last().type_, i),
    ensures
        ({
            let (before, warned) = removed(nodes, removals.drop_last());
            let (after, warnings) = removed(nodes, removals);
            match removals.last().member {
                Some(m) => {
                    &&& after.len() == before.len()
                    &&& lost_member(before[i], after[i], m)
                    &&& forall|j: int|
                        0 <= j < before.len() && j != i ==> #[trigger] after[j] == before[j]
                    &&& can_lose(before[i], m) ==> warnings == warned
                    &&& !can_lose(before[i], m) ==> warnings.len() == warned.len() + 1
                },
                None => {
                    &&& after.len() == before.len() - 1
                    &&& forall|j: int| 0 <= j < i ==> #[trigger] after[j] == before[j]
                    &&& forall|j: int| i <= j < after.len() ==> #[trigger] after[j] == before[j + 1]
                    &&& warnings == warned
                },
            }
        }),
{
    let before = removed(nodes, removals.drop_last()).0;
    let r = removals.last();
    let names = node_names(before);
    assert(names[i] == r.type_);
    assert forall|j: int| 0 <= j < i implies #[trigger] names[j] != r.type_ by {
        assert(before[j].name != r.type_);
    }
    lemma_first_place_is(names, r.type_, i);
    if let Some(m) = r.member {
        lemma_lost_member(before[i], m);
        lemma_has(before[i], m);
    }
}

/// A removal of what is not there changes nothing and is warned of.
pub proof fn removals_of_nothing_are_warned_of(nodes: Seq<NodeModel>, removals: Seq<RemovalModel>)
    requires
        removals.len() > 0,
        forall|j: int|
            0 <= j < removed(nodes, removals.drop_last()).0.len() ==> (#[trigger] removed(
                nodes,
                removals.drop_last(),
            ).0[j]).name != removals.last().type_,
    ensures
        removed(nodes, removals).0 == removed(nodes, removals.drop_last()).0,
        removed(nodes, removals).1.len() == removed(nodes, removals.drop_last()).1.len() + 1,
{
    let before = removed(nodes, removals.drop_last()).0;
    let names = node_names(before);
    lemma_first_place(names, removals.last().type_);
    if names.contains(removals.last().type_) {
        let j = choose|j: int| 0 <= j < names.len() && names[j] == removals.last().type_;
        assert(before[j].name == removals.last().type_);
    }
}

} // verus!
