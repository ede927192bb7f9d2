//! What extensions do to the types they extend, told of the members that the types end up with.

use vstd::prelude::*;

use crate::document::{DefinitionModel, FieldDeclModel, KindModel};
use crate::extensions::{
    add_members, extend_step, extended, field_names, merge_fields, merge_values, node_names,
    or_empty, unknown_to, value_names,
};
use crate::lists::{lemma_last_place, lemma_last_place_is};
use crate::sdl::{fields_of, input_fields_of, values_of};
use crate::types::{FieldModel, NodeKind, NodeModel, ValueModel};

verus! {

/// The type has a field of that name.
pub open spec fn has_field(n: NodeModel, name: Seq<char>) -> bool {
    n.fields matches Some(rows) && exists|r: int|
        0 <= r < rows.len() && (#[trigger] rows[r]).name == name
}

/// The enum has a value of that name.
pub open spec fn has_value(n: NodeModel, name: Seq<char>) -> bool {
    n.values matches Some(rows) && exists|r: int|
        0 <= r < rows.len() && (#[trigger] rows[r]).name == name
}

/// The union has that member.
pub open spec fn has_member(n: NodeModel, name: Seq<char>) -> bool {
    n.members matches Some(rows) && exists|r: int| 0 <= r < rows.len() && #[trigger] rows[r] == name
}

/// The type implements that interface.
pub open spec fn has_interface(n: NodeModel, name: Seq<char>) -> bool {
    n.interfaces matches Some(rows) && exists|r: int|
        0 <= r < rows.len() && #[trigger] rows[r] == name
}

/// Everything that `a` has, `b` has at the same place under the same name.
pub open spec fn keeps_members(a: NodeModel, b: NodeModel) -> bool {
    &&& a.fields matches Some(rows) ==> b.fields is Some && rows.len() <= b.fields->0.len()
        && forall|r: int|
        0 <= r < rows.len() ==> (#[trigger] b.fields->0[r]).name == rows[r].name
    &&& a.values matches Some(rows) ==> b.values is Some && rows.len() <= b.values->0.len()
        && forall|r: int|
        0 <= r < rows.len() ==> (#[trigger] b.values->0[r]).name == rows[r].name
    &&& a.members matches Some(rows) ==> b.members is Some && rows.len() <= b.members->0.len()
        && forall|r: int| 0 <= r < rows.len() ==> #[trigger] b.members->0[r] == rows[r]
    &&& a.interfaces matches Some(rows) ==> b.interfaces is Some && rows.len()
        <= b.interfaces->0.len() && forall|r: int|
        0 <= r < rows.len() ==> #[trigger] b.interfaces->0[r] == rows[r]
}

/// Every row that `a` has, `b` has at the same place as it was.
pub open spec fn keeps_rows(a: NodeModel, b: NodeModel) -> bool {
    &&& a.fields matches Some(rows) ==> b.fields is Some && rows.len() <= b.fields->0.len()
        && forall|r: int| 0 <= r < rows.len() ==> #[trigger] b.fields->0[r] == rows[r]
    &&& a.values matches Some(rows) ==> b.values is Some && rows.len() <= b.values->0.len()
        && forall|r: int| 0 <= r < rows.len() ==> #[trigger] b.values->0[r] == rows[r]
}

/// `i` is the last of `nodes` that is named `name`.
pub open spec fn is_named_last(nodes: Seq<NodeModel>, name: Seq<char>, i: int) -> bool {
    &&& 0 <= i < nodes.len()
    &&& nodes[i].name == name
    &&& forall|j: int| i < j < nodes.len() ==> (#[trigger] nodes[j]).name != name
}

proof fn lemma_merge_fields(have: Seq<FieldModel>, new: Seq<FieldModel>, ov: bool)
    ensures
        ({
            let rows = merge_fields(have, new, ov).0;
            &&& have.len() <= rows.len()
            &&& forall|r: int| 0 <= r < have.len() ==> (#[trigger] rows[r]).name == have[r].name
            &&& !ov ==> forall|r: int| 0 <= r < have.len() ==> #[trigger] rows[r] == have[r]
            &&& forall|x: int|
                0 <= x < new.len() ==> field_names(rows).contains((#[trigger] new[x]).name)
        }),
    decreases new.len(),
{
    if new.len() > 0 {
        let less = new.drop_last();
        lemma_merge_fields(have, less, ov);
        let before = merge_fields(have, less, ov).0;
        let rows = merge_fields(have, new, ov).0;
        let f = new.last();
        lemma_last_place(field_names(before), f.name);
        let i = crate::lists::last_place(field_names(before), f.name);
        assert(before.len() <= rows.len());
        assert forall|r: int| 0 <= r < before.len() implies (#[trigger] rows[r]).name
            == before[r].name by {
            if i >= 0 {
                assert(field_names(before)[i] == before[i].name);
            }
        }
        assert forall|x: int| 0 <= x < new.len() implies field_names(rows).contains(
            (#[trigger] new[x]).name,
        ) by {
            if x < less.len() {
                assert(less[x] == new[x]);
                let names = field_names(before);
                let r = choose|r: int| 0 <= r < names.len() && names[r] == new[x].name;
                assert(rows[r].name == before[r].name);
                assert(field_names(rows)[r] == new[x].name);
            } else if i >= 0 {
                assert(field_names(before)[i] == before[i].name);
                assert(rows[i].name == f.name);
                assert(field_names(rows)[i] == f.name);
            } else {
                assert(field_names(rows)[before.len() as int] == f.name);
            }
        }
    }
}

/// Of new fields with names of their own, those that replace what is there and those that are not
/// there yet are taken over as they are.
pub(crate) proof fn lemma_taken_fields(have: Seq<FieldModel>, new: Seq<FieldModel>, ov: bool, x: int)
    requires
        0 <= x < new.len(),
        forall|a: int, b: int|
            0 <= a < b < new.len() ==> (#[trigger] new[a]).name != (#[trigger] new[b]).name,
        ov || !field_names(have).contains(new[x].name),
    ensures
        merge_fields(have, new, ov).0.contains(new[x]),
        forall|y: Seq<char>|
            #![trigger field_names(merge_fields(have, new, ov).0).contains(y)]
            field_names(merge_fields(have, new, ov).0).contains(y) ==> field_names(have).contains(y)
                || exists|a: int| 0 <= a < new.len() && (#[trigger] new[a]).name == y,
    decreases new.len(),
{
    lemma_new_names(have, new, ov);
    let less = new.drop_last();
    let before = merge_fields(have, less, ov).0;
    let rows = merge_fields(have, new, ov).0;
    let f = new.last();
    lemma_last_place(field_names(before), f.name);
    let i = crate::lists::last_place(field_names(before), f.name);
    if x < less.len() {
        assert forall|a: int, b: int| 0 <= a < b < less.len() implies (#[trigger] less[a]).name != (
        #[trigger] less[b]).name by {
            assert(less[a] == new[a] && less[b] == new[b]);
        }
        assert(less[x] == new[x]);
        lemma_taken_fields(have, less, ov, x);
        let r = choose|r: int| 0 <= r < before.len() && before[r] == new[x];
        assert(new[x].name != new[new.len() - 1].name);
        if i >= 0 {
            assert(field_names(before)[i] == before[i].name);
            assert(r != i);
        }
        assert(rows[r] == new[x]);
    } else if i >= 0 {
        if !ov {
            lemma_new_names(have, less, ov);
            assert(field_names(before).contains(f.name));
            let a = choose|a: int| 0 <= a < less.len() && (#[trigger] less[a]).name == f.name;
            assert(new[a].name == new[new.len() - 1].name);
        }
        assert(rows[i] == f);
    } else {
        assert(rows[before.len() as int] == f);
    }
}

/// Merging makes no names up.
proof fn lemma_new_names(have: Seq<FieldModel>, new: Seq<FieldModel>, ov: bool)
    ensures
        forall|y: Seq<char>|
            #![trigger field_names(merge_fields(have, new, ov).0).contains(y)]
            field_names(merge_fields(have, new, ov).0).contains(y) ==> field_names(have).contains(y)
                || exists|a: int| 0 <= a < new.len() && (#[trigger] new[a]).name == y,
    decreases new.len(),
{
    if new.len() > 0 {
        let less = new.drop_last();
        lemma_new_names(have, less, ov);
        let before = merge_fields(have, less, ov).0;
        let rows = merge_fields(have, new, ov).0;
        let f = new.last();
        lemma_last_place(field_names(before), f.name);
        let i = crate::lists::last_place(field_names(before), f.name);
        assert forall|y: Seq<char>|
            #![trigger field_names(rows).contains(y)]
            field_names(rows).contains(y) implies field_names(have).contains(y) || exists|a: int|
            0 <= a < new.len() && (#[trigger] new[a]).name == y by {
            let r = choose|r: int| 0 <= r < field_names(rows).len() && field_names(rows)[r] == y;
            if new[new.len() - 1].name != y {
                assert(r < before.len() && field_names(before)[r] == y);
                assert(field_names(before).contains(y));
                if !field_names(have).contains(y) {
                    let a = choose|a: int| 0 <= a < less.len() && (#[trigger] less[a]).name == y;
                    assert(new[a].name == y);
                }
            }
        }
    }
}

/// A new field with a name of its own is reported as repeated exactly where the name was there and may
/// not be overridden.
pub(crate) proof fn lemma_repeated_fields(have: Seq<FieldModel>, new: Seq<FieldModel>, ov: bool)
    requires
        forall|a: int, b: int|
            0 <= a < b < new.len() ==> (#[trigger] new[a]).name != (#[trigger] new[b]).name,
    ensures
        ov ==> merge_fields(have, new, ov).1.len() == 0,
        !ov ==> (merge_fields(have, new, ov).1.len() > 0 <==> exists|x: int|
            0 <= x < new.len() && field_names(have).contains((#[trigger] new[x]).name)),
    decreases new.len(),
{
    if new.len() > 0 {
        let less = new.drop_last();
        assert forall|a: int, b: int| 0 <= a < b < less.len() implies (#[trigger] less[a]).name != (
        #[trigger] less[b]).name by {
            assert(less[a] == new[a] && less[b] == new[b]);
        }
        lemma_repeated_fields(have, less, ov);
        lemma_merge_fields(have, less, ov);
        lemma_new_names(have, less, ov);
        let before = merge_fields(have, less, ov).0;
        let end = new.len() - 1;
        let f = new[end];
        assert(new.last() == f);
        lemma_last_place(field_names(before), f.name);
        assert(field_names(before).contains(f.name) <==> field_names(have).contains(f.name)) by {
            if field_names(have).contains(f.name) {
                let r = choose|r: int| 0 <= r < have.len() && field_names(have)[r] == f.name;
                assert(before[r].name == have[r].name);
                assert(field_names(before)[r] == f.name);
            }
            if field_names(before).contains(f.name) && !field_names(have).contains(f.name) {
                let a = choose|a: int| 0 <= a < less.len() && (#[trigger] less[a]).name == f.name;
                assert(new[a].name != new[end].name);
            }
        }
        if !ov {
            if exists|x: int|
                0 <= x < less.len() && field_names(have).contains((#[trigger] less[x]).name) {
                let x = choose|x: int|
                    0 <= x < less.len() && field_names(have).contains((#[trigger] less[x]).name);
                assert(new[x] == less[x]);
            }
            if exists|x: int|
                0 <= x < new.len() && field_names(have).contains((#[trigger] new[x]).name) {
                let x = choose|x: int|
                    0 <= x < new.len() && field_names(have).contains((#[trigger] new[x]).name);
                if x < end {
                    assert(less[x] == new[x]);
                }
            }
        }
    }
}

proof fn lemma_merge_values(have: Seq<ValueModel>, new: Seq<ValueModel>, ov: bool)
    ensures
        ({
            let rows = merge_values(have, new, ov).0;
            &&& have.len() <= rows.len()
            &&& forall|r: int| 0 <= r < have.len() ==> (#[trigger] rows[r]).name == have[r].name
            &&& !ov ==> forall|r: int| 0 <= r < have.len() ==> #[trigger] rows[r] == have[r]
            &&& forall|x: int|
                0 <= x < new.len() ==> value_names(rows).contains((#[trigger] new[x]).name)
        }),
    decreases new.len(),
{
    if new.len() > 0 {
        let less = new.drop_last();
        lemma_merge_values(have, less, ov);
        let before = merge_values(have, less, ov).0;
        let rows = merge_values(have, new, ov).0;
        let f = new.last();
        lemma_last_place(value_names(before), f.name);
        let i = crate::lists::last_place(value_names(before), f.name);
        assert(before.len() <= rows.len());
        assert forall|r: int| 0 <= r < before.len() implies (#[trigger] rows[r]).name
            == before[r].name by {
            if i >= 0 {
                assert(value_names(before)[i] == before[i].name);
            }
        }
        assert forall|x: int| 0 <= x < new.len() implies value_names(rows).contains(
            (#[trigger] new[x]).name,
        ) by {
            if x < less.len() {
                assert(less[x] == new[x]);
                let names = value_names(before);
                let r = choose|r: int| 0 <= r < names.len() && names[r] == new[x].name;
                assert(rows[r].name == before[r].name);
                assert(value_names(rows)[r] == new[x].name);
            } else if i >= 0 {
                assert(value_names(before)[i] == before[i].name);
                assert(rows[i].name == f.name);
                assert(value_names(rows)[i] == f.name);
            } else {
                assert(value_names(rows)[before.len() as int] == f.name);
            }
        }
    }
}

proof fn lemma_new_value_names(have: Seq<ValueModel>, new: Seq<ValueModel>, ov: bool)
    ensures
        forall|y: Seq<char>|
            #![trigger value_names(merge_values(have, new, ov).0).contains(y)]
            value_names(merge_values(have, new, ov).0).contains(y) ==> value_names(have).contains(y)
                || exists|a: int| 0 <= a < new.len() && (#[trigger] new[a]).name == y,
    decreases new.len(),
{
    if new.len() > 0 {
        let less = new.drop_last();
        lemma_new_value_names(have, less, ov);
        let before = merge_values(have, less, ov).0;
        let rows = merge_values(have, new, ov).0;
        let f = new.last();
        lemma_last_place(value_names(before), f.name);
        let i = crate::lists::last_place(value_names(before), f.name);
        assert forall|y: Seq<char>|
            #![trigger value_names(rows).contains(y)]
            value_names(rows).contains(y) implies value_names(have).contains(y) || exists|a: int|
            0 <= a < new.len() && (#[trigger] new[a]).name == y by {
            let r = choose|r: int| 0 <= r < value_names(rows).len() && value_names(rows)[r] == y;
            if new[new.len() - 1].name != y {
                assert(r < before.len() && value_names(before)[r] == y);
                assert(value_names(before).contains(y));
                if !value_names(have).contains(y) {
                    let a = choose|a: int| 0 <= a < less.len() && (#[trigger] less[a]).name == y;
                    assert(new[a].name == y);
                }
            }
        }
    }
}

pub(crate) proof fn lemma_taken_values(have: Seq<ValueModel>, new: Seq<ValueModel>, ov: bool, x: int)
    requires
        0 <= x < new.len(),
        forall|a: int, b: int|
            0 <= a < b < new.len() ==> (#[trigger] new[a]).name != (#[trigger] new[b]).name,
        ov || !value_names(have).contains(new[x].name),
    ensures
        merge_values(have, new, ov).0.contains(new[x]),
    decreases new.len(),
{
    let less = new.drop_last();
    let before = merge_values(have, less, ov).0;
    let rows = merge_values(have, new, ov).0;
    let f = new.last();
    lemma_last_place(value_names(before), f.name);
    let i = crate::lists::last_place(value_names(before), f.name);
    if x < less.len() {
        assert forall|a: int, b: int| 0 <= a < b < less.len() implies (#[trigger] less[a]).name != (
        #[trigger] less[b]).name by {
            assert(less[a] == new[a] && less[b] == new[b]);
        }
        assert(less[x] == new[x]);
        lemma_taken_values(have, less, ov, x);
        let r = choose|r: int| 0 <= r < before.len() && before[r] == new[x];
        assert(new[x].name != new[new.len() - 1].name);
        if i >= 0 {
            assert(value_names(before)[i] == before[i].name);
            assert(r != i);
        }
        assert(rows[r] == new[x]);
    } else if i >= 0 {
        if !ov {
            lemma_new_value_names(have, less, ov);
            assert(value_names(before).contains(f.name));
            let a = choose|a: int| 0 <= a < less.len() && (#[trigger] less[a]).name == f.name;
            assert(new[a].name == new[new.len() - 1].name);
        }
        assert(rows[i] == f);
    } else {
        assert(rows[before.len() as int] == f);
    }
}

proof fn lemma_add_members(have: Seq<Seq<char>>, new: Seq<Seq<char>>)
    ensures
        ({
            let all = add_members(have, new);
            &&& have.len() <= all.len()
            &&& forall|r: int| 0 <= r < have.len() ==> #[trigger] all[r] == have[r]
            &&& forall|x: int| 0 <= x < new.len() ==> all.contains(#[trigger] new[x])
        }),
    decreases new.len(),
{
    if new.len() > 0 {
        let less = new.drop_last();
        lemma_add_members(have, less);
        let before = add_members(have, less);
        let all = add_members(have, new);
        assert forall|x: int| 0 <= x < new.len() implies all.contains(#[trigger] new[x]) by {
            if x < less.len() {
                assert(less[x] == new[x]);
                let r = choose|r: int| 0 <= r < before.len() && before[r] == new[x];
                assert(all[r] == new[x]);
            } else if !before.contains(new.last()) {
                assert(all[before.len() as int] == new[x]);
            }
        }
    }
}

proof fn lemma_unknown_to(have: Seq<Seq<char>>, new: Seq<Seq<char>>, x: int)
    requires
        0 <= x < new.len(),
    ensures
        have.contains(new[x]) || unknown_to(have, new).contains(new[x]),
    decreases new.len(),
{
    let less = new.drop_last();
    let rest = unknown_to(have, less);
    let all = unknown_to(have, new);
    if x < less.len() {
        assert(less[x] == new[x]);
        lemma_unknown_to(have, less, x);
        if !have.contains(new[x]) {
            let r = choose|r: int| 0 <= r < rest.len() && rest[r] == new[x];
            assert(all[r] == new[x]);
        }
    } else if !have.contains(new[x]) {
        assert(all[rest.len() as int] == new[x]);
    }
}

/// One extension keeps every member of every type.
proof fn lemma_step_keeps(
    nodes: Seq<NodeModel>,
    warnings: Seq<Seq<char>>,
    t: crate::document::TypeDeclModel,
    ov: bool,
    i: int,
)
    requires
        0 <= i < nodes.len(),
    ensures
        extend_step(nodes, warnings, t, ov).0.len() == nodes.len(),
        extend_step(nodes, warnings, t, ov).0[i].name == nodes[i].name,
        extend_step(nodes, warnings, t, ov).0[i].kind == nodes[i].kind,
        keeps_members(nodes[i], extend_step(nodes, warnings, t, ov).0[i]),
        !ov ==> keeps_rows(nodes[i], extend_step(nodes, warnings, t, ov).0[i]),
{
    lemma_last_place(node_names(nodes), t.name);
    let n = nodes[i];
    match t.kind {
        KindModel::Enum { values } => {
            lemma_merge_values(or_empty(n.values), values_of(values), ov);
        },
        KindModel::Union { members } => {
            lemma_add_members(or_empty(n.members), members);
        },
        KindModel::Scalar => {},
        KindModel::Object { implements, fields } => {
            lemma_merge_fields(or_empty(n.fields), fields_of(fields), ov);
        },
        KindModel::Interface { implements, fields } => {
            lemma_merge_fields(or_empty(n.fields), fields_of(fields), ov);
        },
        KindModel::Input { fields } => {
            lemma_merge_fields(or_empty(n.fields), input_fields_of(fields), ov);
        },
    }
}

proof fn lemma_rows_kept(a: NodeModel, b: NodeModel, c: NodeModel)
    requires
        keeps_rows(a, b),
        keeps_rows(b, c),
    ensures
        keeps_rows(a, c),
{
    if let Some(rows) = a.fields {
        assert forall|r: int| 0 <= r < rows.len() implies #[trigger] c.fields->0[r] == rows[r] by {
            assert(b.fields->0[r] == rows[r]);
        }
    }
    if let Some(rows) = a.values {
        assert forall|r: int| 0 <= r < rows.len() implies #[trigger] c.values->0[r] == rows[r] by {
            assert(b.values->0[r] == rows[r]);
        }
    }
}

/// Extensions take nothing away: whatever a type has before, it has afterwards at the same place
/// under the same name, and as it was unless extensions may override.
pub proof fn extensions_keep_members(
    doc: Seq<DefinitionModel>,
    nodes: Seq<NodeModel>,
    override_duplicates: bool,
    i: int,
)
    requires
        0 <= i < nodes.len(),
    ensures
        extended(doc, nodes, override_duplicates).0.len() == nodes.len(),
        extended(doc, nodes, override_duplicates).0[i].name == nodes[i].name,
        extended(doc, nodes, override_duplicates).0[i].kind == nodes[i].kind,
        keeps_members(nodes[i], extended(doc, nodes, override_duplicates).0[i]),
        !override_duplicates ==> keeps_rows(
            nodes[i],
            extended(doc, nodes, override_duplicates).0[i],
        ),
    decreases doc.len(),
{
    if doc.len() > 0 {
        let less = doc.drop_last();
        extensions_keep_members(less, nodes, override_duplicates, i);
        let (before, warnings) = extended(less, nodes, override_duplicates);
        if let DefinitionModel::Type(t) = doc.last() {
            if t.extend {
                lemma_step_keeps(before, warnings, t, override_duplicates, i);
                let after = extended(doc, nodes, override_duplicates).0[i];
                if !override_duplicates {
                    lemma_rows_kept(nodes[i], before[i], after);
                }
                if let Some(rows) = nodes[i].fields {
                    assert forall|r: int| 0 <= r < rows.len() implies (
                    #[trigger] after.fields->0[r]).name == rows[r].name by {
                        assert(before[i].fields->0[r].name == rows[r].name);
                    }
                }
                if let Some(rows) = nodes[i].values {
                    assert forall|r: int| 0 <= r < rows.len() implies (
                    #[trigger] after.values->0[r]).name == rows[r].name by {
                        assert(before[i].values->0[r].name == rows[r].name);
                    }
                }
                if let Some(rows) = nodes[i].members {
                    assert forall|r: int| 0 <= r < rows.len() implies
                    #[trigger] after.members->0[r] == rows[r] by {
                        assert(before[i].members->0[r] == rows[r]);
                    }
                }
                if let Some(rows) = nodes[i].interfaces {
                    assert forall|r: int| 0 <= r < rows.len() implies
                    #[trigger] after.interfaces->0[r] == rows[r] by {
                        assert(before[i].interfaces->0[r] == rows[r]);
                    }
                }
            }
        }
    }
}

/// The extension `t`, of the kind of the type, declares what the type `n` now has: every field, value,
/// member and interface.
pub open spec fn has_all_of(n: NodeModel, kind: KindModel) -> bool {
    match kind {
        KindModel::Object { implements, fields } => n.kind == NodeKind::Object ==> {
            &&& forall|x: int| 0 <= x < fields.len() ==> has_field(n, (#[trigger] fields[x]).name)
            &&& forall|x: int|
                0 <= x < implements.len() ==> has_interface(n, #[trigger] implements[x])
        },
        KindModel::Interface { implements, fields } => n.kind == NodeKind::Interface ==> {
            &&& forall|x: int| 0 <= x < fields.len() ==> has_field(n, (#[trigger] fields[x]).name)
            &&& forall|x: int|
                0 <= x < implements.len() ==> has_interface(n, #[trigger] implements[x])
        },
        KindModel::Input { fields } => n.kind == NodeKind::Input ==> forall|x: int|
            0 <= x < fields.len() ==> has_field(n, (#[trigger] fields[x]).name),
        KindModel::Enum { values } => n.kind == NodeKind::Enum ==> forall|x: int|
            0 <= x < values.len() ==> has_value(n, (#[trigger] values[x]).name),
        KindModel::Union { members } => n.kind == NodeKind::Union ==> forall|x: int|
            0 <= x < members.len() ==> has_member(n, #[trigger] members[x]),
        KindModel::Scalar => true,
    }
}

pub(crate) proof fn lemma_field_there(n: NodeModel, name: Seq<char>)
    requires
        field_names(or_empty(n.fields)).contains(name),
    ensures
        has_field(n, name),
{
    let names = field_names(or_empty(n.fields));
    let r = choose|r: int| 0 <= r < names.len() && names[r] == name;
    assert(n.fields->0[r].name == name);
}

proof fn lemma_step_has_all(
    nodes: Seq<NodeModel>,
    warnings: Seq<Seq<char>>,
    t: crate::document::TypeDeclModel,
    ov: bool,
    i: int,
)
    requires
        is_named_last(nodes, t.name, i),
    ensures
        has_all_of(extend_step(nodes, warnings, t, ov).0[i], t.kind),
{
    assert forall|j: int| i < j < node_names(nodes).len() implies #[trigger] node_names(nodes)[j]
        != t.name by {
        assert(nodes[j].name != t.name);
    }
    lemma_last_place_is(node_names(nodes), t.name, i);
    let n = nodes[i];
    let after = extend_step(nodes, warnings, t, ov).0[i];
    match t.kind {
        KindModel::Enum { values } => {
            if n.kind == NodeKind::Enum {
                let new = values_of(values);
                lemma_merge_values(or_empty(n.values), new, ov);
                assert forall|x: int| 0 <= x < values.len() implies has_value(
                    after,
                    (#[trigger] values[x]).name,
                ) by {
                    assert(new[x].name == values[x].name);
                    let names = value_names(after.values->0);
                    let r = choose|r: int| 0 <= r < names.len() && names[r] == new[x].name;
                    assert(after.values->0[r].name == values[x].name);
                }
            }
        },
        KindModel::Union { members } => {
            if n.kind == NodeKind::Union {
                lemma_add_members(or_empty(n.members), members);
                let all = after.members->0;
                assert forall|x: int| 0 <= x < members.len() implies has_member(
                    after,
                    #[trigger] members[x],
                ) by {
                    assert(all.contains(members[x]));
                    let r = choose|r: int| 0 <= r < all.len() && all[r] == members[x];
                    assert(after.members->0[r] == members[x]);
                }
            }
        },
        KindModel::Scalar => {},
        KindModel::Object { implements, fields } => {
            if n.kind == NodeKind::Object {
                lemma_step_fields(n, after, fields, implements, ov);
            }
        },
        KindModel::Interface { implements, fields } => {
            if n.kind == NodeKind::Interface {
                lemma_step_fields(n, after, fields, implements, ov);
            }
        },
        KindModel::Input { fields } => {
            if n.kind == NodeKind::Input {
                let new = input_fields_of(fields);
                lemma_merge_fields(or_empty(n.fields), new, ov);
                assert forall|x: int| 0 <= x < fields.len() implies has_field(
                    after,
                    (#[trigger] fields[x]).name,
                ) by {
                    assert(new[x].name == fields[x].name);
                    lemma_field_there(after, fields[x].name);
                }
            }
        },
    }
}

proof fn lemma_step_fields(
    n: NodeModel,
    after: NodeModel,
    fields: Seq<FieldDeclModel>,
    implements: Seq<Seq<char>>,
    ov: bool,
)
    requires
        after.fields == Some(merge_fields(or_empty(n.fields), fields_of(fields), ov).0),
        implements.len() > 0 ==> after.interfaces == Some(
            or_empty(n.interfaces) + unknown_to(or_empty(n.interfaces), implements),
        ),
    ensures
        forall|x: int| 0 <= x < fields.len() ==> has_field(after, (#[trigger] fields[x]).name),
        forall|x: int|
            0 <= x < implements.len() ==> has_interface(after, #[trigger] implements[x]),
{
    let new = fields_of(fields);
    lemma_merge_fields(or_empty(n.fields), new, ov);
    assert forall|x: int| 0 <= x < fields.len() implies has_field(after, (#[trigger] fields[x]).name) by {
        assert(new[x].name == fields[x].name);
        lemma_field_there(after, fields[x].name);
    }
    assert forall|x: int| 0 <= x < implements.len() implies has_interface(
        after,
        #[trigger] implements[x],
    ) by {
        let have = or_empty(n.interfaces);
        let more = unknown_to(have, implements);
        lemma_unknown_to(have, implements, x);
        if have.contains(implements[x]) {
            let r = choose|r: int| 0 <= r < have.len() && have[r] == implements[x];
            assert(after.interfaces->0[r] == implements[x]);
        } else {
            let r = choose|r: int| 0 <= r < more.len() && more[r] == implements[x];
            assert(after.interfaces->0[have.len() + r] == implements[x]);
        }
    }
}

/// What a type has by name it keeps where its members are kept.
proof fn lemma_still_has_all(a: NodeModel, b: NodeModel, kind: KindModel)
    requires
        keeps_members(a, b),
        a.kind == b.kind,
        has_all_of(a, kind),
    ensures
        has_all_of(b, kind),
{
    assert forall|name: Seq<char>| has_field(a, name) implies #[trigger] has_field(b, name) by {
        let r = choose|r: int| 0 <= r < a.fields->0.len() && (#[trigger] a.fields->0[r]).name == name;
        assert(b.fields->0[r].name == name);
    }
    assert forall|name: Seq<char>| has_value(a, name) implies #[trigger] has_value(b, name) by {
        let r = choose|r: int| 0 <= r < a.values->0.len() && (#[trigger] a.values->0[r]).name == name;
        assert(b.values->0[r].name == name);
    }
    assert forall|name: Seq<char>| has_member(a, name) implies #[trigger] has_member(b, name) by {
        let r = choose|r: int| 0 <= r < a.members->0.len() && #[trigger] a.members->0[r] == name;
        assert(b.members->0[r] == name);
    }
    assert forall|name: Seq<char>| has_interface(a, name) implies #[trigger] has_interface(b, name) by {
        let r = choose|r: int|
            0 <= r < a.interfaces->0.len() && #[trigger] a.interfaces->0[r] == name;
        assert(b.interfaces->0[r] == name);
    }
}

/// Extensions are folded in: for every extension of a type of its own kind, the type ends up with
/// every field, value, member and interface that the extension declares, whatever comes after it.
pub proof fn extensions_are_folded_in(
    doc: Seq<DefinitionModel>,
    nodes: Seq<NodeModel>,
    override_duplicates: bool,
    k: int,
    i: int,
)
    requires
        0 <= k < doc.len(),
        doc[k] matches DefinitionModel::Type(t) && t.extend && is_named_last(nodes, t.name, i),
    ensures
        doc[k] matches DefinitionModel::Type(t) && has_all_of(
            extended(doc, nodes, override_duplicates).0[i],
            t.kind,
        ),
    decreases doc.len(),
{
    let less = doc.drop_last();
    let (before, warnings) = extended(less, nodes, override_duplicates);
    let t = doc[k]->Type_0;
    extensions_keep_members(less, nodes, override_duplicates, i);
    if k < less.len() {
        assert(less[k] == doc[k]);
        extensions_are_folded_in(less, nodes, override_duplicates, k, i);
        if let DefinitionModel::Type(last) = doc.last() {
            if last.extend {
                lemma_step_keeps(before, warnings, last, override_duplicates, i);
                lemma_still_has_all(
                    before[i],
                    extended(doc, nodes, override_duplicates).0[i],
                    t.kind,
                );
            }
        }
    } else {
        assert(is_named_last(before, t.name, i)) by {
            assert forall|j: int| i < j < before.len() implies (#[trigger] before[j]).name != t.name by {
                extensions_keep_members(less, nodes, override_duplicates, j);
                assert(nodes[j].name != t.name);
            }
        }
        lemma_step_has_all(before, warnings, t, override_duplicates, i);
    }
}

} // verus!
