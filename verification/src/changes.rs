//! What an overlay is reported to have changed, told of the two graphs row by row.

use vstd::prelude::*;

use crate::edges::node_ids;
use crate::extensions::{field_names, or_empty, value_names};
use crate::growth::{has_field, has_member, has_value};
use crate::lists::{lemma_last_place, lemma_last_place_is};
use crate::provenance::{
    all_reported, any_touched, diff_of, field_shape, is_new_row, lost_rows, marked_graph,
    marked_rows, names_missing_from, new_rows, prior_of, reported_fields, reported_rows,
    reported_values, row_text, rows_of, text_or_empty, touched, value_shape,
};
use crate::text::{sorted, sorted_sorts};
use crate::types::{ArgModel, FieldModel, GraphModel, NodeKind, NodeModel, ValueModel};

verus! {

/// The two texts read the same; one that is missing reads like an empty one.
pub open spec fn reads_alike(a: Option<Seq<char>>, b: Option<Seq<char>>) -> bool {
    match (a, b) {
        (Some(s), Some(t)) => s == t,
        (Some(s), None) => s.len() == 0,
        (None, Some(t)) => t.len() == 0,
        (None, None) => true,
    }
}

/// The two argument lists have the same names and types; one that is missing has none.
pub open spec fn takes_alike(a: Option<Seq<ArgModel>>, b: Option<Seq<ArgModel>>) -> bool {
    match (a, b) {
        (Some(s), Some(t)) => s.len() == t.len() && forall|x: int|
            0 <= x < s.len() ==> (#[trigger] s[x]).name == t[x].name && s[x].type_ == t[x].type_,
        (Some(s), None) => s.len() == 0,
        (None, Some(t)) => t.len() == 0,
        (None, None) => true,
    }
}

/// The two fields differ in what is shown of them: in the type, in the arguments, in whether or why
/// they are deprecated, or in the description.
pub open spec fn fields_differ(f: FieldModel, g: FieldModel) -> bool {
    ||| f.type_ != g.type_
    ||| !takes_alike(f.args, g.args)
    ||| f.is_deprecated != g.is_deprecated
    ||| !reads_alike(f.deprecation_reason, g.deprecation_reason)
    ||| !reads_alike(f.description, g.description)
}

/// The two enum values differ in what is shown of them.
pub open spec fn values_differ(v: ValueModel, w: ValueModel) -> bool {
    ||| v.is_deprecated != w.is_deprecated
    ||| !reads_alike(v.deprecation_reason, w.deprecation_reason)
    ||| !reads_alike(v.description, w.description)
}

/// The only node of `nodes` with that id is the one at `j`.
pub open spec fn is_only(nodes: Seq<NodeModel>, id: Seq<char>, j: int) -> bool {
    &&& 0 <= j < nodes.len()
    &&& nodes[j].id == id
    &&& forall|b: int| 0 <= b < nodes.len() && b != j ==> (#[trigger] nodes[b]).id != id
}

/// The node shows fields, each under a name of its own.
pub open spec fn has_plain_fields(n: NodeModel) -> bool {
    &&& n.kind != NodeKind::Enum
    &&& n.kind != NodeKind::Union
    &&& n.fields matches Some(rows) && forall|a: int, b: int|
        0 <= a < b < rows.len() ==> (#[trigger] rows[a]).name != (#[trigger] rows[b]).name
}

/// The node is an enum whose values each have a name of their own.
pub open spec fn has_plain_values(n: NodeModel) -> bool {
    &&& n.kind == NodeKind::Enum
    &&& n.values matches Some(rows) && forall|a: int, b: int|
        0 <= a < b < rows.len() ==> (#[trigger] rows[a]).name != (#[trigger] rows[b]).name
}

proof fn lemma_prior(nodes: Seq<NodeModel>, id: Seq<char>, j: int)
    requires
        is_only(nodes, id, j),
    ensures
        prior_of(nodes, id) == Some(nodes[j]),
{
    let ids = node_ids(nodes);
    assert(ids[j] == id);
    assert forall|b: int| j < b < ids.len() implies #[trigger] ids[b] != id by {
        assert(nodes[b].id != id);
    }
    lemma_last_place_is(ids, id, j);
}

proof fn lemma_no_prior(nodes: Seq<NodeModel>, id: Seq<char>)
    ensures
        prior_of(nodes, id) is None <==> lacks(nodes, id),
{
    let ids = node_ids(nodes);
    lemma_last_place(ids, id);
    if prior_of(nodes, id) is None {
        assert forall|b: int| 0 <= b < nodes.len() implies (#[trigger] nodes[b]).id != id by {
            assert(ids[b] == nodes[b].id);
        }
    } else {
        let p = crate::lists::last_place(ids, id);
        assert(ids[p] == nodes[p].id);
    }
}

proof fn lemma_text(a: Option<Seq<char>>, b: Option<Seq<char>>)
    ensures
        text_or_empty(a) == text_or_empty(b) <==> reads_alike(a, b),
{
    assert(forall|s: Seq<char>| s.len() == 0 ==> s =~= Seq::<char>::empty());
}

proof fn lemma_args(a: Option<Seq<ArgModel>>, b: Option<Seq<ArgModel>>)
    ensures
        or_empty(a).map_values(|x: ArgModel| (x.name, x.type_)) == or_empty(b).map_values(
            |x: ArgModel| (x.name, x.type_),
        ) <==> takes_alike(a, b),
{
    let s = or_empty(a).map_values(|x: ArgModel| (x.name, x.type_));
    let t = or_empty(b).map_values(|x: ArgModel| (x.name, x.type_));
    if s == t {
        assert(s.len() == t.len());
        assert forall|x: int| 0 <= x < or_empty(a).len() implies (#[trigger] or_empty(a)[x]).name
            == or_empty(b)[x].name && or_empty(a)[x].type_ == or_empty(b)[x].type_ by {
            assert(s[x] == t[x]);
        }
    }
    if takes_alike(a, b) {
        assert(s =~= t);
    }
}

proof fn lemma_field_shapes(f: FieldModel, g: FieldModel)
    ensures
        field_shape(f) != field_shape(g) <==> fields_differ(f, g),
{
    lemma_args(f.args, g.args);
    lemma_text(f.deprecation_reason, g.deprecation_reason);
    lemma_text(f.description, g.description);
}

proof fn lemma_value_shapes(v: ValueModel, w: ValueModel)
    ensures
        value_shape(v) != value_shape(w) <==> values_differ(v, w),
{
    lemma_text(v.deprecation_reason, w.deprecation_reason);
    lemma_text(v.description, w.description);
}

proof fn lemma_field_at(n: NodeModel, k: int)
    requires
        has_plain_fields(n),
        0 <= k < n.fields->0.len(),
    ensures
        crate::provenance::shape_of(n, n.fields->0[k].name) == Some(field_shape(n.fields->0[k])),
        rows_of(n).contains(n.fields->0[k].name),
{
    let rows = n.fields->0;
    let names = field_names(rows);
    assert(names[k] == rows[k].name);
    assert forall|b: int| k < b < names.len() implies #[trigger] names[b] != rows[k].name by {
        assert(rows[k].name != rows[b].name);
    }
    lemma_last_place_is(names, rows[k].name, k);
}

proof fn lemma_value_at(n: NodeModel, k: int)
    requires
        has_plain_values(n),
        0 <= k < n.values->0.len(),
    ensures
        crate::provenance::shape_of(n, n.values->0[k].name) == Some(value_shape(n.values->0[k])),
        rows_of(n).contains(n.values->0[k].name),
{
    let rows = n.values->0;
    let names = value_names(rows);
    assert(names[k] == rows[k].name);
    assert forall|b: int| k < b < names.len() implies #[trigger] names[b] != rows[k].name by {
        assert(rows[k].name != rows[b].name);
    }
    lemma_last_place_is(names, rows[k].name, k);
}

/// A field is marked exactly where the overlay added or changed it, and keeps all else.
proof fn lemma_marked_field(base: GraphModel, merged: GraphModel, i: int, j: int, k: int)
    requires
        0 <= i < merged.nodes.len(),
        is_only(base.nodes, merged.nodes[i].id, j),
        has_plain_fields(merged.nodes[i]),
        0 <= k < merged.nodes[i].fields->0.len(),
    ensures
        ({
            let f = merged.nodes[i].fields->0[k];
            let m = marked_graph(base, merged).nodes[i];
            &&& m.fields is Some
            &&& m.fields->0.len() == merged.nodes[i].fields->0.len()
            &&& m.fields->0[k] == (FieldModel {
                is_overlay: f.is_overlay || touched(base.nodes[j], merged.nodes[i], f.name),
                ..f
            })
        }),
        marked_graph(base, merged).nodes[i] == marked_rows(base.nodes[j], merged.nodes[i]),
{
    lemma_prior(base.nodes, merged.nodes[i].id, j);
    let (p, n) = (base.nodes[j], merged.nodes[i]);
    let f = n.fields->0[k];
    assert(rows_of(n)[k] == f.name);
    if !any_touched(p, n) {
        assert(!touched(p, n, rows_of(n)[k]));
    }
}

proof fn lemma_marked_value(base: GraphModel, merged: GraphModel, i: int, j: int, k: int)
    requires
        0 <= i < merged.nodes.len(),
        is_only(base.nodes, merged.nodes[i].id, j),
        has_plain_values(merged.nodes[i]),
        0 <= k < merged.nodes[i].values->0.len(),
    ensures
        ({
            let v = merged.nodes[i].values->0[k];
            let m = marked_graph(base, merged).nodes[i];
            &&& m.values is Some
            &&& m.values->0.len() == merged.nodes[i].values->0.len()
            &&& m.values->0[k] == (ValueModel {
                is_overlay: v.is_overlay || touched(base.nodes[j], merged.nodes[i], v.name),
                ..v
            })
        }),
        marked_graph(base, merged).nodes[i] == marked_rows(base.nodes[j], merged.nodes[i]),
{
    lemma_prior(base.nodes, merged.nodes[i].id, j);
    let (p, n) = (base.nodes[j], merged.nodes[i]);
    let v = n.values->0[k];
    assert(rows_of(n)[k] == v.name);
    if !any_touched(p, n) {
        assert(!touched(p, n, rows_of(n)[k]));
    }
}

proof fn lemma_reported_fields(
    prior: NodeModel,
    node: Seq<char>,
    rows: Seq<FieldModel>,
    new: bool,
    text: Seq<char>,
)
    ensures
        reported_fields(prior, node, rows, new).contains(text) <==> exists|k: int|
            0 <= k < rows.len() && (#[trigger] rows[k]).is_overlay && is_new_row(
                prior,
                rows[k].name,
            ) == new && text == row_text(node, rows[k].name),
    decreases rows.len(),
{
    let all = reported_fields(prior, node, rows, new);
    if rows.len() > 0 {
        let less = rows.drop_last();
        lemma_reported_fields(prior, node, less, new, text);
        let before = reported_fields(prior, node, less, new);
        if all.contains(text) {
            let x = choose|x: int| 0 <= x < all.len() && all[x] == text;
            if x < before.len() {
                assert(before[x] == text);
                let k = choose|k: int|
                    0 <= k < less.len() && (#[trigger] less[k]).is_overlay && is_new_row(
                        prior,
                        less[k].name,
                    ) == new && text == row_text(node, less[k].name);
                assert(rows[k] == less[k]);
            } else {
                assert(rows[rows.len() - 1].is_overlay);
            }
        }
        if exists|k: int|
            0 <= k < rows.len() && (#[trigger] rows[k]).is_overlay && is_new_row(
                prior,
                rows[k].name,
            ) == new && text == row_text(node, rows[k].name) {
            let k = choose|k: int|
                0 <= k < rows.len() && (#[trigger] rows[k]).is_overlay && is_new_row(
                    prior,
                    rows[k].name,
                ) == new && text == row_text(node, rows[k].name);
            if k < less.len() {
                assert(less[k] == rows[k]);
                let x = choose|x: int| 0 <= x < before.len() && before[x] == text;
                assert(all[x] == text);
            } else {
                assert(all[before.len() as int] == text);
            }
        }
    }
}

proof fn lemma_reported_values(
    prior: NodeModel,
    node: Seq<char>,
    rows: Seq<ValueModel>,
    new: bool,
    text: Seq<char>,
)
    ensures
        reported_values(prior, node, rows, new).contains(text) <==> exists|k: int|
            0 <= k < rows.len() && (#[trigger] rows[k]).is_overlay && is_new_row(
                prior,
                rows[k].name,
            ) == new && text == row_text(node, rows[k].name),
    decreases rows.len(),
{
    let all = reported_values(prior, node, rows, new);
    if rows.len() > 0 {
        let less = rows.drop_last();
        lemma_reported_values(prior, node, less, new, text);
        let before = reported_values(prior, node, less, new);
        if all.contains(text) {
            let x = choose|x: int| 0 <= x < all.len() && all[x] == text;
            if x < before.len() {
                assert(before[x] == text);
                let k = choose|k: int|
                    0 <= k < less.len() && (#[trigger] less[k]).is_overlay && is_new_row(
                        prior,
                        less[k].name,
                    ) == new && text == row_text(node, less[k].name);
                assert(rows[k] == less[k]);
            } else {
                assert(rows[rows.len() - 1].is_overlay);
            }
        }
        if exists|k: int|
            0 <= k < rows.len() && (#[trigger] rows[k]).is_overlay && is_new_row(
                prior,
                rows[k].name,
            ) == new && text == row_text(node, rows[k].name) {
            let k = choose|k: int|
                0 <= k < rows.len() && (#[trigger] rows[k]).is_overlay && is_new_row(
                    prior,
                    rows[k].name,
                ) == new && text == row_text(node, rows[k].name);
            if k < less.len() {
                assert(less[k] == rows[k]);
                let x = choose|x: int| 0 <= x < before.len() && before[x] == text;
                assert(all[x] == text);
            } else {
                assert(all[before.len() as int] == text);
            }
        }
    }
}

proof fn lemma_joined(a: Seq<Seq<char>>, b: Seq<Seq<char>>, text: Seq<char>)
    ensures
        (a + b).contains(text) <==> a.contains(text) || b.contains(text),
{
    let all = a + b;
    if all.contains(text) {
        let x = choose|x: int| 0 <= x < all.len() && all[x] == text;
        if x < a.len() {
            assert(a[x] == text);
        } else {
            assert(b[x - a.len()] == text);
        }
    }
    if a.contains(text) {
        let x = choose|x: int| 0 <= x < a.len() && a[x] == text;
        assert(all[x] == text);
    }
    if b.contains(text) {
        let x = choose|x: int| 0 <= x < b.len() && b[x] == text;
        assert(all[a.len() + x] == text);
    }
}

/// The node at `i` reports the row `text`.
spec fn reports(
    base: Seq<NodeModel>,
    nodes: Seq<NodeModel>,
    i: int,
    new: bool,
    text: Seq<char>,
) -> bool {
    reported_rows(base, nodes[i], new).contains(text)
}

proof fn lemma_report_found(
    base: Seq<NodeModel>,
    nodes: Seq<NodeModel>,
    i: int,
    new: bool,
    text: Seq<char>,
)
    requires
        0 <= i < nodes.len(),
        reports(base, nodes, i, new, text),
    ensures
        all_reported(base, nodes, new).contains(text),
    decreases nodes.len(),
{
    let less = nodes.drop_last();
    lemma_joined(all_reported(base, less, new), reported_rows(base, nodes.last(), new), text);
    if i < less.len() {
        assert(less[i] == nodes[i]);
        lemma_report_found(base, less, i, new, text);
    }
}

proof fn lemma_report_from(
    base: Seq<NodeModel>,
    nodes: Seq<NodeModel>,
    new: bool,
    text: Seq<char>,
) -> (i: int)
    requires
        all_reported(base, nodes, new).contains(text),
    ensures
        0 <= i < nodes.len(),
        reports(base, nodes, i, new, text),
    decreases nodes.len(),
{
    if nodes.len() == 0 {
        0
    } else {
        let less = nodes.drop_last();
        lemma_joined(all_reported(base, less, new), reported_rows(base, nodes.last(), new), text);
        if all_reported(base, less, new).contains(text) {
            let i = lemma_report_from(base, less, new, text);
            assert(less[i] == nodes[i]);
            i
        } else {
            nodes.len() - 1
        }
    }
}

proof fn lemma_sorted_holds(s: Seq<Seq<char>>, text: Seq<char>)
    ensures
        sorted(s).contains(text) <==> s.contains(text),
{
    broadcast use vstd::seq_lib::group_to_multiset_ensures;

    sorted_sorts(s);
    assert(sorted(s).contains(text) <==> sorted(s).to_multiset().count(text) > 0);
    assert(s.contains(text) <==> s.to_multiset().count(text) > 0);
}

/// A field that both graphs have counts as changed exactly where the two differ in the type, in the
/// names or types of the arguments, in the deprecation, in its reason or in the description. It is
/// marked exactly then, if it was not before, and reported as `Type.field`.
pub proof fn changed_fields_are_marked(
    base: GraphModel,
    merged: GraphModel,
    i: int,
    j: int,
    k: int,
    l: int,
)
    requires
        0 <= i < merged.nodes.len(),
        is_only(base.nodes, merged.nodes[i].id, j),
        has_plain_fields(merged.nodes[i]),
        has_plain_fields(base.nodes[j]),
        0 <= k < merged.nodes[i].fields->0.len(),
        0 <= l < base.nodes[j].fields->0.len(),
        merged.nodes[i].fields->0[k].name == base.nodes[j].fields->0[l].name,
        !merged.nodes[i].fields->0[k].is_overlay,
    ensures
        ({
            let f = merged.nodes[i].fields->0[k];
            let differ = fields_differ(f, base.nodes[j].fields->0[l]);
            let m = marked_graph(base, merged).nodes[i];
            &&& m.fields is Some
            &&& m.fields->0.len() == merged.nodes[i].fields->0.len()
            &&& m.fields->0[k] == (FieldModel { is_overlay: differ, ..f })
            &&& differ ==> diff_of(base, merged).changed_fields.contains(
                merged.nodes[i].name + "."@ + f.name,
            )
        }),
{
    let (p, n) = (base.nodes[j], merged.nodes[i]);
    let (f, g) = (n.fields->0[k], p.fields->0[l]);
    lemma_field_at(n, k);
    lemma_field_at(p, l);
    lemma_field_shapes(f, g);
    lemma_marked_field(base, merged, i, j, k);
    if fields_differ(f, g) {
        lemma_prior(base.nodes, n.id, j);
        let text = row_text(n.name, f.name);
        let rows = marked_rows(p, n).fields->0;
        assert(rows_of(n)[k] == f.name);
        assert(any_touched(p, n));
        assert(rows[k].is_overlay && rows[k].name == f.name);
        lemma_reported_fields(p, n.name, rows, false, text);
        assert(reports(base.nodes, merged.nodes, i, false, text));
        lemma_report_found(base.nodes, merged.nodes, i, false, text);
        lemma_sorted_holds(all_reported(base.nodes, merged.nodes, false), text);
    }
}

/// A field that the base does not have counts as added: it is marked, and reported as `Type.field`.
pub proof fn added_fields_are_marked(base: GraphModel, merged: GraphModel, i: int, j: int, k: int)
    requires
        0 <= i < merged.nodes.len(),
        is_only(base.nodes, merged.nodes[i].id, j),
        has_plain_fields(merged.nodes[i]),
        has_plain_fields(base.nodes[j]),
        0 <= k < merged.nodes[i].fields->0.len(),
        !has_field(base.nodes[j], merged.nodes[i].fields->0[k].name),
    ensures
        ({
            let f = merged.nodes[i].fields->0[k];
            let m = marked_graph(base, merged).nodes[i];
            &&& m.fields is Some
            &&& m.fields->0.len() == merged.nodes[i].fields->0.len()
            &&& m.fields->0[k] == (FieldModel { is_overlay: true, ..f })
            &&& diff_of(base, merged).added_fields.contains(merged.nodes[i].name + "."@ + f.name)
        }),
{
    let (p, n) = (base.nodes[j], merged.nodes[i]);
    let f = n.fields->0[k];
    lemma_rows(p, f.name);
    lemma_marked_field(base, merged, i, j, k);
    lemma_prior(base.nodes, n.id, j);
    let text = row_text(n.name, f.name);
    let rows = marked_rows(p, n).fields->0;
    assert(rows_of(n)[k] == f.name);
    assert(any_touched(p, n));
    assert(rows[k].is_overlay && rows[k].name == f.name);
    lemma_reported_fields(p, n.name, rows, true, text);
    assert(reports(base.nodes, merged.nodes, i, true, text));
    lemma_report_found(base.nodes, merged.nodes, i, true, text);
    lemma_sorted_holds(all_reported(base.nodes, merged.nodes, true), text);
}

/// A value that both enums have counts as changed exactly where the two differ in the deprecation, in
/// its reason or in the description. It is marked exactly then, if it was not before, and reported
/// as `Enum.value`.
pub proof fn changed_values_are_marked(
    base: GraphModel,
    merged: GraphModel,
    i: int,
    j: int,
    k: int,
    l: int,
)
    requires
        0 <= i < merged.nodes.len(),
        is_only(base.nodes, merged.nodes[i].id, j),
        has_plain_values(merged.nodes[i]),
        has_plain_values(base.nodes[j]),
        0 <= k < merged.nodes[i].values->0.len(),
        0 <= l < base.nodes[j].values->0.len(),
        merged.nodes[i].values->0[k].name == base.nodes[j].values->0[l].name,
        !merged.nodes[i].values->0[k].is_overlay,
    ensures
        ({
            let v = merged.nodes[i].values->0[k];
            let differ = values_differ(v, base.nodes[j].values->0[l]);
            let m = marked_graph(base, merged).nodes[i];
            &&& m.values is Some
            &&& m.values->0.len() == merged.nodes[i].values->0.len()
            &&& m.values->0[k] == (ValueModel { is_overlay: differ, ..v })
            &&& differ ==> diff_of(base, merged).changed_fields.contains(
                merged.nodes[i].name + "."@ + v.name,
            )
        }),
{
    let (p, n) = (base.nodes[j], merged.nodes[i]);
    let (v, w) = (n.values->0[k], p.values->0[l]);
    lemma_value_at(n, k);
    lemma_value_at(p, l);
    lemma_value_shapes(v, w);
    lemma_marked_value(base, merged, i, j, k);
    if values_differ(v, w) {
        lemma_prior(base.nodes, n.id, j);
        let text = row_text(n.name, v.name);
        let rows = marked_rows(p, n).values->0;
        assert(rows_of(n)[k] == v.name);
        assert(any_touched(p, n));
        assert(rows[k].is_overlay && rows[k].name == v.name);
        lemma_reported_values(p, n.name, rows, false, text);
        assert(reports(base.nodes, merged.nodes, i, false, text));
        lemma_report_found(base.nodes, merged.nodes, i, false, text);
        lemma_sorted_holds(all_reported(base.nodes, merged.nodes, false), text);
    }
}

/// A value that the base does not have counts as added: it is marked, and reported as `Enum.value`.
pub proof fn added_values_are_marked(base: GraphModel, merged: GraphModel, i: int, j: int, k: int)
    requires
        0 <= i < merged.nodes.len(),
        is_only(base.nodes, merged.nodes[i].id, j),
        has_plain_values(merged.nodes[i]),
        has_plain_values(base.nodes[j]),
        0 <= k < merged.nodes[i].values->0.len(),
        !has_value(base.nodes[j], merged.nodes[i].values->0[k].name),
    ensures
        ({
            let v = merged.nodes[i].values->0[k];
            let m = marked_graph(base, merged).nodes[i];
            &&& m.values is Some
            &&& m.values->0.len() == merged.nodes[i].values->0.len()
            &&& m.values->0[k] == (ValueModel { is_overlay: true, ..v })
            &&& diff_of(base, merged).added_fields.contains(merged.nodes[i].name + "."@ + v.name)
        }),
{
    let (p, n) = (base.nodes[j], merged.nodes[i]);
    let v = n.values->0[k];
    lemma_rows(p, v.name);
    lemma_marked_value(base, merged, i, j, k);
    lemma_prior(base.nodes, n.id, j);
    let text = row_text(n.name, v.name);
    let rows = marked_rows(p, n).values->0;
    assert(rows_of(n)[k] == v.name);
    assert(any_touched(p, n));
    assert(rows[k].is_overlay && rows[k].name == v.name);
    lemma_reported_values(p, n.name, rows, true, text);
    assert(reports(base.nodes, merged.nodes, i, true, text));
    lemma_report_found(base.nodes, merged.nodes, i, true, text);
    lemma_sorted_holds(all_reported(base.nodes, merged.nodes, true), text);
}

/// The node shows a row of that name: a value of an enum, a member of a union, a field of the rest.
pub open spec fn has_row(n: NodeModel, name: Seq<char>) -> bool {
    if n.kind == NodeKind::Enum {
        has_value(n, name)
    } else if n.kind == NodeKind::Union {
        has_member(n, name)
    } else {
        has_field(n, name)
    }
}

proof fn lemma_rows(n: NodeModel, name: Seq<char>)
    ensures
        is_new_row(n, name) <==> !has_row(n, name),
{
    let names = rows_of(n);
    if names.contains(name) {
        let r = choose|r: int| 0 <= r < names.len() && names[r] == name;
        match n.kind {
            NodeKind::Enum => {
                assert(n.values->0[r].name == name);
            },
            NodeKind::Union => {
                assert(n.members->0[r] == name);
            },
            _ => {
                assert(n.fields->0[r].name == name);
            },
        }
    }
    if has_row(n, name) {
        match n.kind {
            NodeKind::Enum => {
                let r = choose|r: int|
                    0 <= r < n.values->0.len() && (#[trigger] n.values->0[r]).name == name;
                assert(names[r] == name);
            },
            NodeKind::Union => {
                let r = choose|r: int|
                    0 <= r < n.members->0.len() && #[trigger] n.members->0[r] == name;
                assert(names[r] == name);
            },
            _ => {
                let r = choose|r: int|
                    0 <= r < n.fields->0.len() && (#[trigger] n.fields->0[r]).name == name;
                assert(names[r] == name);
            },
        }
    }
}

proof fn lemma_missing(other: Seq<NodeModel>, of: Seq<NodeModel>, name: Seq<char>)
    ensures
        names_missing_from(other, of).contains(name) <==> exists|i: int|
            0 <= i < of.len() && (#[trigger] of[i]).name == name && prior_of(other, of[i].id) is None,
    decreases of.len(),
{
    if of.len() > 0 {
        let less = of.drop_last();
        lemma_missing(other, less, name);
        let before = names_missing_from(other, less);
        let all = names_missing_from(other, of);
        assert(of.last() == of[of.len() - 1]);
        if all.contains(name) {
            let x = choose|x: int| 0 <= x < all.len() && all[x] == name;
            if x < before.len() {
                assert(before[x] == name);
                let i = choose|i: int|
                    0 <= i < less.len() && (#[trigger] less[i]).name == name && prior_of(
                        other,
                        less[i].id,
                    ) is None;
                assert(of[i] == less[i]);
            }
        }
        if exists|i: int|
            0 <= i < of.len() && (#[trigger] of[i]).name == name && prior_of(other, of[i].id) is None {
            let i = choose|i: int|
                0 <= i < of.len() && (#[trigger] of[i]).name == name && prior_of(
                    other,
                    of[i].id,
                ) is None;
            if i < less.len() {
                assert(less[i] == of[i]);
                let x = choose|x: int| 0 <= x < before.len() && before[x] == name;
                assert(all[x] == name);
            } else {
                assert(all[before.len() as int] == name);
            }
        }
    }
}

/// No node of `nodes` has that id.
pub open spec fn lacks(nodes: Seq<NodeModel>, id: Seq<char>) -> bool {
    forall|b: int| 0 <= b < nodes.len() ==> (#[trigger] nodes[b]).id != id
}

/// A type counts as added exactly where the base has no type of its id, and as removed exactly where
/// the merged graph has none. An added type is marked as a whole, and no other is.
pub proof fn added_and_removed_types_are_reported(
    base: GraphModel,
    merged: GraphModel,
    name: Seq<char>,
)
    ensures
        diff_of(base, merged).added_types.contains(name) <==> exists|i: int|
            0 <= i < merged.nodes.len() && (#[trigger] merged.nodes[i]).name == name && lacks(
                base.nodes,
                merged.nodes[i].id,
            ),
        diff_of(base, merged).removed_types.contains(name) <==> exists|j: int|
            0 <= j < base.nodes.len() && (#[trigger] base.nodes[j]).name == name && lacks(
                merged.nodes,
                base.nodes[j].id,
            ),
        forall|i: int|
            0 <= i < merged.nodes.len() ==> (#[trigger] marked_graph(base, merged).nodes[i]).is_overlay
                == (merged.nodes[i].is_overlay || lacks(base.nodes, merged.nodes[i].id)),
{
    lemma_missing(base.nodes, merged.nodes, name);
    lemma_missing(merged.nodes, base.nodes, name);
    lemma_sorted_holds(names_missing_from(base.nodes, merged.nodes), name);
    lemma_sorted_holds(names_missing_from(merged.nodes, base.nodes), name);
    assert forall|i: int| 0 <= i < merged.nodes.len() implies prior_of(
        base.nodes,
        (#[trigger] merged.nodes[i]).id,
    ) is None == lacks(base.nodes, merged.nodes[i].id) by {
        lemma_no_prior(base.nodes, merged.nodes[i].id);
    }
    assert forall|j: int| 0 <= j < base.nodes.len() implies prior_of(
        merged.nodes,
        (#[trigger] base.nodes[j]).id,
    ) is None == lacks(merged.nodes, base.nodes[j].id) by {
        lemma_no_prior(merged.nodes, base.nodes[j].id);
    }
    let m = marked_graph(base, merged).nodes;
    assert forall|i: int| 0 <= i < merged.nodes.len() implies (#[trigger] m[i]).is_overlay == (
    merged.nodes[i].is_overlay || lacks(base.nodes, merged.nodes[i].id)) by {
        assert(m[i] == crate::provenance::marked_node(base.nodes, merged.nodes[i]));
    }
}

proof fn lemma_new_rows(prior: NodeModel, node: Seq<char>, names: Seq<Seq<char>>, text: Seq<char>)
    ensures
        new_rows(prior, node, names).contains(text) <==> exists|k: int|
            0 <= k < names.len() && is_new_row(prior, #[trigger] names[k]) && text == row_text(
                node,
                names[k],
            ),
    decreases names.len(),
{
    if names.len() > 0 {
        let less = names.drop_last();
        lemma_new_rows(prior, node, less, text);
        let before = new_rows(prior, node, less);
        let all = new_rows(prior, node, names);
        assert(names.last() == names[names.len() - 1]);
        if all.contains(text) {
            let x = choose|x: int| 0 <= x < all.len() && all[x] == text;
            if x < before.len() {
                assert(before[x] == text);
                let k = choose|k: int|
                    0 <= k < less.len() && is_new_row(prior, #[trigger] less[k]) && text == row_text(
                        node,
                        less[k],
                    );
                assert(names[k] == less[k]);
            }
        }
        if exists|k: int|
            0 <= k < names.len() && is_new_row(prior, #[trigger] names[k]) && text == row_text(
                node,
                names[k],
            ) {
            let k = choose|k: int|
                0 <= k < names.len() && is_new_row(prior, #[trigger] names[k]) && text == row_text(
                    node,
                    names[k],
                );
            if k < less.len() {
                assert(less[k] == names[k]);
                let x = choose|x: int| 0 <= x < before.len() && before[x] == text;
                assert(all[x] == text);
            } else {
                assert(all[before.len() as int] == text);
            }
        }
    }
}

proof fn lemma_lost(merged: Seq<NodeModel>, base: Seq<NodeModel>, j: int, text: Seq<char>)
    requires
        0 <= j < base.len(),
        prior_of(merged, base[j].id) is Some,
        new_rows(prior_of(merged, base[j].id)->0, base[j].name, rows_of(base[j])).contains(text),
    ensures
        lost_rows(merged, base).contains(text),
    decreases base.len(),
{
    let less = base.drop_last();
    let before = lost_rows(merged, less);
    let all = lost_rows(merged, base);
    if j < less.len() {
        assert(less[j] == base[j]);
        lemma_lost(merged, less, j, text);
        let x = choose|x: int| 0 <= x < before.len() && before[x] == text;
        assert(all[x] == text);
    } else {
        let b = base[j];
        let more = new_rows(prior_of(merged, b.id)->0, b.name, rows_of(b));
        let x = choose|x: int| 0 <= x < more.len() && more[x] == text;
        assert(all[before.len() + x] == text);
    }
}

proof fn lemma_lost_only(merged: Seq<NodeModel>, base: Seq<NodeModel>, text: Seq<char>) -> (j: int)
    requires
        lost_rows(merged, base).contains(text),
    ensures
        0 <= j < base.len(),
        prior_of(merged, base[j].id) is Some,
        new_rows(prior_of(merged, base[j].id)->0, base[j].name, rows_of(base[j])).contains(text),
    decreases base.len(),
{
    if base.len() == 0 {
        0
    } else {
        let less = base.drop_last();
        let before = lost_rows(merged, less);
        let all = lost_rows(merged, base);
        let x = choose|x: int| 0 <= x < all.len() && all[x] == text;
        if x < before.len() {
            assert(before[x] == text);
            let j = lemma_lost_only(merged, less, text);
            assert(less[j] == base[j]);
            j
        } else {
            let b = base[base.len() - 1];
            let more = new_rows(prior_of(merged, b.id)->0, b.name, rows_of(b));
            assert(more[x - before.len()] == text);
            base.len() - 1
        }
    }
}

/// A row that a type of the base has and its merged type has not is reported as removed, as
/// `Type.row`.
pub proof fn lost_rows_are_reported(
    base: GraphModel,
    merged: GraphModel,
    i: int,
    j: int,
    name: Seq<char>,
)
    requires
        0 <= j < base.nodes.len(),
        is_only(merged.nodes, base.nodes[j].id, i),
        has_row(base.nodes[j], name),
        !has_row(merged.nodes[i], name),
    ensures
        diff_of(base, merged).removed_fields.contains(base.nodes[j].name + "."@ + name),
{
    let (b, m) = (base.nodes[j], merged.nodes[i]);
    lemma_prior(merged.nodes, b.id, i);
    lemma_rows(b, name);
    lemma_rows(m, name);
    let text = row_text(b.name, name);
    let names = rows_of(b);
    let r = choose|r: int| 0 <= r < names.len() && names[r] == name;
    assert(is_new_row(m, names[r]));
    lemma_new_rows(m, b.name, names, text);
    lemma_lost(merged.nodes, base.nodes, j, text);
    lemma_sorted_holds(lost_rows(merged.nodes, base.nodes), text);
}

/// Only rows that are gone are reported as removed: rows of a type that both graphs have.
pub proof fn reported_rows_are_lost(base: GraphModel, merged: GraphModel, text: Seq<char>)
    requires
        forall|a: int, b: int|
            0 <= a < b < merged.nodes.len() ==> (#[trigger] merged.nodes[a]).id != (
            #[trigger] merged.nodes[b]).id,
        diff_of(base, merged).removed_fields.contains(text),
    ensures
        exists|i: int, j: int, name: Seq<char>|
            #![trigger is_only(merged.nodes, base.nodes[j].id, i), has_row(base.nodes[j], name)]
            0 <= j < base.nodes.len() && is_only(merged.nodes, base.nodes[j].id, i) && has_row(
                base.nodes[j],
                name,
            ) && !has_row(merged.nodes[i], name) && text == base.nodes[j].name + "."@ + name,
{
    lemma_sorted_holds(lost_rows(merged.nodes, base.nodes), text);
    let j = lemma_lost_only(merged.nodes, base.nodes, text);
    let b = base.nodes[j];
    let ids = node_ids(merged.nodes);
    lemma_last_place(ids, b.id);
    let i = crate::lists::last_place(ids, b.id);
    assert(ids[i] == merged.nodes[i].id);
    let m = merged.nodes[i];
    assert(is_only(merged.nodes, b.id, i)) by {
        assert forall|x: int| 0 <= x < merged.nodes.len() && x != i implies (
        #[trigger] merged.nodes[x]).id != b.id by {
            if x < i {
                assert(merged.nodes[x].id != merged.nodes[i].id);
            } else {
                assert(merged.nodes[i].id != merged.nodes[x].id);
            }
        }
    }
    let names = rows_of(b);
    lemma_new_rows(m, b.name, names, text);
    let k = choose|k: int|
        0 <= k < names.len() && is_new_row(m, #[trigger] names[k]) && text == row_text(
            b.name,
            names[k],
        );
    let name = names[k];
    lemma_rows(b, name);
    lemma_rows(m, name);
    assert(has_row(b, name));
}

/// The two nodes are one type before and after: of one kind, with rows under names of their own, none
/// of them marked yet.
pub open spec fn are_one_type(b: NodeModel, m: NodeModel) -> bool {
    &&& b.kind == m.kind
    &&& if m.kind == NodeKind::Enum {
        has_plain_values(b) && has_plain_values(m) && forall|k: int|
            0 <= k < m.values->0.len() ==> !(#[trigger] m.values->0[k]).is_overlay
    } else if m.kind == NodeKind::Union || m.kind == NodeKind::Scalar {
        m.fields is None
    } else {
        has_plain_fields(b) && has_plain_fields(m) && forall|k: int|
            0 <= k < m.fields->0.len() ==> !(#[trigger] m.fields->0[k]).is_overlay
    }
}

/// Types of one id are one type in both graphs, and the base has no id twice.
pub open spec fn are_versions(base: GraphModel, merged: GraphModel) -> bool {
    &&& forall|a: int, b: int|
        0 <= a < b < base.nodes.len() ==> (#[trigger] base.nodes[a]).id != (
        #[trigger] base.nodes[b]).id
    &&& forall|i: int, j: int|
        0 <= i < merged.nodes.len() && 0 <= j < base.nodes.len() && (#[trigger] merged.nodes[i]).id
            == (#[trigger] base.nodes[j]).id ==> are_one_type(base.nodes[j], merged.nodes[i])
}

/// The row `k` of `m` restates the row `l` of `b` with another shape.
pub open spec fn is_restated(b: NodeModel, m: NodeModel, k: int, l: int, name: Seq<char>) -> bool {
    if m.kind == NodeKind::Enum {
        &&& 0 <= k < m.values->0.len()
        &&& 0 <= l < b.values->0.len()
        &&& m.values->0[k].name == name
        &&& b.values->0[l].name == name
        &&& values_differ(m.values->0[k], b.values->0[l])
    } else {
        &&& 0 <= k < m.fields->0.len()
        &&& 0 <= l < b.fields->0.len()
        &&& m.fields->0[k].name == name
        &&& b.fields->0[l].name == name
        &&& fields_differ(m.fields->0[k], b.fields->0[l])
    }
}

proof fn lemma_prior_at(nodes: Seq<NodeModel>, id: Seq<char>) -> (j: int)
    requires
        prior_of(nodes, id) is Some,
    ensures
        0 <= j < nodes.len(),
        nodes[j].id == id,
        prior_of(nodes, id) == Some(nodes[j]),
{
    let ids = node_ids(nodes);
    lemma_last_place(ids, id);
    let j = crate::lists::last_place(ids, id);
    assert(ids[j] == nodes[j].id);
    j
}

proof fn lemma_only(base: GraphModel, merged: GraphModel, i: int, j: int)
    requires
        are_versions(base, merged),
        0 <= i < merged.nodes.len(),
        0 <= j < base.nodes.len(),
        base.nodes[j].id == merged.nodes[i].id,
    ensures
        is_only(base.nodes, merged.nodes[i].id, j),
{
    assert forall|b: int| 0 <= b < base.nodes.len() && b != j implies (#[trigger] base.nodes[b]).id
        != merged.nodes[i].id by {
        if b < j {
            assert(base.nodes[b].id != base.nodes[j].id);
        } else {
            assert(base.nodes[j].id != base.nodes[b].id);
        }
    }
}

/// Only rows that differ are reported as changed: rows that a type has in both graphs, restated with
/// another shape.
#[verifier::rlimit(40)]
pub proof fn reported_changes_differ(base: GraphModel, merged: GraphModel, text: Seq<char>)
    requires
        are_versions(base, merged),
        diff_of(base, merged).changed_fields.contains(text),
    ensures
        exists|i: int, j: int, k: int, l: int, name: Seq<char>|
            #![trigger is_restated(base.nodes[j], merged.nodes[i], k, l, name)]
            0 <= i < merged.nodes.len() && 0 <= j < base.nodes.len() && merged.nodes[i].id
                == base.nodes[j].id && is_restated(base.nodes[j], merged.nodes[i], k, l, name)
                && text == merged.nodes[i].name + "."@ + name,
{
    lemma_sorted_holds(all_reported(base.nodes, merged.nodes, false), text);
    let i = lemma_report_from(base.nodes, merged.nodes, false, text);
    let n = merged.nodes[i];
    let j = lemma_prior_at(base.nodes, n.id);
    let p = base.nodes[j];
    assert(are_one_type(p, n));
    lemma_only(base, merged, i, j);
    if n.kind == NodeKind::Enum {
        let rows = marked_rows(p, n).values->0;
        lemma_reported_values(p, n.name, rows, false, text);
        let k = choose|k: int|
            0 <= k < rows.len() && (#[trigger] rows[k]).is_overlay && is_new_row(p, rows[k].name)
                == false && text == row_text(n.name, rows[k].name);
        let name = rows[k].name;
        lemma_marked_value(base, merged, i, j, k);
        lemma_rows(p, name);
        let l = choose|l: int| 0 <= l < p.values->0.len() && (#[trigger] p.values->0[l]).name == name;
        lemma_value_at(n, k);
        lemma_value_at(p, l);
        lemma_value_shapes(n.values->0[k], p.values->0[l]);
        assert(!n.values->0[k].is_overlay);
        assert(is_restated(p, n, k, l, name));
    } else if n.kind == NodeKind::Union {
    } else if n.kind == NodeKind::Scalar {
        assert(rows_of(n).len() == 0);
        assert(!any_touched(p, n));
    } else {
        let rows = marked_rows(p, n).fields->0;
        lemma_reported_fields(p, n.name, rows, false, text);
        let k = choose|k: int|
            0 <= k < rows.len() && (#[trigger] rows[k]).is_overlay && is_new_row(p, rows[k].name)
                == false && text == row_text(n.name, rows[k].name);
        let name = rows[k].name;
        lemma_marked_field(base, merged, i, j, k);
        lemma_rows(p, name);
        let l = choose|l: int| 0 <= l < p.fields->0.len() && (#[trigger] p.fields->0[l]).name == name;
        lemma_field_at(n, k);
        lemma_field_at(p, l);
        lemma_field_shapes(n.fields->0[k], p.fields->0[l]);
        assert(!n.fields->0[k].is_overlay);
        assert(is_restated(p, n, k, l, name));
    }
}

/// Only rows that the base does not have are reported as added, and those of unions among them.
pub proof fn reported_additions_are_new(base: GraphModel, merged: GraphModel, text: Seq<char>)
    requires
        diff_of(base, merged).added_fields.contains(text),
    ensures
        exists|i: int, j: int, name: Seq<char>|
            #![trigger has_row(merged.nodes[i], name), has_row(base.nodes[j], name)]
            0 <= i < merged.nodes.len() && 0 <= j < base.nodes.len() && merged.nodes[i].id
                == base.nodes[j].id && has_row(merged.nodes[i], name) && !has_row(
                base.nodes[j],
                name,
            ) && text == merged.nodes[i].name + "."@ + name,
{
    lemma_sorted_holds(all_reported(base.nodes, merged.nodes, true), text);
    let i = lemma_report_from(base.nodes, merged.nodes, true, text);
    let n = merged.nodes[i];
    let j = lemma_prior_at(base.nodes, n.id);
    let p = base.nodes[j];
    if n.kind == NodeKind::Enum {
        let rows = or_empty(marked_rows(p, n).values);
        lemma_reported_values(p, n.name, rows, true, text);
        let k = choose|k: int|
            0 <= k < rows.len() && (#[trigger] rows[k]).is_overlay && is_new_row(p, rows[k].name)
                == true && text == row_text(n.name, rows[k].name);
        lemma_rows(p, rows[k].name);
        assert(n.values is Some);
        assert(n.values->0[k].name == rows[k].name);
        assert(has_row(n, rows[k].name));
        assert(!has_row(p, rows[k].name));
    } else if n.kind == NodeKind::Union {
        let names = or_empty(n.members);
        lemma_new_rows(p, n.name, names, text);
        let k = choose|k: int|
            0 <= k < names.len() && is_new_row(p, #[trigger] names[k]) && text == row_text(
                n.name,
                names[k],
            );
        lemma_rows(p, names[k]);
        assert(n.members->0[k] == names[k]);
        assert(has_row(n, names[k]));
        assert(!has_row(p, names[k]));
    } else {
        let rows = or_empty(marked_rows(p, n).fields);
        lemma_reported_fields(p, n.name, rows, true, text);
        let k = choose|k: int|
            0 <= k < rows.len() && (#[trigger] rows[k]).is_overlay && is_new_row(p, rows[k].name)
                == true && text == row_text(n.name, rows[k].name);
        lemma_rows(p, rows[k].name);
        assert(n.fields is Some);
        assert(n.fields->0[k].name == rows[k].name);
        assert(has_row(n, rows[k].name));
        assert(!has_row(p, rows[k].name));
    }
}

/// A member that the base union does not have is reported as added, as `Union.member`.
pub proof fn added_members_are_reported(
    base: GraphModel,
    merged: GraphModel,
    i: int,
    j: int,
    name: Seq<char>,
)
    requires
        0 <= i < merged.nodes.len(),
        is_only(base.nodes, merged.nodes[i].id, j),
        merged.nodes[i].kind == NodeKind::Union,
        base.nodes[j].kind == NodeKind::Union,
        has_member(merged.nodes[i], name),
        !has_member(base.nodes[j], name),
    ensures
        diff_of(base, merged).added_fields.contains(merged.nodes[i].name + "."@ + name),
{
    let (p, n) = (base.nodes[j], merged.nodes[i]);
    lemma_prior(base.nodes, n.id, j);
    lemma_rows(p, name);
    let names = n.members->0;
    let k = choose|k: int| 0 <= k < names.len() && #[trigger] names[k] == name;
    assert(rows_of(n)[k] == name);
    assert(touched(p, n, rows_of(n)[k]));
    assert(any_touched(p, n));
    let text = row_text(n.name, name);
    assert(is_new_row(p, names[k]));
    lemma_new_rows(p, n.name, names, text);
    assert(reports(base.nodes, merged.nodes, i, true, text));
    lemma_report_found(base.nodes, merged.nodes, i, true, text);
    lemma_sorted_holds(all_reported(base.nodes, merged.nodes, true), text);
}

} // verus!
