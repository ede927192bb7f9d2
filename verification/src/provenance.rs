//! Which nodes and rows of a merged graph came from the overlay.
//!
//! Joining texts loses provenance; comparing the merged graph with the base one recovers it.

use vstd::prelude::*;

use crate::edges::node_ids;
use crate::extensions::{field_names, or_empty, value_names};
use crate::lists::{copy_names, has_name, last_place, lemma_last_place_is};
use crate::text::{same, sort_texts, sorted};
use crate::types::{
    ArgModel, EnumValue, FieldModel, GraphArg, GraphField, GraphModel, GraphNodeData, NodeKind,
    NodeModel, ParsedGraph, ValueModel,
};

verus! {

/// What the overlay contributed.
#[derive(Debug, PartialEq, Eq)]
pub struct OverlayDiff {
    /// Types present only in the merged graph.
    pub added_types: Vec<String>,
    /// `TypeName.fieldName` for rows added to a pre-existing type.
    pub added_fields: Vec<String>,
    /// `TypeName.fieldName` for rows the overlay restated with a different shape: a new type,
    /// different args, a changed deprecation.
    pub changed_fields: Vec<String>,
    /// Types the overlay took away with a top-level `-TypeName`.
    pub removed_types: Vec<String>,
    /// `TypeName.fieldName` for rows the overlay took away with `-name`.
    pub removed_fields: Vec<String>,
}

/// Model of an [`OverlayDiff`].
#[verifier::ext_equal]
pub struct DiffModel {
    pub added_types: Seq<Seq<char>>,
    pub added_fields: Seq<Seq<char>>,
    pub changed_fields: Seq<Seq<char>>,
    pub removed_types: Seq<Seq<char>>,
    pub removed_fields: Seq<Seq<char>>,
}

impl DeepView for OverlayDiff {
    type V = DiffModel;

    open spec fn deep_view(&self) -> DiffModel {
        DiffModel {
            added_types: self.added_types.deep_view(),
            added_fields: self.added_fields.deep_view(),
            changed_fields: self.changed_fields.deep_view(),
            removed_types: self.removed_types.deep_view(),
            removed_fields: self.removed_fields.deep_view(),
        }
    }
}

/// The diff that reports nothing.
pub open spec fn no_diff() -> DiffModel {
    DiffModel {
        added_types: Seq::empty(),
        added_fields: Seq::empty(),
        changed_fields: Seq::empty(),
        removed_types: Seq::empty(),
        removed_fields: Seq::empty(),
    }
}

impl Default for OverlayDiff {
    /// The diff that reports nothing.
    fn default() -> (r: Self)
        ensures
            r.deep_view() == no_diff(),
    {
        let r = OverlayDiff {
            added_types: Vec::new(),
            added_fields: Vec::new(),
            changed_fields: Vec::new(),
            removed_types: Vec::new(),
            removed_fields: Vec::new(),
        };
        assert(r.deep_view() =~= no_diff());
        r
    }
}

// ── rows ───────────────────────────────────────────────────────────────────

/// Row names: values for enums, members for unions, fields for the rest.
pub open spec fn rows_of(n: NodeModel) -> Seq<Seq<char>> {
    match n.kind {
        NodeKind::Enum => value_names(or_empty(n.values)),
        NodeKind::Union => or_empty(n.members),
        _ => field_names(or_empty(n.fields)),
    }
}

/// A text, or the empty one.
pub open spec fn text_or_empty(t: Option<Seq<char>>) -> Seq<char> {
    match t {
        Some(s) => s,
        None => Seq::empty(),
    }
}

/// Everything about a row that the card renders, minus its name. A text that is missing counts as
/// an empty one.
#[verifier::ext_equal]
pub struct RowShape {
    /// The type of a field; an enum value has none.
    pub type_: Option<Seq<char>>,
    /// Name and type of each argument.
    pub args: Seq<(Seq<char>, Seq<char>)>,
    pub is_deprecated: bool,
    pub deprecation_reason: Seq<char>,
    pub description: Seq<char>,
}

/// The shape of an enum value.
pub open spec fn value_shape(v: ValueModel) -> RowShape {
    RowShape {
        type_: None,
        args: Seq::empty(),
        is_deprecated: v.is_deprecated,
        deprecation_reason: text_or_empty(v.deprecation_reason),
        description: text_or_empty(v.description),
    }
}

/// The shape of a field.
pub open spec fn field_shape(f: FieldModel) -> RowShape {
    RowShape {
        type_: Some(f.type_),
        args: or_empty(f.args).map_values(|a: ArgModel| (a.name, a.type_)),
        is_deprecated: f.is_deprecated,
        deprecation_reason: text_or_empty(f.deprecation_reason),
        description: text_or_empty(f.description),
    }
}

/// The shape of the last row named `name`. Union members carry nothing beyond their name.
pub open spec fn shape_of(n: NodeModel, name: Seq<char>) -> Option<RowShape> {
    match n.kind {
        NodeKind::Union => None,
        NodeKind::Enum => {
            let i = last_place(value_names(or_empty(n.values)), name);
            if i < 0 { None } else { Some(value_shape(or_empty(n.values)[i])) }
        },
        _ => {
            let i = last_place(field_names(or_empty(n.fields)), name);
            if i < 0 { None } else { Some(field_shape(or_empty(n.fields)[i])) }
        },
    }
}

/// The row `name` is not in the base node.
pub open spec fn is_new_row(prior: NodeModel, name: Seq<char>) -> bool {
    !rows_of(prior).contains(name)
}

/// The row `name` of `n` is the overlay's work: added, or restated with another shape.
pub open spec fn touched(prior: NodeModel, n: NodeModel, name: Seq<char>) -> bool {
    is_new_row(prior, name) || shape_of(n, name) != shape_of(prior, name)
}

/// Some row of `n` is the overlay's work.
pub open spec fn any_touched(prior: NodeModel, n: NodeModel) -> bool {
    exists|i: int| 0 <= i < rows_of(n).len() && touched(prior, n, #[trigger] rows_of(n)[i])
}

/// The field with its overlay flag raised if it is the overlay's work.
pub open spec fn marked_field(prior: NodeModel, n: NodeModel, f: FieldModel) -> FieldModel {
    FieldModel { is_overlay: f.is_overlay || touched(prior, n, f.name), ..f }
}

/// The value with its overlay flag raised if it is the overlay's work.
pub open spec fn marked_value(prior: NodeModel, n: NodeModel, v: ValueModel) -> ValueModel {
    ValueModel { is_overlay: v.is_overlay || touched(prior, n, v.name), ..v }
}

/// A node that the base has, with the overlay's rows marked; one without such rows stays as it is.
pub open spec fn marked_rows(prior: NodeModel, n: NodeModel) -> NodeModel {
    if !any_touched(prior, n) {
        n
    } else {
        match n.kind {
            NodeKind::Enum => NodeModel {
                values: Some(or_empty(n.values).map_values(|v: ValueModel| marked_value(prior, n, v))),
                ..n
            },
            NodeKind::Union => n,
            _ => NodeModel {
                fields: Some(or_empty(n.fields).map_values(|f: FieldModel| marked_field(prior, n, f))),
                ..n
            },
        }
    }
}

/// The last base node with the id of `n`.
pub open spec fn prior_of(base: Seq<NodeModel>, id: Seq<char>) -> Option<NodeModel> {
    let i = last_place(node_ids(base), id);
    if i < 0 { None } else { Some(base[i]) }
}

/// A merged node with everything the overlay contributed marked.
pub open spec fn marked_node(base: Seq<NodeModel>, n: NodeModel) -> NodeModel {
    match prior_of(base, n.id) {
        None => NodeModel { is_overlay: true, ..n },
        Some(prior) => marked_rows(prior, n),
    }
}

/// A row as reports give it: `Type.row`.
pub open spec fn row_text(node: Seq<char>, row: Seq<char>) -> Seq<char> {
    node + "."@ + row
}

/// The marked fields among `rows` that are new (or, with `new` unset, that are not).
pub open spec fn reported_fields(
    prior: NodeModel,
    node: Seq<char>,
    rows: Seq<FieldModel>,
    new: bool,
) -> Seq<Seq<char>>
    decreases rows.len(),
{
    if rows.len() == 0 {
        Seq::empty()
    } else {
        let before = reported_fields(prior, node, rows.drop_last(), new);
        let f = rows.last();
        if f.is_overlay && is_new_row(prior, f.name) == new {
            before.push(row_text(node, f.name))
        } else {
            before
        }
    }
}

/// The marked values among `rows` that are new (or, with `new` unset, that are not).
pub open spec fn reported_values(
    prior: NodeModel,
    node: Seq<char>,
    rows: Seq<ValueModel>,
    new: bool,
) -> Seq<Seq<char>>
    decreases rows.len(),
{
    if rows.len() == 0 {
        Seq::empty()
    } else {
        let before = reported_values(prior, node, rows.drop_last(), new);
        let v = rows.last();
        if v.is_overlay && is_new_row(prior, v.name) == new {
            before.push(row_text(node, v.name))
        } else {
            before
        }
    }
}

/// Those of `names` that the base node does not have.
pub open spec fn new_rows(prior: NodeModel, node: Seq<char>, names: Seq<Seq<char>>) -> Seq<Seq<char>>
    decreases names.len(),
{
    if names.len() == 0 {
        Seq::empty()
    } else {
        let before = new_rows(prior, node, names.drop_last());
        if is_new_row(prior, names.last()) {
            before.push(row_text(node, names.last()))
        } else {
            before
        }
    }
}

/// The rows that one merged node reports: added ones, or with `new` unset changed ones.
pub open spec fn reported_rows(base: Seq<NodeModel>, n: NodeModel, new: bool) -> Seq<Seq<char>> {
    match prior_of(base, n.id) {
        None => Seq::empty(),
        Some(prior) => if !any_touched(prior, n) {
            Seq::empty()
        } else {
            match n.kind {
                NodeKind::Enum => reported_values(
                    prior,
                    n.name,
                    or_empty(marked_rows(prior, n).values),
                    new,
                ),
                NodeKind::Union => if new {
                    new_rows(prior, n.name, or_empty(n.members))
                } else {
                    Seq::empty()
                },
                _ => reported_fields(prior, n.name, or_empty(marked_rows(prior, n).fields), new),
            }
        },
    }
}

/// The rows that the merged nodes report, in node order.
pub open spec fn all_reported(base: Seq<NodeModel>, nodes: Seq<NodeModel>, new: bool) -> Seq<Seq<char>>
    decreases nodes.len(),
{
    if nodes.len() == 0 {
        Seq::empty()
    } else {
        all_reported(base, nodes.drop_last(), new) + reported_rows(base, nodes.last(), new)
    }
}

/// The names of the nodes of `of` whose ids `other` does not have.
pub open spec fn names_missing_from(other: Seq<NodeModel>, of: Seq<NodeModel>) -> Seq<Seq<char>>
    decreases of.len(),
{
    if of.len() == 0 {
        Seq::empty()
    } else {
        let before = names_missing_from(other, of.drop_last());
        if prior_of(other, of.last().id) is None { before.push(of.last().name) } else { before }
    }
}

/// The rows that base nodes have and their merged nodes do not, in node order.
pub open spec fn lost_rows(merged: Seq<NodeModel>, base: Seq<NodeModel>) -> Seq<Seq<char>>
    decreases base.len(),
{
    if base.len() == 0 {
        Seq::empty()
    } else {
        let before = lost_rows(merged, base.drop_last());
        let b = base.last();
        match prior_of(merged, b.id) {
            Some(m) => before + new_rows(m, b.name, rows_of(b)),
            None => before,
        }
    }
}

/// The merged graph with everything the overlay contributed marked.
pub open spec fn marked_graph(base: GraphModel, merged: GraphModel) -> GraphModel {
    GraphModel {
        nodes: merged.nodes.map_values(|n: NodeModel| marked_node(base.nodes, n)),
        ..merged
    }
}

/// What the overlay contributed, each list sorted.
pub open spec fn diff_of(base: GraphModel, merged: GraphModel) -> DiffModel {
    DiffModel {
        added_types: sorted(names_missing_from(base.nodes, merged.nodes)),
        added_fields: sorted(all_reported(base.nodes, merged.nodes, true)),
        changed_fields: sorted(all_reported(base.nodes, merged.nodes, false)),
        removed_types: sorted(names_missing_from(merged.nodes, base.nodes)),
        removed_fields: sorted(lost_rows(merged.nodes, base.nodes)),
    }
}

fn names_of_rows(n: &GraphNodeData) -> (r: Vec<String>)
    ensures
        r.deep_view() == rows_of(n.deep_view()),
{
    let mut out: Vec<String> = Vec::new();
    let ghost want = rows_of(n.deep_view());
    match n.kind {
        NodeKind::Enum => {
            if let Some(values) = &n.values {
                let mut i: usize = 0;
                while i < values.len()
                    invariant
                        i <= values@.len(),
                        want == value_names(values.deep_view()),
                        out.deep_view() == want.take(i as int),
                    decreases values@.len() - i,
                {
                    let ghost before = out.deep_view();
                    out.push(values[i].name.clone());
                    assert(want[i as int] == values@[i as int].name@);
                    assert(out.deep_view() =~= before.push(want[i as int]));
                    assert(want.take(i as int + 1) =~= before.push(want[i as int]));
                    i = i + 1;
                }
            }
            assert(out.deep_view() =~= want);
            out
        },
        NodeKind::Union => {
            if let Some(members) = &n.members {
                return copy_names(members);
            }
            assert(out.deep_view() =~= want);
            out
        },
        _ => {
            if let Some(fields) = &n.fields {
                let mut i: usize = 0;
                while i < fields.len()
                    invariant
                        i <= fields@.len(),
                        want == field_names(fields.deep_view()),
                        out.deep_view() == want.take(i as int),
                    decreases fields@.len() - i,
                {
                    let ghost before = out.deep_view();
                    out.push(fields[i].name.clone());
                    assert(want[i as int] == fields@[i as int].name@);
                    assert(out.deep_view() =~= before.push(want[i as int]));
                    assert(want.take(i as int + 1) =~= before.push(want[i as int]));
                    i = i + 1;
                }
            }
            assert(out.deep_view() =~= want);
            out
        },
    }
}

/// A row that carries more than its name.
enum Row<'a> {
    Value(&'a EnumValue),
    Field(&'a GraphField),
}

impl<'a> Row<'a> {
    spec fn shape(self) -> RowShape {
        match self {
            Row::Value(v) => value_shape(v.deep_view()),
            Row::Field(f) => field_shape(f.deep_view()),
        }
    }
}

/// Whether two texts are the same, one that is missing taken as empty.
fn same_text(a: &Option<String>, b: &Option<String>) -> (r: bool)
    ensures
        r == (text_or_empty(a.deep_view()) == text_or_empty(b.deep_view())),
{
    let empty = String::new();
    assert(empty@ =~= Seq::<char>::empty());
    let x = match a {
        Some(s) => s,
        None => &empty,
    };
    let y = match b {
        Some(s) => s,
        None => &empty,
    };
    same(x.as_str(), y.as_str())
}

fn arg_count(args: &Option<Vec<GraphArg>>) -> (r: usize)
    ensures
        r == or_empty(args.deep_view()).len(),
{
    match args {
        Some(a) => a.len(),
        None => 0,
    }
}

#[verifier::loop_isolation(false)]
fn same_args(a: &Option<Vec<GraphArg>>, b: &Option<Vec<GraphArg>>) -> (r: bool)
    ensures
        r == (or_empty(a.deep_view()).map_values(|x: ArgModel| (x.name, x.type_)) == or_empty(
            b.deep_view(),
        ).map_values(|x: ArgModel| (x.name, x.type_))),
{
    let ghost s = or_empty(a.deep_view()).map_values(|x: ArgModel| (x.name, x.type_));
    let ghost t = or_empty(b.deep_view()).map_values(|x: ArgModel| (x.name, x.type_));
    if arg_count(a) != arg_count(b) {
        assert(s.len() != t.len());
        return false;
    }
    if let (Some(x), Some(y)) = (a, b) {
        let mut i: usize = 0;
        while i < x.len()
            invariant
                i <= x@.len(),
                x@.len() == y@.len(),
                forall|k: int| 0 <= k < i ==> #[trigger] s[k] == t[k],
            decreases x@.len() - i,
        {
            assert(s[i as int] == (x@[i as int].name@, x@[i as int].type_@));
            assert(t[i as int] == (y@[i as int].name@, y@[i as int].type_@));
            if !same(x[i].name.as_str(), y[i].name.as_str()) || !same(
                x[i].type_.as_str(),
                y[i].type_.as_str(),
            ) {
                return false;
            }
            i = i + 1;
        }
    }
    assert(s =~= t);
    true
}

fn same_shape<'a>(a: &Row<'a>, b: &Row<'a>) -> (r: bool)
    ensures
        r == (a.shape() == b.shape()),
{
    match (a, b) {
        (Row::Value(v), Row::Value(w)) => {
            v.is_deprecated == w.is_deprecated && same_text(
                &v.deprecation_reason,
                &w.deprecation_reason,
            ) && same_text(&v.description, &w.description)
        },
        (Row::Field(f), Row::Field(g)) => {
            same(f.type_.as_str(), g.type_.as_str()) && same_args(&f.args, &g.args)
                && f.is_deprecated == g.is_deprecated && same_text(
                &f.deprecation_reason,
                &g.deprecation_reason,
            ) && same_text(&f.description, &g.description)
        },
        _ => false,
    }
}

#[verifier::loop_isolation(false)]
fn find_row<'a>(n: &'a GraphNodeData, name: &str) -> (r: Option<Row<'a>>)
    ensures
        match r {
            Some(row) => shape_of(n.deep_view(), name@) == Some(row.shape()),
            None => shape_of(n.deep_view(), name@) is None,
        },
{
    match n.kind {
        NodeKind::Union => None,
        NodeKind::Enum => {
            let ghost names = value_names(or_empty(n.deep_view().values));
            if let Some(values) = &n.values {
                let mut i: usize = values.len();
                while i > 0
                    invariant
                        i <= values@.len(),
                        names == value_names(values.deep_view()),
                        forall|j: int| i <= j < values@.len() ==> #[trigger] names[j] != name@,
                    decreases i,
                {
                    i = i - 1;
                    assert(names[i as int] == values@[i as int].name@);
                    if same(values[i].name.as_str(), name) {
                        proof {
                            lemma_last_place_is(names, name@, i as int);
                        }
                        assert(values.deep_view()[i as int] == values@[i as int].deep_view());
                        return Some(Row::Value(&values[i]));
                    }
                }
            }
            proof {
                lemma_last_place_is(names, name@, -1);
            }
            None
        },
        _ => {
            let ghost names = field_names(or_empty(n.deep_view().fields));
            if let Some(fields) = &n.fields {
                let mut i: usize = fields.len();
                while i > 0
                    invariant
                        i <= fields@.len(),
                        names == field_names(fields.deep_view()),
                        forall|j: int| i <= j < fields@.len() ==> #[trigger] names[j] != name@,
                    decreases i,
                {
                    i = i - 1;
                    assert(names[i as int] == fields@[i as int].name@);
                    if same(fields[i].name.as_str(), name) {
                        proof {
                            lemma_last_place_is(names, name@, i as int);
                        }
                        assert(fields.deep_view()[i as int] == fields@[i as int].deep_view());
                        return Some(Row::Field(&fields[i]));
                    }
                }
            }
            proof {
                lemma_last_place_is(names, name@, -1);
            }
            None
        },
    }
}

fn row_is_new(prior: &GraphNodeData, name: &str) -> (r: bool)
    ensures
        r == is_new_row(prior.deep_view(), name@),
{
    let rows = names_of_rows(prior);
    !has_name(&rows, name)
}

fn row_touched(prior: &GraphNodeData, n: &GraphNodeData, name: &str) -> (r: bool)
    ensures
        r == touched(prior.deep_view(), n.deep_view(), name@),
{
    if row_is_new(prior, name) {
        return true;
    }
    match (find_row(n, name), find_row(prior, name)) {
        (Some(now), Some(before)) => !same_shape(&now, &before),
        (None, None) => false,
        _ => true,
    }
}

/// Which rows of `n` are the overlay's work.
fn touched_rows(prior: &GraphNodeData, n: &GraphNodeData) -> (r: (Vec<bool>, bool))
    ensures
        r.0@.len() == rows_of(n.deep_view()).len(),
        forall|i: int|
            0 <= i < r.0@.len() ==> #[trigger] r.0@[i] == touched(
                prior.deep_view(),
                n.deep_view(),
                rows_of(n.deep_view())[i],
            ),
        r.1 == any_touched(prior.deep_view(), n.deep_view()),
{
    let rows = names_of_rows(n);
    let ghost names = rows_of(n.deep_view());
    let mut flags: Vec<bool> = Vec::new();
    let mut any: bool = false;
    let mut i: usize = 0;
    while i < rows.len()
        invariant
            i <= rows@.len(),
            rows.deep_view() == names,
            names == rows_of(n.deep_view()),
            flags@.len() == i,
            forall|k: int|
                0 <= k < i ==> #[trigger] flags@[k] == touched(
                    prior.deep_view(),
                    n.deep_view(),
                    names[k],
                ),
            any ==> any_touched(prior.deep_view(), n.deep_view()),
            !any ==> forall|k: int|
                0 <= k < i ==> !touched(prior.deep_view(), n.deep_view(), #[trigger] names[k]),
        decreases rows@.len() - i,
    {
        assert(names[i as int] == rows@[i as int]@);
        let t: bool = row_touched(prior, n, rows[i].as_str());
        if t {
            any = true;
            assert(touched(prior.deep_view(), n.deep_view(), names[i as int]));
        }
        flags.push(t);
        i = i + 1;
    }
    (flags, any)
}

fn row_report(node: &str, row: &str) -> (r: String)
    ensures
        r@ == row_text(node@, row@),
{
    let mut s = node.to_owned();
    s.append(".");
    s.append(row);
    s
}

fn mark_fields(
    prior: &GraphNodeData,
    node: &str,
    rows: Vec<GraphField>,
    flags: &Vec<bool>,
    diff: &mut OverlayDiff,
) -> (r: Vec<GraphField>)
    requires
        flags@.len() == rows@.len(),
    ensures
        r.deep_view() == Seq::new(
            rows@.len(),
            |i: int|
                FieldModel {
                    is_overlay: rows.deep_view()[i].is_overlay || flags@[i],
                    ..rows.deep_view()[i]
                },
        ),
        final(diff).deep_view() == (DiffModel {
            added_fields: old(diff).deep_view().added_fields + reported_fields(
                prior.deep_view(),
                node@,
                r.deep_view(),
                true,
            ),
            changed_fields: old(diff).deep_view().changed_fields + reported_fields(
                prior.deep_view(),
                node@,
                r.deep_view(),
                false,
            ),
            ..old(diff).deep_view()
        }),
{
    let ghost d0 = diff.deep_view();
    let ghost p = prior.deep_view();
    let ghost want = Seq::new(
        rows@.len(),
        |i: int|
            FieldModel {
                is_overlay: rows.deep_view()[i].is_overlay || flags@[i],
                ..rows.deep_view()[i]
            },
    );
    let mut out: Vec<GraphField> = Vec::new();
    assert(want.take(0) =~= Seq::<FieldModel>::empty());
    assert(d0.added_fields + Seq::<Seq<char>>::empty() =~= d0.added_fields);
    assert(d0.changed_fields + Seq::<Seq<char>>::empty() =~= d0.changed_fields);
    for f in it: rows
        invariant
            it.seq() == rows@,
            flags@.len() == rows@.len(),
            p == prior.deep_view(),
            want == Seq::new(
                rows@.len(),
                |i: int|
                    FieldModel {
                        is_overlay: rows.deep_view()[i].is_overlay || flags@[i],
                        ..rows.deep_view()[i]
                    },
            ),
            out.deep_view() == want.take(it.index() as int),
            diff.deep_view() == (DiffModel {
                added_fields: d0.added_fields + reported_fields(
                    p,
                    node@,
                    want.take(it.index() as int),
                    true,
                ),
                changed_fields: d0.changed_fields + reported_fields(
                    p,
                    node@,
                    want.take(it.index() as int),
                    false,
                ),
                ..d0
            }),
    {
        let ghost i = it.index() as int;
        let k: usize = out.len();
        let ghost before = out.deep_view();
        let ghost added = diff.added_fields.deep_view();
        let ghost changed = diff.changed_fields.deep_view();
        assert(rows.deep_view()[i] == f.deep_view());
        assert(k == i) by {
            assert(out.deep_view().len() == i);
        }
        let mut f = f;
        if flags[k] {
            f.is_overlay = true;
        }
        assert(f.deep_view() == want[i]);
        assert(want.take(i + 1).drop_last() =~= want.take(i));
        if f.is_overlay {
            let row = row_report(node, f.name.as_str());
            if row_is_new(prior, f.name.as_str()) {
                diff.added_fields.push(row);
                assert(diff.added_fields.deep_view() =~= added.push(row@));
            } else {
                diff.changed_fields.push(row);
                assert(diff.changed_fields.deep_view() =~= changed.push(row@));
            }
        }
        assert(diff.added_fields.deep_view() =~= d0.added_fields + reported_fields(
            p,
            node@,
            want.take(i + 1),
            true,
        ));
        assert(diff.changed_fields.deep_view() =~= d0.changed_fields + reported_fields(
            p,
            node@,
            want.take(i + 1),
            false,
        ));
        out.push(f);
        assert(out.deep_view() =~= before.push(want[i]));
        assert(want.take(i + 1) =~= before.push(want[i]));
    }
    assert(want.take(want.len() as int) =~= want);
    out
}

fn mark_values(
    prior: &GraphNodeData,
    node: &str,
    rows: Vec<EnumValue>,
    flags: &Vec<bool>,
    diff: &mut OverlayDiff,
) -> (r: Vec<EnumValue>)
    requires
        flags@.len() == rows@.len(),
    ensures
        r.deep_view() == Seq::new(
            rows@.len(),
            |i: int|
                ValueModel {
                    is_overlay: rows.deep_view()[i].is_overlay || flags@[i],
                    ..rows.deep_view()[i]
                },
        ),
        final(diff).deep_view() == (DiffModel {
            added_fields: old(diff).deep_view().added_fields + reported_values(
                prior.deep_view(),
                node@,
                r.deep_view(),
                true,
            ),
            changed_fields: old(diff).deep_view().changed_fields + reported_values(
                prior.deep_view(),
                node@,
                r.deep_view(),
                false,
            ),
            ..old(diff).deep_view()
        }),
{
    let ghost d0 = diff.deep_view();
    let ghost p = prior.deep_view();
    let ghost want = Seq::new(
        rows@.len(),
        |i: int|
            ValueModel {
                is_overlay: rows.deep_view()[i].is_overlay || flags@[i],
                ..rows.deep_view()[i]
            },
    );
    let mut out: Vec<EnumValue> = Vec::new();
    assert(want.take(0) =~= Seq::<ValueModel>::empty());
    assert(d0.added_fields + Seq::<Seq<char>>::empty() =~= d0.added_fields);
    assert(d0.changed_fields + Seq::<Seq<char>>::empty() =~= d0.changed_fields);
    for v in it: rows
        invariant
            it.seq() == rows@,
            flags@.len() == rows@.len(),
            p == prior.deep_view(),
            want == Seq::new(
                rows@.len(),
                |i: int|
                    ValueModel {
                        is_overlay: rows.deep_view()[i].is_overlay || flags@[i],
                        ..rows.deep_view()[i]
                    },
            ),
            out.deep_view() == want.take(it.index() as int),
            diff.deep_view() == (DiffModel {
                added_fields: d0.added_fields + reported_values(
                    p,
                    node@,
                    want.take(it.index() as int),
                    true,
                ),
                changed_fields: d0.changed_fields + reported_values(
                    p,
                    node@,
                    want.take(it.index() as int),
                    false,
                ),
                ..d0
            }),
    {
        let ghost i = it.index() as int;
        let k: usize = out.len();
        let ghost before = out.deep_view();
        let ghost added = diff.added_fields.deep_view();
        let ghost changed = diff.changed_fields.deep_view();
        assert(rows.deep_view()[i] == v.deep_view());
        assert(k == i) by {
            assert(out.deep_view().len() == i);
        }
        let mut v = v;
        if flags[k] {
            v.is_overlay = true;
        }
        assert(v.deep_view() == want[i]);
        assert(want.take(i + 1).drop_last() =~= want.take(i));
        if v.is_overlay {
            let row = row_report(node, v.name.as_str());
            if row_is_new(prior, v.name.as_str()) {
                diff.added_fields.push(row);
                assert(diff.added_fields.deep_view() =~= added.push(row@));
            } else {
                diff.changed_fields.push(row);
                assert(diff.changed_fields.deep_view() =~= changed.push(row@));
            }
        }
        assert(diff.added_fields.deep_view() =~= d0.added_fields + reported_values(
            p,
            node@,
            want.take(i + 1),
            true,
        ));
        assert(diff.changed_fields.deep_view() =~= d0.changed_fields + reported_values(
            p,
            node@,
            want.take(i + 1),
            false,
        ));
        out.push(v);
        assert(out.deep_view() =~= before.push(want[i]));
        assert(want.take(i + 1) =~= before.push(want[i]));
    }
    assert(want.take(want.len() as int) =~= want);
    out
}

fn push_new_rows(prior: &GraphNodeData, node: &str, names: &Vec<String>, out: &mut Vec<String>)
    ensures
        final(out).deep_view() == old(out).deep_view() + new_rows(
            prior.deep_view(),
            node@,
            names.deep_view(),
        ),
{
    let ghost base = out.deep_view();
    let ghost all = names.deep_view();
    let ghost p = prior.deep_view();
    let mut i: usize = 0;
    assert(all.take(0) =~= Seq::<Seq<char>>::empty());
    assert(base + Seq::<Seq<char>>::empty() =~= base);
    while i < names.len()
        invariant
            i <= names@.len(),
            all == names.deep_view(),
            p == prior.deep_view(),
            out.deep_view() == base + new_rows(p, node@, all.take(i as int)),
        decreases names@.len() - i,
    {
        assert(all.take(i as int + 1).drop_last() =~= all.take(i as int));
        assert(all[i as int] == names@[i as int]@);
        if row_is_new(prior, names[i].as_str()) {
            let ghost before = out.deep_view();
            let row = row_report(node, names[i].as_str());
            out.push(row);
            assert(out.deep_view() =~= before.push(row@));
            assert(out.deep_view() =~= base + new_rows(p, node@, all.take(i as int + 1)));
        }
        i = i + 1;
    }
    assert(all.take(i as int) =~= all);
}

fn find_prior(nodes: &Vec<GraphNodeData>, id: &str) -> (r: Option<usize>)
    ensures
        match r {
            Some(i) => i < nodes@.len() && prior_of(nodes.deep_view(), id@) == Some(
                nodes@[i as int].deep_view(),
            ),
            None => prior_of(nodes.deep_view(), id@) is None,
        },
{
    let ghost names = node_ids(nodes.deep_view());
    let mut i: usize = nodes.len();
    while i > 0
        invariant
            i <= nodes@.len(),
            names == node_ids(nodes.deep_view()),
            forall|j: int| i <= j < nodes@.len() ==> #[trigger] names[j] != id@,
        decreases i,
    {
        i = i - 1;
        assert(names[i as int] == nodes@[i as int].id@);
        if same(nodes[i].id.as_str(), id) {
            proof {
                lemma_last_place_is(names, id@, i as int);
            }
            return Some(i);
        }
    }
    proof {
        lemma_last_place_is(names, id@, -1);
    }
    None
}

/// Marks one merged node and reports what it contributes.
#[verifier::rlimit(40)]
fn mark_node(base: &Vec<GraphNodeData>, n: GraphNodeData, diff: &mut OverlayDiff) -> (r:
    GraphNodeData)
    ensures
        r.deep_view() == marked_node(base.deep_view(), n.deep_view()),
        final(diff).deep_view() == (DiffModel {
            added_types: if prior_of(base.deep_view(), n.deep_view().id) is None {
                old(diff).deep_view().added_types.push(n.name@)
            } else {
                old(diff).deep_view().added_types
            },
            added_fields: old(diff).deep_view().added_fields + reported_rows(
                base.deep_view(),
                n.deep_view(),
                true,
            ),
            changed_fields: old(diff).deep_view().changed_fields + reported_rows(
                base.deep_view(),
                n.deep_view(),
                false,
            ),
            ..old(diff).deep_view()
        }),
{
    let ghost d0 = diff.deep_view();
    let ghost m = n.deep_view();
    let ghost none = Seq::<Seq<char>>::empty();
    assert(d0.added_fields + none =~= d0.added_fields);
    assert(d0.changed_fields + none =~= d0.changed_fields);
    let mut n = n;
    match find_prior(base, n.id.as_str()) {
        None => {
            diff.added_types.push(n.name.clone());
            assert(diff.added_types.deep_view() =~= d0.added_types.push(m.name));
            n.is_overlay = true;
            n
        },
        Some(i) => {
            let prior = &base[i];
            let ghost p = prior.deep_view();
            let (flags, any) = touched_rows(prior, &n);
            if !any {
                return n;
            }
            match n.kind {
                NodeKind::Enum => {
                    let rows: Vec<EnumValue> = match n.values {
                        Some(v) => v,
                        None => Vec::new(),
                    };
                    assert(rows.deep_view() =~= or_empty(m.values));
                    let marked = mark_values(prior, n.name.as_str(), rows, &flags, diff);
                    proof {
                        let want = or_empty(m.values).map_values(
                            |v: ValueModel| marked_value(p, m, v),
                        );
                        assert forall|k: int| 0 <= k < want.len() implies #[trigger] want[k]
                            == marked.deep_view()[k] by {
                            assert(rows_of(m)[k] == or_empty(m.values)[k].name);
                        }
                        assert(marked.deep_view() =~= want);
                    }
                    n.values = Some(marked);
                    n
                },
                NodeKind::Union => {
                    if let Some(members) = &n.members {
                        push_new_rows(prior, n.name.as_str(), members, &mut diff.added_fields);
                    }
                    n
                },
                _ => {
                    let rows: Vec<GraphField> = match n.fields {
                        Some(v) => v,
                        None => Vec::new(),
                    };
                    assert(rows.deep_view() =~= or_empty(m.fields));
                    let marked = mark_fields(prior, n.name.as_str(), rows, &flags, diff);
                    proof {
                        let want = or_empty(m.fields).map_values(
                            |f: FieldModel| marked_field(p, m, f),
                        );
                        assert forall|k: int| 0 <= k < want.len() implies #[trigger] want[k]
                            == marked.deep_view()[k] by {
                            assert(rows_of(m)[k] == or_empty(m.fields)[k].name);
                        }
                        assert(marked.deep_view() =~= want);
                    }
                    n.fields = Some(marked);
                    n
                },
            }
        },
    }
}

fn find_removed(base: &Vec<GraphNodeData>, merged: &Vec<GraphNodeData>) -> (r: (
    Vec<String>,
    Vec<String>,
))
    ensures
        r.0.deep_view() == names_missing_from(merged.deep_view(), base.deep_view()),
        r.1.deep_view() == lost_rows(merged.deep_view(), base.deep_view()),
{
    let ghost all = base.deep_view();
    let ghost ms = merged.deep_view();
    let mut gone: Vec<String> = Vec::new();
    let mut rows: Vec<String> = Vec::new();
    let mut i: usize = 0;
    assert(all.take(0) =~= Seq::<NodeModel>::empty());
    assert(gone.deep_view() =~= Seq::<Seq<char>>::empty());
    assert(rows.deep_view() =~= Seq::<Seq<char>>::empty());
    while i < base.len()
        invariant
            i <= base@.len(),
            all == base.deep_view(),
            ms == merged.deep_view(),
            gone.deep_view() == names_missing_from(ms, all.take(i as int)),
            rows.deep_view() == lost_rows(ms, all.take(i as int)),
        decreases base@.len() - i,
    {
        assert(all.take(i as int + 1).drop_last() =~= all.take(i as int));
        assert(all[i as int] == base@[i as int].deep_view());
        match find_prior(merged, base[i].id.as_str()) {
            None => {
                let ghost before = gone.deep_view();
                gone.push(base[i].name.clone());
                assert(gone.deep_view() =~= before.push(all[i as int].name));
            },
            Some(j) => {
                let names = names_of_rows(&base[i]);
                push_new_rows(&merged[j], base[i].name.as_str(), &names, &mut rows);
            },
        }
        i = i + 1;
    }
    assert(all.take(i as int) =~= all);
    (gone, rows)
}

/// Marks everything the overlay contributed. Returns the merged graph with `is_overlay` set on its
/// new nodes, and on just the rows the overlay added to or restated on pre-existing nodes, plus a
/// summary.
///
/// Removals show up in the summary only: a row that is gone has nothing left to paint. Only nodes
/// that actually changed are touched.
#[verifier::rlimit(40)]
pub fn mark_overlay(base: &ParsedGraph, merged: ParsedGraph) -> (r: (ParsedGraph, OverlayDiff))
    ensures
        r.0.deep_view() == marked_graph(base.deep_view(), merged.deep_view()),
        r.1.deep_view() == diff_of(base.deep_view(), merged.deep_view()),
{
    let ghost bs = base.nodes.deep_view();
    let ghost all = merged.nodes.deep_view();
    let ghost want = all.map_values(|n: NodeModel| marked_node(bs, n));
    let mut diff = OverlayDiff::default();
    let (gone, lost) = find_removed(&base.nodes, &merged.nodes);
    diff.removed_types = gone;
    diff.removed_fields = lost;
    let ghost d0 = diff.deep_view();
    let mut out: Vec<GraphNodeData> = Vec::new();
    let nodes = merged.nodes;
    assert(all.take(0) =~= Seq::<NodeModel>::empty());
    assert(want.take(0) =~= Seq::<NodeModel>::empty());
    for n in it: nodes
        invariant
            it.seq() == nodes@,
            all == nodes.deep_view(),
            bs == base.nodes.deep_view(),
            want == all.map_values(|n: NodeModel| marked_node(bs, n)),
            out.deep_view() == want.take(it.index() as int),
            diff.deep_view() == (DiffModel {
                added_types: names_missing_from(bs, all.take(it.index() as int)),
                added_fields: all_reported(bs, all.take(it.index() as int), true),
                changed_fields: all_reported(bs, all.take(it.index() as int), false),
                ..d0
            }),
    {
        let ghost i = it.index() as int;
        let ghost before = out.deep_view();
        assert(all[i] == n.deep_view());
        assert(all.take(i + 1).drop_last() =~= all.take(i));
        let marked = mark_node(&base.nodes, n, &mut diff);
        out.push(marked);
        assert(out.deep_view() =~= before.push(want[i]));
        assert(want.take(i + 1) =~= before.push(want[i]));
    }
    assert(all.take(all.len() as int) =~= all);
    assert(want.take(want.len() as int) =~= want);
    let graph = ParsedGraph {
        nodes: out,
        edges: merged.edges,
        error: merged.error,
        warnings: merged.warnings,
        root_types: merged.root_types,
    };
    let diff = OverlayDiff {
        added_types: sort_texts(&diff.added_types),
        added_fields: sort_texts(&diff.added_fields),
        changed_fields: sort_texts(&diff.changed_fields),
        removed_types: sort_texts(&diff.removed_types),
        removed_fields: sort_texts(&diff.removed_fields),
    };
    (graph, diff)
}

// ── laws ───────────────────────────────────────────────────────────────────

/// A node that the base has and whose rows the overlay left alone comes back as it went in.
pub proof fn untouched_nodes_stay(base: GraphModel, merged: GraphModel, i: int)
    requires
        0 <= i < merged.nodes.len(),
        prior_of(base.nodes, merged.nodes[i].id) matches Some(p) && !any_touched(p, merged.nodes[i]),
    ensures
        marked_graph(base, merged).nodes[i] == merged.nodes[i],
{
}

/// Marking never touches edges, warnings, errors or roots, nor how many nodes there are.
pub proof fn marking_touches_nodes_only(base: GraphModel, merged: GraphModel)
    ensures
        marked_graph(base, merged).nodes.len() == merged.nodes.len(),
        marked_graph(base, merged).edges == merged.edges,
        marked_graph(base, merged).error == merged.error,
        marked_graph(base, merged).warnings == merged.warnings,
        marked_graph(base, merged).root_types == merged.root_types,
{
}

/// An overlay that restates what the schema has reports nothing and marks nothing: a graph compared
/// with itself comes back as it is, with an empty diff.
pub proof fn restating_reports_nothing(g: GraphModel)
    requires
        node_ids(g.nodes).no_duplicates(),
    ensures
        diff_of(g, g) == no_diff(),
        marked_graph(g, g) == g,
{
    let nodes = g.nodes;
    assert forall|i: int| 0 <= i < nodes.len() implies prior_of(nodes, (#[trigger] nodes[i]).id)
        == Some(nodes[i]) by {
        let ids = node_ids(nodes);
        assert(ids[i] == nodes[i].id);
        assert forall|j: int| i < j < ids.len() implies #[trigger] ids[j] != ids[i] by {}
        lemma_last_place_is(ids, nodes[i].id, i);
    }
    assert forall|i: int| 0 <= i < nodes.len() implies marked_node(nodes, #[trigger] nodes[i])
        == nodes[i] by {
        lemma_self_untouched(nodes[i]);
    }
    assert(marked_graph(g, g).nodes =~= nodes);
    lemma_self_diff(nodes, nodes.len());
    assert(nodes.take(nodes.len() as int) =~= nodes);
}

proof fn lemma_self_untouched(n: NodeModel)
    ensures
        !any_touched(n, n),
{
    if any_touched(n, n) {
        let i = choose|i: int| 0 <= i < rows_of(n).len() && touched(n, n, #[trigger] rows_of(n)[i]);
        assert(rows_of(n).contains(rows_of(n)[i]));
    }
}

proof fn lemma_no_new_rows(n: NodeModel, node: Seq<char>, names: Seq<Seq<char>>)
    requires
        forall|k: int| 0 <= k < names.len() ==> rows_of(n).contains(#[trigger] names[k]),
    ensures
        new_rows(n, node, names).len() == 0,
    decreases names.len(),
{
    if names.len() > 0 {
        let rest = names.drop_last();
        assert forall|k: int| 0 <= k < rest.len() implies rows_of(n).contains(#[trigger] rest[k]) by {
            assert(rest[k] == names[k]);
        }
        lemma_no_new_rows(n, node, rest);
        assert(names.last() == names[names.len() - 1]);
    }
}

proof fn lemma_self_diff(nodes: Seq<NodeModel>, k: nat)
    requires
        k <= nodes.len(),
        forall|i: int|
            0 <= i < nodes.len() ==> prior_of(nodes, (#[trigger] nodes[i]).id) == Some(nodes[i]),
    ensures
        names_missing_from(nodes, nodes.take(k as int)).len() == 0,
        all_reported(nodes, nodes.take(k as int), true).len() == 0,
        all_reported(nodes, nodes.take(k as int), false).len() == 0,
        lost_rows(nodes, nodes.take(k as int)).len() == 0,
    decreases k,
{
    if k > 0 {
        lemma_self_diff(nodes, (k - 1) as nat);
        let t = nodes.take(k as int);
        assert(t.drop_last() =~= nodes.take(k - 1));
        assert(t.last() == nodes[k - 1]);
        lemma_self_untouched(nodes[k - 1]);
        let rows = rows_of(nodes[k - 1]);
        assert forall|i: int| 0 <= i < rows.len() implies rows.contains(#[trigger] rows[i]) by {}
        lemma_no_new_rows(nodes[k - 1], nodes[k - 1].name, rows);
    }
}

} // verus!
