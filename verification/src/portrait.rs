//! What the graph of a document shows of its definitions, told of the definitions and the graph.

use vstd::prelude::*;

use crate::declarations::{listed_roots, unions_listing, with_membership};
use crate::document::{
    base_name_of, is_nullable, rendered, DefinitionModel, DirectiveModel, FieldDeclModel,
    InputModel, KindModel, TypeDeclModel, TypeModel, ValueDeclModel,
};
use crate::extensions::{
    extended, field_names, merge_fields, merge_values, node_names, or_empty, value_names,
};
use crate::growth::{
    extensions_keep_members, has_field, has_member, has_value, is_named_last, keeps_members,
    keeps_rows, lemma_field_there, lemma_repeated_fields, lemma_taken_fields, lemma_taken_values,
};
use crate::removals::removed;
use crate::sdl::{
    deprecation_of, document_graph, field_of, fields_of, input_field_of, input_fields_of, node_of,
    nodes_of, reason_entry, reason_of, value_of, values_of,
};
use crate::text::{sorted, sorted_sorts};
use crate::types::{
    no_roots, FieldModel, NodeKind, NodeModel, OptionsModel, RemovalModel, ValueModel,
};
use crate::until::until_of;

verus! {

// ── rows ───────────────────────────────────────────────────────────────────

/// Types are written as in SDL: the name, or the item in square brackets, with an exclamation mark
/// behind what cannot be null. Under all lists is the named type.
pub proof fn types_are_written_out(name: Seq<char>, item: TypeModel)
    ensures
        rendered(TypeModel::Named { name, nullable: true }) == name,
        rendered(TypeModel::Named { name, nullable: false }) == name + "!"@,
        rendered(TypeModel::List { item: Box::new(item), nullable: true }) == "["@ + rendered(item)
            + "]"@,
        rendered(TypeModel::List { item: Box::new(item), nullable: false }) == "["@ + rendered(item)
            + "]"@ + "!"@,
        forall|nullable: bool| #[trigger]
            base_name_of(TypeModel::Named { name, nullable }) == name,
        forall|nullable: bool| #[trigger]
            base_name_of(TypeModel::List { item: Box::new(item), nullable }) == base_name_of(item),
        forall|nullable: bool| #[trigger]
            is_nullable(TypeModel::Named { name, nullable }) == nullable,
        forall|nullable: bool| #[trigger]
            is_nullable(TypeModel::List { item: Box::new(item), nullable }) == nullable,
{
}

/// The first directive named `deprecated` stands at `d`.
pub open spec fn is_deprecation(directives: Seq<DirectiveModel>, d: int) -> bool {
    &&& 0 <= d < directives.len()
    &&& directives[d].name == "deprecated"@
    &&& forall|e: int| 0 <= e < d ==> (#[trigger] directives[e]).name != "deprecated"@
}

/// The first argument named `reason` stands at `a`.
pub open spec fn is_reason(arguments: Seq<(Seq<char>, Option<Seq<char>>)>, a: int) -> bool {
    &&& 0 <= a < arguments.len()
    &&& arguments[a].0 == "reason"@
    &&& forall|e: int| 0 <= e < a ==> (#[trigger] arguments[e]).0 != "reason"@
}

/// A row tells whether it is deprecated, and why: as its first `@deprecated` directive says, with the
/// directive's first `reason`.
pub open spec fn tells_deprecation(
    directives: Seq<DirectiveModel>,
    is_deprecated: bool,
    reason: Option<Seq<char>>,
) -> bool {
    &&& is_deprecated == exists|d: int|
        0 <= d < directives.len() && (#[trigger] directives[d]).name == "deprecated"@
    &&& !is_deprecated ==> reason is None
    &&& forall|d: int, a: int| #[trigger]
        is_deprecation(directives, d) && #[trigger] is_reason(directives[d].arguments, a) ==> reason
            == directives[d].arguments[a].1
    &&& forall|d: int| #[trigger]
        is_deprecation(directives, d) && (forall|a: int|
            0 <= a < directives[d].arguments.len() ==> (#[trigger] directives[d].arguments[a]).0
                != "reason"@) ==> reason is None
}

proof fn lemma_reason(arguments: Seq<(Seq<char>, Option<Seq<char>>)>)
    ensures
        reason_entry(arguments) is None <==> forall|a: int|
            0 <= a < arguments.len() ==> (#[trigger] arguments[a]).0 != "reason"@,
        forall|a: int| #[trigger]
            is_reason(arguments, a) ==> reason_entry(arguments) == Some(arguments[a].1),
    decreases arguments.len(),
{
    if arguments.len() > 0 {
        let less = arguments.drop_last();
        lemma_reason(less);
        let last = arguments.len() - 1;
        assert(forall|a: int| 0 <= a < less.len() ==> (#[trigger] less[a]) == arguments[a]);
        if reason_entry(arguments) is None {
            assert forall|a: int| 0 <= a < arguments.len() implies (#[trigger] arguments[a]).0
                != "reason"@ by {
                if a < last {
                    assert(less[a].0 != "reason"@);
                }
            }
        } else if reason_entry(less) is None {
            assert(arguments[last].0 == "reason"@);
        } else {
            let a = choose|a: int| 0 <= a < less.len() && (#[trigger] less[a]).0 == "reason"@;
            assert(arguments[a].0 == "reason"@);
        }
        assert forall|a: int| #[trigger] is_reason(arguments, a) implies reason_entry(arguments)
            == Some(arguments[a].1) by {
            if a < last {
                assert(is_reason(less, a));
            } else {
                assert forall|e: int| 0 <= e < less.len() implies (#[trigger] less[e]).0
                    != "reason"@ by {
                    assert(arguments[e].0 != "reason"@);
                }
            }
        }
    }
}

proof fn lemma_deprecation(directives: Seq<DirectiveModel>)
    ensures
        tells_deprecation(directives, deprecation_of(directives) is Some, reason_of(directives)),
        forall|d: int| #[trigger]
            is_deprecation(directives, d) ==> deprecation_of(directives) == (match reason_entry(
                directives[d].arguments,
            ) {
                Some(v) => Some(v),
                None => Some(None),
            }),
    decreases directives.len(),
{
    let told = deprecation_of(directives);
    if directives.len() > 0 {
        let less = directives.drop_last();
        lemma_deprecation(less);
        let last = directives.len() - 1;
        assert(forall|d: int| 0 <= d < less.len() ==> (#[trigger] less[d]) == directives[d]);
        if exists|d: int| 0 <= d < less.len() && (#[trigger] less[d]).name == "deprecated"@ {
            let d = choose|d: int| 0 <= d < less.len() && (#[trigger] less[d]).name == "deprecated"@;
            assert(directives[d].name == "deprecated"@);
        } else if told is Some {
            assert(directives[last].name == "deprecated"@);
        }
        if exists|d: int|
            0 <= d < directives.len() && (#[trigger] directives[d]).name == "deprecated"@ {
            let d = choose|d: int|
                0 <= d < directives.len() && (#[trigger] directives[d]).name == "deprecated"@;
            if d < last {
                assert(less[d].name == "deprecated"@);
            }
            assert(told is Some);
        }
        assert forall|d: int| #[trigger] is_deprecation(directives, d) implies told == (
        match reason_entry(directives[d].arguments) {
            Some(v) => Some(v),
            None => Some(None),
        }) by {
            if d < last {
                assert(is_deprecation(less, d));
            } else {
                assert forall|e: int| 0 <= e < less.len() implies (#[trigger] less[e]).name
                    != "deprecated"@ by {
                    assert(directives[e].name != "deprecated"@);
                }
                assert(deprecation_of(less) is None);
            }
        }
    }
    assert forall|d: int, a: int| #[trigger]
        is_deprecation(directives, d) && #[trigger] is_reason(directives[d].arguments, a) implies reason_of(
        directives,
    ) == directives[d].arguments[a].1 by {
        lemma_reason(directives[d].arguments);
    }
    assert forall|d: int| #[trigger]
        is_deprecation(directives, d) && (forall|a: int|
            0 <= a < directives[d].arguments.len() ==> (#[trigger] directives[d].arguments[a]).0
                != "reason"@) implies reason_of(directives) is None by {
        lemma_reason(directives[d].arguments);
    }
}

/// The row shows the field: its name, its type as written, its arguments, its description and its
/// deprecation.
pub open spec fn shows_field(f: FieldDeclModel, r: FieldModel) -> bool {
    &&& r.name == f.name
    &&& r.type_ == rendered(f.ty)
    &&& r.base_type == base_name_of(f.ty)
    &&& r.nullable == is_nullable(f.ty)
    &&& !r.is_relay_connection
    &&& r.args is Some
    &&& r.args->0.len() == f.arguments.len()
    &&& forall|a: int|
        0 <= a < f.arguments.len() ==> (#[trigger] r.args->0[a]).name == f.arguments[a].name
            && r.args->0[a].type_ == rendered(f.arguments[a].ty) && r.args->0[a].base_type
            == base_name_of(f.arguments[a].ty)
    &&& r.description == f.description
    &&& tells_deprecation(f.directives, r.is_deprecated, r.deprecation_reason)
    &&& r.until == until_of(r.deprecation_reason)
    &&& !r.is_overlay
}

/// The row shows the field of an input type, which takes no arguments.
pub open spec fn shows_input(f: InputModel, r: FieldModel) -> bool {
    &&& r.name == f.name
    &&& r.type_ == rendered(f.ty)
    &&& r.base_type == base_name_of(f.ty)
    &&& r.nullable == is_nullable(f.ty)
    &&& !r.is_relay_connection
    &&& r.args is None
    &&& r.description == f.description
    &&& tells_deprecation(f.directives, r.is_deprecated, r.deprecation_reason)
    &&& r.until == until_of(r.deprecation_reason)
    &&& !r.is_overlay
}

/// The row shows the enum value.
pub open spec fn shows_value(v: ValueDeclModel, r: ValueModel) -> bool {
    &&& r.name == v.name
    &&& r.description == v.description
    &&& tells_deprecation(v.directives, r.is_deprecated, r.deprecation_reason)
    &&& r.until == until_of(r.deprecation_reason)
    &&& !r.is_overlay
}

pub(crate) proof fn lemma_shown_field(f: FieldDeclModel)
    ensures
        shows_field(f, field_of(f)),
{
    lemma_deprecation(f.directives);
}

pub(crate) proof fn lemma_shown_input(f: InputModel)
    ensures
        shows_input(f, input_field_of(f)),
{
    lemma_deprecation(f.directives);
}

pub(crate) proof fn lemma_shown_value(v: ValueDeclModel)
    ensures
        shows_value(v, value_of(v)),
{
    lemma_deprecation(v.directives);
}

// ── nodes ──────────────────────────────────────────────────────────────────

/// The node stands for the definition: same name, kind and description, and first of all its own
/// members, row by row, in their order. With `exactly` set, each row shows what was declared; an
/// overriding extension may have put another in its place otherwise.
pub open spec fn stands_for(n: NodeModel, t: TypeDeclModel, exactly: bool) -> bool {
    &&& n.id == t.name
    &&& n.name == t.name
    &&& n.description == t.description
    &&& match t.kind {
        KindModel::Scalar => n.kind == NodeKind::Scalar,
        KindModel::Object { implements, fields } => n.kind == NodeKind::Object && has_fields(
            n,
            fields,
            exactly,
        ) && has_interfaces(n, implements),
        KindModel::Interface { implements, fields } => n.kind == NodeKind::Interface && has_fields(
            n,
            fields,
            exactly,
        ) && has_interfaces(n, implements),
        KindModel::Input { fields } => {
            &&& n.kind == NodeKind::Input
            &&& n.fields is Some
            &&& fields.len() <= n.fields->0.len()
            &&& forall|x: int|
                0 <= x < fields.len() ==> (#[trigger] n.fields->0[x]).name == fields[x].name && (
                exactly ==> shows_input(fields[x], n.fields->0[x]))
        },
        KindModel::Enum { values } => {
            &&& n.kind == NodeKind::Enum
            &&& n.values is Some
            &&& values.len() <= n.values->0.len()
            &&& forall|x: int|
                0 <= x < values.len() ==> (#[trigger] n.values->0[x]).name == values[x].name && (
                exactly ==> shows_value(values[x], n.values->0[x]))
        },
        KindModel::Union { members } => {
            &&& n.kind == NodeKind::Union
            &&& n.members is Some
            &&& members.len() <= n.members->0.len()
            &&& forall|x: int|
                0 <= x < members.len() ==> #[trigger] n.members->0[x] == members[x]
        },
    }
}

/// The node's first rows are these fields.
pub open spec fn has_fields(n: NodeModel, fields: Seq<FieldDeclModel>, exactly: bool) -> bool {
    &&& n.fields is Some
    &&& fields.len() <= n.fields->0.len()
    &&& forall|x: int|
        0 <= x < fields.len() ==> (#[trigger] n.fields->0[x]).name == fields[x].name && (exactly
            ==> shows_field(fields[x], n.fields->0[x]))
}

/// The node's first interfaces are these.
pub open spec fn has_interfaces(n: NodeModel, implements: Seq<Seq<char>>) -> bool {
    &&& n.interfaces is Some
    &&& implements.len() <= n.interfaces->0.len()
    &&& forall|x: int|
        0 <= x < implements.len() ==> #[trigger] n.interfaces->0[x] == implements[x]
}

proof fn lemma_node_of(t: TypeDeclModel)
    ensures
        stands_for(node_of(t), t, true),
{
    let n = node_of(t);
    match t.kind {
        KindModel::Object { implements, fields } => {
            assert forall|x: int| 0 <= x < fields.len() implies shows_field(
                fields[x],
                #[trigger] n.fields->0[x],
            ) by {
                lemma_shown_field(fields[x]);
            }
        },
        KindModel::Interface { implements, fields } => {
            assert forall|x: int| 0 <= x < fields.len() implies shows_field(
                fields[x],
                #[trigger] n.fields->0[x],
            ) by {
                lemma_shown_field(fields[x]);
            }
        },
        KindModel::Input { fields } => {
            assert forall|x: int| 0 <= x < fields.len() implies shows_input(
                fields[x],
                #[trigger] n.fields->0[x],
            ) by {
                lemma_shown_input(fields[x]);
            }
        },
        KindModel::Enum { values } => {
            assert forall|x: int| 0 <= x < values.len() implies shows_value(
                values[x],
                #[trigger] n.values->0[x],
            ) by {
                lemma_shown_value(values[x]);
            }
        },
        _ => {},
    }
}

proof fn lemma_built(doc: Seq<DefinitionModel>, k: int) -> (i: int)
    requires
        0 <= k < doc.len(),
        doc[k] matches DefinitionModel::Type(t) && !t.extend,
    ensures
        0 <= i < nodes_of(doc).len(),
        nodes_of(doc)[i] == node_of(doc[k]->Type_0),
    decreases doc.len(),
{
    let less = doc.drop_last();
    if k < less.len() {
        assert(less[k] == doc[k]);
        lemma_built(less, k)
    } else {
        nodes_of(less).len() as int
    }
}

proof fn lemma_built_from(doc: Seq<DefinitionModel>, i: int) -> (k: int)
    requires
        0 <= i < nodes_of(doc).len(),
    ensures
        0 <= k < doc.len(),
        doc[k] matches DefinitionModel::Type(t) && !t.extend && nodes_of(doc)[i] == node_of(t),
    decreases doc.len(),
{
    if doc.len() == 0 {
        0
    } else {
        let less = doc.drop_last();
        if i < nodes_of(less).len() {
            let k = lemma_built_from(less, i);
            assert(less[k] == doc[k]);
            k
        } else {
            doc.len() - 1
        }
    }
}

/// What stands for a definition still does after its members were kept.
proof fn lemma_still_stands(a: NodeModel, b: NodeModel, t: TypeDeclModel, exactly: bool)
    requires
        stands_for(a, t, true),
        b.id == a.id,
        b.name == a.name,
        b.kind == a.kind,
        b.description == a.description,
        keeps_members(a, b),
        exactly ==> keeps_rows(a, b),
    ensures
        stands_for(b, t, exactly),
{
    match t.kind {
        KindModel::Object { implements, fields } => {
            assert forall|x: int| 0 <= x < fields.len() implies (#[trigger] b.fields->0[x]).name
                == fields[x].name && (exactly ==> shows_field(fields[x], b.fields->0[x])) by {
                assert(a.fields->0[x].name == fields[x].name);
            }
            assert forall|x: int| 0 <= x < implements.len() implies #[trigger] b.interfaces->0[x]
                == implements[x] by {
                assert(a.interfaces->0[x] == implements[x]);
            }
        },
        KindModel::Interface { implements, fields } => {
            assert forall|x: int| 0 <= x < fields.len() implies (#[trigger] b.fields->0[x]).name
                == fields[x].name && (exactly ==> shows_field(fields[x], b.fields->0[x])) by {
                assert(a.fields->0[x].name == fields[x].name);
            }
            assert forall|x: int| 0 <= x < implements.len() implies #[trigger] b.interfaces->0[x]
                == implements[x] by {
                assert(a.interfaces->0[x] == implements[x]);
            }
        },
        KindModel::Input { fields } => {
            assert forall|x: int| 0 <= x < fields.len() implies (#[trigger] b.fields->0[x]).name
                == fields[x].name && (exactly ==> shows_input(fields[x], b.fields->0[x])) by {
                assert(a.fields->0[x].name == fields[x].name);
            }
        },
        KindModel::Enum { values } => {
            assert forall|x: int| 0 <= x < values.len() implies (#[trigger] b.values->0[x]).name
                == values[x].name && (exactly ==> shows_value(values[x], b.values->0[x])) by {
                assert(a.values->0[x].name == values[x].name);
            }
        },
        KindModel::Union { members } => {
            assert forall|x: int| 0 <= x < members.len() implies #[trigger] b.members->0[x]
                == members[x] by {
                assert(a.members->0[x] == members[x]);
            }
        },
        KindModel::Scalar => {},
    }
}

/// `t` is a type that the document defines.
pub open spec fn defines(doc: Seq<DefinitionModel>, t: TypeDeclModel) -> bool {
    exists|k: int|
        0 <= k < doc.len() && #[trigger] doc[k] == DefinitionModel::Type(t) && !t.extend
}

/// The node stands for a type that the document defines.
pub open spec fn is_defined(n: NodeModel, doc: Seq<DefinitionModel>, exactly: bool) -> bool {
    exists|t: TypeDeclModel| #[trigger] defines(doc, t) && stands_for(n, t, exactly)
}

/// Every type that a document defines is a node of its graph, and every node stands for a type that it
/// defines: with the name, the kind and the description of the definition, and with its fields,
/// values, members and interfaces. Here nothing is removed and no boilerplate hidden.
pub proof fn definitions_are_nodes(doc: Seq<DefinitionModel>, options: OptionsModel)
    requires
        options.remove.len() == 0,
        !options.hide_relay_boilerplate,
    ensures
        forall|t: TypeDeclModel| #[trigger]
            defines(doc, t) ==> exists|i: int|
                0 <= i < document_graph(doc, options).nodes.len() && stands_for(
                    #[trigger] document_graph(doc, options).nodes[i],
                    t,
                    !options.override_duplicates,
                ),
        forall|i: int|
            0 <= i < document_graph(doc, options).nodes.len() ==> is_defined(
                #[trigger] document_graph(doc, options).nodes[i],
                doc,
                !options.override_duplicates,
            ),
        document_graph(doc, options).error is None,
{
    let nodes = document_graph(doc, options).nodes;
    let ov = options.override_duplicates;
    let built = nodes_of(doc);
    let grown = extended(doc, built, ov).0;
    lemma_grown_len(doc, built, ov);
    assert(nodes == with_membership(grown));
    assert forall|t: TypeDeclModel| #[trigger] defines(doc, t) implies exists|i: int|
        0 <= i < nodes.len() && stands_for(#[trigger] nodes[i], t, !ov) by {
        let k = choose|k: int|
            0 <= k < doc.len() && #[trigger] doc[k] == DefinitionModel::Type(t) && !t.extend;
        let i = lemma_built(doc, k);
        lemma_shown_stands(doc, ov, i, t);
        assert(stands_for(nodes[i], t, !ov));
    }
    assert forall|i: int| 0 <= i < nodes.len() implies is_defined(#[trigger] nodes[i], doc, !ov) by {
        let k = lemma_built_from(doc, i);
        let t = doc[k]->Type_0;
        lemma_shown_stands(doc, ov, i, t);
        assert(doc[k] == DefinitionModel::Type(t));
        assert(defines(doc, t) && stands_for(nodes[i], t, !ov));
    }
}

proof fn lemma_grown_len(doc: Seq<DefinitionModel>, nodes: Seq<NodeModel>, ov: bool)
    ensures
        extended(doc, nodes, ov).0.len() == nodes.len(),
    decreases doc.len(),
{
    if doc.len() > 0 {
        lemma_grown_len(doc.drop_last(), nodes, ov);
        if let DefinitionModel::Type(t) = doc.last() {
            let before = extended(doc.drop_last(), nodes, ov).0;
            crate::lists::lemma_last_place(node_names(before), t.name);
        }
    }
}

proof fn lemma_shown_stands(doc: Seq<DefinitionModel>, ov: bool, i: int, t: TypeDeclModel)
    requires
        0 <= i < nodes_of(doc).len(),
        nodes_of(doc)[i] == node_of(t),
    ensures
        0 <= i < with_membership(extended(doc, nodes_of(doc), ov).0).len(),
        stands_for(with_membership(extended(doc, nodes_of(doc), ov).0)[i], t, !ov),
{
    let built = nodes_of(doc);
    let grown = extended(doc, built, ov).0;
    lemma_node_of(t);
    lemma_grown_len(doc, built, ov);
    extensions_keep_members(doc, built, ov, i);
    crate::sdl::extensions_keep_nodes(doc, built, ov, i);
    let n = with_membership(grown)[i];
    assert(keeps_members(built[i], n));
    lemma_still_stands(built[i], n, t, !ov);
}

// ── rows that extensions bring ─────────────────────────────────────────────

/// Fields with names of their own.
pub open spec fn are_named_apart(fields: Seq<FieldDeclModel>) -> bool {
    forall|a: int, b: int|
        0 <= a < b < fields.len() ==> (#[trigger] fields[a]).name != (#[trigger] fields[b]).name
}

/// A field that the last definition of a document adds to an object or an interface is shown as it was
/// declared: where the type had no such field, or where extensions may override it.
pub proof fn extending_fields_are_shown(
    doc: Seq<DefinitionModel>,
    nodes: Seq<NodeModel>,
    override_duplicates: bool,
    i: int,
    t: TypeDeclModel,
    x: int,
)
    requires
        doc.len() > 0,
        doc.last() == DefinitionModel::Type(t),
        t.extend,
        is_named_last(nodes, t.name, i),
        (t.kind is Object && nodes[i].kind == NodeKind::Object) || (t.kind is Interface
            && nodes[i].kind == NodeKind::Interface),
        are_named_apart(declared_rows(t)),
        0 <= x < declared_rows(t).len(),
        override_duplicates || !has_field(
            extended(doc.drop_last(), nodes, override_duplicates).0[i],
            declared_rows(t)[x].name,
        ),
    ensures
        exists|r: int|
            0 <= r < extended(doc, nodes, override_duplicates).0[i].fields->0.len() && shows_field(
                declared_rows(t)[x],
                #[trigger] extended(doc, nodes, override_duplicates).0[i].fields->0[r],
            ),
        extended(doc, nodes, override_duplicates).0[i].fields is Some,
{
    let ov = override_duplicates;
    let less = doc.drop_last();
    let (before, warnings) = extended(less, nodes, ov);
    let fields = declared_rows(t);
    let new = fields_of(fields);
    extensions_keep_members(less, nodes, ov, i);
    lemma_target(less, nodes, ov, t.name, i);
    let n = before[i];
    let have = or_empty(n.fields);
    assert(extended(doc, nodes, ov).0[i].fields == Some(merge_fields(have, new, ov).0));
    assert forall|a: int, b: int| 0 <= a < b < new.len() implies (#[trigger] new[a]).name != (
    #[trigger] new[b]).name by {
        assert(fields[a].name != fields[b].name);
    }
    if !ov && field_names(have).contains(new[x].name) {
        lemma_field_there(n, new[x].name);
    }
    lemma_taken_fields(have, new, ov, x);
    let rows = merge_fields(have, new, ov).0;
    let r = choose|r: int| 0 <= r < rows.len() && rows[r] == new[x];
    lemma_shown_field(fields[x]);
    assert(shows_field(fields[x], extended(doc, nodes, ov).0[i].fields->0[r]));
}

/// The fields that the definition of an object or an interface declares.
pub open spec fn declared_rows(t: TypeDeclModel) -> Seq<FieldDeclModel> {
    match t.kind {
        KindModel::Object { implements, fields } => fields,
        KindModel::Interface { implements, fields } => fields,
        _ => Seq::empty(),
    }
}

/// The same of the fields of an input type.
pub proof fn extending_inputs_are_shown(
    doc: Seq<DefinitionModel>,
    nodes: Seq<NodeModel>,
    override_duplicates: bool,
    i: int,
    t: TypeDeclModel,
    fields: Seq<InputModel>,
    x: int,
)
    requires
        doc.len() > 0,
        doc.last() == DefinitionModel::Type(t),
        t.extend,
        is_named_last(nodes, t.name, i),
        t.kind == (KindModel::Input { fields }),
        nodes[i].kind == NodeKind::Input,
        forall|a: int, b: int|
            0 <= a < b < fields.len() ==> (#[trigger] fields[a]).name != (#[trigger] fields[b]).name,
        0 <= x < fields.len(),
        override_duplicates || !has_field(
            extended(doc.drop_last(), nodes, override_duplicates).0[i],
            fields[x].name,
        ),
    ensures
        exists|r: int|
            0 <= r < extended(doc, nodes, override_duplicates).0[i].fields->0.len() && shows_input(
                fields[x],
                #[trigger] extended(doc, nodes, override_duplicates).0[i].fields->0[r],
            ),
        extended(doc, nodes, override_duplicates).0[i].fields is Some,
{
    let ov = override_duplicates;
    let less = doc.drop_last();
    let (before, warnings) = extended(less, nodes, ov);
    let new = input_fields_of(fields);
    extensions_keep_members(less, nodes, ov, i);
    lemma_target(less, nodes, ov, t.name, i);
    let n = before[i];
    let have = or_empty(n.fields);
    assert(extended(doc, nodes, ov).0[i].fields == Some(merge_fields(have, new, ov).0));
    assert forall|a: int, b: int| 0 <= a < b < new.len() implies (#[trigger] new[a]).name != (
    #[trigger] new[b]).name by {
        assert(fields[a].name != fields[b].name);
    }
    if !ov && field_names(have).contains(new[x].name) {
        lemma_field_there(n, new[x].name);
    }
    lemma_taken_fields(have, new, ov, x);
    let rows = merge_fields(have, new, ov).0;
    let r = choose|r: int| 0 <= r < rows.len() && rows[r] == new[x];
    lemma_shown_input(fields[x]);
    assert(shows_input(fields[x], extended(doc, nodes, ov).0[i].fields->0[r]));
}

/// The same of the values of an enum.
pub proof fn extending_values_are_shown(
    doc: Seq<DefinitionModel>,
    nodes: Seq<NodeModel>,
    override_duplicates: bool,
    i: int,
    t: TypeDeclModel,
    values: Seq<ValueDeclModel>,
    x: int,
)
    requires
        doc.len() > 0,
        doc.last() == DefinitionModel::Type(t),
        t.extend,
        is_named_last(nodes, t.name, i),
        t.kind == (KindModel::Enum { values }),
        nodes[i].kind == NodeKind::Enum,
        forall|a: int, b: int|
            0 <= a < b < values.len() ==> (#[trigger] values[a]).name != (#[trigger] values[b]).name,
        0 <= x < values.len(),
        override_duplicates || !has_value(
            extended(doc.drop_last(), nodes, override_duplicates).0[i],
            values[x].name,
        ),
    ensures
        exists|r: int|
            0 <= r < extended(doc, nodes, override_duplicates).0[i].values->0.len() && shows_value(
                values[x],
                #[trigger] extended(doc, nodes, override_duplicates).0[i].values->0[r],
            ),
        extended(doc, nodes, override_duplicates).0[i].values is Some,
{
    let ov = override_duplicates;
    let less = doc.drop_last();
    let (before, warnings) = extended(less, nodes, ov);
    let new = values_of(values);
    extensions_keep_members(less, nodes, ov, i);
    lemma_target(less, nodes, ov, t.name, i);
    let n = before[i];
    let have = or_empty(n.values);
    assert(extended(doc, nodes, ov).0[i].values == Some(merge_values(have, new, ov).0));
    assert forall|a: int, b: int| 0 <= a < b < new.len() implies (#[trigger] new[a]).name != (
    #[trigger] new[b]).name by {
        assert(values[a].name != values[b].name);
    }
    if !ov && value_names(have).contains(new[x].name) {
        let names = value_names(have);
        let r = choose|r: int| 0 <= r < names.len() && names[r] == new[x].name;
        assert(n.values->0[r].name == values[x].name);
    }
    lemma_taken_values(have, new, ov, x);
    let rows = merge_values(have, new, ov).0;
    let r = choose|r: int| 0 <= r < rows.len() && rows[r] == new[x];
    lemma_shown_value(values[x]);
    assert(shows_value(values[x], extended(doc, nodes, ov).0[i].values->0[r]));
}

/// Repeating a field of an object or an interface is warned of exactly where it may not override: the
/// extension then raises a warning, and none where all its fields are new.
pub proof fn repeated_fields_are_warned_of(
    doc: Seq<DefinitionModel>,
    nodes: Seq<NodeModel>,
    override_duplicates: bool,
    i: int,
    t: TypeDeclModel,
)
    requires
        doc.len() > 0,
        doc.last() == DefinitionModel::Type(t),
        t.extend,
        is_named_last(nodes, t.name, i),
        (t.kind is Object && nodes[i].kind == NodeKind::Object) || (t.kind is Interface
            && nodes[i].kind == NodeKind::Interface),
        are_named_apart(declared_rows(t)),
    ensures
        ({
            let before = extended(doc.drop_last(), nodes, override_duplicates);
            let after = extended(doc, nodes, override_duplicates);
            (after.1.len() > before.1.len()) <==> !override_duplicates && exists|x: int|
                0 <= x < declared_rows(t).len() && has_field(
                    before.0[i],
                    (#[trigger] declared_rows(t)[x]).name,
                )
        }),
{
    let ov = override_duplicates;
    let less = doc.drop_last();
    let (before, warnings) = extended(less, nodes, ov);
    let fields = declared_rows(t);
    let new = fields_of(fields);
    extensions_keep_members(less, nodes, ov, i);
    lemma_target(less, nodes, ov, t.name, i);
    let n = before[i];
    let have = or_empty(n.fields);
    assert forall|a: int, b: int| 0 <= a < b < new.len() implies (#[trigger] new[a]).name != (
    #[trigger] new[b]).name by {
        assert(fields[a].name != fields[b].name);
    }
    lemma_repeated_fields(have, new, ov);
    assert(extended(doc, nodes, ov).1.len() == warnings.len() + merge_fields(have, new, ov).1.len());
    if exists|x: int| 0 <= x < new.len() && field_names(have).contains((#[trigger] new[x]).name) {
        let x = choose|x: int|
            0 <= x < new.len() && field_names(have).contains((#[trigger] new[x]).name);
        lemma_field_there(n, new[x].name);
        assert(has_field(n, fields[x].name));
    }
    if exists|x: int| 0 <= x < fields.len() && has_field(n, (#[trigger] fields[x]).name) {
        let x = choose|x: int| 0 <= x < fields.len() && has_field(n, (#[trigger] fields[x]).name);
        let r = choose|r: int|
            0 <= r < n.fields->0.len() && (#[trigger] n.fields->0[r]).name == fields[x].name;
        assert(field_names(have)[r] == fields[x].name);
        assert(field_names(have).contains(new[x].name));
    }
}

/// The last node of a name stays the last one of that name, and the target of extensions.
proof fn lemma_target(
    doc: Seq<DefinitionModel>,
    nodes: Seq<NodeModel>,
    ov: bool,
    name: Seq<char>,
    i: int,
)
    requires
        is_named_last(nodes, name, i),
    ensures
        extended(doc, nodes, ov).0.len() == nodes.len(),
        crate::lists::last_place(node_names(extended(doc, nodes, ov).0), name) == i,
{
    let before = extended(doc, nodes, ov).0;
    extensions_keep_members(doc, nodes, ov, i);
    let names = node_names(before);
    assert(names[i] == name);
    assert forall|j: int| i < j < names.len() implies #[trigger] names[j] != name by {
        extensions_keep_members(doc, nodes, ov, j);
        assert(nodes[j].name != name);
    }
    crate::lists::lemma_last_place_is(names, name, i);
}

/// An extension that cannot be applied changes nothing and is warned of: one of a type that is not
/// there, and one of another kind than its type.
pub proof fn extensions_that_do_not_fit_are_warned_of(
    doc: Seq<DefinitionModel>,
    nodes: Seq<NodeModel>,
    override_duplicates: bool,
    t: TypeDeclModel,
    i: int,
)
    requires
        doc.len() > 0,
        doc.last() == DefinitionModel::Type(t),
        t.extend,
        (forall|j: int| 0 <= j < nodes.len() ==> (#[trigger] nodes[j]).name != t.name) || (
        is_named_last(nodes, t.name, i) && !is_of_kind(t.kind, nodes[i].kind)),
    ensures
        extended(doc, nodes, override_duplicates).0 == extended(
            doc.drop_last(),
            nodes,
            override_duplicates,
        ).0,
        extended(doc, nodes, override_duplicates).1.len() == extended(
            doc.drop_last(),
            nodes,
            override_duplicates,
        ).1.len() + 1,
        extended(doc, nodes, override_duplicates).1.drop_last() == extended(
            doc.drop_last(),
            nodes,
            override_duplicates,
        ).1,
{
    let ov = override_duplicates;
    let less = doc.drop_last();
    let (before, warnings) = extended(less, nodes, ov);
    let all = extended(doc, nodes, ov).1;
    lemma_grown_len(less, nodes, ov);
    if forall|j: int| 0 <= j < nodes.len() ==> (#[trigger] nodes[j]).name != t.name {
        let names = node_names(before);
        assert forall|j: int| -1 < j < names.len() implies #[trigger] names[j] != t.name by {
            extensions_keep_members(less, nodes, ov, j);
            assert(nodes[j].name != t.name);
        }
        crate::lists::lemma_last_place_is(names, t.name, -1);
    } else {
        lemma_target(less, nodes, ov, t.name, i);
        extensions_keep_members(less, nodes, ov, i);
    }
    assert(all.drop_last() =~= warnings);
}

/// The definition makes a node of that kind.
pub open spec fn is_of_kind(k: KindModel, kind: NodeKind) -> bool {
    match kind {
        NodeKind::Object => k is Object,
        NodeKind::Interface => k is Interface,
        NodeKind::Union => k is Union,
        NodeKind::Enum => k is Enum,
        NodeKind::Scalar => k is Scalar,
        NodeKind::Input => k is Input,
    }
}

// ── roots ──────────────────────────────────────────────────────────────────

/// The roots of a graph are those that its `schema` blocks list, the last one of each sort. `k` is the
/// last block that lists a query type, and so on.
pub proof fn listed_roots_are_roots(doc: Seq<DefinitionModel>, options: OptionsModel, k: int)
    requires
        0 <= k < doc.len(),
        doc[k] is Schema,
    ensures
        doc[k]->query is Some && (forall|j: int|
            k < j < doc.len() && (#[trigger] doc[j]) is Schema ==> doc[j]->query is None)
            ==> document_graph(doc, options).root_types.query == doc[k]->query,
        doc[k]->mutation is Some && (forall|j: int|
            k < j < doc.len() && (#[trigger] doc[j]) is Schema ==> doc[j]->mutation is None)
            ==> document_graph(doc, options).root_types.mutation == doc[k]->mutation,
        doc[k]->subscription is Some && (forall|j: int|
            k < j < doc.len() && (#[trigger] doc[j]) is Schema ==> doc[j]->subscription is None)
            ==> document_graph(doc, options).root_types.subscription == doc[k]->subscription,
{
    lemma_listed(doc, k);
}

proof fn lemma_listed(doc: Seq<DefinitionModel>, k: int)
    requires
        0 <= k < doc.len(),
        doc[k] is Schema,
    ensures
        doc[k]->query is Some && (forall|j: int|
            k < j < doc.len() && (#[trigger] doc[j]) is Schema ==> doc[j]->query is None)
            ==> listed_roots(doc).query == doc[k]->query,
        doc[k]->mutation is Some && (forall|j: int|
            k < j < doc.len() && (#[trigger] doc[j]) is Schema ==> doc[j]->mutation is None)
            ==> listed_roots(doc).mutation == doc[k]->mutation,
        doc[k]->subscription is Some && (forall|j: int|
            k < j < doc.len() && (#[trigger] doc[j]) is Schema ==> doc[j]->subscription is None)
            ==> listed_roots(doc).subscription == doc[k]->subscription,
    decreases doc.len(),
{
    let less = doc.drop_last();
    if k < less.len() {
        assert(less[k] == doc[k]);
        lemma_listed(less, k);
        assert(forall|j: int| 0 <= j < less.len() ==> (#[trigger] less[j]) == doc[j]);
        let last = doc[doc.len() - 1];
        assert(doc.last() == last);
    }
}

/// Without a `schema` block the roots are the shown types `Query`, `Mutation` and `Subscription`, as
/// far as there are any.
pub proof fn default_roots_are_roots(doc: Seq<DefinitionModel>, options: OptionsModel)
    requires
        forall|k: int| 0 <= k < doc.len() ==> !((#[trigger] doc[k]) is Schema),
    ensures
        ({
            let g = document_graph(doc, options);
            &&& g.root_types.query == named(g.nodes, "Query"@)
            &&& g.root_types.mutation == named(g.nodes, "Mutation"@)
            &&& g.root_types.subscription == named(g.nodes, "Subscription"@)
        }),
{
    let nodes = document_graph(doc, options).nodes;
    lemma_unlisted(doc);
    lemma_named(nodes, "Query"@);
    lemma_named(nodes, "Mutation"@);
    lemma_named(nodes, "Subscription"@);
}

/// `name`, where a node has it.
pub open spec fn named(nodes: Seq<NodeModel>, name: Seq<char>) -> Option<Seq<char>> {
    if exists|j: int| 0 <= j < nodes.len() && (#[trigger] nodes[j]).name == name {
        Some(name)
    } else {
        None
    }
}

proof fn lemma_named(nodes: Seq<NodeModel>, name: Seq<char>)
    ensures
        crate::declarations::default_root(nodes, name) == named(nodes, name),
{
    let names = node_names(nodes);
    if names.contains(name) {
        let j = choose|j: int| 0 <= j < names.len() && names[j] == name;
        assert(nodes[j].name == name);
    }
    if exists|j: int| 0 <= j < nodes.len() && (#[trigger] nodes[j]).name == name {
        let j = choose|j: int| 0 <= j < nodes.len() && (#[trigger] nodes[j]).name == name;
        assert(names[j] == name);
    }
}

proof fn lemma_unlisted(doc: Seq<DefinitionModel>)
    requires
        forall|k: int| 0 <= k < doc.len() ==> !((#[trigger] doc[k]) is Schema),
    ensures
        listed_roots(doc) == no_roots(),
    decreases doc.len(),
{
    if doc.len() > 0 {
        let less = doc.drop_last();
        assert forall|k: int| 0 <= k < less.len() implies !((#[trigger] less[k]) is Schema) by {
            assert(less[k] == doc[k]);
        }
        lemma_unlisted(less);
        assert(!(doc[doc.len() - 1] is Schema));
    }
}

// ── unions that a type is in ───────────────────────────────────────────────

/// An object says which unions it is in: exactly those that are shown and list it.
pub proof fn objects_name_their_unions(
    doc: Seq<DefinitionModel>,
    options: OptionsModel,
    i: int,
    name: Seq<char>,
)
    requires
        !options.hide_relay_boilerplate,
        0 <= i < document_graph(doc, options).nodes.len(),
        document_graph(doc, options).nodes[i].kind == NodeKind::Object,
    ensures
        ({
            let nodes = document_graph(doc, options).nodes;
            (nodes[i].member_of_unions matches Some(unions) && unions.contains(name)) <==> exists|u: int|
                0 <= u < nodes.len() && (#[trigger] nodes[u]).kind == NodeKind::Union && nodes[u].name
                    == name && has_member(nodes[u], nodes[i].name)
        }),
{
    let drawn = crate::sdl::drawn_nodes(doc, options);
    let nodes = document_graph(doc, options).nodes;
    assert(nodes == with_membership(drawn));
    lemma_none_in_unions(doc, nodes_of(doc), options.override_duplicates, options.remove);
    assert(drawn[i].member_of_unions is None);
    let unions = unions_listing(drawn, drawn[i].name);
    lemma_listing(drawn, drawn[i].name, name);
    lemma_sorted_same(unions, name);
    if exists|u: int|
        0 <= u < drawn.len() && (#[trigger] drawn[u]).kind == NodeKind::Union && drawn[u].name == name
            && has_member(drawn[u], drawn[i].name) {
        let u = choose|u: int|
            0 <= u < drawn.len() && (#[trigger] drawn[u]).kind == NodeKind::Union && drawn[u].name
                == name && has_member(drawn[u], drawn[i].name);
        assert(nodes[u].kind == NodeKind::Union && nodes[u].name == name && has_member(
            nodes[u],
            nodes[i].name,
        ));
        assert(unions.len() > 0);
    }
    if exists|u: int|
        0 <= u < nodes.len() && (#[trigger] nodes[u]).kind == NodeKind::Union && nodes[u].name == name
            && has_member(nodes[u], nodes[i].name) {
        let u = choose|u: int|
            0 <= u < nodes.len() && (#[trigger] nodes[u]).kind == NodeKind::Union && nodes[u].name
                == name && has_member(nodes[u], nodes[i].name);
        assert(drawn[u].kind == NodeKind::Union && drawn[u].name == name && has_member(
            drawn[u],
            drawn[i].name,
        ));
        assert(unions.len() > 0);
    }
}

/// No node says yet which unions it is in.
spec fn are_in_no_union(nodes: Seq<NodeModel>) -> bool {
    forall|i: int| 0 <= i < nodes.len() ==> (#[trigger] nodes[i]).member_of_unions is None
}

proof fn lemma_none_in_unions(
    doc: Seq<DefinitionModel>,
    built: Seq<NodeModel>,
    ov: bool,
    removals: Seq<RemovalModel>,
)
    requires
        built == nodes_of(doc),
    ensures
        are_in_no_union(removed(extended(doc, built, ov).0, removals).0),
{
    assert forall|i: int| 0 <= i < built.len() implies (#[trigger] built[i]).member_of_unions is None by {
        let k = lemma_built_from(doc, i);
    }
    lemma_grown_in_none(doc, built, ov);
    lemma_left_in_none(extended(doc, built, ov).0, removals);
}

proof fn lemma_grown_in_none(doc: Seq<DefinitionModel>, nodes: Seq<NodeModel>, ov: bool)
    requires
        are_in_no_union(nodes),
    ensures
        are_in_no_union(extended(doc, nodes, ov).0),
    decreases doc.len(),
{
    if doc.len() > 0 {
        lemma_grown_in_none(doc.drop_last(), nodes, ov);
        let before = extended(doc.drop_last(), nodes, ov).0;
        if let DefinitionModel::Type(t) = doc.last() {
            crate::lists::lemma_last_place(node_names(before), t.name);
        }
    }
}

proof fn lemma_left_in_none(nodes: Seq<NodeModel>, removals: Seq<RemovalModel>)
    requires
        are_in_no_union(nodes),
    ensures
        are_in_no_union(removed(nodes, removals).0),
    decreases removals.len(),
{
    if removals.len() > 0 {
        lemma_left_in_none(nodes, removals.drop_last());
        let before = removed(nodes, removals.drop_last()).0;
        crate::lists::lemma_first_place(node_names(before), removals.last().type_);
    }
}

proof fn lemma_sorted_same(s: Seq<Seq<char>>, x: Seq<char>)
    ensures
        sorted(s).contains(x) <==> s.contains(x),
{
    broadcast use vstd::seq_lib::group_to_multiset_ensures;

    sorted_sorts(s);
    assert(sorted(s).contains(x) <==> sorted(s).to_multiset().count(x) > 0);
    assert(s.contains(x) <==> s.to_multiset().count(x) > 0);
}

proof fn lemma_copies(union_name: Seq<char>, members: Seq<Seq<char>>, member: Seq<char>)
    ensures
        forall|x: Seq<char>| #[trigger]
            crate::declarations::listings(union_name, members, member).contains(x) <==> x
                == union_name && members.contains(member),
    decreases members.len(),
{
    let all = crate::declarations::listings(union_name, members, member);
    if members.len() > 0 {
        let less = members.drop_last();
        lemma_copies(union_name, less, member);
        let before = crate::declarations::listings(union_name, less, member);
        assert forall|x: Seq<char>| #[trigger] all.contains(x) <==> x == union_name
            && members.contains(member) by {
            if all.contains(x) {
                let k = choose|k: int| 0 <= k < all.len() && all[k] == x;
                if k < before.len() {
                    assert(before[k] == x);
                    assert(before.contains(x));
                    let j = choose|j: int| 0 <= j < less.len() && less[j] == member;
                    assert(members[j] == member);
                } else {
                    assert(members[members.len() - 1] == member);
                }
            }
            if x == union_name && members.contains(member) {
                let j = choose|j: int| 0 <= j < members.len() && members[j] == member;
                if members.last() == member {
                    assert(all[before.len() as int] == x);
                } else {
                    assert(less[j] == member);
                    assert(before.contains(x));
                }
            }
        }
    }
}

proof fn lemma_listing(nodes: Seq<NodeModel>, member: Seq<char>, name: Seq<char>)
    ensures
        unions_listing(nodes, member).contains(name) <==> exists|u: int|
            0 <= u < nodes.len() && (#[trigger] nodes[u]).kind == NodeKind::Union && nodes[u].name
                == name && has_member(nodes[u], member),
    decreases nodes.len(),
{
    let all = unions_listing(nodes, member);
    if nodes.len() > 0 {
        let less = nodes.drop_last();
        lemma_listing(less, member, name);
        let before = unions_listing(less, member);
        let n = nodes[nodes.len() - 1];
        assert(nodes.last() == n);
        let more = crate::declarations::listings(n.name, or_empty(n.members), member);
        lemma_copies(n.name, or_empty(n.members), member);
        lemma_holds(n, member);
        if all.contains(name) {
            let k = choose|k: int| 0 <= k < all.len() && all[k] == name;
            if k < before.len() {
                assert(before[k] == name);
                let u = choose|u: int|
                    0 <= u < less.len() && (#[trigger] less[u]).kind == NodeKind::Union && less[u].name
                        == name && has_member(less[u], member);
                assert(nodes[u] == less[u]);
            } else {
                assert(more[k - before.len()] == name);
                assert(more.contains(name));
                assert(n.kind == NodeKind::Union && n.name == name && has_member(n, member));
            }
        }
        if exists|u: int|
            0 <= u < nodes.len() && (#[trigger] nodes[u]).kind == NodeKind::Union && nodes[u].name
                == name && has_member(nodes[u], member) {
            let u = choose|u: int|
                0 <= u < nodes.len() && (#[trigger] nodes[u]).kind == NodeKind::Union && nodes[u].name
                    == name && has_member(nodes[u], member);
            if u < less.len() {
                assert(less[u] == nodes[u]);
                let k = choose|k: int| 0 <= k < before.len() && before[k] == name;
                assert(all[k] == name);
            } else {
                assert(more.contains(name));
                let k = choose|k: int| 0 <= k < more.len() && more[k] == name;
                assert(all[before.len() + k] == name);
            }
        }
    }
}

proof fn lemma_holds(n: NodeModel, member: Seq<char>)
    ensures
        or_empty(n.members).contains(member) <==> has_member(n, member),
{
    let all = or_empty(n.members);
    if all.contains(member) {
        let k = choose|k: int| 0 <= k < all.len() && all[k] == member;
        assert(n.members->0[k] == member);
    }
    if has_member(n, member) {
        let k = choose|k: int| 0 <= k < n.members->0.len() && #[trigger] n.members->0[k] == member;
        assert(all[k] == member);
    }
}

} // verus!
