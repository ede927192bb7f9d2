//! Schema documents as graphs.
//!
//! The stages run in this order, and the order matters:
//!
//! 1. duplicate and conflicting declarations are reported;
//! 2. nodes are built from definitions;
//! 3. every `extend …` is folded into its target;
//! 4. members that the caller subtracts are deleted;
//! 5. Relay wrappers are unwrapped (`*Edge`, then `*Connection`);
//! 6. edges are built;
//! 7. unions are listed on the types they hold;
//! 8. root types are resolved.

use vstd::prelude::*;

use crate::declarations::{
    detect_duplicate_declarations, duplicate_warnings, index_union_membership, resolve_root_types,
    roots_of, with_membership,
};
use crate::document::{
    base_name, base_name_of, is_nullable, nullable_type, read_document, render_type, rendered,
    schema_document, Definition, DefinitionModel, DirectiveDecl, DirectiveModel, FieldDecl,
    FieldDeclModel, InputDecl, InputModel, KindDecl, KindModel, TypeDecl, TypeDeclModel, ValueDecl,
    ValueDeclModel,
};
use crate::edges::{build_edges, edges_of, node_ids};
use crate::extensions::{apply_extensions, extended};
use crate::lists::{copy_names, copy_text, has_name, lemma_first_place, lemma_last_place};
use crate::relay::{is_boilerplate, is_relay_boilerplate, unwrap_relay, unwrapped};
use crate::removals::{apply_removals, removed};
use crate::text::{chars_of, same, trim, trim_bounds};
use crate::types::{
    bare_node, empty_graph, ArgModel, EdgeModel, EnumValue, FieldModel, GraphArg, GraphEdgeData,
    GraphField, GraphModel, GraphNodeData, NodeKind, NodeModel, OptionsModel, ParsedGraph,
    RemovalModel, SdlToGraphOptions, ValueModel,
};
use crate::until::{parse_until, until_of};

verus! {

/// The kind of node that a definition makes.
pub open spec fn kind_of_model(k: KindModel) -> NodeKind {
    match k {
        KindModel::Scalar => NodeKind::Scalar,
        KindModel::Object { .. } => NodeKind::Object,
        KindModel::Interface { .. } => NodeKind::Interface,
        KindModel::Union { .. } => NodeKind::Union,
        KindModel::Enum { .. } => NodeKind::Enum,
        KindModel::Input { .. } => NodeKind::Input,
    }
}

/// The kind of node that a definition makes.
pub fn kind_of(kind: &KindDecl) -> (r: NodeKind)
    ensures
        r == kind_of_model(kind.deep_view()),
{
    match kind {
        KindDecl::Scalar => NodeKind::Scalar,
        KindDecl::Object { .. } => NodeKind::Object,
        KindDecl::Interface { .. } => NodeKind::Interface,
        KindDecl::Union { .. } => NodeKind::Union,
        KindDecl::Enum { .. } => NodeKind::Enum,
        KindDecl::Input { .. } => NodeKind::Input,
    }
}

// ── node building ──────────────────────────────────────────────────────────

/// The value of the first argument named `reason`, where there is one; a value that is no string
/// literal counts as missing.
pub open spec fn reason_entry(
    arguments: Seq<(Seq<char>, Option<Seq<char>>)>,
) -> Option<Option<Seq<char>>>
    decreases arguments.len(),
{
    if arguments.len() == 0 {
        None
    } else {
        match reason_entry(arguments.drop_last()) {
            Some(v) => Some(v),
            None => if arguments.last().0 == "reason"@ { Some(arguments.last().1) } else { None },
        }
    }
}

/// The reason that the first directive named `deprecated` gives: `None` without such a directive,
/// `Some(None)` where it gives none.
pub open spec fn deprecation_of(directives: Seq<DirectiveModel>) -> Option<Option<Seq<char>>>
    decreases directives.len(),
{
    if directives.len() == 0 {
        None
    } else {
        match deprecation_of(directives.drop_last()) {
            Some(v) => Some(v),
            None => if directives.last().name == "deprecated"@ {
                match reason_entry(directives.last().arguments) {
                    Some(v) => Some(v),
                    None => Some(None),
                }
            } else {
                None
            },
        }
    }
}

/// The reason itself, where a deprecation gives one.
pub open spec fn reason_of(directives: Seq<DirectiveModel>) -> Option<Seq<char>> {
    match deprecation_of(directives) {
        Some(reason) => reason,
        None => None,
    }
}

struct Deprecation {
    is_deprecated: bool,
    reason: Option<String>,
    until: Option<String>,
}

fn find_reason(arguments: &Vec<(String, Option<String>)>) -> (r: Option<String>)
    ensures
        r.deep_view() == (match reason_entry(arguments.deep_view()) {
            Some(v) => v,
            None => None,
        }),
{
    let ghost all = arguments.deep_view();
    let mut i: usize = 0;
    assert(all.take(0) =~= Seq::<(Seq<char>, Option<Seq<char>>)>::empty());
    while i < arguments.len()
        invariant
            i <= arguments@.len(),
            all == arguments.deep_view(),
            reason_entry(all.take(i as int)) is None,
        decreases arguments@.len() - i,
    {
        assert(all.take(i as int + 1).drop_last() =~= all.take(i as int));
        assert(all[i as int] == arguments@[i as int].deep_view());
        if same(arguments[i].0.as_str(), "reason") {
            let found = copy_text(&arguments[i].1);
            proof {
                assert(reason_entry(all.take(i as int + 1)) == Some(found.deep_view()));
                lemma_reason_stays(all, i as int + 1);
            }
            return found;
        }
        i = i + 1;
    }
    assert(all.take(i as int) =~= all);
    None
}

proof fn lemma_reason_stays(arguments: Seq<(Seq<char>, Option<Seq<char>>)>, i: int)
    requires
        0 <= i <= arguments.len(),
        reason_entry(arguments.take(i)) is Some,
    ensures
        reason_entry(arguments) == reason_entry(arguments.take(i)),
    decreases arguments.len() - i,
{
    if i < arguments.len() {
        assert(arguments.take(i + 1).drop_last() =~= arguments.take(i));
        lemma_reason_stays(arguments, i + 1);
    } else {
        assert(arguments.take(i) =~= arguments);
    }
}

proof fn lemma_deprecation_stays(directives: Seq<DirectiveModel>, i: int)
    requires
        0 <= i <= directives.len(),
        deprecation_of(directives.take(i)) is Some,
    ensures
        deprecation_of(directives) == deprecation_of(directives.take(i)),
    decreases directives.len() - i,
{
    if i < directives.len() {
        assert(directives.take(i + 1).drop_last() =~= directives.take(i));
        lemma_deprecation_stays(directives, i + 1);
    } else {
        assert(directives.take(i) =~= directives);
    }
}

fn parse_deprecated(directives: &Vec<DirectiveDecl>) -> (r: Deprecation)
    ensures
        r.is_deprecated == (deprecation_of(directives.deep_view()) is Some),
        r.reason.deep_view() == reason_of(directives.deep_view()),
        r.until.deep_view() == until_of(reason_of(directives.deep_view())),
{
    let ghost all = directives.deep_view();
    let mut i: usize = 0;
    assert(all.take(0) =~= Seq::<DirectiveModel>::empty());
    while i < directives.len()
        invariant
            i <= directives@.len(),
            all == directives.deep_view(),
            deprecation_of(all.take(i as int)) is None,
        decreases directives@.len() - i,
    {
        assert(all.take(i as int + 1).drop_last() =~= all.take(i as int));
        assert(all[i as int] == directives@[i as int].deep_view());
        if same(directives[i].name.as_str(), "deprecated") {
            let reason = find_reason(&directives[i].arguments);
            proof {
                assert(deprecation_of(all.take(i as int + 1)) == Some(reason.deep_view()));
                lemma_deprecation_stays(all, i as int + 1);
            }
            let until = match &reason {
                Some(s) => parse_until(Some(s.as_str())),
                None => parse_until(None),
            };
            return Deprecation { is_deprecated: true, reason, until };
        }
        i = i + 1;
    }
    assert(all.take(i as int) =~= all);
    Deprecation { is_deprecated: false, reason: None, until: None }
}

/// The argument row of a declared argument.
pub open spec fn arg_of(a: InputModel) -> ArgModel {
    ArgModel { name: a.name, type_: rendered(a.ty), base_type: base_name_of(a.ty) }
}

/// The field row of a declared field.
pub open spec fn field_of(f: FieldDeclModel) -> FieldModel {
    FieldModel {
        name: f.name,
        type_: rendered(f.ty),
        base_type: base_name_of(f.ty),
        nullable: is_nullable(f.ty),
        is_relay_connection: false,
        args: Some(f.arguments.map_values(|a: InputModel| arg_of(a))),
        description: f.description,
        is_deprecated: deprecation_of(f.directives) is Some,
        deprecation_reason: reason_of(f.directives),
        until: until_of(reason_of(f.directives)),
        is_overlay: false,
    }
}

/// The field row of a declared input field, which has no argument list at all.
pub open spec fn input_field_of(f: InputModel) -> FieldModel {
    FieldModel {
        name: f.name,
        type_: rendered(f.ty),
        base_type: base_name_of(f.ty),
        nullable: is_nullable(f.ty),
        is_relay_connection: false,
        args: None,
        description: f.description,
        is_deprecated: deprecation_of(f.directives) is Some,
        deprecation_reason: reason_of(f.directives),
        until: until_of(reason_of(f.directives)),
        is_overlay: false,
    }
}

/// The row of a declared enum value.
pub open spec fn value_of(v: ValueDeclModel) -> ValueModel {
    ValueModel {
        name: v.name,
        description: v.description,
        is_deprecated: deprecation_of(v.directives) is Some,
        deprecation_reason: reason_of(v.directives),
        until: until_of(reason_of(v.directives)),
        is_overlay: false,
    }
}

/// The rows of declared fields.
pub open spec fn fields_of(v: Seq<FieldDeclModel>) -> Seq<FieldModel> {
    v.map_values(|f: FieldDeclModel| field_of(f))
}

/// The rows of declared input fields.
pub open spec fn input_fields_of(v: Seq<InputModel>) -> Seq<FieldModel> {
    v.map_values(|f: InputModel| input_field_of(f))
}

/// The rows of declared enum values.
pub open spec fn values_of(v: Seq<ValueDeclModel>) -> Seq<ValueModel> {
    v.map_values(|x: ValueDeclModel| value_of(x))
}

fn build_args(defs: &Vec<InputDecl>) -> (r: Vec<GraphArg>)
    ensures
        r.deep_view() == defs.deep_view().map_values(|a: InputModel| arg_of(a)),
{
    let ghost want = defs.deep_view().map_values(|a: InputModel| arg_of(a));
    let mut out: Vec<GraphArg> = Vec::new();
    let mut i: usize = 0;
    while i < defs.len()
        invariant
            i <= defs@.len(),
            want == defs.deep_view().map_values(|a: InputModel| arg_of(a)),
            out.deep_view() == want.take(i as int),
        decreases defs@.len() - i,
    {
        let a = &defs[i];
        let ghost before = out.deep_view();
        out.push(
            GraphArg { name: a.name.clone(), type_: render_type(&a.ty), base_type: base_name(&a.ty) },
        );
        assert(want[i as int] == arg_of(defs@[i as int].deep_view()));
        assert(out.deep_view() =~= before.push(want[i as int]));
        assert(want.take(i as int + 1) =~= before.push(want[i as int]));
        i = i + 1;
    }
    assert(out.deep_view() =~= want);
    out
}

fn build_field(f: &FieldDecl) -> (r: GraphField)
    ensures
        r.deep_view() == field_of(f.deep_view()),
{
    let dep = parse_deprecated(&f.directives);
    GraphField {
        name: f.name.clone(),
        type_: render_type(&f.ty),
        base_type: base_name(&f.ty),
        nullable: nullable_type(&f.ty),
        is_relay_connection: false,
        args: Some(build_args(&f.arguments)),
        description: copy_text(&f.description),
        is_deprecated: dep.is_deprecated,
        deprecation_reason: dep.reason,
        until: dep.until,
        is_overlay: false,
    }
}

/// Builds the field rows of an object or interface definition or extension. Shared so `extend
/// type` blocks produce identical fields.
pub fn build_fields(defs: &Vec<FieldDecl>) -> (r: Vec<GraphField>)
    ensures
        r.deep_view() == fields_of(defs.deep_view()),
{
    let ghost want = fields_of(defs.deep_view());
    let mut out: Vec<GraphField> = Vec::new();
    let mut i: usize = 0;
    while i < defs.len()
        invariant
            i <= defs@.len(),
            want == fields_of(defs.deep_view()),
            out.deep_view() == want.take(i as int),
        decreases defs@.len() - i,
    {
        let ghost before = out.deep_view();
        out.push(build_field(&defs[i]));
        assert(want[i as int] == field_of(defs@[i as int].deep_view()));
        assert(out.deep_view() =~= before.push(want[i as int]));
        assert(want.take(i as int + 1) =~= before.push(want[i as int]));
        i = i + 1;
    }
    assert(out.deep_view() =~= want);
    out
}

fn build_input_field(f: &InputDecl) -> (r: GraphField)
    ensures
        r.deep_view() == input_field_of(f.deep_view()),
{
    let dep = parse_deprecated(&f.directives);
    GraphField {
        name: f.name.clone(),
        type_: render_type(&f.ty),
        base_type: base_name(&f.ty),
        nullable: nullable_type(&f.ty),
        is_relay_connection: false,
        args: None,
        description: copy_text(&f.description),
        is_deprecated: dep.is_deprecated,
        deprecation_reason: dep.reason,
        until: dep.until,
        is_overlay: false,
    }
}

/// Builds the field rows of an input object, which have no argument list at all.
pub fn build_input_fields(defs: &Vec<InputDecl>) -> (r: Vec<GraphField>)
    ensures
        r.deep_view() == input_fields_of(defs.deep_view()),
{
    let ghost want = input_fields_of(defs.deep_view());
    let mut out: Vec<GraphField> = Vec::new();
    let mut i: usize = 0;
    while i < defs.len()
        invariant
            i <= defs@.len(),
            want == input_fields_of(defs.deep_view()),
            out.deep_view() == want.take(i as int),
        decreases defs@.len() - i,
    {
        let ghost before = out.deep_view();
        out.push(build_input_field(&defs[i]));
        assert(want[i as int] == input_field_of(defs@[i as int].deep_view()));
        assert(out.deep_view() =~= before.push(want[i as int]));
        assert(want.take(i as int + 1) =~= before.push(want[i as int]));
        i = i + 1;
    }
    assert(out.deep_view() =~= want);
    out
}

/// Builds the rows of an enum.
pub fn build_enum_values(defs: &Vec<ValueDecl>) -> (r: Vec<EnumValue>)
    ensures
        r.deep_view() == values_of(defs.deep_view()),
{
    let ghost want = values_of(defs.deep_view());
    let mut out: Vec<EnumValue> = Vec::new();
    let mut i: usize = 0;
    while i < defs.len()
        invariant
            i <= defs@.len(),
            want == values_of(defs.deep_view()),
            out.deep_view() == want.take(i as int),
        decreases defs@.len() - i,
    {
        let v = &defs[i];
        let ghost before = out.deep_view();
        let dep = parse_deprecated(&v.directives);
        out.push(
            EnumValue {
                name: v.name.clone(),
                description: copy_text(&v.description),
                is_deprecated: dep.is_deprecated,
                deprecation_reason: dep.reason,
                until: dep.until,
                is_overlay: false,
            },
        );
        assert(want[i as int] == value_of(defs@[i as int].deep_view()));
        assert(out.deep_view() =~= before.push(want[i as int]));
        assert(want.take(i as int + 1) =~= before.push(want[i as int]));
        i = i + 1;
    }
    assert(out.deep_view() =~= want);
    out
}

/// The node that a type definition makes.
pub open spec fn node_of(t: TypeDeclModel) -> NodeModel {
    let bare = NodeModel { description: t.description, ..bare_node(t.name, kind_of_model(t.kind)) };
    match t.kind {
        KindModel::Object { implements, fields } => NodeModel {
            fields: Some(fields_of(fields)),
            interfaces: Some(implements),
            ..bare
        },
        KindModel::Interface { implements, fields } => NodeModel {
            fields: Some(fields_of(fields)),
            interfaces: Some(implements),
            ..bare
        },
        KindModel::Input { fields } => NodeModel { fields: Some(input_fields_of(fields)), ..bare },
        KindModel::Enum { values } => NodeModel { values: Some(values_of(values)), ..bare },
        KindModel::Union { members } => NodeModel { members: Some(members), ..bare },
        KindModel::Scalar => bare,
    }
}

/// The nodes of the definitions, extensions left out, in document order.
pub open spec fn nodes_of(doc: Seq<DefinitionModel>) -> Seq<NodeModel>
    decreases doc.len(),
{
    if doc.len() == 0 {
        Seq::empty()
    } else {
        let before = nodes_of(doc.drop_last());
        match doc.last() {
            DefinitionModel::Type(t) => if t.extend { before } else { before.push(node_of(t)) },
            _ => before,
        }
    }
}

fn build_node(t: &TypeDecl) -> (r: GraphNodeData)
    ensures
        r.deep_view() == node_of(t.deep_view()),
{
    let mut node = GraphNodeData::new(t.name.as_str(), kind_of(&t.kind));
    node.description = copy_text(&t.description);
    match &t.kind {
        KindDecl::Object { implements, fields } => {
            node.fields = Some(build_fields(fields));
            node.interfaces = Some(copy_names(implements));
        },
        KindDecl::Interface { implements, fields } => {
            node.fields = Some(build_fields(fields));
            node.interfaces = Some(copy_names(implements));
        },
        KindDecl::Input { fields } => {
            node.fields = Some(build_input_fields(fields));
        },
        KindDecl::Enum { values } => {
            node.values = Some(build_enum_values(values));
        },
        KindDecl::Union { members } => {
            node.members = Some(copy_names(members));
        },
        KindDecl::Scalar => {},
    }
    node
}

/// Builds the nodes of a document, one for each definition that is no extension.
pub fn build_nodes(doc: &Vec<Definition>) -> (r: Vec<GraphNodeData>)
    ensures
        r.deep_view() == nodes_of(doc.deep_view()),
{
    let ghost all = doc.deep_view();
    let mut out: Vec<GraphNodeData> = Vec::new();
    let mut i: usize = 0;
    assert(all.take(0) =~= Seq::<DefinitionModel>::empty());
    assert(out.deep_view() =~= Seq::<NodeModel>::empty());
    while i < doc.len()
        invariant
            i <= doc@.len(),
            all == doc.deep_view(),
            out.deep_view() == nodes_of(all.take(i as int)),
        decreases doc@.len() - i,
    {
        assert(all.take(i as int + 1).drop_last() =~= all.take(i as int));
        assert(all[i as int] == doc@[i as int].deep_view());
        let ghost before = out.deep_view();
        if let Definition::Type(t) = &doc[i] {
            if !t.extend {
                out.push(build_node(t));
                assert(out.deep_view() =~= before.push(node_of(t.deep_view())));
            }
        }
        i = i + 1;
    }
    assert(all.take(i as int) =~= all);
    out
}

// ── the whole pipeline ─────────────────────────────────────────────────────

/// The nodes but the Relay boilerplate.
pub open spec fn without_boilerplate(nodes: Seq<NodeModel>) -> Seq<NodeModel>
    decreases nodes.len(),
{
    if nodes.len() == 0 {
        nodes
    } else {
        let before = without_boilerplate(nodes.drop_last());
        if is_boilerplate(nodes.last()) { before } else { before.push(nodes.last()) }
    }
}

/// The edges with both ends among `ids`.
pub open spec fn edges_within(edges: Seq<EdgeModel>, ids: Seq<Seq<char>>) -> Seq<EdgeModel>
    decreases edges.len(),
{
    if edges.len() == 0 {
        edges
    } else {
        let before = edges_within(edges.drop_last(), ids);
        let e = edges.last();
        if ids.contains(e.target) && ids.contains(e.source) { before.push(e) } else { before }
    }
}

/// The nodes that edges are drawn between: extended, subtracted from and seen through wrappers.
pub open spec fn drawn_nodes(doc: Seq<DefinitionModel>, options: OptionsModel) -> Seq<NodeModel> {
    let grown = extended(doc, nodes_of(doc), options.override_duplicates).0;
    let left = removed(grown, options.remove).0;
    if options.hide_relay_boilerplate { unwrapped(left) } else { left }
}

/// The nodes that are shown.
pub open spec fn shown_nodes(doc: Seq<DefinitionModel>, options: OptionsModel) -> Seq<NodeModel> {
    let drawn = drawn_nodes(doc, options);
    with_membership(if options.hide_relay_boilerplate { without_boilerplate(drawn) } else { drawn })
}

/// The graph of a document.
pub open spec fn document_graph(doc: Seq<DefinitionModel>, options: OptionsModel) -> GraphModel {
    let (grown, extension_warnings) = extended(doc, nodes_of(doc), options.override_duplicates);
    let removal_warnings = removed(grown, options.remove).1;
    let drawn = drawn_nodes(doc, options);
    let shown = shown_nodes(doc, options);
    GraphModel {
        nodes: shown,
        edges: edges_within(edges_of(drawn, drawn.len()), node_ids(shown)),
        error: None,
        warnings: duplicate_warnings(doc) + extension_warnings + removal_warnings,
        root_types: roots_of(doc, shown),
    }
}

/// The graph of a text: empty for a blank one, and with the parser's message where it is no schema
/// document.
pub open spec fn graph_of(sdl: Seq<char>, options: OptionsModel) -> GraphModel {
    if trim(sdl).len() == 0 {
        empty_graph()
    } else {
        match schema_document(sdl) {
            Ok(doc) => document_graph(doc, options),
            Err(e) => GraphModel { error: Some(e), ..empty_graph() },
        }
    }
}

fn drop_boilerplate(nodes: Vec<GraphNodeData>) -> (r: Vec<GraphNodeData>)
    ensures
        r.deep_view() == without_boilerplate(nodes.deep_view()),
{
    let ghost all = nodes.deep_view();
    let mut out: Vec<GraphNodeData> = Vec::new();
    assert(all.take(0) =~= Seq::<NodeModel>::empty());
    assert(out.deep_view() =~= Seq::<NodeModel>::empty());
    for n in it: nodes
        invariant
            it.seq() == nodes@,
            all == nodes.deep_view(),
            out.deep_view() == without_boilerplate(all.take(it.index() as int)),
    {
        let ghost i = it.index() as int;
        let ghost before = out.deep_view();
        assert(all[i] == n.deep_view());
        assert(all.take(i + 1).drop_last() =~= all.take(i));
        if !is_relay_boilerplate(&n) {
            out.push(n);
            assert(out.deep_view() =~= before.push(n.deep_view()));
        }
    }
    assert(all.take(all.len() as int) =~= all);
    out
}

fn ids_of(nodes: &Vec<GraphNodeData>) -> (r: Vec<String>)
    ensures
        r.deep_view() == node_ids(nodes.deep_view()),
{
    let ghost want = node_ids(nodes.deep_view());
    let mut out: Vec<String> = Vec::new();
    let mut i: usize = 0;
    while i < nodes.len()
        invariant
            i <= nodes@.len(),
            want == node_ids(nodes.deep_view()),
            out.deep_view() == want.take(i as int),
        decreases nodes@.len() - i,
    {
        let ghost before = out.deep_view();
        out.push(nodes[i].id.clone());
        assert(want[i as int] == nodes@[i as int].id@);
        assert(out.deep_view() =~= before.push(want[i as int]));
        assert(want.take(i as int + 1) =~= before.push(want[i as int]));
        i = i + 1;
    }
    assert(out.deep_view() =~= want);
    out
}

fn keep_edges(edges: Vec<GraphEdgeData>, ids: &Vec<String>) -> (r: Vec<GraphEdgeData>)
    ensures
        r.deep_view() == edges_within(edges.deep_view(), ids.deep_view()),
{
    let ghost all = edges.deep_view();
    let mut out: Vec<GraphEdgeData> = Vec::new();
    assert(all.take(0) =~= Seq::<EdgeModel>::empty());
    assert(out.deep_view() =~= Seq::<EdgeModel>::empty());
    for e in it: edges
        invariant
            it.seq() == edges@,
            all == edges.deep_view(),
            out.deep_view() == edges_within(all.take(it.index() as int), ids.deep_view()),
    {
        let ghost i = it.index() as int;
        let ghost before = out.deep_view();
        assert(all[i] == e.deep_view());
        assert(all.take(i + 1).drop_last() =~= all.take(i));
        if has_name(ids, e.target.as_str()) && has_name(ids, e.source.as_str()) {
            out.push(e);
            assert(out.deep_view() =~= before.push(e.deep_view()));
        }
    }
    assert(all.take(all.len() as int) =~= all);
    out
}

fn append_texts(to: &mut Vec<String>, more: Vec<String>)
    ensures
        final(to).deep_view() == old(to).deep_view() + more.deep_view(),
{
    let ghost base = to.deep_view();
    let ghost all = more.deep_view();
    assert(base + all.take(0) =~= base);
    for s in it: more
        invariant
            it.seq() == more@,
            all == more.deep_view(),
            to.deep_view() == base + all.take(it.index() as int),
    {
        let ghost i = it.index() as int;
        let ghost before = to.deep_view();
        assert(all[i] == s@);
        to.push(s);
        assert(to.deep_view() =~= before.push(all[i]));
        assert(base + all.take(i + 1) =~= before.push(all[i]));
    }
    assert(all.take(all.len() as int) =~= all);
}

/// Builds the graph of a document that was read.
pub fn document_to_graph(doc: &Vec<Definition>, options: &SdlToGraphOptions) -> (r: ParsedGraph)
    ensures
        r.deep_view() == document_graph(doc.deep_view(), options.deep_view()),
{
    let mut warnings = detect_duplicate_declarations(doc);
    let mut nodes = build_nodes(doc);
    // Extensions come before anything reads the nodes: unwrapping, edges and roots all see the
    // extended shape.
    let extension_warnings = apply_extensions(doc, &mut nodes, options.override_duplicates);
    // Subtraction comes after addition, so a removal can take away what an extension just added.
    let removal_warnings = apply_removals(&mut nodes, &options.remove);
    if options.hide_relay_boilerplate {
        nodes = unwrap_relay(nodes);
    }
    let drawn = build_edges(&nodes);
    // The boilerplate nodes go only now; edges that still point at them dangle and go below.
    if options.hide_relay_boilerplate {
        nodes = drop_boilerplate(nodes);
    }
    index_union_membership(&mut nodes);
    let ids = ids_of(&nodes);
    let edges = keep_edges(drawn, &ids);
    let root_types = resolve_root_types(doc, &nodes);
    append_texts(&mut warnings, extension_warnings);
    append_texts(&mut warnings, removal_warnings);
    ParsedGraph { nodes, edges, error: None, warnings, root_types }
}

/// Parses an SDL document into nodes and edges.
///
/// A document that fails to parse comes back as an otherwise empty [`ParsedGraph`] with `error`
/// set.
pub fn sdl_to_graph(sdl: &str, options: &SdlToGraphOptions) -> (r: ParsedGraph)
    ensures
        r.deep_view() == graph_of(sdl@, options.deep_view()),
{
    let v = chars_of(sdl);
    let (from, to) = trim_bounds(&v);
    if from == to {
        assert(trim(sdl@).len() == 0);
        return ParsedGraph::default();
    }
    assert(trim(sdl@).len() == to - from);
    match read_document(sdl) {
        Ok(doc) => document_to_graph(&doc, options),
        Err(e) => {
            let mut g = ParsedGraph::default();
            g.error = Some(e);
            g
        },
    }
}

// ── laws ───────────────────────────────────────────────────────────────────

/// Every edge of a graph joins two nodes of that graph.
pub proof fn edges_join_shown_nodes(sdl: Seq<char>, options: OptionsModel, e: EdgeModel)
    requires
        graph_of(sdl, options).edges.contains(e),
    ensures
        node_ids(graph_of(sdl, options).nodes).contains(e.source),
        node_ids(graph_of(sdl, options).nodes).contains(e.target),
{
    if let Ok(doc) = schema_document(sdl) {
        let drawn = drawn_nodes(doc, options);
        lemma_edges_within(
            edges_of(drawn, drawn.len()),
            node_ids(shown_nodes(doc, options)),
            e,
        );
    }
}

proof fn lemma_edges_within(edges: Seq<EdgeModel>, ids: Seq<Seq<char>>, e: EdgeModel)
    requires
        edges_within(edges, ids).contains(e),
    ensures
        ids.contains(e.source),
        ids.contains(e.target),
        edges.contains(e),
    decreases edges.len(),
{
    if edges.len() > 0 {
        let rest = edges_within(edges.drop_last(), ids);
        let all = edges_within(edges, ids);
        let k = choose|k: int| 0 <= k < all.len() && all[k] == e;
        if k < rest.len() {
            assert(rest[k] == e);
            lemma_edges_within(edges.drop_last(), ids, e);
            let j = choose|j: int| 0 <= j < edges.len() - 1 && edges.drop_last()[j] == e;
            assert(edges[j] == e);
        } else {
            assert(edges[edges.len() - 1] == e);
        }
    }
}

/// Extensions add members and nothing else: every node keeps its place, its identity, its kind and
/// its description.
pub proof fn extensions_keep_nodes(
    doc: Seq<DefinitionModel>,
    nodes: Seq<NodeModel>,
    override_duplicates: bool,
    i: int,
)
    requires
        0 <= i < nodes.len(),
    ensures
        extended(doc, nodes, override_duplicates).0.len() == nodes.len(),
        extended(doc, nodes, override_duplicates).0[i].id == nodes[i].id,
        extended(doc, nodes, override_duplicates).0[i].name == nodes[i].name,
        extended(doc, nodes, override_duplicates).0[i].kind == nodes[i].kind,
        extended(doc, nodes, override_duplicates).0[i].description == nodes[i].description,
    decreases doc.len(),
{
    if doc.len() > 0 {
        extensions_keep_nodes(doc.drop_last(), nodes, override_duplicates, i);
        let before = extended(doc.drop_last(), nodes, override_duplicates).0;
        if let DefinitionModel::Type(t) = doc.last() {
            lemma_last_place(crate::extensions::node_names(before), t.name);
        }
    }
}

/// A document without extensions and removals keeps every node as its definition makes it.
pub proof fn plain_documents_extend_nothing(
    doc: Seq<DefinitionModel>,
    nodes: Seq<NodeModel>,
    override_duplicates: bool,
)
    requires
        forall|k: int|
            0 <= k < doc.len() ==> !((#[trigger] doc[k]) is Type && doc[k]->Type_0.extend),
    ensures
        extended(doc, nodes, override_duplicates) == (nodes, Seq::<Seq<char>>::empty()),
        removed(nodes, Seq::<RemovalModel>::empty()) == (nodes, Seq::<Seq<char>>::empty()),
    decreases doc.len(),
{
    if doc.len() > 0 {
        let rest = doc.drop_last();
        assert forall|k: int| 0 <= k < rest.len() implies !((#[trigger] rest[k]) is Type
            && rest[k]->Type_0.extend) by {
            assert(rest[k] == doc[k]);
        }
        plain_documents_extend_nothing(rest, nodes, override_duplicates);
        assert(doc.last() == doc[doc.len() - 1]);
    }
}

/// Type names are the graph's identity: every node's id is its name.
pub proof fn ids_are_names(sdl: Seq<char>, options: OptionsModel, n: NodeModel)
    requires
        graph_of(sdl, options).nodes.contains(n),
    ensures
        n.id == n.name,
{
    if let Ok(doc) = schema_document(sdl) {
        let built = nodes_of(doc);
        lemma_built_named(doc);
        let grown = extended(doc, built, options.override_duplicates).0;
        assert(named_by_id(grown)) by {
            if built.len() == 0 {
                lemma_extended_len(doc, built, options.override_duplicates);
            }
            assert forall|i: int| 0 <= i < grown.len() implies (#[trigger] grown[i]).id
                == grown[i].name by {
                lemma_extended_len(doc, built, options.override_duplicates);
                extensions_keep_nodes(doc, built, options.override_duplicates, i);
                assert(built[i].id == built[i].name);
            }
        }
        let left = removed(grown, options.remove).0;
        lemma_removed_named(grown, options.remove);
        let drawn = drawn_nodes(doc, options);
        assert(named_by_id(drawn)) by {
            assert forall|i: int| 0 <= i < drawn.len() implies (#[trigger] drawn[i]).id
                == drawn[i].name by {
                assert(left[i].id == left[i].name);
            }
        }
        let kept = if options.hide_relay_boilerplate { without_boilerplate(drawn) } else { drawn };
        lemma_kept_named(drawn);
        let shown = shown_nodes(doc, options);
        let k = choose|k: int| 0 <= k < shown.len() && shown[k] == n;
        assert(kept[k].id == kept[k].name);
    }
}

spec fn named_by_id(nodes: Seq<NodeModel>) -> bool {
    forall|i: int| 0 <= i < nodes.len() ==> (#[trigger] nodes[i]).id == nodes[i].name
}

proof fn lemma_built_named(doc: Seq<DefinitionModel>)
    ensures
        named_by_id(nodes_of(doc)),
    decreases doc.len(),
{
    if doc.len() > 0 {
        lemma_built_named(doc.drop_last());
    }
}

proof fn lemma_extended_len(
    doc: Seq<DefinitionModel>,
    nodes: Seq<NodeModel>,
    override_duplicates: bool,
)
    ensures
        extended(doc, nodes, override_duplicates).0.len() == nodes.len(),
    decreases doc.len(),
{
    if doc.len() > 0 {
        lemma_extended_len(doc.drop_last(), nodes, override_duplicates);
        if let DefinitionModel::Type(t) = doc.last() {
            let before = extended(doc.drop_last(), nodes, override_duplicates).0;
            lemma_last_place(crate::extensions::node_names(before), t.name);
        }
    }
}

proof fn lemma_removed_named(nodes: Seq<NodeModel>, removals: Seq<RemovalModel>)
    requires
        named_by_id(nodes),
    ensures
        named_by_id(removed(nodes, removals).0),
    decreases removals.len(),
{
    if removals.len() > 0 {
        lemma_removed_named(nodes, removals.drop_last());
        let before = removed(nodes, removals.drop_last()).0;
        let r = removals.last();
        lemma_first_place(crate::extensions::node_names(before), r.type_);
        let after = removed(nodes, removals).0;
        assert forall|i: int| 0 <= i < after.len() implies (#[trigger] after[i]).id == after[i].name by {
            let p = crate::lists::first_place(crate::extensions::node_names(before), r.type_);
            if p < before.len() {
                if r.member is None && i >= p {
                    assert(before[i + 1].id == before[i + 1].name);
                } else {
                    assert(before[i].id == before[i].name);
                }
            } else {
                assert(before[i].id == before[i].name);
            }
        }
    }
}

proof fn lemma_kept_named(nodes: Seq<NodeModel>)
    requires
        named_by_id(nodes),
    ensures
        named_by_id(without_boilerplate(nodes)),
    decreases nodes.len(),
{
    if nodes.len() > 0 {
        let rest = nodes.drop_last();
        assert forall|i: int| 0 <= i < rest.len() implies (#[trigger] rest[i]).id == rest[i].name by {
            assert(rest[i] == nodes[i]);
        }
        lemma_kept_named(rest);
        assert(nodes[nodes.len() - 1].id == nodes[nodes.len() - 1].name);
    }
}

} // verus!
