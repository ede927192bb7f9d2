//! Graph data model.
//!
//! A slot is `Option<…>` where the difference between "absent" and "empty" is observable (such as
//! `fields` against `values`, which tells a node's kind), and a plain `bool` elsewhere. Each type
//! has a model of the same shape over character sequences, which contracts speak of.

use vstd::prelude::*;

verus! {

/// The six type-system kinds a schema node can have.
#[derive(Debug, Clone, Copy, PartialEq, Eq, Hash, PartialOrd, Ord, Structural)]
pub enum NodeKind {
    Object,
    Interface,
    Union,
    Enum,
    Scalar,
    Input,
}

impl NodeKind {
    /// The name of the kind.
    pub open spec fn name(self) -> Seq<char> {
        match self {
            NodeKind::Object => "Object"@,
            NodeKind::Interface => "Interface"@,
            NodeKind::Union => "Union"@,
            NodeKind::Enum => "Enum"@,
            NodeKind::Scalar => "Scalar"@,
            NodeKind::Input => "Input"@,
        }
    }

    /// The SDL keyword of the kind.
    pub open spec fn keyword(self) -> Seq<char> {
        match self {
            NodeKind::Object => "type"@,
            NodeKind::Interface => "interface"@,
            NodeKind::Union => "union"@,
            NodeKind::Enum => "enum"@,
            NodeKind::Scalar => "scalar"@,
            NodeKind::Input => "input"@,
        }
    }

    /// The name of the kind (`"Object"`, `"Interface"`, …).
    pub fn as_str(self) -> (r: &'static str)
        ensures
            r@ == self.name(),
    {
        match self {
            NodeKind::Object => "Object",
            NodeKind::Interface => "Interface",
            NodeKind::Union => "Union",
            NodeKind::Enum => "Enum",
            NodeKind::Scalar => "Scalar",
            NodeKind::Input => "Input",
        }
    }

    /// SDL keyword used when reporting an extension against this kind.
    pub fn sdl_keyword(self) -> (r: &'static str)
        ensures
            r@ == self.keyword(),
    {
        match self {
            NodeKind::Object => "type",
            NodeKind::Interface => "interface",
            NodeKind::Union => "union",
            NodeKind::Enum => "enum",
            NodeKind::Scalar => "scalar",
            NodeKind::Input => "input",
        }
    }
}

/// One entry of a field's argument list.
#[derive(Debug, Clone, PartialEq, Eq)]
pub struct GraphArg {
    pub name: String,
    /// Rendered type, e.g. `[String!]!`.
    pub type_: String,
    /// Underlying named type, e.g. `String`.
    pub base_type: String,
}

/// Model of a [`GraphArg`].
#[verifier::ext_equal]
pub struct ArgModel {
    pub name: Seq<char>,
    pub type_: Seq<char>,
    pub base_type: Seq<char>,
}

impl DeepView for GraphArg {
    type V = ArgModel;

    open spec fn deep_view(&self) -> ArgModel {
        ArgModel { name: self.name@, type_: self.type_@, base_type: self.base_type@ }
    }
}

/// A field row on an Object / Interface / Input node.
#[derive(Debug, Clone, PartialEq, Eq)]
pub struct GraphField {
    pub name: String,
    /// Rendered type as written in the SDL, e.g. `[User!]!`.
    pub type_: String,
    /// Underlying named type. Rewritten to the node type when a Relay Connection/Edge wrapper is
    /// unwrapped.
    pub base_type: String,
    pub nullable: bool,
    /// Set when `base_type` was rewritten past a Relay Connection/Edge.
    pub is_relay_connection: bool,
    /// `None` for input-object fields, which have no argument list at all.
    pub args: Option<Vec<GraphArg>>,
    pub description: Option<String>,
    pub is_deprecated: bool,
    pub deprecation_reason: Option<String>,
    /// Sunset date (`YYYY-MM-DD`) from a `[until …]` marker in the deprecation reason.
    pub until: Option<String>,
    /// Set when this field came from the overlay rather than the loaded schema.
    pub is_overlay: bool,
}

/// Model of a [`GraphField`].
#[verifier::ext_equal]
pub struct FieldModel {
    pub name: Seq<char>,
    pub type_: Seq<char>,
    pub base_type: Seq<char>,
    pub nullable: bool,
    pub is_relay_connection: bool,
    pub args: Option<Seq<ArgModel>>,
    pub description: Option<Seq<char>>,
    pub is_deprecated: bool,
    pub deprecation_reason: Option<Seq<char>>,
    pub until: Option<Seq<char>>,
    pub is_overlay: bool,
}

impl DeepView for GraphField {
    type V = FieldModel;

    open spec fn deep_view(&self) -> FieldModel {
        FieldModel {
            name: self.name@,
            type_: self.type_@,
            base_type: self.base_type@,
            nullable: self.nullable,
            is_relay_connection: self.is_relay_connection,
            args: self.args.deep_view(),
            description: self.description.deep_view(),
            is_deprecated: self.is_deprecated,
            deprecation_reason: self.deprecation_reason.deep_view(),
            until: self.until.deep_view(),
            is_overlay: self.is_overlay,
        }
    }
}

impl Default for GraphField {
    /// A field with every text empty and every flag down.
    fn default() -> (r: Self)
        ensures
            r.deep_view() == empty_field(),
    {
        GraphField {
            name: String::new(),
            type_: String::new(),
            base_type: String::new(),
            nullable: false,
            is_relay_connection: false,
            args: None,
            description: None,
            is_deprecated: false,
            deprecation_reason: None,
            until: None,
            is_overlay: false,
        }
    }
}

/// The field with every text empty and every flag down.
pub open spec fn empty_field() -> FieldModel {
    FieldModel {
        name: Seq::empty(),
        type_: Seq::empty(),
        base_type: Seq::empty(),
        nullable: false,
        is_relay_connection: false,
        args: None,
        description: None,
        is_deprecated: false,
        deprecation_reason: None,
        until: None,
        is_overlay: false,
    }
}

/// One value of an Enum node.
#[derive(Debug, Clone, PartialEq, Eq)]
pub struct EnumValue {
    pub name: String,
    pub description: Option<String>,
    pub is_deprecated: bool,
    pub deprecation_reason: Option<String>,
    /// See [`GraphField::until`].
    pub until: Option<String>,
    /// See [`GraphField::is_overlay`].
    pub is_overlay: bool,
}

/// Model of an [`EnumValue`].
#[verifier::ext_equal]
pub struct ValueModel {
    pub name: Seq<char>,
    pub description: Option<Seq<char>>,
    pub is_deprecated: bool,
    pub deprecation_reason: Option<Seq<char>>,
    pub until: Option<Seq<char>>,
    pub is_overlay: bool,
}

impl DeepView for EnumValue {
    type V = ValueModel;

    open spec fn deep_view(&self) -> ValueModel {
        ValueModel {
            name: self.name@,
            description: self.description.deep_view(),
            is_deprecated: self.is_deprecated,
            deprecation_reason: self.deprecation_reason.deep_view(),
            until: self.until.deep_view(),
            is_overlay: self.is_overlay,
        }
    }
}

impl Default for EnumValue {
    /// A value with every text empty and every flag down.
    fn default() -> (r: Self)
        ensures
            r.deep_view() == (ValueModel {
                name: Seq::empty(),
                description: None,
                is_deprecated: false,
                deprecation_reason: None,
                until: None,
                is_overlay: false,
            }),
    {
        EnumValue {
            name: String::new(),
            description: None,
            is_deprecated: false,
            deprecation_reason: None,
            until: None,
            is_overlay: false,
        }
    }
}

/// A schema type rendered as a graph node.
#[derive(Debug, Clone, PartialEq, Eq)]
pub struct GraphNodeData {
    /// Equals `name`: type names are the graph's identity.
    pub id: String,
    pub name: String,
    pub kind: NodeKind,
    pub description: Option<String>,
    /// `Some` for Object / Interface / Input, `None` otherwise.
    pub fields: Option<Vec<GraphField>>,
    /// `Some` for Enum only.
    pub values: Option<Vec<EnumValue>>,
    /// `Some` for Union only.
    pub members: Option<Vec<String>>,
    /// `Some` for Object / Interface (possibly empty), `None` otherwise.
    pub interfaces: Option<Vec<String>>,
    /// For Object types: names of Unions that hold this type, sorted. Only ever `Some` when
    /// non-empty.
    pub member_of_unions: Option<Vec<String>>,
    /// Set when the whole type is new in the overlay.
    pub is_overlay: bool,
}

/// Model of a [`GraphNodeData`].
#[verifier::ext_equal]
pub struct NodeModel {
    pub id: Seq<char>,
    pub name: Seq<char>,
    pub kind: NodeKind,
    pub description: Option<Seq<char>>,
    pub fields: Option<Seq<FieldModel>>,
    pub values: Option<Seq<ValueModel>>,
    pub members: Option<Seq<Seq<char>>>,
    pub interfaces: Option<Seq<Seq<char>>>,
    pub member_of_unions: Option<Seq<Seq<char>>>,
    pub is_overlay: bool,
}

impl DeepView for GraphNodeData {
    type V = NodeModel;

    open spec fn deep_view(&self) -> NodeModel {
        NodeModel {
            id: self.id@,
            name: self.name@,
            kind: self.kind,
            description: self.description.deep_view(),
            fields: self.fields.deep_view(),
            values: self.values.deep_view(),
            members: self.members.deep_view(),
            interfaces: self.interfaces.deep_view(),
            member_of_unions: self.member_of_unions.deep_view(),
            is_overlay: self.is_overlay,
        }
    }
}

/// A bare node with every optional slot empty.
pub open spec fn bare_node(name: Seq<char>, kind: NodeKind) -> NodeModel {
    NodeModel {
        id: name,
        name,
        kind,
        description: None,
        fields: None,
        values: None,
        members: None,
        interfaces: None,
        member_of_unions: None,
        is_overlay: false,
    }
}

impl GraphNodeData {
    /// A bare node with every optional slot empty.
    pub fn new(name: &str, kind: NodeKind) -> (r: Self)
        ensures
            r.deep_view() == bare_node(name@, kind),
    {
        GraphNodeData {
            id: name.to_owned(),
            name: name.to_owned(),
            kind,
            description: None,
            fields: None,
            values: None,
            members: None,
            interfaces: None,
            member_of_unions: None,
            is_overlay: false,
        }
    }
}

/// What an edge represents.
#[derive(Debug, Clone, Copy, PartialEq, Eq, Hash, Structural)]
pub enum EdgeKind {
    Field,
    Implements,
    Union,
    Arg,
}

impl EdgeKind {
    /// The name of the kind, in lower case.
    pub open spec fn name(self) -> Seq<char> {
        match self {
            EdgeKind::Field => "field"@,
            EdgeKind::Implements => "implements"@,
            EdgeKind::Union => "union"@,
            EdgeKind::Arg => "arg"@,
        }
    }

    /// The name of the kind, in lower case.
    pub fn as_str(self) -> (r: &'static str)
        ensures
            r@ == self.name(),
    {
        match self {
            EdgeKind::Field => "field",
            EdgeKind::Implements => "implements",
            EdgeKind::Union => "union",
            EdgeKind::Arg => "arg",
        }
    }
}

/// A directed edge between two graph nodes.
#[derive(Debug, Clone, PartialEq, Eq)]
pub struct GraphEdgeData {
    pub id: String,
    pub source: String,
    pub target: String,
    pub source_field: Option<String>,
    pub source_field_index: Option<usize>,
    pub label: Option<String>,
    pub kind: EdgeKind,
    pub nullable: Option<bool>,
    /// Set on a bundled edge that collapses several field edges sharing the same source→target
    /// into one arrow. Never set on a parsed graph; the renderer fills it in.
    pub bundled_labels: Option<Vec<String>>,
}

/// Model of a [`GraphEdgeData`].
#[verifier::ext_equal]
pub struct EdgeModel {
    pub id: Seq<char>,
    pub source: Seq<char>,
    pub target: Seq<char>,
    pub source_field: Option<Seq<char>>,
    pub source_field_index: Option<usize>,
    pub label: Option<Seq<char>>,
    pub kind: EdgeKind,
    pub nullable: Option<bool>,
    pub bundled_labels: Option<Seq<Seq<char>>>,
}

impl DeepView for GraphEdgeData {
    type V = EdgeModel;

    open spec fn deep_view(&self) -> EdgeModel {
        EdgeModel {
            id: self.id@,
            source: self.source@,
            target: self.target@,
            source_field: self.source_field.deep_view(),
            source_field_index: self.source_field_index,
            label: self.label.deep_view(),
            kind: self.kind,
            nullable: self.nullable,
            bundled_labels: self.bundled_labels.deep_view(),
        }
    }
}

/// An edge with every optional slot empty.
pub open spec fn bare_edge(
    id: Seq<char>,
    source: Seq<char>,
    target: Seq<char>,
    kind: EdgeKind,
) -> EdgeModel {
    EdgeModel {
        id,
        source,
        target,
        source_field: None,
        source_field_index: None,
        label: None,
        kind,
        nullable: None,
        bundled_labels: None,
    }
}

impl GraphEdgeData {
    /// An edge with every optional slot empty.
    pub fn new(id: &str, source: &str, target: &str, kind: EdgeKind) -> (r: Self)
        ensures
            r.deep_view() == bare_edge(id@, source@, target@, kind),
    {
        GraphEdgeData {
            id: id.to_owned(),
            source: source.to_owned(),
            target: target.to_owned(),
            source_field: None,
            source_field_index: None,
            label: None,
            kind,
            nullable: None,
            bundled_labels: None,
        }
    }
}

/// Resolved names of the three root operation types. A slot is `None` when the schema declares no
/// such root.
#[derive(Debug, Clone, PartialEq, Eq)]
pub struct RootTypeMap {
    pub query: Option<String>,
    pub mutation: Option<String>,
    pub subscription: Option<String>,
}

/// Model of a [`RootTypeMap`].
#[verifier::ext_equal]
pub struct RootModel {
    pub query: Option<Seq<char>>,
    pub mutation: Option<Seq<char>>,
    pub subscription: Option<Seq<char>>,
}

impl DeepView for RootTypeMap {
    type V = RootModel;

    open spec fn deep_view(&self) -> RootModel {
        RootModel {
            query: self.query.deep_view(),
            mutation: self.mutation.deep_view(),
            subscription: self.subscription.deep_view(),
        }
    }
}

/// No root at all.
pub open spec fn no_roots() -> RootModel {
    RootModel { query: None, mutation: None, subscription: None }
}

impl Default for RootTypeMap {
    /// No root at all.
    fn default() -> (r: Self)
        ensures
            r.deep_view() == no_roots(),
    {
        RootTypeMap { query: None, mutation: None, subscription: None }
    }
}

/// The result of parsing an SDL document into a graph.
#[derive(Debug, Clone, PartialEq, Eq)]
pub struct ParsedGraph {
    pub nodes: Vec<GraphNodeData>,
    pub edges: Vec<GraphEdgeData>,
    /// `Some` only when the document failed to parse; nodes and edges are then empty.
    pub error: Option<String>,
    pub warnings: Vec<String>,
    pub root_types: RootTypeMap,
}

/// Model of a [`ParsedGraph`].
#[verifier::ext_equal]
pub struct GraphModel {
    pub nodes: Seq<NodeModel>,
    pub edges: Seq<EdgeModel>,
    pub error: Option<Seq<char>>,
    pub warnings: Seq<Seq<char>>,
    pub root_types: RootModel,
}

impl DeepView for ParsedGraph {
    type V = GraphModel;

    open spec fn deep_view(&self) -> GraphModel {
        GraphModel {
            nodes: self.nodes.deep_view(),
            edges: self.edges.deep_view(),
            error: self.error.deep_view(),
            warnings: self.warnings.deep_view(),
            root_types: self.root_types.deep_view(),
        }
    }
}

/// The graph without nodes, edges, warnings or roots.
pub open spec fn empty_graph() -> GraphModel {
    GraphModel {
        nodes: Seq::empty(),
        edges: Seq::empty(),
        error: None,
        warnings: Seq::empty(),
        root_types: no_roots(),
    }
}

impl Default for ParsedGraph {
    /// The graph without nodes, edges, warnings or roots.
    fn default() -> (r: Self)
        ensures
            r.deep_view() == empty_graph(),
    {
        let r = ParsedGraph {
            nodes: Vec::new(),
            edges: Vec::new(),
            error: None,
            warnings: Vec::new(),
            root_types: RootTypeMap { query: None, mutation: None, subscription: None },
        };
        assert(r.deep_view() =~= empty_graph());
        r
    }
}

/// A member, or a whole type, to delete from the graph once every `extend` block has been folded
/// in. SDL has no syntax for taking something away, so subtraction is passed alongside the
/// document.
#[derive(Debug, Clone, PartialEq, Eq)]
pub struct SchemaRemoval {
    /// Name of the type the removal targets.
    pub type_: String,
    /// Field, enum value, union member or implemented interface to drop. `None` drops the whole
    /// type.
    pub member: Option<String>,
}

/// Model of a [`SchemaRemoval`].
#[verifier::ext_equal]
pub struct RemovalModel {
    pub type_: Seq<char>,
    pub member: Option<Seq<char>>,
}

impl DeepView for SchemaRemoval {
    type V = RemovalModel;

    open spec fn deep_view(&self) -> RemovalModel {
        RemovalModel { type_: self.type_@, member: self.member.deep_view() }
    }
}

impl SchemaRemoval {
    /// Drop a whole type.
    pub fn type_only(type_: &str) -> (r: Self)
        ensures
            r.deep_view() == (RemovalModel { type_: type_@, member: None }),
    {
        SchemaRemoval { type_: type_.to_owned(), member: None }
    }

    /// Drop one member of a type.
    pub fn member(type_: &str, member: &str) -> (r: Self)
        ensures
            r.deep_view() == (RemovalModel { type_: type_@, member: Some(member@) }),
    {
        SchemaRemoval { type_: type_.to_owned(), member: Some(member.to_owned()) }
    }
}

/// Knobs on reading a document as a graph.
#[derive(Debug, Clone, PartialEq, Eq)]
pub struct SdlToGraphOptions {
    /// When true (default), the standard Relay `Node` interface, `PageInfo`, and `*Edge` /
    /// `*Connection` types are folded away and field types are unwrapped to the underlying node.
    pub hide_relay_boilerplate: bool,
    /// Members to delete after extensions are applied. Runs before Relay unwrapping and edge
    /// building, so a removed field takes its edges with it.
    pub remove: Vec<SchemaRemoval>,
    /// When true, a field or enum value an extension re-declares replaces the existing one in
    /// place instead of raising a duplicate warning.
    pub override_duplicates: bool,
}

/// Model of [`SdlToGraphOptions`].
#[verifier::ext_equal]
pub struct OptionsModel {
    pub hide_relay_boilerplate: bool,
    pub remove: Seq<RemovalModel>,
    pub override_duplicates: bool,
}

impl DeepView for SdlToGraphOptions {
    type V = OptionsModel;

    open spec fn deep_view(&self) -> OptionsModel {
        OptionsModel {
            hide_relay_boilerplate: self.hide_relay_boilerplate,
            remove: self.remove.deep_view(),
            override_duplicates: self.override_duplicates,
        }
    }
}

impl Default for SdlToGraphOptions {
    /// Relay boilerplate hidden, nothing removed, duplicates reported.
    fn default() -> (r: Self)
        ensures
            r.deep_view() == (OptionsModel {
                hide_relay_boilerplate: true,
                remove: Seq::empty(),
                override_duplicates: false,
            }),
    {
        let r = SdlToGraphOptions {
            hide_relay_boilerplate: true,
            remove: Vec::new(),
            override_duplicates: false,
        };
        assert(r.remove.deep_view() =~= Seq::<RemovalModel>::empty());
        r
    }
}

} // verus!
