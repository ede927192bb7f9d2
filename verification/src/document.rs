//! Schema documents as plain values.
//!
//! The parser of `async_graphql_parser` reads the text; here its result becomes a list of
//! [`Definition`]s that holds what the rest of the library reads of it: names, positions,
//! descriptions, types and directives.

use vstd::prelude::*;

use async_graphql_parser::types::{
    BaseType, ConstDirective, EnumValueDefinition, FieldDefinition, InputValueDefinition, Type,
    TypeKind, TypeSystemDefinition,
};
use async_graphql_parser::{parse_schema, Positioned};
use async_graphql_value::ConstValue;

verus! {

/// A type as written: a name or a list, `!` or not.
#[derive(Debug, PartialEq, Eq)]
pub enum TypeRef {
    Named { name: String, nullable: bool },
    List { item: Box<TypeRef>, nullable: bool },
}

/// Model of a [`TypeRef`].
pub enum TypeModel {
    Named { name: Seq<char>, nullable: bool },
    List { item: Box<TypeModel>, nullable: bool },
}

/// The model of a type.
pub open spec fn type_model(t: TypeRef) -> TypeModel
    decreases t,
{
    match t {
        TypeRef::Named { name, nullable } => TypeModel::Named { name: name@, nullable },
        TypeRef::List { item, nullable } => TypeModel::List {
            item: Box::new(type_model(*item)),
            nullable,
        },
    }
}

impl DeepView for TypeRef {
    type V = TypeModel;

    open spec fn deep_view(&self) -> TypeModel {
        type_model(*self)
    }
}

/// A directive with its arguments: the name of each and, for a string literal, its value.
#[derive(Debug, PartialEq, Eq)]
pub struct DirectiveDecl {
    pub name: String,
    pub arguments: Vec<(String, Option<String>)>,
}

/// Model of a [`DirectiveDecl`].
#[verifier::ext_equal]
pub struct DirectiveModel {
    pub name: Seq<char>,
    pub arguments: Seq<(Seq<char>, Option<Seq<char>>)>,
}

impl DeepView for DirectiveDecl {
    type V = DirectiveModel;

    open spec fn deep_view(&self) -> DirectiveModel {
        DirectiveModel { name: self.name@, arguments: self.arguments.deep_view() }
    }
}

/// An argument of a field, or a field of an input object.
#[derive(Debug, PartialEq, Eq)]
pub struct InputDecl {
    pub name: String,
    pub description: Option<String>,
    pub ty: TypeRef,
    pub directives: Vec<DirectiveDecl>,
}

/// Model of an [`InputDecl`].
#[verifier::ext_equal]
pub struct InputModel {
    pub name: Seq<char>,
    pub description: Option<Seq<char>>,
    pub ty: TypeModel,
    pub directives: Seq<DirectiveModel>,
}

impl DeepView for InputDecl {
    type V = InputModel;

    open spec fn deep_view(&self) -> InputModel {
        InputModel {
            name: self.name@,
            description: self.description.deep_view(),
            ty: self.ty.deep_view(),
            directives: self.directives.deep_view(),
        }
    }
}

/// A field of an object or interface.
#[derive(Debug, PartialEq, Eq)]
pub struct FieldDecl {
    pub name: String,
    pub description: Option<String>,
    pub ty: TypeRef,
    pub arguments: Vec<InputDecl>,
    pub directives: Vec<DirectiveDecl>,
}

/// Model of a [`FieldDecl`].
#[verifier::ext_equal]
pub struct FieldDeclModel {
    pub name: Seq<char>,
    pub description: Option<Seq<char>>,
    pub ty: TypeModel,
    pub arguments: Seq<InputModel>,
    pub directives: Seq<DirectiveModel>,
}

impl DeepView for FieldDecl {
    type V = FieldDeclModel;

    open spec fn deep_view(&self) -> FieldDeclModel {
        FieldDeclModel {
            name: self.name@,
            description: self.description.deep_view(),
            ty: self.ty.deep_view(),
            arguments: self.arguments.deep_view(),
            directives: self.directives.deep_view(),
        }
    }
}

/// A value of an enum.
#[derive(Debug, PartialEq, Eq)]
pub struct ValueDecl {
    pub name: String,
    pub description: Option<String>,
    pub directives: Vec<DirectiveDecl>,
}

/// Model of a [`ValueDecl`].
#[verifier::ext_equal]
pub struct ValueDeclModel {
    pub name: Seq<char>,
    pub description: Option<Seq<char>>,
    pub directives: Seq<DirectiveModel>,
}

impl DeepView for ValueDecl {
    type V = ValueDeclModel;

    open spec fn deep_view(&self) -> ValueDeclModel {
        ValueDeclModel {
            name: self.name@,
            description: self.description.deep_view(),
            directives: self.directives.deep_view(),
        }
    }
}

/// What a type definition or extension holds.
#[derive(Debug, PartialEq, Eq)]
pub enum KindDecl {
    Scalar,
    Object { implements: Vec<String>, fields: Vec<FieldDecl> },
    Interface { implements: Vec<String>, fields: Vec<FieldDecl> },
    Union { members: Vec<String> },
    Enum { values: Vec<ValueDecl> },
    Input { fields: Vec<InputDecl> },
}

/// Model of a [`KindDecl`].
#[verifier::ext_equal]
pub enum KindModel {
    Scalar,
    Object { implements: Seq<Seq<char>>, fields: Seq<FieldDeclModel> },
    Interface { implements: Seq<Seq<char>>, fields: Seq<FieldDeclModel> },
    Union { members: Seq<Seq<char>> },
    Enum { values: Seq<ValueDeclModel> },
    Input { fields: Seq<InputModel> },
}

impl DeepView for KindDecl {
    type V = KindModel;

    open spec fn deep_view(&self) -> KindModel {
        match self {
            KindDecl::Scalar => KindModel::Scalar,
            KindDecl::Object { implements, fields } => KindModel::Object {
                implements: implements.deep_view(),
                fields: fields.deep_view(),
            },
            KindDecl::Interface { implements, fields } => KindModel::Interface {
                implements: implements.deep_view(),
                fields: fields.deep_view(),
            },
            KindDecl::Union { members } => KindModel::Union { members: members.deep_view() },
            KindDecl::Enum { values } => KindModel::Enum { values: values.deep_view() },
            KindDecl::Input { fields } => KindModel::Input { fields: fields.deep_view() },
        }
    }
}

/// A type definition, or an extension of one.
#[derive(Debug, PartialEq, Eq)]
pub struct TypeDecl {
    pub extend: bool,
    pub line: usize,
    pub column: usize,
    pub name: String,
    pub description: Option<String>,
    pub kind: KindDecl,
}

/// Model of a [`TypeDecl`].
#[verifier::ext_equal]
pub struct TypeDeclModel {
    pub extend: bool,
    pub line: usize,
    pub column: usize,
    pub name: Seq<char>,
    pub description: Option<Seq<char>>,
    pub kind: KindModel,
}

impl DeepView for TypeDecl {
    type V = TypeDeclModel;

    open spec fn deep_view(&self) -> TypeDeclModel {
        TypeDeclModel {
            extend: self.extend,
            line: self.line,
            column: self.column,
            name: self.name@,
            description: self.description.deep_view(),
            kind: self.kind.deep_view(),
        }
    }
}

/// One definition of a document.
#[derive(Debug, PartialEq, Eq)]
pub enum Definition {
    /// `schema { … }` or `extend schema { … }`.
    Schema { query: Option<String>, mutation: Option<String>, subscription: Option<String> },
    Type(TypeDecl),
    /// `directive @… on …`.
    Directive,
}

/// Model of a [`Definition`].
#[verifier::ext_equal]
pub enum DefinitionModel {
    Schema { query: Option<Seq<char>>, mutation: Option<Seq<char>>, subscription: Option<Seq<char>> },
    Type(TypeDeclModel),
    Directive,
}

impl DeepView for Definition {
    type V = DefinitionModel;

    open spec fn deep_view(&self) -> DefinitionModel {
        match self {
            Definition::Schema { query, mutation, subscription } => DefinitionModel::Schema {
                query: query.deep_view(),
                mutation: mutation.deep_view(),
                subscription: subscription.deep_view(),
            },
            Definition::Type(t) => DefinitionModel::Type(t.deep_view()),
            Definition::Directive => DefinitionModel::Directive,
        }
    }
}

/// A definition of a document, `async_graphql_parser::types::TypeSystemDefinition`.
#[verifier::external_type_specification]
#[verifier::external_body]
pub struct ExTypeSystemDefinition(TypeSystemDefinition);

/// The kind of a type definition, `async_graphql_parser::types::TypeKind`.
#[verifier::external_type_specification]
#[verifier::external_body]
pub struct ExTypeKind(TypeKind);

/// Something with its position in the text, `async_graphql_parser::Positioned`.
#[verifier::external_type_specification]
#[verifier::external_body]
#[verifier::reject_recursive_types(T)]
pub struct ExPositioned<T: ?Sized>(Positioned<T>);

/// A field, `async_graphql_parser::types::FieldDefinition`.
#[verifier::external_type_specification]
#[verifier::external_body]
pub struct ExFieldDefinition(FieldDefinition);

/// An argument or input field, `async_graphql_parser::types::InputValueDefinition`.
#[verifier::external_type_specification]
#[verifier::external_body]
pub struct ExInputValueDefinition(InputValueDefinition);

/// An enum value, `async_graphql_parser::types::EnumValueDefinition`.
#[verifier::external_type_specification]
#[verifier::external_body]
pub struct ExEnumValueDefinition(EnumValueDefinition);

/// A directive on a definition, `async_graphql_parser::types::ConstDirective`.
#[verifier::external_type_specification]
#[verifier::external_body]
pub struct ExConstDirective(ConstDirective);

/// A type as written, `async_graphql_parser::types::Type`.
#[verifier::external_type_specification]
#[verifier::external_body]
pub struct ExType(Type);

/// What a parsed type holds.
pub uninterp spec fn parsed_type(t: Type) -> TypeModel;

/// What a parsed directive holds.
pub uninterp spec fn parsed_directive(d: Positioned<ConstDirective>) -> DirectiveModel;

/// What a parsed input value holds.
pub uninterp spec fn parsed_input(d: Positioned<InputValueDefinition>) -> InputModel;

/// What a parsed field holds.
pub uninterp spec fn parsed_field(d: Positioned<FieldDefinition>) -> FieldDeclModel;

/// What a parsed enum value holds.
pub uninterp spec fn parsed_value(d: Positioned<EnumValueDefinition>) -> ValueDeclModel;

/// What the kind of a parsed type definition holds.
pub uninterp spec fn parsed_kind(k: TypeKind) -> KindModel;

/// What a parsed definition holds.
pub uninterp spec fn parsed_definition(d: TypeSystemDefinition) -> DefinitionModel;

/// What `async_graphql_parser::parse_schema` makes of a text: the definitions in order, or the
/// message of its error.
pub uninterp spec fn schema_document(sdl: Seq<char>) -> Result<Seq<DefinitionModel>, Seq<char>>;

/// A type taken apart by one level.
enum TypeParts {
    Named(String, bool),
    List(Type, bool),
}

/// A field taken apart.
struct FieldParts {
    name: String,
    description: Option<String>,
    ty: Type,
    arguments: Vec<Positioned<InputValueDefinition>>,
    directives: Vec<Positioned<ConstDirective>>,
}

/// An input value taken apart.
struct InputParts {
    name: String,
    description: Option<String>,
    ty: Type,
    directives: Vec<Positioned<ConstDirective>>,
}

/// An enum value taken apart.
struct ValueParts {
    name: String,
    description: Option<String>,
    directives: Vec<Positioned<ConstDirective>>,
}

/// The kind of a type definition taken apart.
enum KindParts {
    Scalar,
    Object(Vec<String>, Vec<Positioned<FieldDefinition>>),
    Interface(Vec<String>, Vec<Positioned<FieldDefinition>>),
    Union(Vec<String>),
    Enum(Vec<Positioned<EnumValueDefinition>>),
    Input(Vec<Positioned<InputValueDefinition>>),
}

/// A definition taken apart.
enum DefinitionParts {
    Schema(Option<String>, Option<String>, Option<String>),
    Type(bool, (usize, usize), String, Option<String>, TypeKind),
    Directive,
}

spec fn directives_held(v: Seq<Positioned<ConstDirective>>) -> Seq<DirectiveModel> {
    v.map_values(|d: Positioned<ConstDirective>| parsed_directive(d))
}

spec fn inputs_held(v: Seq<Positioned<InputValueDefinition>>) -> Seq<InputModel> {
    v.map_values(|d: Positioned<InputValueDefinition>| parsed_input(d))
}

spec fn fields_held(v: Seq<Positioned<FieldDefinition>>) -> Seq<FieldDeclModel> {
    v.map_values(|d: Positioned<FieldDefinition>| parsed_field(d))
}

spec fn values_held(v: Seq<Positioned<EnumValueDefinition>>) -> Seq<ValueDeclModel> {
    v.map_values(|d: Positioned<EnumValueDefinition>| parsed_value(d))
}

spec fn type_held(p: TypeParts) -> TypeModel {
    match p {
        TypeParts::Named(name, nullable) => TypeModel::Named { name: name@, nullable },
        TypeParts::List(item, nullable) => TypeModel::List {
            item: Box::new(parsed_type(item)),
            nullable,
        },
    }
}

spec fn kind_held(p: KindParts) -> KindModel {
    match p {
        KindParts::Scalar => KindModel::Scalar,
        KindParts::Object(implements, fields) => KindModel::Object {
            implements: implements.deep_view(),
            fields: fields_held(fields@),
        },
        KindParts::Interface(implements, fields) => KindModel::Interface {
            implements: implements.deep_view(),
            fields: fields_held(fields@),
        },
        KindParts::Union(members) => KindModel::Union { members: members.deep_view() },
        KindParts::Enum(values) => KindModel::Enum { values: values_held(values@) },
        KindParts::Input(fields) => KindModel::Input { fields: inputs_held(fields@) },
    }
}

spec fn definition_held(p: DefinitionParts) -> DefinitionModel {
    match p {
        DefinitionParts::Schema(query, mutation, subscription) => DefinitionModel::Schema {
            query: query.deep_view(),
            mutation: mutation.deep_view(),
            subscription: subscription.deep_view(),
        },
        DefinitionParts::Type(extend, at, name, description, kind) => DefinitionModel::Type(
            TypeDeclModel {
                extend,
                line: at.0,
                column: at.1,
                name: name@,
                description: description.deep_view(),
                kind: parsed_kind(kind),
            },
        ),
        DefinitionParts::Directive => DefinitionModel::Directive,
    }
}

/// Calls `async_graphql_parser::parse_schema` and hands out the definitions of the document it
/// returns, or its error as that error displays itself. The result is a function of the text, and
/// [`schema_document`] names it. The parser looks at how much of the stack is left, and gives up on
/// a text that is nested too deep for it: running out of stack, like running out of memory, is left
/// aside here.
#[verifier::external_body]
fn parse(sdl: &str) -> (r: Result<Vec<TypeSystemDefinition>, String>)
    ensures
        match r {
            Ok(defs) => schema_document(sdl@) == Ok::<Seq<DefinitionModel>, Seq<char>>(
                defs@.map_values(|d: TypeSystemDefinition| parsed_definition(d)),
            ),
            Err(e) => schema_document(sdl@) == Err::<Seq<DefinitionModel>, Seq<char>>(e@),
        },
{
    match parse_schema(sdl) {
        Ok(doc) => Ok(doc.definitions),
        Err(e) => Err(e.to_string()),
    }
}

/// Takes a `Type` of the parser apart: its base, a name or a list, and whether it is nullable.
#[verifier::external_body]
fn split_type(t: Type) -> (r: TypeParts)
    ensures
        type_held(r) == parsed_type(t),
{
    match t.base {
        BaseType::Named(name) => TypeParts::Named(name.to_string(), t.nullable),
        BaseType::List(item) => TypeParts::List(*item, t.nullable),
    }
}

/// Takes a `ConstDirective` of the parser apart: its name, and for each argument the name and the
/// value where that is a `ConstValue::String`.
#[verifier::external_body]
fn split_directive(d: Positioned<ConstDirective>) -> (r: DirectiveDecl)
    ensures
        r.deep_view() == parsed_directive(d),
{
    let text = |v: ConstValue| match v {
        ConstValue::String(s) => Some(s),
        ConstValue::Null => None,
        ConstValue::Number(_) => None,
        ConstValue::Boolean(_) => None,
        ConstValue::Binary(_) => None,
        ConstValue::Enum(_) => None,
        ConstValue::List(_) => None,
        ConstValue::Object(_) => None,
    };
    let arguments = d.node.arguments.into_iter().map(|(n, v)| (n.node.to_string(), text(v.node)));
    DirectiveDecl { name: d.node.name.node.to_string(), arguments: arguments.collect() }
}

/// Takes an `InputValueDefinition` of the parser apart, its default value left out.
#[verifier::external_body]
fn split_input(d: Positioned<InputValueDefinition>) -> (r: InputParts)
    ensures
        parsed_input(d) == (InputModel {
            name: r.name@,
            description: r.description.deep_view(),
            ty: parsed_type(r.ty),
            directives: directives_held(r.directives@),
        }),
{
    InputParts {
        name: d.node.name.node.to_string(),
        description: d.node.description.map(|t| t.node),
        ty: d.node.ty.node,
        directives: d.node.directives,
    }
}

/// Takes a `FieldDefinition` of the parser apart.
#[verifier::external_body]
fn split_field(d: Positioned<FieldDefinition>) -> (r: FieldParts)
    ensures
        parsed_field(d) == (FieldDeclModel {
            name: r.name@,
            description: r.description.deep_view(),
            ty: parsed_type(r.ty),
            arguments: inputs_held(r.arguments@),
            directives: directives_held(r.directives@),
        }),
{
    FieldParts {
        name: d.node.name.node.to_string(),
        description: d.node.description.map(|t| t.node),
        ty: d.node.ty.node,
        arguments: d.node.arguments,
        directives: d.node.directives,
    }
}

/// Takes an `EnumValueDefinition` of the parser apart.
#[verifier::external_body]
fn split_value(d: Positioned<EnumValueDefinition>) -> (r: ValueParts)
    ensures
        parsed_value(d) == (ValueDeclModel {
            name: r.name@,
            description: r.description.deep_view(),
            directives: directives_held(r.directives@),
        }),
{
    ValueParts {
        name: d.node.value.node.to_string(),
        description: d.node.description.map(|t| t.node),
        directives: d.node.directives,
    }
}

/// Takes a `TypeKind` of the parser apart, variant by variant.
#[verifier::external_body]
fn split_kind(k: TypeKind) -> (r: KindParts)
    ensures
        kind_held(r) == parsed_kind(k),
{
    match k {
        TypeKind::Scalar => KindParts::Scalar,
        TypeKind::Object(o) => {
            KindParts::Object(o.implements.iter().map(|n| n.node.to_string()).collect(), o.fields)
        },
        TypeKind::Interface(i) => {
            KindParts::Interface(i.implements.iter().map(|n| n.node.to_string()).collect(), i.fields)
        },
        TypeKind::Union(u) => KindParts::Union(u.members.iter().map(|n| n.node.to_string()).collect()),
        TypeKind::Enum(e) => KindParts::Enum(e.values),
        TypeKind::InputObject(i) => KindParts::Input(i.fields),
    }
}

/// Takes a `TypeSystemDefinition` of the parser apart: the root operation names of a schema block;
/// extension flag, position, name, description and kind of a type.
#[verifier::external_body]
fn split_definition(d: TypeSystemDefinition) -> (r: DefinitionParts)
    ensures
        definition_held(r) == parsed_definition(d),
{
    match d {
        TypeSystemDefinition::Schema(s) => DefinitionParts::Schema(
            s.node.query.map(|n| n.node.to_string()),
            s.node.mutation.map(|n| n.node.to_string()),
            s.node.subscription.map(|n| n.node.to_string()),
        ),
        TypeSystemDefinition::Type(t) => {
            let (at, description) = ((t.pos.line, t.pos.column), t.node.description.map(|d| d.node));
            DefinitionParts::Type(t.node.extend, at, t.node.name.node.to_string(), description, t.node.kind)
        },
        TypeSystemDefinition::Directive(_) => DefinitionParts::Directive,
    }
}

fn read_type(t: Type) -> (r: TypeRef)
    ensures
        r.deep_view() == parsed_type(t),
    decreases parsed_type(t),
{
    match split_type(t) {
        TypeParts::Named(name, nullable) => TypeRef::Named { name, nullable },
        TypeParts::List(item, nullable) => {
            assert(parsed_type(t) is List && *parsed_type(t)->item == parsed_type(item));
            let inner = read_type(item);
            TypeRef::List { item: Box::new(inner), nullable }
        },
    }
}

fn read_directives(v: Vec<Positioned<ConstDirective>>) -> (r: Vec<DirectiveDecl>)
    ensures
        r.deep_view() == directives_held(v@),
{
    let mut out: Vec<DirectiveDecl> = Vec::new();
    for d in it: v
        invariant
            out.deep_view() == directives_held(it.seq()).take(it.index() as int),
            it.seq() == v@,
    {
        let ghost i = it.index() as int;
        assert(directives_held(it.seq()).take(i + 1) =~= directives_held(it.seq()).take(i).push(
            parsed_directive(d),
        ));
        let ghost before = out.deep_view();
        out.push(split_directive(d));
        assert(out.deep_view() =~= before.push(parsed_directive(d)));
    }
    assert(out.deep_view() =~= directives_held(v@));
    out
}

fn read_input(d: Positioned<InputValueDefinition>) -> (r: InputDecl)
    ensures
        r.deep_view() == parsed_input(d),
{
    let p = split_input(d);
    InputDecl {
        name: p.name,
        description: p.description,
        ty: read_type(p.ty),
        directives: read_directives(p.directives),
    }
}

fn read_inputs(v: Vec<Positioned<InputValueDefinition>>) -> (r: Vec<InputDecl>)
    ensures
        r.deep_view() == inputs_held(v@),
{
    let mut out: Vec<InputDecl> = Vec::new();
    for d in it: v
        invariant
            out.deep_view() == inputs_held(it.seq()).take(it.index() as int),
            it.seq() == v@,
    {
        let ghost i = it.index() as int;
        assert(inputs_held(it.seq()).take(i + 1) =~= inputs_held(it.seq()).take(i).push(
            parsed_input(d),
        ));
        let ghost before = out.deep_view();
        out.push(read_input(d));
        assert(out.deep_view() =~= before.push(parsed_input(d)));
    }
    assert(out.deep_view() =~= inputs_held(v@));
    out
}

fn read_field(d: Positioned<FieldDefinition>) -> (r: FieldDecl)
    ensures
        r.deep_view() == parsed_field(d),
{
    let p = split_field(d);
    FieldDecl {
        name: p.name,
        description: p.description,
        ty: read_type(p.ty),
        arguments: read_inputs(p.arguments),
        directives: read_directives(p.directives),
    }
}

fn read_fields(v: Vec<Positioned<FieldDefinition>>) -> (r: Vec<FieldDecl>)
    ensures
        r.deep_view() == fields_held(v@),
{
    let mut out: Vec<FieldDecl> = Vec::new();
    for d in it: v
        invariant
            out.deep_view() == fields_held(it.seq()).take(it.index() as int),
            it.seq() == v@,
    {
        let ghost i = it.index() as int;
        assert(fields_held(it.seq()).take(i + 1) =~= fields_held(it.seq()).take(i).push(
            parsed_field(d),
        ));
        let ghost before = out.deep_view();
        out.push(read_field(d));
        assert(out.deep_view() =~= before.push(parsed_field(d)));
    }
    assert(out.deep_view() =~= fields_held(v@));
    out
}

fn read_value(d: Positioned<EnumValueDefinition>) -> (r: ValueDecl)
    ensures
        r.deep_view() == parsed_value(d),
{
    let p = split_value(d);
    ValueDecl { name: p.name, description: p.description, directives: read_directives(p.directives) }
}

fn read_values(v: Vec<Positioned<EnumValueDefinition>>) -> (r: Vec<ValueDecl>)
    ensures
        r.deep_view() == values_held(v@),
{
    let mut out: Vec<ValueDecl> = Vec::new();
    for d in it: v
        invariant
            out.deep_view() == values_held(it.seq()).take(it.index() as int),
            it.seq() == v@,
    {
        let ghost i = it.index() as int;
        assert(values_held(it.seq()).take(i + 1) =~= values_held(it.seq()).take(i).push(
            parsed_value(d),
        ));
        let ghost before = out.deep_view();
        out.push(read_value(d));
        assert(out.deep_view() =~= before.push(parsed_value(d)));
    }
    assert(out.deep_view() =~= values_held(v@));
    out
}

fn read_kind(k: TypeKind) -> (r: KindDecl)
    ensures
        r.deep_view() == parsed_kind(k),
{
    match split_kind(k) {
        KindParts::Scalar => KindDecl::Scalar,
        KindParts::Object(implements, fields) => KindDecl::Object {
            implements,
            fields: read_fields(fields),
        },
        KindParts::Interface(implements, fields) => KindDecl::Interface {
            implements,
            fields: read_fields(fields),
        },
        KindParts::Union(members) => KindDecl::Union { members },
        KindParts::Enum(values) => KindDecl::Enum { values: read_values(values) },
        KindParts::Input(fields) => KindDecl::Input { fields: read_inputs(fields) },
    }
}

fn read_definition(d: TypeSystemDefinition) -> (r: Definition)
    ensures
        r.deep_view() == parsed_definition(d),
{
    match split_definition(d) {
        DefinitionParts::Schema(query, mutation, subscription) => Definition::Schema {
            query,
            mutation,
            subscription,
        },
        DefinitionParts::Type(extend, at, name, description, kind) => Definition::Type(
            TypeDecl { extend, line: at.0, column: at.1, name, description, kind: read_kind(kind) },
        ),
        DefinitionParts::Directive => Definition::Directive,
    }
}

/// Reads a schema document: its definitions in order, or the parser's message where the text is
/// none.
pub fn read_document(sdl: &str) -> (r: Result<Vec<Definition>, String>)
    ensures
        match r {
            Ok(doc) => schema_document(sdl@) == Ok::<Seq<DefinitionModel>, Seq<char>>(doc.deep_view()),
            Err(e) => schema_document(sdl@) == Err::<Seq<DefinitionModel>, Seq<char>>(e@),
        },
{
    match parse(sdl) {
        Err(e) => Err(e),
        Ok(defs) => {
            let ghost held = defs@.map_values(|d: TypeSystemDefinition| parsed_definition(d));
            let mut out: Vec<Definition> = Vec::new();
            for d in it: defs
                invariant
                    out.deep_view() == held.take(it.index() as int),
                    it.seq() == defs@,
                    held == defs@.map_values(|d: TypeSystemDefinition| parsed_definition(d)),
            {
                let ghost i = it.index() as int;
                assert(held.take(i + 1) =~= held.take(i).push(parsed_definition(d)));
                let ghost before = out.deep_view();
                out.push(read_definition(d));
                assert(out.deep_view() =~= before.push(parsed_definition(d)));
            }
            assert(out.deep_view() =~= held);
            Ok(out)
        },
    }
}

/// A type as it is written: `[User!]!`.
pub open spec fn rendered(t: TypeModel) -> Seq<char>
    decreases t,
{
    match t {
        TypeModel::Named { name, nullable } => if nullable { name } else { name + "!"@ },
        TypeModel::List { item, nullable } => {
            let inner = "["@ + rendered(*item) + "]"@;
            if nullable { inner } else { inner + "!"@ }
        },
    }
}

/// The named type under all lists.
pub open spec fn base_name_of(t: TypeModel) -> Seq<char>
    decreases t,
{
    match t {
        TypeModel::Named { name, .. } => name,
        TypeModel::List { item, .. } => base_name_of(*item),
    }
}

/// Whether the type as a whole may be null.
pub open spec fn is_nullable(t: TypeModel) -> bool {
    match t {
        TypeModel::Named { nullable, .. } => nullable,
        TypeModel::List { nullable, .. } => nullable,
    }
}

/// Renders a type as written (`[User!]!`).
pub fn render_type(t: &TypeRef) -> (r: String)
    ensures
        r@ == rendered(t.deep_view()),
    decreases t,
{
    match t {
        TypeRef::Named { name, nullable } => {
            let mut s = name.clone();
            if !*nullable {
                s.append("!");
            }
            s
        },
        TypeRef::List { item, nullable } => {
            let inner = render_type(&**item);
            let mut s = "[".to_owned();
            s.append(inner.as_str());
            s.append("]");
            if !*nullable {
                s.append("!");
            }
            s
        },
    }
}

/// The named type under all lists.
pub fn base_name(t: &TypeRef) -> (r: String)
    ensures
        r@ == base_name_of(t.deep_view()),
    decreases t,
{
    match t {
        TypeRef::Named { name, .. } => name.clone(),
        TypeRef::List { item, .. } => base_name(&**item),
    }
}

/// Whether the type as a whole may be null.
pub fn nullable_type(t: &TypeRef) -> (r: bool)
    ensures
        r == is_nullable(t.deep_view()),
{
    match t {
        TypeRef::Named { nullable, .. } => *nullable,
        TypeRef::List { nullable, .. } => *nullable,
    }
}

} // verus!
