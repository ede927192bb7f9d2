//! Edge building.

use vstd::prelude::*;

use crate::extensions::or_empty;
use crate::lists::{has_name, last_place, lemma_last_place_is};
use crate::text::{decimal, decimal_string, same};
use crate::types::{
    bare_edge, ArgModel, EdgeKind, EdgeModel, FieldModel, GraphArg, GraphEdgeData, GraphField,
    GraphNodeData, NodeKind, NodeModel,
};

verus! {

/// The five scalars every schema has.
pub open spec fn builtin_scalar(name: Seq<char>) -> bool {
    name == "String"@ || name == "Int"@ || name == "Float"@ || name == "Boolean"@ || name == "ID"@
}

/// Decides [`builtin_scalar`].
pub fn is_builtin_scalar(name: &str) -> (r: bool)
    ensures
        r == builtin_scalar(name@),
{
    same(name, "String") || same(name, "Int") || same(name, "Float") || same(name, "Boolean")
        || same(name, "ID")
}

/// The ids of nodes.
pub open spec fn node_ids(nodes: Seq<NodeModel>) -> Seq<Seq<char>> {
    nodes.map_values(|n: NodeModel| n.id)
}

/// The kind of the last node with the id `id`.
pub open spec fn kind_by_id(nodes: Seq<NodeModel>, id: Seq<char>) -> Option<NodeKind> {
    let i = last_place(node_ids(nodes), id);
    if i < 0 { None } else { Some(nodes[i].kind) }
}

/// Whether `name` is a declared type of the kind `kind`, no built-in scalar.
pub open spec fn names_kind(nodes: Seq<NodeModel>, name: Seq<char>, kind: NodeKind) -> bool {
    !builtin_scalar(name) && kind_by_id(nodes, name) == Some(kind)
}

/// The input types among the arguments, in order, repeats kept.
pub open spec fn input_args(nodes: Seq<NodeModel>, args: Seq<ArgModel>) -> Seq<Seq<char>>
    decreases args.len(),
{
    if args.len() == 0 {
        Seq::empty()
    } else {
        let before = input_args(nodes, args.drop_last());
        let name = args.last().base_type;
        if names_kind(nodes, name, NodeKind::Input) { before.push(name) } else { before }
    }
}

/// The enum types among the arguments, in order, each once.
pub open spec fn enum_args(nodes: Seq<NodeModel>, args: Seq<ArgModel>) -> Seq<Seq<char>>
    decreases args.len(),
{
    if args.len() == 0 {
        Seq::empty()
    } else {
        let before = enum_args(nodes, args.drop_last());
        let name = args.last().base_type;
        if names_kind(nodes, name, NodeKind::Enum) && !before.contains(name) {
            before.push(name)
        } else {
            before
        }
    }
}

/// The edge from a type to an enum that one of its fields takes as an argument.
pub open spec fn enum_arg_edge(owner: Seq<char>, field: Seq<char>, target: Seq<char>) -> EdgeModel {
    bare_edge(owner + "."@ + field + ":enumArg->"@ + target, owner, target, EdgeKind::Arg)
}

/// The edge that a field draws from its owner to `target`.
pub open spec fn field_edge(
    owner: Seq<char>,
    field: FieldModel,
    index: int,
    target: Seq<char>,
) -> EdgeModel {
    EdgeModel {
        source_field: Some(field.name),
        source_field_index: Some(index as usize),
        label: Some(field.name),
        nullable: Some(field.nullable),
        ..bare_edge(
            owner + "."@ + field.name + "->"@ + target,
            owner,
            target,
            EdgeKind::Field,
        )
    }
}

/// The edge from one link of an argument chain to the next.
pub open spec fn chain_edge(
    owner: Seq<char>,
    field: Seq<char>,
    chain: Seq<Seq<char>>,
    ci: int,
) -> EdgeModel {
    EdgeModel {
        nullable: Some(false),
        ..bare_edge(
            owner + "."@ + field + ":chain"@ + decimal(ci as nat) + "->"@ + chain[ci],
            chain[ci - 1],
            chain[ci],
            EdgeKind::Arg,
        )
    }
}

/// What a field chains through: its input arguments, then its type unless that is a built-in scalar.
pub open spec fn arg_chain(nodes: Seq<NodeModel>, field: FieldModel) -> Seq<Seq<char>> {
    let inputs = input_args(nodes, or_empty(field.args));
    if builtin_scalar(field.base_type) { inputs } else { inputs.push(field.base_type) }
}

/// The edges of the chain owner → input₀ → … → type, the first one drawn by the field itself.
pub open spec fn chain_edges(
    owner: Seq<char>,
    field: FieldModel,
    index: int,
    chain: Seq<Seq<char>>,
) -> Seq<EdgeModel> {
    Seq::new(
        chain.len(),
        |ci: int|
            if ci == 0 {
                field_edge(owner, field, index, chain[0])
            } else {
                chain_edge(owner, field.name, chain, ci)
            },
    )
}

/// The edges of one field of `owner`: one to each enum it takes, and the chain through its inputs
/// to its type. A field of its owner's own type draws none.
pub open spec fn field_edges(
    nodes: Seq<NodeModel>,
    owner: Seq<char>,
    field: FieldModel,
    index: int,
) -> Seq<EdgeModel> {
    if field.base_type == owner {
        Seq::empty()
    } else {
        enum_args(nodes, or_empty(field.args)).map_values(
            |t: Seq<char>| enum_arg_edge(owner, field.name, t),
        ) + chain_edges(owner, field, index, arg_chain(nodes, field))
    }
}

/// The edges of the first `k` fields of `owner`.
pub open spec fn fields_edges(
    nodes: Seq<NodeModel>,
    owner: Seq<char>,
    fields: Seq<FieldModel>,
    k: nat,
) -> Seq<EdgeModel>
    decreases k,
{
    if k == 0 {
        Seq::empty()
    } else {
        fields_edges(nodes, owner, fields, (k - 1) as nat) + field_edges(
            nodes,
            owner,
            fields[k - 1],
            k - 1,
        )
    }
}

/// The edge from an interface to a type that implements it.
pub open spec fn implements_edge(interface: Seq<char>, owner: Seq<char>) -> EdgeModel {
    EdgeModel {
        label: Some("implements"@),
        ..bare_edge(interface + "-impl-"@ + owner, interface, owner, EdgeKind::Implements)
    }
}

/// The edge from a union to a member.
pub open spec fn union_edge(owner: Seq<char>, member: Seq<char>) -> EdgeModel {
    EdgeModel {
        label: Some("member"@),
        ..bare_edge(owner + "-union-"@ + member, owner, member, EdgeKind::Union)
    }
}

/// The edges that one node draws: by its fields, from its interfaces, to its union members.
pub open spec fn node_edges(nodes: Seq<NodeModel>, n: NodeModel) -> Seq<EdgeModel> {
    fields_edges(nodes, n.name, or_empty(n.fields), or_empty(n.fields).len())
        + or_empty(n.interfaces).map_values(|i: Seq<char>| implements_edge(i, n.name)) + (
    if n.kind == NodeKind::Union {
        or_empty(n.members).map_values(|m: Seq<char>| union_edge(n.name, m))
    } else {
        Seq::empty()
    })
}

/// The edges that the first `k` nodes draw.
pub open spec fn edges_of(nodes: Seq<NodeModel>, k: nat) -> Seq<EdgeModel>
    decreases k,
{
    if k == 0 {
        Seq::empty()
    } else {
        edges_of(nodes, (k - 1) as nat) + node_edges(nodes, nodes[k - 1])
    }
}

fn find_kind(nodes: &Vec<GraphNodeData>, id: &str) -> (r: Option<NodeKind>)
    ensures
        r == kind_by_id(nodes.deep_view(), id@),
{
    let ghost names = node_ids(nodes.deep_view());
    let mut i: usize = nodes.len();
    while i > 0
        invariant
            i <= nodes@.len(),
            names == node_ids(nodes.deep_view()),
            forall|j: int| i <= j < nodes@.len() ==> #[trigger] names[j] != id@,
        decreases i,
    {
        i = i - 1;
        assert(names[i as int] == nodes@[i as int].id@);
        if same(nodes[i].id.as_str(), id) {
            proof {
                lemma_last_place_is(names, id@, i as int);
            }
            return Some(nodes[i].kind);
        }
    }
    proof {
        lemma_last_place_is(names, id@, -1);
    }
    None
}

fn is_kind(nodes: &Vec<GraphNodeData>, name: &str, kind: NodeKind) -> (r: bool)
    ensures
        r == names_kind(nodes.deep_view(), name@, kind),
{
    if is_builtin_scalar(name) {
        return false;
    }
    match find_kind(nodes, name) {
        Some(k) => k == kind,
        None => false,
    }
}

fn args_of_kinds(nodes: &Vec<GraphNodeData>, args: &Vec<GraphArg>) -> (r: (Vec<String>, Vec<String>))
    ensures
        r.0.deep_view() == input_args(nodes.deep_view(), args.deep_view()),
        r.1.deep_view() == enum_args(nodes.deep_view(), args.deep_view()),
{
    let ghost ns = nodes.deep_view();
    let ghost all = args.deep_view();
    let mut inputs: Vec<String> = Vec::new();
    let mut enums: Vec<String> = Vec::new();
    let mut i: usize = 0;
    assert(all.take(0) =~= Seq::<ArgModel>::empty());
    assert(inputs.deep_view() =~= Seq::<Seq<char>>::empty());
    assert(enums.deep_view() =~= Seq::<Seq<char>>::empty());
    while i < args.len()
        invariant
            i <= args@.len(),
            ns == nodes.deep_view(),
            all == args.deep_view(),
            inputs.deep_view() == input_args(ns, all.take(i as int)),
            enums.deep_view() == enum_args(ns, all.take(i as int)),
        decreases args@.len() - i,
    {
        let name = &args[i].base_type;
        let ghost inputs0 = inputs.deep_view();
        let ghost enums0 = enums.deep_view();
        assert(all[i as int] == args@[i as int].deep_view());
        assert(all.take(i as int + 1).drop_last() =~= all.take(i as int));
        if is_kind(nodes, name.as_str(), NodeKind::Input) {
            inputs.push(name.clone());
            assert(inputs.deep_view() =~= inputs0.push(name@));
        }
        if is_kind(nodes, name.as_str(), NodeKind::Enum) && !has_name(&enums, name.as_str()) {
            enums.push(name.clone());
            assert(enums.deep_view() =~= enums0.push(name@));
        }
        i = i + 1;
    }
    assert(all.take(i as int) =~= all);
    (inputs, enums)
}

fn new_enum_arg_edge(owner: &str, field: &str, target: &str) -> (r: GraphEdgeData)
    ensures
        r.deep_view() == enum_arg_edge(owner@, field@, target@),
{
    let mut id = owner.to_owned();
    id.append(".");
    id.append(field);
    id.append(":enumArg->");
    id.append(target);
    GraphEdgeData::new(id.as_str(), owner, target, EdgeKind::Arg)
}

fn new_field_edge(owner: &str, field: &GraphField, index: usize, target: &str) -> (r: GraphEdgeData)
    ensures
        r.deep_view() == field_edge(owner@, field.deep_view(), index as int, target@),
{
    let mut id = owner.to_owned();
    id.append(".");
    id.append(field.name.as_str());
    id.append("->");
    id.append(target);
    let mut e = GraphEdgeData::new(id.as_str(), owner, target, EdgeKind::Field);
    e.source_field = Some(field.name.clone());
    e.source_field_index = Some(index);
    e.label = Some(field.name.clone());
    e.nullable = Some(field.nullable);
    e
}

fn new_chain_edge(owner: &str, field: &str, chain: &Vec<String>, ci: usize) -> (r: GraphEdgeData)
    requires
        0 < ci < chain@.len(),
    ensures
        r.deep_view() == chain_edge(owner@, field@, chain.deep_view(), ci as int),
{
    let mut id = owner.to_owned();
    id.append(".");
    id.append(field);
    id.append(":chain");
    id.append(decimal_string(ci).as_str());
    id.append("->");
    id.append(chain[ci].as_str());
    assert(chain.deep_view()[ci as int] == chain@[ci as int]@);
    assert(chain.deep_view()[ci - 1] == chain@[ci - 1]@);
    let mut e = GraphEdgeData::new(
        id.as_str(),
        chain[ci - 1].as_str(),
        chain[ci].as_str(),
        EdgeKind::Arg,
    );
    e.nullable = Some(false);
    e
}

fn push_field_edges(
    nodes: &Vec<GraphNodeData>,
    owner: &str,
    field: &GraphField,
    index: usize,
    edges: &mut Vec<GraphEdgeData>,
)
    ensures
        final(edges).deep_view() == old(edges).deep_view() + field_edges(
            nodes.deep_view(),
            owner@,
            field.deep_view(),
            index as int,
        ),
{
    let ghost base = edges.deep_view();
    let ghost ns = nodes.deep_view();
    let ghost f = field.deep_view();
    if same(field.base_type.as_str(), owner) {
        assert(base + Seq::<EdgeModel>::empty() =~= base);
        return;
    }
    let none: Vec<GraphArg> = Vec::new();
    assert(none.deep_view() =~= Seq::<ArgModel>::empty());
    let args: &Vec<GraphArg> = match &field.args {
        Some(args) => args,
        None => &none,
    };
    assert(args.deep_view() == or_empty(f.args));
    let (inputs, enums) = args_of_kinds(nodes, args);
    let ghost enum_part = enums.deep_view().map_values(
        |t: Seq<char>| enum_arg_edge(owner@, field.name@, t),
    );
    let mut i: usize = 0;
    assert(base + enum_part.take(0) =~= base);
    while i < enums.len()
        invariant
            i <= enums@.len(),
            enum_part == enums.deep_view().map_values(
                |t: Seq<char>| enum_arg_edge(owner@, field.name@, t),
            ),
            edges.deep_view() == base + enum_part.take(i as int),
        decreases enums@.len() - i,
    {
        let ghost before = edges.deep_view();
        assert(enums.deep_view()[i as int] == enums@[i as int]@);
        edges.push(new_enum_arg_edge(owner, field.name.as_str(), enums[i].as_str()));
        assert(edges.deep_view() =~= before.push(enum_part[i as int]));
        assert(base + enum_part.take(i as int + 1) =~= before.push(enum_part[i as int]));
        i = i + 1;
    }
    assert(enum_part.take(i as int) =~= enum_part);
    let mut chain = inputs;
    let ghost before_chain = chain.deep_view();
    if !is_builtin_scalar(field.base_type.as_str()) {
        chain.push(field.base_type.clone());
        assert(chain.deep_view() =~= before_chain.push(f.base_type));
    }
    assert(chain.deep_view() == arg_chain(ns, f));
    let ghost chain_part = chain_edges(owner@, f, index as int, chain.deep_view());
    let ghost base1 = edges.deep_view();
    let mut ci: usize = 0;
    assert(base1 + chain_part.take(0) =~= base1);
    while ci < chain.len()
        invariant
            ci <= chain@.len(),
            f == field.deep_view(),
            chain_part == chain_edges(owner@, f, index as int, chain.deep_view()),
            edges.deep_view() == base1 + chain_part.take(ci as int),
        decreases chain@.len() - ci,
    {
        let ghost before = edges.deep_view();
        assert(chain.deep_view()[ci as int] == chain@[ci as int]@);
        if ci == 0 {
            edges.push(new_field_edge(owner, field, index, chain[0].as_str()));
        } else {
            edges.push(new_chain_edge(owner, field.name.as_str(), &chain, ci));
        }
        assert(edges.deep_view() =~= before.push(chain_part[ci as int]));
        assert(base1 + chain_part.take(ci as int + 1) =~= before.push(chain_part[ci as int]));
        ci = ci + 1;
    }
    assert(chain_part.take(ci as int) =~= chain_part);
    assert(edges.deep_view() =~= base + (enum_part + chain_part));
}

fn push_node_fields(
    nodes: &Vec<GraphNodeData>,
    owner: &str,
    fields: &Vec<GraphField>,
    edges: &mut Vec<GraphEdgeData>,
)
    ensures
        final(edges).deep_view() == old(edges).deep_view() + fields_edges(
            nodes.deep_view(),
            owner@,
            fields.deep_view(),
            fields@.len(),
        ),
{
    let ghost base = edges.deep_view();
    let ghost ns = nodes.deep_view();
    let ghost all = fields.deep_view();
    let mut i: usize = 0;
    assert(base + Seq::<EdgeModel>::empty() =~= base);
    while i < fields.len()
        invariant
            i <= fields@.len(),
            ns == nodes.deep_view(),
            all == fields.deep_view(),
            edges.deep_view() == base + fields_edges(ns, owner@, all, i as nat),
        decreases fields@.len() - i,
    {
        assert(all[i as int] == fields@[i as int].deep_view());
        push_field_edges(nodes, owner, &fields[i], i, edges);
        assert(edges.deep_view() =~= base + fields_edges(ns, owner@, all, i as nat + 1));
        i = i + 1;
    }
}

fn push_interfaces(owner: &str, interfaces: &Vec<String>, edges: &mut Vec<GraphEdgeData>)
    ensures
        final(edges).deep_view() == old(edges).deep_view() + interfaces.deep_view().map_values(
            |i: Seq<char>| implements_edge(i, owner@),
        ),
{
    let ghost base = edges.deep_view();
    let ghost part = interfaces.deep_view().map_values(|i: Seq<char>| implements_edge(i, owner@));
    let mut i: usize = 0;
    assert(base + part.take(0) =~= base);
    while i < interfaces.len()
        invariant
            i <= interfaces@.len(),
            part == interfaces.deep_view().map_values(|i: Seq<char>| implements_edge(i, owner@)),
            edges.deep_view() == base + part.take(i as int),
        decreases interfaces@.len() - i,
    {
        let ghost before = edges.deep_view();
        assert(interfaces.deep_view()[i as int] == interfaces@[i as int]@);
        let mut id = interfaces[i].clone();
        id.append("-impl-");
        id.append(owner);
        let mut e = GraphEdgeData::new(
            id.as_str(),
            interfaces[i].as_str(),
            owner,
            EdgeKind::Implements,
        );
        e.label = Some("implements".to_owned());
        edges.push(e);
        assert(edges.deep_view() =~= before.push(part[i as int]));
        assert(base + part.take(i as int + 1) =~= before.push(part[i as int]));
        i = i + 1;
    }
    assert(part.take(i as int) =~= part);
}

fn push_members(owner: &str, members: &Vec<String>, edges: &mut Vec<GraphEdgeData>)
    ensures
        final(edges).deep_view() == old(edges).deep_view() + members.deep_view().map_values(
            |m: Seq<char>| union_edge(owner@, m),
        ),
{
    let ghost base = edges.deep_view();
    let ghost part = members.deep_view().map_values(|m: Seq<char>| union_edge(owner@, m));
    let mut i: usize = 0;
    assert(base + part.take(0) =~= base);
    while i < members.len()
        invariant
            i <= members@.len(),
            part == members.deep_view().map_values(|m: Seq<char>| union_edge(owner@, m)),
            edges.deep_view() == base + part.take(i as int),
        decreases members@.len() - i,
    {
        let ghost before = edges.deep_view();
        assert(members.deep_view()[i as int] == members@[i as int]@);
        let mut id = owner.to_owned();
        id.append("-union-");
        id.append(members[i].as_str());
        let mut e = GraphEdgeData::new(id.as_str(), owner, members[i].as_str(), EdgeKind::Union);
        e.label = Some("member".to_owned());
        edges.push(e);
        assert(edges.deep_view() =~= before.push(part[i as int]));
        assert(base + part.take(i as int + 1) =~= before.push(part[i as int]));
        i = i + 1;
    }
    assert(part.take(i as int) =~= part);
}

fn push_node_edges(nodes: &Vec<GraphNodeData>, n: &GraphNodeData, edges: &mut Vec<GraphEdgeData>)
    ensures
        final(edges).deep_view() == old(edges).deep_view() + node_edges(
            nodes.deep_view(),
            n.deep_view(),
        ),
{
    let ghost base = edges.deep_view();
    let ghost ns = nodes.deep_view();
    let ghost m = n.deep_view();
    let ghost a = fields_edges(ns, m.name, or_empty(m.fields), or_empty(m.fields).len());
    let ghost b = or_empty(m.interfaces).map_values(|i: Seq<char>| implements_edge(i, m.name));
    let ghost c = if m.kind == NodeKind::Union {
        or_empty(m.members).map_values(|x: Seq<char>| union_edge(m.name, x))
    } else {
        Seq::empty()
    };
    if let Some(fields) = &n.fields {
        push_node_fields(nodes, n.name.as_str(), fields, edges);
    }
    assert(edges.deep_view() =~= base + a);
    if let Some(interfaces) = &n.interfaces {
        push_interfaces(n.name.as_str(), interfaces, edges);
    }
    assert(edges.deep_view() =~= base + a + b);
    if n.kind == NodeKind::Union {
        if let Some(members) = &n.members {
            push_members(n.name.as_str(), members, edges);
        }
    }
    assert(edges.deep_view() =~= base + a + b + c);
    assert(base + a + b + c =~= base + (a + b + c));
}

/// Builds every edge of the graph, node by node.
pub fn build_edges(nodes: &Vec<GraphNodeData>) -> (edges: Vec<GraphEdgeData>)
    ensures
        edges.deep_view() == edges_of(nodes.deep_view(), nodes@.len()),
{
    let ghost ns = nodes.deep_view();
    let mut edges: Vec<GraphEdgeData> = Vec::new();
    let mut i: usize = 0;
    assert(edges.deep_view() =~= Seq::<EdgeModel>::empty());
    while i < nodes.len()
        invariant
            i <= nodes@.len(),
            ns == nodes.deep_view(),
            edges.deep_view() == edges_of(ns, i as nat),
        decreases nodes@.len() - i,
    {
        assert(ns[i as int] == nodes@[i as int].deep_view());
        push_node_edges(nodes, &nodes[i], &mut edges);
        i = i + 1;
    }
    edges
}

} // verus!
