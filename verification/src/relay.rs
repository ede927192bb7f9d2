//! Seeing through Relay's Connection and Edge wrappers.

use vstd::prelude::*;

use crate::extensions::{field_names, or_empty};
use crate::lists::{first_place, lemma_first_place, lemma_first_place_is, Table};
use crate::text::{ends, ends_with, same};
use crate::types::{FieldModel, GraphField, GraphNodeData, NodeKind, NodeModel};

verus! {

/// Whether some field is named `name`.
pub open spec fn has_field(fields: Seq<FieldModel>, name: Seq<char>) -> bool {
    field_names(fields).contains(name)
}

/// The base type of the first field named `name`.
pub open spec fn field_base(fields: Seq<FieldModel>, name: Seq<char>) -> Seq<char> {
    fields[first_place(field_names(fields), name)].base_type
}

/// An object named `*Edge` with the fields `node` and `cursor`.
pub open spec fn is_edge_type(n: NodeModel) -> bool {
    &&& n.kind == NodeKind::Object
    &&& ends_with(n.name, "Edge"@)
    &&& has_field(or_empty(n.fields), "node"@)
    &&& has_field(or_empty(n.fields), "cursor"@)
}

/// An object named `*Connection` with the fields `edges` and `pageInfo`.
pub open spec fn is_connection_type(n: NodeModel) -> bool {
    &&& n.kind == NodeKind::Object
    &&& ends_with(n.name, "Connection"@)
    &&& has_field(or_empty(n.fields), "edges"@)
    &&& has_field(or_empty(n.fields), "pageInfo"@)
}

/// The types of the Relay cursor-connection pattern: the `Node` interface with its `id: ID!` alone,
/// `PageInfo`, and the `*Edge` and `*Connection` types of the usual shape. Names and shapes
/// together keep unrelated types, such as a custom `GraphEdge`, out.
pub open spec fn is_boilerplate(n: NodeModel) -> bool {
    let fields = or_empty(n.fields);
    if n.kind == NodeKind::Interface && n.name == "Node"@ {
        fields.len() == 1 && fields[0].name == "id"@ && fields[0].type_ == "ID!"@
    } else if n.kind == NodeKind::Object && n.name == "PageInfo"@ {
        has_field(fields, "hasNextPage"@) && has_field(fields, "hasPreviousPage"@)
    } else {
        is_edge_type(n) || is_connection_type(n)
    }
}

/// Which type each Edge type wraps: the base type of its `node` field.
pub open spec fn edge_targets(nodes: Seq<NodeModel>) -> Map<Seq<char>, Seq<char>>
    decreases nodes.len(),
{
    if nodes.len() == 0 {
        Map::empty()
    } else {
        let before = edge_targets(nodes.drop_last());
        let n = nodes.last();
        if is_edge_type(n) {
            before.insert(n.name, field_base(or_empty(n.fields), "node"@))
        } else {
            before
        }
    }
}

/// Which type each wrapper stands for: Connection types resolve through what the type of their
/// `edges` field wraps.
pub open spec fn wrapper_targets(
    edge_map: Map<Seq<char>, Seq<char>>,
    nodes: Seq<NodeModel>,
) -> Map<Seq<char>, Seq<char>>
    decreases nodes.len(),
{
    if nodes.len() == 0 {
        edge_map
    } else {
        let before = wrapper_targets(edge_map, nodes.drop_last());
        let n = nodes.last();
        if is_connection_type(n) && before.dom().contains(field_base(or_empty(n.fields), "edges"@)) {
            before.insert(n.name, before[field_base(or_empty(n.fields), "edges"@)])
        } else {
            before
        }
    }
}

/// The field with its base type seen through a wrapper.
pub open spec fn unwrapped_field(targets: Map<Seq<char>, Seq<char>>, f: FieldModel) -> FieldModel {
    if targets.dom().contains(f.base_type) {
        FieldModel { is_relay_connection: true, base_type: targets[f.base_type], ..f }
    } else {
        f
    }
}

/// The node with its fields seen through wrappers.
pub open spec fn unwrapped_node(targets: Map<Seq<char>, Seq<char>>, n: NodeModel) -> NodeModel {
    match n.fields {
        Some(fields) => NodeModel {
            fields: Some(fields.map_values(|f: FieldModel| unwrapped_field(targets, f))),
            ..n
        },
        None => n,
    }
}

/// The nodes with all fields seen through wrappers.
pub open spec fn unwrapped(nodes: Seq<NodeModel>) -> Seq<NodeModel> {
    let targets = wrapper_targets(edge_targets(nodes), nodes);
    nodes.map_values(|n: NodeModel| unwrapped_node(targets, n))
}

/// Where the first field named `name` stands, or the number of fields.
fn first_field(fields: &Vec<GraphField>, name: &str) -> (r: usize)
    ensures
        r == first_place(field_names(fields.deep_view()), name@),
        r <= fields@.len(),
        r < fields@.len() <==> has_field(fields.deep_view(), name@),
{
    let ghost names = field_names(fields.deep_view());
    let mut i: usize = 0;
    while i < fields.len()
        invariant
            i <= fields@.len(),
            names == field_names(fields.deep_view()),
            forall|j: int| 0 <= j < i ==> #[trigger] names[j] != name@,
        decreases fields@.len() - i,
    {
        assert(names[i as int] == fields@[i as int].name@);
        if same(fields[i].name.as_str(), name) {
            proof {
                lemma_first_place_is(names, name@, i as int);
                lemma_first_place(names, name@);
            }
            return i;
        }
        i = i + 1;
    }
    proof {
        lemma_first_place_is(names, name@, i as int);
        lemma_first_place(names, name@);
    }
    i
}

fn has(fields: &Option<Vec<GraphField>>, name: &str) -> (r: bool)
    ensures
        r == has_field(or_empty(fields.deep_view()), name@),
{
    match fields {
        Some(rows) => first_field(rows, name) < rows.len(),
        None => {
            assert(!field_names(Seq::<FieldModel>::empty()).contains(name@));
            false
        },
    }
}

/// Whether a node belongs to the Relay pattern, by name and shape.
pub fn is_relay_boilerplate(node: &GraphNodeData) -> (r: bool)
    ensures
        r == is_boilerplate(node.deep_view()),
{
    if node.kind == NodeKind::Interface && same(node.name.as_str(), "Node") {
        match &node.fields {
            Some(fields) => fields.len() == 1 && same(fields[0].name.as_str(), "id") && same(
                fields[0].type_.as_str(),
                "ID!",
            ),
            None => false,
        }
    } else if node.kind == NodeKind::Object && same(node.name.as_str(), "PageInfo") {
        has(&node.fields, "hasNextPage") && has(&node.fields, "hasPreviousPage")
    } else if edge_type(node) {
        true
    } else {
        connection_type(node)
    }
}

fn edge_type(node: &GraphNodeData) -> (r: bool)
    ensures
        r == is_edge_type(node.deep_view()),
{
    node.kind == NodeKind::Object && ends(node.name.as_str(), "Edge") && has(&node.fields, "node")
        && has(&node.fields, "cursor")
}

fn connection_type(node: &GraphNodeData) -> (r: bool)
    ensures
        r == is_connection_type(node.deep_view()),
{
    node.kind == NodeKind::Object && ends(node.name.as_str(), "Connection") && has(
        &node.fields,
        "edges",
    ) && has(&node.fields, "pageInfo")
}

/// The base type of a field that is there.
fn base_of(fields: &Option<Vec<GraphField>>, name: &str) -> (r: String)
    requires
        has_field(or_empty(fields.deep_view()), name@),
    ensures
        r@ == field_base(or_empty(fields.deep_view()), name@),
{
    match fields {
        Some(rows) => {
            let i: usize = first_field(rows, name);
            assert(rows.deep_view()[i as int] == rows@[i as int].deep_view());
            rows[i].base_type.clone()
        },
        None => {
            assert(!field_names(Seq::<FieldModel>::empty()).contains(name@));
            String::new()
        },
    }
}

fn wrapper_map(nodes: &Vec<GraphNodeData>) -> (r: Table<String>)
    ensures
        r.well_formed(),
        r.map() == wrapper_targets(edge_targets(nodes.deep_view()), nodes.deep_view()),
{
    let ghost all = nodes.deep_view();
    let mut map = Table::new();
    let mut i: usize = 0;
    assert(all.take(0) =~= Seq::<NodeModel>::empty());
    while i < nodes.len()
        invariant
            i <= nodes@.len(),
            all == nodes.deep_view(),
            map.well_formed(),
            map.map() == edge_targets(all.take(i as int)),
        decreases nodes@.len() - i,
    {
        assert(all.take(i as int + 1).drop_last() =~= all.take(i as int));
        assert(all[i as int] == nodes@[i as int].deep_view());
        if edge_type(&nodes[i]) {
            let target = base_of(&nodes[i].fields, "node");
            map.insert(nodes[i].name.as_str(), target);
        }
        i = i + 1;
    }
    assert(all.take(i as int) =~= all);
    let ghost edge_map = map.map();
    let mut j: usize = 0;
    while j < nodes.len()
        invariant
            j <= nodes@.len(),
            all == nodes.deep_view(),
            map.well_formed(),
            map.map() == wrapper_targets(edge_map, all.take(j as int)),
        decreases nodes@.len() - j,
    {
        assert(all.take(j as int + 1).drop_last() =~= all.take(j as int));
        assert(all[j as int] == nodes@[j as int].deep_view());
        if connection_type(&nodes[j]) {
            let edge = base_of(&nodes[j].fields, "edges");
            if let Some(target) = map.get(edge.as_str()) {
                let target = target.clone();
                map.insert(nodes[j].name.as_str(), target);
            }
        }
        j = j + 1;
    }
    assert(all.take(j as int) =~= all);
    map
}

fn unwrap_fields(map: &Table<String>, fields: Vec<GraphField>) -> (r: Vec<GraphField>)
    requires
        map.well_formed(),
    ensures
        r.deep_view() == fields.deep_view().map_values(
            |f: FieldModel| unwrapped_field(map.map(), f),
        ),
{
    let ghost targets = map.map();
    let ghost want = fields.deep_view().map_values(|f: FieldModel| unwrapped_field(targets, f));
    let mut out: Vec<GraphField> = Vec::new();
    for f in it: fields
        invariant
            it.seq() == fields@,
            map.well_formed(),
            targets == map.map(),
            want == fields.deep_view().map_values(|f: FieldModel| unwrapped_field(targets, f)),
            out.deep_view() == want.take(it.index() as int),
    {
        let ghost i = it.index() as int;
        let ghost before = out.deep_view();
        let ghost given = f.deep_view();
        assert(fields.deep_view()[i] == given);
        let mut f = f;
        if let Some(target) = map.get(f.base_type.as_str()) {
            f.is_relay_connection = true;
            f.base_type = target.clone();
        }
        assert(f.deep_view() == unwrapped_field(targets, given));
        out.push(f);
        assert(out.deep_view() =~= before.push(want[i]));
        assert(want.take(i + 1) =~= before.push(want[i]));
    }
    assert(out.deep_view() =~= want);
    out
}

/// Resolves Relay Connection/Edge types to their underlying node type.
///
/// Edges come first, then Connections, which resolve through their `edges` field's type, so a
/// single lookup unwraps a Connection straight to the node it carries. The displayed `type_` stays
/// as written.
pub fn unwrap_relay(nodes: Vec<GraphNodeData>) -> (r: Vec<GraphNodeData>)
    ensures
        r.deep_view() == unwrapped(nodes.deep_view()),
{
    let map = wrapper_map(&nodes);
    let ghost want = unwrapped(nodes.deep_view());
    let ghost targets = map.map();
    let mut out: Vec<GraphNodeData> = Vec::new();
    for n in it: nodes
        invariant
            it.seq() == nodes@,
            map.well_formed(),
            targets == map.map(),
            targets == wrapper_targets(edge_targets(nodes.deep_view()), nodes.deep_view()),
            want == unwrapped(nodes.deep_view()),
            out.deep_view() == want.take(it.index() as int),
    {
        let ghost i = it.index() as int;
        let ghost before = out.deep_view();
        let ghost given = n.deep_view();
        assert(nodes.deep_view()[i] == given);
        let mut n = n;
        n.fields = match n.fields {
            Some(fields) => Some(unwrap_fields(&map, fields)),
            None => None,
        };
        assert(n.deep_view() == unwrapped_node(targets, given));
        out.push(n);
        assert(out.deep_view() =~= before.push(want[i]));
        assert(want.take(i + 1) =~= before.push(want[i]));
    }
    assert(out.deep_view() =~= want);
    out
}

} // verus!
