//! What hiding Relay's boilerplate does to a graph, told by comparing it with the graph that shows it.

use vstd::prelude::*;

use crate::declarations::with_membership;
use crate::document::DefinitionModel;
use crate::extensions::{field_names, or_empty};
use crate::growth::has_field;
use crate::lists::lemma_first_place_is;
use crate::relay::{
    edge_targets, field_base, is_boilerplate, is_connection_type, is_edge_type, unwrapped,
    unwrapped_field, unwrapped_node, wrapper_targets,
};
use crate::removals::removed;
use crate::sdl::{document_graph, drawn_nodes, without_boilerplate};
use crate::text::ends_with;
use crate::types::{NodeKind, NodeModel, OptionsModel};

verus! {

/// `s` ends in `tail`.
pub open spec fn has_ending(s: Seq<char>, tail: Seq<char>) -> bool {
    exists|head: Seq<char>| s == #[trigger] (head + tail)
}

/// A connection: an object named `…Connection` with the fields `edges` and `pageInfo`.
pub open spec fn is_connection(n: NodeModel) -> bool {
    n.kind == NodeKind::Object && has_ending(n.name, "Connection"@) && has_field(n, "edges"@)
        && has_field(n, "pageInfo"@)
}

/// An edge of a connection: an object named `…Edge` with the fields `node` and `cursor`.
pub open spec fn is_connection_edge(n: NodeModel) -> bool {
    n.kind == NodeKind::Object && has_ending(n.name, "Edge"@) && has_field(n, "node"@) && has_field(
        n,
        "cursor"@,
    )
}

/// What Relay asks of every schema: the interface `Node` with nothing but `id: ID!`, the object
/// `PageInfo`, connections and their edges.
pub open spec fn is_relay_type(n: NodeModel) -> bool {
    if n.kind == NodeKind::Interface && n.name == "Node"@ {
        n.fields matches Some(rows) && rows.len() == 1 && rows[0].name == "id"@ && rows[0].type_
            == "ID!"@
    } else if n.kind == NodeKind::Object && n.name == "PageInfo"@ {
        has_field(n, "hasNextPage"@) && has_field(n, "hasPreviousPage"@)
    } else {
        is_connection(n) || is_connection_edge(n)
    }
}

proof fn lemma_ending(s: Seq<char>, tail: Seq<char>)
    ensures
        ends_with(s, tail) <==> has_ending(s, tail),
{
    if ends_with(s, tail) {
        let head = s.take(s.len() - tail.len());
        assert(s =~= head + tail);
    }
    if has_ending(s, tail) {
        let head = choose|head: Seq<char>| s == #[trigger] (head + tail);
        assert(s.subrange(s.len() - tail.len(), s.len() as int) =~= tail);
    }
}

proof fn lemma_fields(n: NodeModel, name: Seq<char>)
    ensures
        crate::relay::has_field(or_empty(n.fields), name) <==> has_field(n, name),
{
    let names = field_names(or_empty(n.fields));
    if names.contains(name) {
        let r = choose|r: int| 0 <= r < names.len() && names[r] == name;
        assert(n.fields->0[r].name == name);
    }
    if has_field(n, name) {
        let r = choose|r: int| 0 <= r < n.fields->0.len() && (#[trigger] n.fields->0[r]).name == name;
        assert(names[r] == name);
    }
}

proof fn lemma_relay_types(n: NodeModel)
    ensures
        is_edge_type(n) <==> is_connection_edge(n),
        is_connection_type(n) <==> is_connection(n),
        is_boilerplate(n) <==> is_relay_type(n),
{
    lemma_ending(n.name, "Edge"@);
    lemma_ending(n.name, "Connection"@);
    lemma_fields(n, "node"@);
    lemma_fields(n, "cursor"@);
    lemma_fields(n, "edges"@);
    lemma_fields(n, "pageInfo"@);
    lemma_fields(n, "hasNextPage"@);
    lemma_fields(n, "hasPreviousPage"@);
}

/// The same type, with the same rows under the same names and types; only what the rows lead to may
/// differ.
pub open spec fn is_same_type(a: NodeModel, b: NodeModel) -> bool {
    &&& b.id == a.id && b.name == a.name && b.kind == a.kind && b.description == a.description
    &&& b.values == a.values && b.members == a.members && b.interfaces == a.interfaces
    &&& a.fields is Some <==> b.fields is Some
    &&& a.fields matches Some(rows) ==> b.fields->0.len() == rows.len() && forall|r: int|
        0 <= r < rows.len() ==> (#[trigger] b.fields->0[r]).name == rows[r].name
            && b.fields->0[r].type_ == rows[r].type_ && b.fields->0[r].args == rows[r].args
            && b.fields->0[r].description == rows[r].description
}

/// The options with boilerplate shown.
pub open spec fn showing(options: OptionsModel) -> OptionsModel {
    OptionsModel { hide_relay_boilerplate: false, ..options }
}

/// Hiding boilerplate hides exactly Relay's own types: no type of the graph is one of them, every other
/// type that is shown without hiding is shown with it, and no type is made up.
pub proof fn hiding_hides_relay_types(doc: Seq<DefinitionModel>, options: OptionsModel)
    requires
        options.hide_relay_boilerplate,
    ensures
        forall|i: int|
            0 <= i < document_graph(doc, options).nodes.len() ==> !is_relay_type(
                #[trigger] document_graph(doc, options).nodes[i],
            ),
        forall|j: int|
            0 <= j < document_graph(doc, showing(options)).nodes.len() && !is_relay_type(
                #[trigger] document_graph(doc, showing(options)).nodes[j],
            ) ==> comes_as(
                document_graph(doc, showing(options)).nodes[j],
                document_graph(doc, options).nodes,
            ),
        forall|i: int|
            0 <= i < document_graph(doc, options).nodes.len() ==> comes_from(
                #[trigger] document_graph(doc, options).nodes[i],
                document_graph(doc, showing(options)).nodes,
            ),
{
    let left = drawn_nodes(doc, showing(options));
    let drawn = drawn_nodes(doc, options);
    let all = document_graph(doc, showing(options)).nodes;
    let shown = document_graph(doc, options).nodes;
    let kept = without_boilerplate(drawn);
    assert(drawn == unwrapped(left));
    assert(all == with_membership(left));
    assert(shown == with_membership(kept));
    assert forall|j: int| 0 <= j < all.len() implies is_same_type(#[trigger] all[j], drawn[j])
        && is_relay_type(all[j]) == is_relay_type(drawn[j]) by {
        assert(is_same_type(left[j], drawn[j]));
        lemma_same_shape(all[j], drawn[j]);
    }
    assert forall|i: int| 0 <= i < shown.len() implies !is_relay_type(#[trigger] shown[i])
        && comes_from(shown[i], all) by {
        let j = lemma_left_from(drawn, i);
        lemma_relay_types(kept[i]);
        lemma_same_shape(kept[i], shown[i]);
        assert(is_same_type(all[j], drawn[j]));
        assert(is_same_type(all[j], shown[i]));
    }
    assert forall|j: int| 0 <= j < all.len() && !is_relay_type(#[trigger] all[j]) implies comes_as(
        all[j],
        shown,
    ) by {
        lemma_relay_types(drawn[j]);
        let i = lemma_left(drawn, j);
        assert(is_same_type(all[j], shown[i]));
    }
}

/// The type is one of `nodes`, but for what its rows lead to.
pub open spec fn comes_as(n: NodeModel, nodes: Seq<NodeModel>) -> bool {
    exists|i: int| 0 <= i < nodes.len() && is_same_type(n, #[trigger] nodes[i])
}

/// The type was one of `nodes`, but for what its rows lead to.
pub open spec fn comes_from(n: NodeModel, nodes: Seq<NodeModel>) -> bool {
    exists|j: int| 0 <= j < nodes.len() && is_same_type(#[trigger] nodes[j], n)
}

proof fn lemma_same_shape(a: NodeModel, b: NodeModel)
    requires
        is_same_type(a, b),
    ensures
        is_relay_type(a) == is_relay_type(b),
{
    assert forall|name: Seq<char>| #[trigger] has_field(a, name) == has_field(b, name) by {
        if has_field(a, name) {
            let r = choose|r: int|
                0 <= r < a.fields->0.len() && (#[trigger] a.fields->0[r]).name == name;
            assert(b.fields->0[r].name == name);
        }
        if has_field(b, name) {
            let r = choose|r: int|
                0 <= r < b.fields->0.len() && (#[trigger] b.fields->0[r]).name == name;
            assert(a.fields->0[r].name == name);
        }
    }
    assert(has_field(a, "edges"@) == has_field(b, "edges"@));
    assert(has_field(a, "pageInfo"@) == has_field(b, "pageInfo"@));
    assert(has_field(a, "node"@) == has_field(b, "node"@));
    assert(has_field(a, "cursor"@) == has_field(b, "cursor"@));
    assert(has_field(a, "hasNextPage"@) == has_field(b, "hasNextPage"@));
    assert(has_field(a, "hasPreviousPage"@) == has_field(b, "hasPreviousPage"@));
    if a.fields is Some && a.fields->0.len() == 1 {
        assert(b.fields->0[0].name == a.fields->0[0].name);
    }
}

proof fn lemma_left(nodes: Seq<NodeModel>, j: int) -> (i: int)
    requires
        0 <= j < nodes.len(),
        !is_boilerplate(nodes[j]),
    ensures
        0 <= i < without_boilerplate(nodes).len(),
        without_boilerplate(nodes)[i] == nodes[j],
    decreases nodes.len(),
{
    let less = nodes.drop_last();
    if j < less.len() {
        assert(less[j] == nodes[j]);
        lemma_left(less, j)
    } else {
        without_boilerplate(less).len() as int
    }
}

proof fn lemma_left_from(nodes: Seq<NodeModel>, i: int) -> (j: int)
    requires
        0 <= i < without_boilerplate(nodes).len(),
    ensures
        0 <= j < nodes.len(),
        without_boilerplate(nodes)[i] == nodes[j],
        !is_boilerplate(nodes[j]),
    decreases nodes.len(),
{
    if nodes.len() == 0 {
        0
    } else {
        let less = nodes.drop_last();
        if i < without_boilerplate(less).len() {
            let j = lemma_left_from(less, i);
            assert(less[j] == nodes[j]);
            j
        } else {
            nodes.len() - 1
        }
    }
}

// ── seeing through ─────────────────────────────────────────────────────────

/// `r` is the first field of that name.
pub open spec fn is_first_field(n: NodeModel, name: Seq<char>, r: int) -> bool {
    &&& n.fields is Some
    &&& 0 <= r < n.fields->0.len()
    &&& n.fields->0[r].name == name
    &&& forall|q: int| 0 <= q < r ==> (#[trigger] n.fields->0[q]).name != name
}

/// The nodes have names of their own.
pub open spec fn have_own_names(nodes: Seq<NodeModel>) -> bool {
    forall|a: int, b: int|
        0 <= a < b < nodes.len() ==> (#[trigger] nodes[a]).name != (#[trigger] nodes[b]).name
}

proof fn lemma_base(n: NodeModel, name: Seq<char>, r: int)
    requires
        is_first_field(n, name, r),
    ensures
        field_base(or_empty(n.fields), name) == n.fields->0[r].base_type,
        has_field(n, name),
{
    let names = field_names(or_empty(n.fields));
    assert(names[r] == name);
    assert forall|q: int| 0 <= q < r implies #[trigger] names[q] != name by {
        assert(n.fields->0[q].name != name);
    }
    lemma_first_place_is(names, name, r);
}

proof fn lemma_edge_target(nodes: Seq<NodeModel>, e: int)
    requires
        0 <= e < nodes.len(),
        have_own_names(nodes),
        is_edge_type(nodes[e]),
    ensures
        edge_targets(nodes).dom().contains(nodes[e].name),
        edge_targets(nodes)[nodes[e].name] == field_base(or_empty(nodes[e].fields), "node"@),
    decreases nodes.len(),
{
    let less = nodes.drop_last();
    if e < less.len() {
        assert(less[e] == nodes[e]);
        assert forall|a: int, b: int| 0 <= a < b < less.len() implies (#[trigger] less[a]).name != (
        #[trigger] less[b]).name by {
            assert(nodes[a].name != nodes[b].name);
        }
        lemma_edge_target(less, e);
        assert(nodes[e].name != nodes[nodes.len() - 1].name);
    }
}

/// What a key that names no connection stands for is not touched by connections.
proof fn lemma_key_stays(
    map: Map<Seq<char>, Seq<char>>,
    nodes: Seq<NodeModel>,
    key: Seq<char>,
)
    requires
        map.dom().contains(key),
        forall|j: int|
            0 <= j < nodes.len() && (#[trigger] nodes[j]).name == key ==> !is_connection_type(
                nodes[j],
            ),
    ensures
        wrapper_targets(map, nodes).dom().contains(key),
        wrapper_targets(map, nodes)[key] == map[key],
    decreases nodes.len(),
{
    if nodes.len() > 0 {
        let less = nodes.drop_last();
        assert forall|j: int| 0 <= j < less.len() && (#[trigger] less[j]).name == key implies !is_connection_type(
            less[j],
        ) by {
            assert(nodes[j].name == key);
        }
        lemma_key_stays(map, less, key);
        assert(nodes.last() == nodes[nodes.len() - 1]);
    }
}

proof fn lemma_connection_target(
    map: Map<Seq<char>, Seq<char>>,
    nodes: Seq<NodeModel>,
    c: int,
    key: Seq<char>,
)
    requires
        0 <= c < nodes.len(),
        have_own_names(nodes),
        is_connection_type(nodes[c]),
        field_base(or_empty(nodes[c].fields), "edges"@) == key,
        map.dom().contains(key),
        forall|j: int|
            0 <= j < nodes.len() && (#[trigger] nodes[j]).name == key ==> !is_connection_type(
                nodes[j],
            ),
    ensures
        wrapper_targets(map, nodes).dom().contains(nodes[c].name),
        wrapper_targets(map, nodes)[nodes[c].name] == map[key],
    decreases nodes.len(),
{
    let less = nodes.drop_last();
    assert forall|j: int| 0 <= j < less.len() && (#[trigger] less[j]).name == key implies !is_connection_type(
        less[j],
    ) by {
        assert(nodes[j].name == key);
    }
    if c < less.len() {
        assert(less[c] == nodes[c]);
        assert forall|a: int, b: int| 0 <= a < b < less.len() implies (#[trigger] less[a]).name != (
        #[trigger] less[b]).name by {
            assert(nodes[a].name != nodes[b].name);
        }
        lemma_connection_target(map, less, c, key);
        assert(nodes[c].name != nodes[nodes.len() - 1].name);
    } else {
        lemma_key_stays(map, less, key);
    }
}

/// Hiding boilerplate sees through connections: a field that gives a connection leads to what the
/// connection is of, the type of the `node` of its `edges`, and says that it is a connection. `c` is
/// the connection and `e` the edge type; `i` and `x` are a type that is left and its field.
pub proof fn fields_lead_through_connections(
    doc: Seq<DefinitionModel>,
    options: OptionsModel,
    c: int,
    edges_row: int,
    e: int,
    node_row: int,
    j: int,
    x: int,
)
    requires
        options.hide_relay_boilerplate,
        ({
            let all = document_graph(doc, showing(options)).nodes;
            &&& have_own_names(all)
            &&& 0 <= c < all.len() && 0 <= e < all.len() && 0 <= j < all.len()
            &&& is_connection(all[c]) && is_first_field(all[c], "edges"@, edges_row)
            &&& is_connection_edge(all[e]) && is_first_field(all[e], "node"@, node_row)
            &&& all[c].fields->0[edges_row].base_type == all[e].name
            &&& !is_relay_type(all[j])
            &&& all[j].fields is Some && 0 <= x < all[j].fields->0.len()
            &&& all[j].fields->0[x].base_type == all[c].name
        }),
    ensures
        ({
            let all = document_graph(doc, showing(options)).nodes;
            let shown = document_graph(doc, options).nodes;
            exists|i: int|
                0 <= i < shown.len() && is_same_type(all[j], #[trigger] shown[i])
                    && shown[i].fields->0[x].base_type == all[e].fields->0[node_row].base_type
                    && shown[i].fields->0[x].is_relay_connection
        }),
{
    let left = drawn_nodes(doc, showing(options));
    let drawn = drawn_nodes(doc, options);
    let all = document_graph(doc, showing(options)).nodes;
    let shown = document_graph(doc, options).nodes;
    let kept = without_boilerplate(drawn);
    assert(drawn == unwrapped(left));
    assert(all == with_membership(left));
    assert(shown == with_membership(kept));
    assert forall|a: int, b: int| 0 <= a < b < left.len() implies (#[trigger] left[a]).name != (
    #[trigger] left[b]).name by {
        assert(all[a].name != all[b].name);
    }
    assert(is_same_type(all[c], left[c]) && is_same_type(all[e], left[e]));
    assert(left[c].fields == all[c].fields && left[e].fields == all[e].fields && left[j].fields
        == all[j].fields);
    lemma_base(left[c], "edges"@, edges_row);
    lemma_base(left[e], "node"@, node_row);
    lemma_relay_types(left[c]);
    lemma_relay_types(left[e]);
    lemma_relay_types(left[j]);
    lemma_edge_target(left, e);
    let edge_map = edge_targets(left);
    let key = left[e].name;
    assert forall|k: int| 0 <= k < left.len() && (#[trigger] left[k]).name == key implies !is_connection_type(
        left[k],
    ) by {
        if k < e {
            assert(left[k].name != left[e].name);
        } else if k > e {
            assert(left[e].name != left[k].name);
        }
        lemma_endings_differ(left[e]);
    }
    lemma_connection_target(edge_map, left, c, key);
    let targets = wrapper_targets(edge_map, left);
    let f = left[j].fields->0[x];
    assert(drawn[j] == unwrapped_node(targets, left[j]));
    assert(drawn[j].fields->0[x] == unwrapped_field(targets, f));
    assert(is_same_type(left[j], drawn[j]));
    lemma_same_shape(left[j], drawn[j]);
    lemma_relay_types(drawn[j]);
    assert(is_same_type(all[j], left[j]));
    lemma_same_shape(all[j], left[j]);
    let i = lemma_left(drawn, j);
    assert(is_same_type(all[j], shown[i]));
    assert(shown[i].fields == drawn[j].fields);
}

/// A name does not end both as a connection and as an edge.
proof fn lemma_endings_differ(n: NodeModel)
    requires
        is_edge_type(n),
    ensures
        !is_connection_type(n),
{
    reveal_strlit("Edge");
    reveal_strlit("Connection");
    if ends_with(n.name, "Connection"@) {
        let s = n.name;
        let k = s.len() - 1;
        assert(s.subrange(s.len() - 4, s.len() as int)[3] == 'e') by {
            assert("Edge"@[3] == 'e');
        }
        assert(s.subrange(s.len() - 10, s.len() as int)[9] == 'n') by {
            assert("Connection"@[9] == 'n');
        }
    }
}

} // verus!
