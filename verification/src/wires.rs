//! Which edges the graph of a document has, told of the types and fields that it shows.

use vstd::prelude::*;

use crate::changes::is_only;
use crate::declarations::with_membership;
use crate::document::DefinitionModel;
use crate::edges::{
    arg_chain, chain_edge, chain_edges, edges_of, enum_arg_edge, enum_args, field_edge, field_edges,
    fields_edges, implements_edge, input_args, names_kind, node_edges, node_ids, union_edge,
};
use crate::extensions::or_empty;
use crate::lists::{lemma_last_place, lemma_last_place_is};
use crate::sdl::{document_graph, drawn_nodes, edges_within};
use crate::types::{ArgModel, EdgeKind, EdgeModel, FieldModel, NodeKind, NodeModel, OptionsModel};

verus! {

/// One of the scalars that every schema has.
pub open spec fn is_standard_scalar(name: Seq<char>) -> bool {
    name == "String"@ || name == "Int"@ || name == "Float"@ || name == "Boolean"@ || name == "ID"@
}

/// Some node has that id.
pub open spec fn is_shown(nodes: Seq<NodeModel>, id: Seq<char>) -> bool {
    exists|j: int| 0 <= j < nodes.len() && (#[trigger] nodes[j]).id == id
}

/// `name` is the one type of that id, of the kind `kind`, and no standard scalar.
pub open spec fn is_one_of_kind(nodes: Seq<NodeModel>, name: Seq<char>, kind: NodeKind) -> bool {
    &&& !is_standard_scalar(name)
    &&& exists|j: int| #[trigger] is_only(nodes, name, j) && nodes[j].kind == kind
}

/// No type of that id is of the kind `kind`.
pub open spec fn is_none_of_kind(nodes: Seq<NodeModel>, name: Seq<char>, kind: NodeKind) -> bool {
    is_standard_scalar(name) || forall|j: int|
        0 <= j < nodes.len() && (#[trigger] nodes[j]).id == name ==> nodes[j].kind != kind
}

/// The edges hold one that looks like this, whatever its id.
pub open spec fn has_edge(
    edges: Seq<EdgeModel>,
    source: Seq<char>,
    target: Seq<char>,
    kind: EdgeKind,
    field: Option<Seq<char>>,
    index: Option<int>,
    label: Option<Seq<char>>,
    nullable: Option<bool>,
) -> bool {
    exists|x: int|
        0 <= x < edges.len() && (#[trigger] edges[x]).source == source && edges[x].target == target
            && edges[x].kind == kind && edges[x].source_field == field && edges[x].label == label
            && edges[x].nullable == nullable && edges[x].bundled_labels is None && (
        match edges[x].source_field_index {
            Some(n) => index == Some(n as int),
            None => index is None,
        })
}

proof fn lemma_kind(nodes: Seq<NodeModel>, name: Seq<char>, kind: NodeKind)
    ensures
        is_one_of_kind(nodes, name, kind) ==> names_kind(nodes, name, kind),
        is_none_of_kind(nodes, name, kind) ==> !names_kind(nodes, name, kind),
{
    let ids = node_ids(nodes);
    lemma_last_place(ids, name);
    if is_one_of_kind(nodes, name, kind) {
        let j = choose|j: int| #[trigger] is_only(nodes, name, j) && nodes[j].kind == kind;
        assert(ids[j] == name);
        assert forall|b: int| j < b < ids.len() implies #[trigger] ids[b] != name by {
            assert(nodes[b].id != name);
        }
        lemma_last_place_is(ids, name, j);
    }
    if is_none_of_kind(nodes, name, kind) && names_kind(nodes, name, kind) {
        let p = crate::lists::last_place(ids, name);
        assert(ids[p] == nodes[p].id);
    }
}

/// The nodes that are shown are those that edges are drawn between, but for the unions they are in.
proof fn lemma_shown(doc: Seq<DefinitionModel>, options: OptionsModel)
    requires
        !options.hide_relay_boilerplate,
    ensures
        ({
            let g = document_graph(doc, options);
            let drawn = drawn_nodes(doc, options);
            &&& g.nodes.len() == drawn.len()
            &&& node_ids(g.nodes) == node_ids(drawn)
            &&& forall|i: int|
                0 <= i < drawn.len() ==> (#[trigger] g.nodes[i]).id == drawn[i].id && g.nodes[i].name
                    == drawn[i].name && g.nodes[i].kind == drawn[i].kind && g.nodes[i].fields
                    == drawn[i].fields && g.nodes[i].interfaces == drawn[i].interfaces
                    && g.nodes[i].members == drawn[i].members
        }),
{
    let g = document_graph(doc, options);
    let drawn = drawn_nodes(doc, options);
    assert(g.nodes == with_membership(drawn));
    assert(node_ids(g.nodes) =~= node_ids(drawn));
}

proof fn lemma_kept(edges: Seq<EdgeModel>, ids: Seq<Seq<char>>, e: EdgeModel)
    requires
        edges.contains(e),
        ids.contains(e.source),
        ids.contains(e.target),
    ensures
        edges_within(edges, ids).contains(e),
    decreases edges.len(),
{
    let less = edges.drop_last();
    let rest = edges_within(less, ids);
    let all = edges_within(edges, ids);
    let k = choose|k: int| 0 <= k < edges.len() && edges[k] == e;
    if k < less.len() {
        assert(less[k] == e);
        lemma_kept(less, ids, e);
        let x = choose|x: int| 0 <= x < rest.len() && rest[x] == e;
        assert(all[x] == e);
    } else {
        assert(all[rest.len() as int] == e);
    }
}

proof fn lemma_node_draws(nodes: Seq<NodeModel>, k: nat, i: int, e: EdgeModel)
    requires
        0 <= i < k <= nodes.len(),
        node_edges(nodes, nodes[i]).contains(e),
    ensures
        edges_of(nodes, k).contains(e),
    decreases k,
{
    let before = edges_of(nodes, (k - 1) as nat);
    let more = node_edges(nodes, nodes[k - 1]);
    if i < k - 1 {
        lemma_node_draws(nodes, (k - 1) as nat, i, e);
        let x = choose|x: int| 0 <= x < before.len() && before[x] == e;
        assert(edges_of(nodes, k)[x] == e);
    } else {
        let x = choose|x: int| 0 <= x < more.len() && more[x] == e;
        assert(edges_of(nodes, k)[before.len() + x] == e);
    }
}

proof fn lemma_field_draws(
    nodes: Seq<NodeModel>,
    owner: Seq<char>,
    fields: Seq<FieldModel>,
    k: nat,
    x: int,
    e: EdgeModel,
)
    requires
        0 <= x < k <= fields.len(),
        field_edges(nodes, owner, fields[x], x).contains(e),
    ensures
        fields_edges(nodes, owner, fields, k).contains(e),
    decreases k,
{
    let before = fields_edges(nodes, owner, fields, (k - 1) as nat);
    let more = field_edges(nodes, owner, fields[k - 1], k - 1);
    if x < k - 1 {
        lemma_field_draws(nodes, owner, fields, (k - 1) as nat, x, e);
        let y = choose|y: int| 0 <= y < before.len() && before[y] == e;
        assert(fields_edges(nodes, owner, fields, k)[y] == e);
    } else {
        let y = choose|y: int| 0 <= y < more.len() && more[y] == e;
        assert(fields_edges(nodes, owner, fields, k)[before.len() + y] == e);
    }
}

/// An edge that a node draws between shown types is an edge of the graph.
proof fn lemma_drawn(doc: Seq<DefinitionModel>, options: OptionsModel, i: int, e: EdgeModel)
    requires
        !options.hide_relay_boilerplate,
        0 <= i < drawn_nodes(doc, options).len(),
        node_edges(drawn_nodes(doc, options), drawn_nodes(doc, options)[i]).contains(e),
        is_shown(document_graph(doc, options).nodes, e.source),
        is_shown(document_graph(doc, options).nodes, e.target),
    ensures
        document_graph(doc, options).edges.contains(e),
{
    let g = document_graph(doc, options);
    let drawn = drawn_nodes(doc, options);
    let ids = node_ids(g.nodes);
    lemma_node_draws(drawn, drawn.len(), i, e);
    let a = choose|a: int| 0 <= a < g.nodes.len() && (#[trigger] g.nodes[a]).id == e.source;
    assert(ids[a] == e.source);
    let b = choose|b: int| 0 <= b < g.nodes.len() && (#[trigger] g.nodes[b]).id == e.target;
    assert(ids[b] == e.target);
    lemma_kept(edges_of(drawn, drawn.len()), ids, e);
}

/// An edge that the field `x` of the node `i` draws is one of the node's.
proof fn lemma_from_field(
    nodes: Seq<NodeModel>,
    i: int,
    x: int,
    e: EdgeModel,
)
    requires
        0 <= i < nodes.len(),
        nodes[i].fields is Some,
        0 <= x < nodes[i].fields->0.len(),
        field_edges(nodes, nodes[i].name, nodes[i].fields->0[x], x).contains(e),
    ensures
        node_edges(nodes, nodes[i]).contains(e),
{
    let n = nodes[i];
    let fields = or_empty(n.fields);
    lemma_field_draws(nodes, n.name, fields, fields.len(), x, e);
    let first = fields_edges(nodes, n.name, fields, fields.len());
    let y = choose|y: int| 0 <= y < first.len() && first[y] == e;
    assert(node_edges(nodes, n)[y] == e);
}

proof fn lemma_seen(edges: Seq<EdgeModel>, e: EdgeModel)
    requires
        edges.contains(e),
        e.bundled_labels is None,
    ensures
        has_edge(
            edges,
            e.source,
            e.target,
            e.kind,
            e.source_field,
            match e.source_field_index {
                Some(n) => Some(n as int),
                None => None,
            },
            e.label,
            e.nullable,
        ),
{
    let x = choose|x: int| 0 <= x < edges.len() && edges[x] == e;
    assert(edges[x].source == e.source);
}

proof fn lemma_no_inputs(nodes: Seq<NodeModel>, args: Seq<ArgModel>)
    requires
        forall|a: int|
            0 <= a < args.len() ==> is_none_of_kind(
                nodes,
                (#[trigger] args[a]).base_type,
                NodeKind::Input,
            ),
    ensures
        input_args(nodes, args).len() == 0,
    decreases args.len(),
{
    if args.len() > 0 {
        let less = args.drop_last();
        assert forall|a: int| 0 <= a < less.len() implies is_none_of_kind(
            nodes,
            (#[trigger] less[a]).base_type,
            NodeKind::Input,
        ) by {
            assert(less[a] == args[a]);
        }
        lemma_no_inputs(nodes, less);
        assert(args.last() == args[args.len() - 1]);
        lemma_kind(nodes, args.last().base_type, NodeKind::Input);
    }
}

proof fn lemma_first_input(nodes: Seq<NodeModel>, args: Seq<ArgModel>, a: int)
    requires
        0 <= a < args.len(),
        is_one_of_kind(nodes, args[a].base_type, NodeKind::Input),
        forall|b: int|
            0 <= b < a ==> is_none_of_kind(nodes, (#[trigger] args[b]).base_type, NodeKind::Input),
    ensures
        input_args(nodes, args).len() > 0,
        input_args(nodes, args)[0] == args[a].base_type,
    decreases args.len(),
{
    let less = args.drop_last();
    if a < less.len() {
        assert(less[a] == args[a]);
        assert forall|b: int| 0 <= b < a implies is_none_of_kind(
            nodes,
            (#[trigger] less[b]).base_type,
            NodeKind::Input,
        ) by {
            assert(less[b] == args[b]);
        }
        lemma_first_input(nodes, less, a);
    } else {
        assert forall|b: int| 0 <= b < less.len() implies is_none_of_kind(
            nodes,
            (#[trigger] less[b]).base_type,
            NodeKind::Input,
        ) by {
            assert(less[b] == args[b]);
        }
        lemma_no_inputs(nodes, less);
        lemma_kind(nodes, args[a].base_type, NodeKind::Input);
    }
}

proof fn lemma_last_input(nodes: Seq<NodeModel>, args: Seq<ArgModel>, a: int)
    requires
        0 <= a < args.len(),
        is_one_of_kind(nodes, args[a].base_type, NodeKind::Input),
        forall|b: int|
            a < b < args.len() ==> is_none_of_kind(
                nodes,
                (#[trigger] args[b]).base_type,
                NodeKind::Input,
            ),
    ensures
        input_args(nodes, args).len() > 0,
        input_args(nodes, args).last() == args[a].base_type,
    decreases args.len(),
{
    let less = args.drop_last();
    if a < less.len() {
        assert(less[a] == args[a]);
        assert forall|b: int| a < b < less.len() implies is_none_of_kind(
            nodes,
            (#[trigger] less[b]).base_type,
            NodeKind::Input,
        ) by {
            assert(less[b] == args[b]);
        }
        lemma_last_input(nodes, less, a);
        assert(is_none_of_kind(nodes, args[args.len() - 1].base_type, NodeKind::Input));
        lemma_kind(nodes, args.last().base_type, NodeKind::Input);
    } else {
        lemma_kind(nodes, args[a].base_type, NodeKind::Input);
    }
}

proof fn lemma_enum_listed(nodes: Seq<NodeModel>, args: Seq<ArgModel>, a: int)
    requires
        0 <= a < args.len(),
        is_one_of_kind(nodes, args[a].base_type, NodeKind::Enum),
    ensures
        enum_args(nodes, args).contains(args[a].base_type),
    decreases args.len(),
{
    let less = args.drop_last();
    let before = enum_args(nodes, less);
    let all = enum_args(nodes, args);
    lemma_kind(nodes, args[a].base_type, NodeKind::Enum);
    if a < less.len() {
        assert(less[a] == args[a]);
        lemma_enum_listed(nodes, less, a);
        let x = choose|x: int| 0 <= x < before.len() && before[x] == args[a].base_type;
        assert(all[x] == args[a].base_type);
    } else if !before.contains(args[a].base_type) {
        assert(all[before.len() as int] == args[a].base_type);
    }
}

/// The kinds of the nodes that edges are drawn between are those of the shown ones.
proof fn lemma_same_kinds(
    doc: Seq<DefinitionModel>,
    options: OptionsModel,
    name: Seq<char>,
    kind: NodeKind,
)
    requires
        !options.hide_relay_boilerplate,
    ensures
        is_one_of_kind(document_graph(doc, options).nodes, name, kind) ==> is_one_of_kind(
            drawn_nodes(doc, options),
            name,
            kind,
        ),
        is_none_of_kind(document_graph(doc, options).nodes, name, kind) ==> is_none_of_kind(
            drawn_nodes(doc, options),
            name,
            kind,
        ),
{
    let shown = document_graph(doc, options).nodes;
    let drawn = drawn_nodes(doc, options);
    lemma_shown(doc, options);
    if is_one_of_kind(shown, name, kind) {
        let j = choose|j: int| #[trigger] is_only(shown, name, j) && shown[j].kind == kind;
        assert forall|b: int| 0 <= b < drawn.len() && b != j implies (#[trigger] drawn[b]).id
            != name by {
            assert(shown[b].id != name);
        }
        assert(is_only(drawn, name, j));
    }
    if is_none_of_kind(shown, name, kind) && !is_standard_scalar(name) {
        assert forall|j: int| 0 <= j < drawn.len() && (#[trigger] drawn[j]).id == name implies drawn[j].kind
            != kind by {
            assert(shown[j].id == name);
        }
    }
}

/// A field without input arguments draws an edge from its type to the type that it gives, if that is
/// shown and another one. The edge carries the name of the field, its row and whether it can be null.
pub proof fn fields_draw_edges(doc: Seq<DefinitionModel>, options: OptionsModel, i: int, x: int)
    requires
        !options.hide_relay_boilerplate,
        0 <= i < document_graph(doc, options).nodes.len(),
        document_graph(doc, options).nodes[i].id == document_graph(doc, options).nodes[i].name,
        document_graph(doc, options).nodes[i].fields is Some,
        0 <= x < document_graph(doc, options).nodes[i].fields->0.len() <= usize::MAX,
        ({
            let g = document_graph(doc, options);
            let f = g.nodes[i].fields->0[x];
            &&& f.base_type != g.nodes[i].name
            &&& !is_standard_scalar(f.base_type)
            &&& is_shown(g.nodes, f.base_type)
            &&& f.args matches Some(args) ==> forall|a: int|
                0 <= a < args.len() ==> is_none_of_kind(
                    g.nodes,
                    (#[trigger] args[a]).base_type,
                    NodeKind::Input,
                )
        }),
    ensures
        ({
            let g = document_graph(doc, options);
            let f = g.nodes[i].fields->0[x];
            has_edge(
                g.edges,
                g.nodes[i].name,
                f.base_type,
                EdgeKind::Field,
                Some(f.name),
                Some(x),
                Some(f.name),
                Some(f.nullable),
            )
        }),
{
    let g = document_graph(doc, options);
    let drawn = drawn_nodes(doc, options);
    lemma_shown(doc, options);
    let n = g.nodes[i];
    let f = n.fields->0[x];
    let args = or_empty(f.args);
    assert forall|a: int| 0 <= a < args.len() implies is_none_of_kind(
        drawn,
        (#[trigger] args[a]).base_type,
        NodeKind::Input,
    ) by {
        lemma_same_kinds(doc, options, args[a].base_type, NodeKind::Input);
    }
    lemma_no_inputs(drawn, args);
    let chain = arg_chain(drawn, f);
    assert(chain.len() == 1 && chain[0] == f.base_type);
    let e = field_edge(n.name, f, x, f.base_type);
    let enums = enum_args(drawn, args).map_values(
        |t: Seq<char>| enum_arg_edge(n.name, f.name, t),
    );
    assert(chain_edges(n.name, f, x, chain)[0] == e);
    assert(field_edges(drawn, n.name, f, x)[enums.len() as int] == e);
    lemma_from_field(drawn, i, x, e);
    assert(is_shown(g.nodes, n.name)) by {
        assert(g.nodes[i].id == n.name);
    }
    lemma_drawn(doc, options, i, e);
    lemma_seen(g.edges, e);
}

/// A field that takes an input type leads through it: from its type to the first input type among its
/// arguments, and from the last one to the type that it gives, if that is shown and another one.
pub proof fn input_arguments_are_passed_through(
    doc: Seq<DefinitionModel>,
    options: OptionsModel,
    i: int,
    x: int,
    first: int,
    last: int,
)
    requires
        !options.hide_relay_boilerplate,
        0 <= i < document_graph(doc, options).nodes.len(),
        document_graph(doc, options).nodes[i].id == document_graph(doc, options).nodes[i].name,
        document_graph(doc, options).nodes[i].fields is Some,
        0 <= x < document_graph(doc, options).nodes[i].fields->0.len() <= usize::MAX,
        ({
            let g = document_graph(doc, options);
            let f = g.nodes[i].fields->0[x];
            &&& f.base_type != g.nodes[i].name
            &&& f.args is Some
            &&& 0 <= first <= last < f.args->0.len()
            &&& is_one_of_kind(g.nodes, f.args->0[first].base_type, NodeKind::Input)
            &&& is_one_of_kind(g.nodes, f.args->0[last].base_type, NodeKind::Input)
            &&& forall|b: int|
                0 <= b < f.args->0.len() && (b < first || b > last) ==> is_none_of_kind(
                    g.nodes,
                    (#[trigger] f.args->0[b]).base_type,
                    NodeKind::Input,
                )
        }),
    ensures
        ({
            let g = document_graph(doc, options);
            let f = g.nodes[i].fields->0[x];
            &&& has_edge(
                g.edges,
                g.nodes[i].name,
                f.args->0[first].base_type,
                EdgeKind::Field,
                Some(f.name),
                Some(x),
                Some(f.name),
                Some(f.nullable),
            )
            &&& !is_standard_scalar(f.base_type) && is_shown(g.nodes, f.base_type) ==> has_edge(
                g.edges,
                f.args->0[last].base_type,
                f.base_type,
                EdgeKind::Arg,
                None,
                None,
                None,
                Some(false),
            )
        }),
{
    let g = document_graph(doc, options);
    let drawn = drawn_nodes(doc, options);
    lemma_shown(doc, options);
    let n = g.nodes[i];
    let f = n.fields->0[x];
    let args = or_empty(f.args);
    let (a, z) = (args[first].base_type, args[last].base_type);
    lemma_same_kinds(doc, options, a, NodeKind::Input);
    lemma_same_kinds(doc, options, z, NodeKind::Input);
    assert forall|b: int| 0 <= b < args.len() && (b < first || b > last) implies is_none_of_kind(
        drawn,
        (#[trigger] args[b]).base_type,
        NodeKind::Input,
    ) by {
        lemma_same_kinds(doc, options, f.args->0[b].base_type, NodeKind::Input);
    }
    lemma_first_input(drawn, args, first);
    lemma_last_input(drawn, args, last);
    let chain = arg_chain(drawn, f);
    let edges = field_edges(drawn, n.name, f, x);
    let enums = enum_args(drawn, args).map_values(
        |t: Seq<char>| enum_arg_edge(n.name, f.name, t),
    );
    let e = field_edge(n.name, f, x, a);
    assert(chain[0] == a);
    assert(chain_edges(n.name, f, x, chain)[0] == e);
    assert(edges[enums.len() as int] == e);
    lemma_from_field(drawn, i, x, e);
    assert(is_shown(g.nodes, n.name)) by {
        assert(g.nodes[i].id == n.name);
    }
    lemma_one_is_shown(g.nodes, a, NodeKind::Input);
    lemma_one_is_shown(g.nodes, z, NodeKind::Input);
    lemma_drawn(doc, options, i, e);
    lemma_seen(g.edges, e);
    if !is_standard_scalar(f.base_type) && is_shown(g.nodes, f.base_type) {
        let inputs = input_args(drawn, args);
        let ci = chain.len() - 1;
        let h = chain_edge(n.name, f.name, chain, ci);
        assert(chain[ci] == f.base_type && chain[ci - 1] == inputs.last());
        assert(chain_edges(n.name, f, x, chain)[ci] == h);
        assert(edges[enums.len() + ci] == h);
        lemma_from_field(drawn, i, x, h);
        lemma_drawn(doc, options, i, h);
        lemma_seen(g.edges, h);
    }
}

proof fn lemma_one_is_shown(nodes: Seq<NodeModel>, name: Seq<char>, kind: NodeKind)
    requires
        is_one_of_kind(nodes, name, kind),
    ensures
        is_shown(nodes, name),
{
    let j = choose|j: int| #[trigger] is_only(nodes, name, j) && nodes[j].kind == kind;
    assert(nodes[j].id == name);
}

/// A field that takes an enum draws an edge from its type to the enum.
pub proof fn enum_arguments_draw_edges(
    doc: Seq<DefinitionModel>,
    options: OptionsModel,
    i: int,
    x: int,
    a: int,
)
    requires
        !options.hide_relay_boilerplate,
        0 <= i < document_graph(doc, options).nodes.len(),
        document_graph(doc, options).nodes[i].id == document_graph(doc, options).nodes[i].name,
        document_graph(doc, options).nodes[i].fields is Some,
        0 <= x < document_graph(doc, options).nodes[i].fields->0.len(),
        ({
            let g = document_graph(doc, options);
            let f = g.nodes[i].fields->0[x];
            &&& f.base_type != g.nodes[i].name
            &&& f.args is Some
            &&& 0 <= a < f.args->0.len()
            &&& is_one_of_kind(g.nodes, f.args->0[a].base_type, NodeKind::Enum)
        }),
    ensures
        ({
            let g = document_graph(doc, options);
            let f = g.nodes[i].fields->0[x];
            has_edge(
                g.edges,
                g.nodes[i].name,
                f.args->0[a].base_type,
                EdgeKind::Arg,
                None,
                None,
                None,
                None,
            )
        }),
{
    let g = document_graph(doc, options);
    let drawn = drawn_nodes(doc, options);
    lemma_shown(doc, options);
    let n = g.nodes[i];
    let f = n.fields->0[x];
    let args = or_empty(f.args);
    let t = args[a].base_type;
    lemma_same_kinds(doc, options, t, NodeKind::Enum);
    lemma_enum_listed(drawn, args, a);
    let listed = enum_args(drawn, args);
    let y = choose|y: int| 0 <= y < listed.len() && listed[y] == t;
    let e = enum_arg_edge(n.name, f.name, t);
    assert(field_edges(drawn, n.name, f, x)[y] == e);
    lemma_from_field(drawn, i, x, e);
    assert(is_shown(g.nodes, n.name)) by {
        assert(g.nodes[i].id == n.name);
    }
    lemma_one_is_shown(g.nodes, t, NodeKind::Enum);
    lemma_drawn(doc, options, i, e);
    lemma_seen(g.edges, e);
}

/// An interface that is shown has an edge to every type that implements it, labelled `implements`.
pub proof fn interfaces_lead_to_their_types(
    doc: Seq<DefinitionModel>,
    options: OptionsModel,
    i: int,
    x: int,
)
    requires
        !options.hide_relay_boilerplate,
        0 <= i < document_graph(doc, options).nodes.len(),
        document_graph(doc, options).nodes[i].id == document_graph(doc, options).nodes[i].name,
        document_graph(doc, options).nodes[i].interfaces is Some,
        0 <= x < document_graph(doc, options).nodes[i].interfaces->0.len(),
        is_shown(
            document_graph(doc, options).nodes,
            document_graph(doc, options).nodes[i].interfaces->0[x],
        ),
    ensures
        has_edge(
            document_graph(doc, options).edges,
            document_graph(doc, options).nodes[i].interfaces->0[x],
            document_graph(doc, options).nodes[i].name,
            EdgeKind::Implements,
            None,
            None,
            Some("implements"@),
            None,
        ),
{
    let g = document_graph(doc, options);
    let drawn = drawn_nodes(doc, options);
    lemma_shown(doc, options);
    let n = g.nodes[i];
    let d = drawn[i];
    let e = implements_edge(n.interfaces->0[x], n.name);
    let first = fields_edges(drawn, d.name, or_empty(d.fields), or_empty(d.fields).len());
    assert(node_edges(drawn, d)[first.len() + x] == e);
    assert(is_shown(g.nodes, n.name)) by {
        assert(g.nodes[i].id == n.name);
    }
    lemma_drawn(doc, options, i, e);
    lemma_seen(g.edges, e);
}

/// A union has an edge to every member that is shown, labelled `member`.
pub proof fn unions_lead_to_their_members(
    doc: Seq<DefinitionModel>,
    options: OptionsModel,
    i: int,
    x: int,
)
    requires
        !options.hide_relay_boilerplate,
        0 <= i < document_graph(doc, options).nodes.len(),
        document_graph(doc, options).nodes[i].id == document_graph(doc, options).nodes[i].name,
        document_graph(doc, options).nodes[i].kind == NodeKind::Union,
        document_graph(doc, options).nodes[i].members is Some,
        0 <= x < document_graph(doc, options).nodes[i].members->0.len(),
        is_shown(
            document_graph(doc, options).nodes,
            document_graph(doc, options).nodes[i].members->0[x],
        ),
    ensures
        has_edge(
            document_graph(doc, options).edges,
            document_graph(doc, options).nodes[i].name,
            document_graph(doc, options).nodes[i].members->0[x],
            EdgeKind::Union,
            None,
            None,
            Some("member"@),
            None,
        ),
{
    let g = document_graph(doc, options);
    let drawn = drawn_nodes(doc, options);
    lemma_shown(doc, options);
    let n = g.nodes[i];
    let d = drawn[i];
    let e = union_edge(n.name, n.members->0[x]);
    let first = fields_edges(drawn, d.name, or_empty(d.fields), or_empty(d.fields).len());
    let second = or_empty(d.interfaces).map_values(|t: Seq<char>| implements_edge(t, d.name));
    assert(node_edges(drawn, d)[first.len() + second.len() + x] == e);
    assert(is_shown(g.nodes, n.name)) by {
        assert(g.nodes[i].id == n.name);
    }
    lemma_drawn(doc, options, i, e);
    lemma_seen(g.edges, e);
}

} // verus!
