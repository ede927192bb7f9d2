//! Weakly connected components.

use graviz::components::{weakly_connected_components, Component};
use graviz::sdl::sdl_to_graph;
use graviz::types::{EdgeKind, GraphEdgeData, GraphNodeData, NodeKind};

fn sizes(components: &[Component]) -> Vec<usize> {
    components.iter().map(|c| c.node_ids.len()).collect()
}

#[test]
fn a_connected_schema_is_one_component() {
    let g = sdl_to_graph(
        "type Query { me: User } type User { id: ID! posts: [Post!]! } type Post { id: ID! }",
        &Default::default(),
    );
    let components = weakly_connected_components(&g.nodes, &g.edges);
    assert_eq!(components.len(), 1);
    assert_eq!(components[0].node_ids.len(), 3);
}

#[test]
fn disjoint_islands_split() {
    let g = sdl_to_graph(
        r#"
        type Query { me: User }
        type User { id: ID! }
        type Island { peer: Peer }
        type Peer { id: ID! }
        type Lonely { id: ID! }
        "#,
        &Default::default(),
    );
    let components = weakly_connected_components(&g.nodes, &g.edges);
    // Query+User, Island+Peer, Lonely — in first-appearance order.
    assert_eq!(sizes(&components), vec![2, 2, 1]);
    assert!(components[0].node_ids.contains(&"Query".to_string()));
    assert!(components[2].node_ids.contains(&"Lonely".to_string()));
}

#[test]
fn edges_are_undirected_for_this_purpose() {
    // The implements edge runs Interface → Post, yet a walk in either
    // direction must land both in the same component.
    let g = sdl_to_graph(
        "interface Node2 { id: ID! } type Post implements Node2 { id: ID! }",
        &Default::default(),
    );
    let components = weakly_connected_components(&g.nodes, &g.edges);
    assert_eq!(components.len(), 1);
}

#[test]
fn edges_touching_unknown_nodes_are_ignored() {
    let nodes = vec![
        GraphNodeData::new("A", NodeKind::Object),
        GraphNodeData::new("B", NodeKind::Object),
    ];
    let edges = vec![GraphEdgeData::new(
        "A.x->Ghost",
        "A",
        "Ghost",
        EdgeKind::Field,
    )];
    let components = weakly_connected_components(&nodes, &edges);
    assert_eq!(components.len(), 2);
}

#[test]
fn an_empty_graph_has_no_components() {
    assert!(weakly_connected_components(&Vec::new(), &Vec::new()).is_empty());
}
