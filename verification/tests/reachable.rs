//! Reachability from root operations.

use graviz::reachable::{all_reachable_ids, default_root_ops, reachable_from, visit};
use graviz::sdl::sdl_to_graph;
use graviz::types::SdlToGraphOptions;
use std::collections::HashSet;

fn set(names: &[&str]) -> Vec<String> {
    names.iter().map(|s| s.to_string()).collect()
}

#[test]
fn reachability_traverses_from_a_renamed_query_root() {
    let g = sdl_to_graph(
        r#"
        schema { query: QueryRoot }
        type QueryRoot { me: User }
        type User { id: ID! friend: Friend }
        type Friend { id: ID! }
        type Orphan { id: ID! }
        "#,
        &SdlToGraphOptions::default(),
    );
    let root_ops = set(&["QueryRoot"]);

    let sub = reachable_from(&g.nodes, &g.edges, "QueryRoot", &root_ops);
    let ids: HashSet<&str> = sub.nodes.iter().map(|n| n.id.as_str()).collect();
    assert!(ids.contains("QueryRoot"));
    assert!(ids.contains("User"));
    assert!(ids.contains("Friend"));
    assert!(!ids.contains("Orphan"));

    // Orphan detection keys off the renamed root, not the literal "Query".
    let reachable = all_reachable_ids(&g.nodes, &g.edges, &root_ops);
    assert!(!reachable.contains(&"Orphan".to_string()));
    assert!(reachable.contains(&"User".to_string()));
}

#[test]
fn unknown_root_yields_an_empty_subgraph() {
    let g = sdl_to_graph("type Query { me: User } type User { id: ID! }", &Default::default());
    let sub = reachable_from(&g.nodes, &g.edges, "Nope", &default_root_ops());
    assert!(sub.nodes.is_empty());
    assert!(sub.edges.is_empty());
}

#[test]
fn other_root_operations_are_excluded_from_the_walk() {
    let g = sdl_to_graph(
        r#"
        type Query { me: User }
        type Mutation { touch: User }
        type User { id: ID! }
        "#,
        &Default::default(),
    );
    let sub = reachable_from(&g.nodes, &g.edges, "Query", &default_root_ops());
    let ids: HashSet<&str> = sub.nodes.iter().map(|n| n.id.as_str()).collect();
    assert_eq!(ids, ["Query", "User"].into_iter().collect::<HashSet<_>>());
}

#[test]
fn implements_edges_are_walked_in_both_directions() {
    // Query → Post (forward field edge), Post → Timestamped (reverse
    // implements), Timestamped → Comment (forward implements).
    let g = sdl_to_graph(
        r#"
        type Query { post: Post }
        interface Timestamped { createdAt: String }
        type Post implements Timestamped { createdAt: String }
        type Comment implements Timestamped { createdAt: String }
        "#,
        &Default::default(),
    );
    let sub = reachable_from(&g.nodes, &g.edges, "Query", &default_root_ops());
    let ids: HashSet<&str> = sub.nodes.iter().map(|n| n.id.as_str()).collect();
    assert!(ids.contains("Timestamped"));
    assert!(ids.contains("Comment"));
}

#[test]
fn all_reachable_ids_unions_every_root() {
    let g = sdl_to_graph(
        r#"
        type Query { me: User }
        type Mutation { save: Draft }
        type User { id: ID! }
        type Draft { id: ID! }
        type Orphan { id: ID! }
        "#,
        &Default::default(),
    );
    let ids = all_reachable_ids(&g.nodes, &g.edges, &default_root_ops());
    assert!(ids.contains(&"User".to_string()));
    assert!(ids.contains(&"Draft".to_string()));
    assert!(!ids.contains(&"Orphan".to_string()));
}

#[test]
fn a_root_that_names_no_node_reaches_nothing() {
    let g = sdl_to_graph("type Query { a: Int }", &SdlToGraphOptions::default());
    let none: Vec<String> = vec![];
    assert_eq!(visit(&g.nodes, &g.edges, "Mutation", &default_root_ops()), Some(none));
}

#[test]
fn what_any_root_reaches_is_what_they_reach_together() {
    let g = sdl_to_graph(
        "type Query { a: A } type Mutation { b: B } type A { x: Int } type B { a: A } type C { y: Int }",
        &SdlToGraphOptions::default(),
    );
    let ops = default_root_ops();
    let mut any = all_reachable_ids(&g.nodes, &g.edges, &ops);
    any.sort();
    let mut each: Vec<String> = Vec::new();
    for op in &ops {
        for n in reachable_from(&g.nodes, &g.edges, op, &ops).nodes {
            if !each.contains(&n.id) {
                each.push(n.id.clone());
            }
        }
    }
    each.sort();
    assert_eq!(any, each);
    assert_eq!(any, vec!["A", "B", "Mutation", "Query"]);
}
