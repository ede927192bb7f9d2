//! Loading schemas, remembering them, and the texts around them.

use graviz::document::{read_document, Definition, KindDecl};
use graviz::labels::file_label;
use graviz::landing::{entry_meta, summarize};
use graviz::loader::{load_sdl, visualize, LoadError};
use graviz::panels::{build_orphan_rows, build_until_rows, OrphanRow, UntilRow};
use graviz::deadlines::Variant;
use graviz::recents::{push_recent, push_search, remove_recent, remove_search, RecentEntry};
use graviz::slices::{root_ops_of, slice_graph, Mode};
use graviz::sdl::sdl_to_graph;
use graviz::types::{NodeKind, ParsedGraph, RootTypeMap, SdlToGraphOptions};
use graviz::update::{parse_release, release_of};

fn graph_of(sdl: &str) -> ParsedGraph {
    let g = sdl_to_graph(
        sdl,
        &SdlToGraphOptions { hide_relay_boilerplate: false, ..Default::default() },
    );
    assert!(g.error.is_none(), "{:?}", g.error);
    g
}

fn ids(g: &ParsedGraph) -> Vec<&str> {
    g.nodes.iter().map(|n| n.id.as_str()).collect()
}

#[test]
fn documents_become_lists_of_definitions() {
    let doc = read_document("schema { query: Q }\ntype Q { a(x: [Int!]): String! @deprecated(reason: \"r\") }")
        .unwrap();
    assert_eq!(doc.len(), 2);
    match &doc[0] {
        Definition::Schema { query, mutation, subscription } => {
            assert_eq!(query.as_deref(), Some("Q"));
            assert!(mutation.is_none() && subscription.is_none());
        }
        other => panic!("{other:?}"),
    }
    match &doc[1] {
        Definition::Type(t) => {
            assert_eq!((t.name.as_str(), t.extend, t.line), ("Q", false, 2));
            match &t.kind {
                KindDecl::Object { fields, .. } => {
                    assert_eq!(fields[0].name, "a");
                    assert_eq!(fields[0].arguments[0].name, "x");
                    assert_eq!(fields[0].directives[0].name, "deprecated");
                    assert_eq!(
                        fields[0].directives[0].arguments,
                        vec![("reason".to_string(), Some("r".to_string()))]
                    );
                }
                other => panic!("{other:?}"),
            }
        }
        other => panic!("{other:?}"),
    }
    assert!(read_document("type {").is_err());
}

#[test]
fn a_schema_without_an_overlay_is_shown_as_it_is() {
    let s = load_sdl("type Query { a: Int }", "n".into(), None, false).unwrap();
    assert_eq!((s.name.as_str(), s.graph.nodes.len()), ("n", 1));
    assert!(s.diff.is_none());
    let blank = load_sdl("type Query { a: Int }", "n".into(), Some("  \n"), false).unwrap();
    assert_eq!(blank, s);
}

#[test]
fn an_overlay_is_merged_and_reported() {
    let s = load_sdl(
        "type Query { a: Int }",
        "n".into(),
        Some("extend type Query { b: New }\ntype New { c: Int }"),
        false,
    )
    .unwrap();
    let diff = s.diff.unwrap();
    assert_eq!(diff.added_types, vec!["New"]);
    assert_eq!(diff.added_fields, vec!["Query.b"]);
    assert!(diff.removed_types.is_empty());
    assert!(s.graph.nodes.iter().find(|n| n.id == "New").unwrap().is_overlay);
}

#[test]
fn broken_documents_are_named_in_the_error() {
    let e = load_sdl("type {", "n".into(), None, false).unwrap_err();
    assert!(matches!(e, LoadError::Schema(_)));
    assert!(e.message().starts_with("schema parse error: "), "{}", e.message());
    let e = load_sdl("type Query { a: Int }", "n".into(), Some("type {"), false).unwrap_err();
    assert!(matches!(e, LoadError::Overlay(_)));
    assert!(e.message().starts_with("overlay parse error: "), "{}", e.message());
}

#[test]
fn pasted_text_has_to_hold_types() {
    assert_eq!(
        visualize(" \n", "n".into(), true).unwrap_err(),
        "Paste an SDL or drop a .graphql file."
    );
    assert_eq!(
        visualize("directive @a on FIELD", "n".into(), true).unwrap_err(),
        "No types found in this SDL."
    );
    assert!(visualize("type {", "n".into(), true).unwrap_err().starts_with("schema parse error"));
    assert_eq!(visualize("type A { b: Int }", "n".into(), true).unwrap().graph.nodes.len(), 1);
}

#[test]
fn slices_show_what_their_mode_asks_for() {
    let g = graph_of(
        "type Query { a: A }
         type A { x: Int, gone: B @deprecated }
         type B { y: Int }
         type Alone { z: Int }",
    );
    assert_eq!(ids(&slice_graph(&g, Mode::Reachable, None)), vec!["Query", "A", "B"]);
    assert_eq!(ids(&slice_graph(&g, Mode::Orphaned, None)), vec!["Alone"]);
    assert_eq!(ids(&slice_graph(&g, Mode::Deprecated, None)), vec!["A", "B"]);
    assert_eq!(
        [Mode::Reachable.label(), Mode::Orphaned.label(), Mode::Deprecated.label()],
        ["Reachable", "Orphaned", "Deprecated"]
    );
}

#[test]
fn without_declared_roots_the_usual_names_count() {
    let none = RootTypeMap { query: None, mutation: None, subscription: None };
    assert_eq!(root_ops_of(&none), vec!["Query", "Mutation", "Subscription"]);
    let some = RootTypeMap { query: Some("Q".into()), mutation: None, subscription: None };
    assert_eq!(root_ops_of(&some), vec!["Q"]);
}

#[test]
fn orphans_are_grouped_by_kind() {
    let g = graph_of(
        "type Query { a: Int }
         type Zed { a: Int, b: Int }
         enum Color { RED }
         type Alone { z: Int }",
    );
    let (rows, total) = build_orphan_rows(&g);
    assert_eq!(total, 3);
    assert_eq!(rows[0], OrphanRow::Kind { label: "OBJECT", count: "(2)".into() });
    assert_eq!(
        rows[1],
        OrphanRow::Type { card: 3, kind: NodeKind::Object, name: "Alone".into(), fields: Some("1f".into()) }
    );
    assert_eq!(
        rows[2],
        OrphanRow::Type { card: 1, kind: NodeKind::Object, name: "Zed".into(), fields: Some("2f".into()) }
    );
    assert_eq!(rows[3], OrphanRow::Kind { label: "ENUM", count: "(1)".into() });
    assert_eq!(rows.len(), 5);
}

#[test]
fn deprecated_members_are_sorted_into_sections() {
    let g = graph_of(
        "type Query {
           a: Int @deprecated(reason: \"[until 2020-01-01] x\")
           b: Int @deprecated(reason: \"[until 2030-01-01] y\")
           c: Int @deprecated(reason: \"z\")
           d: Int
         }",
    );
    let rows = build_until_rows(&g.nodes, "2021-01-01");
    let banners: Vec<Variant> = rows
        .iter()
        .filter_map(|r| match r {
            UntilRow::Banner { variant, .. } => Some(*variant),
            _ => None,
        })
        .collect();
    assert_eq!(banners, vec![Variant::Expired, Variant::Upcoming, Variant::Undated]);
    assert_eq!(rows.len(), 9);
    assert_eq!(
        rows[2],
        UntilRow::Field {
            variant: Variant::Expired,
            card: 0,
            row: 0,
            name: "a".into(),
            date: Some("2020-01-01".into()),
            meta: "365d overdue · x".into(),
        }
    );
}

#[test]
fn searches_are_remembered_latest_first() {
    let mut list = vec![];
    for q in ["a", "b", " a ", "", "c"] {
        list = push_search(list, q);
    }
    assert_eq!(list, vec!["c", "a", "b"]);
    assert_eq!(remove_search(&list, "a"), vec!["c", "b"]);
    for i in 0..20 {
        list = push_search(list, &format!("q{i}"));
    }
    assert_eq!(list.len(), 12);
    assert_eq!(list[0], "q19");
}

#[test]
fn opened_schemas_are_remembered_by_path() {
    let entry = |p: &str, n: &str| RecentEntry { path: p.into(), name: n.into() };
    let mut list = vec![];
    for i in 0..15 {
        list = push_recent(&list, entry(&format!("/{i}"), "x"));
    }
    assert_eq!(list.len(), 10);
    list = push_recent(&list, entry("/9", "renamed"));
    assert_eq!(list.len(), 10);
    assert_eq!(list[0], entry("/9", "renamed"));
    assert_eq!(list.iter().filter(|e| e.path == "/9").count(), 1);
    assert_eq!(remove_recent(&list, "/9").len(), 9);
}

#[test]
fn labels_fall_back_to_the_whole_path() {
    assert_eq!(file_label("/", None, None, Some("/h")), ("/".to_string(), None));
    assert_eq!(
        file_label("/h/a/b", Some("b"), Some("/h/a"), Some("/h")),
        ("b".to_string(), Some("~/a".to_string()))
    );
    assert_eq!(
        file_label("/h/a/b", Some("b"), Some("/h/a"), Some("")),
        ("b".to_string(), Some("/h/a".to_string())),
        "an empty home collapses nothing"
    );
}

#[test]
fn entries_say_when_they_cannot_be_read() {
    assert_eq!(entry_meta(None, None), ("missing".to_string(), "unreadable".to_string()));
    assert_eq!(
        entry_meta(Some(1_609_459_200), Some("type A { x: Int }")),
        ("updated 2021-01-01 00:00".to_string(), "1 types · 1 lines".to_string())
    );
    assert_eq!(summarize(""), "0 lines");
    assert_eq!(summarize("  type A\nenumeration"), "1 types · 2 lines");
}

#[test]
fn only_a_new_version_is_an_update() {
    assert!(release_of(Some("vv1.0".into()), Some("u".into()), "1.0").is_none());
    let info = release_of(Some("v1.1".into()), Some("u".into()), "1.0").unwrap();
    assert_eq!((info.version.as_str(), info.url.as_str()), ("1.1", "u"));
    assert!(release_of(None, Some("u".into()), "1.0").is_none());
    assert!(release_of(Some("v1.1".into()), None, "1.0").is_none());
}

#[test]
fn a_reply_that_is_no_object_holds_no_update() {
    assert!(parse_release(&serde_json::Value::Null, "1.0").is_none());
    assert!(parse_release(&serde_json::Value::from(vec![1, 2]), "1.0").is_none());
    let mut body = serde_json::value::Map::new();
    body.insert("tag_name".into(), serde_json::Value::from(3));
    body.insert("html_url".into(), serde_json::Value::from("u"));
    assert!(parse_release(&serde_json::Value::Object(body), "1.0").is_none());
}

#[test]
fn slices_keep_order_and_roots_and_join_what_they_keep() {
    let g = graph_of(
        "type Query { a: A }
         type Z { y: Y, old: Int @deprecated }
         type Y { z: Z }
         type A { x: Int, gone: B @deprecated }
         type B { y: Int }
         enum E { ONE @deprecated TWO }",
    );
    let lost = slice_graph(&g, Mode::Orphaned, None);
    assert_eq!(ids(&lost), vec!["Z", "Y", "E"]);
    let old = slice_graph(&g, Mode::Deprecated, None);
    assert_eq!(ids(&old), vec!["Z", "A", "B", "E"]);
    for s in [&lost, &old] {
        assert_eq!(s.root_types, g.root_types);
        assert!(s.warnings.is_empty());
        let kept = ids(s);
        assert!(s.edges.iter().all(|e| kept.contains(&e.source.as_str()) && kept.contains(&e.target.as_str())));
    }
}
