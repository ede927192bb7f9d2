//! The sidebar: searching, filtering, browsing and the details of a type.

use graviz::browse::{
    context_sections, count_kind, filter_hits, is_navigable, keep_root, sorted_cards, toggle_kind,
};
use graviz::cards::{index_of, ModelOptions};
use graviz::details::{
    body_of, counted_heading, field_line, kind_chips, line_click, navigate, no_rows_text,
    orphan_heading, route_of, schema_label, snippet_tag, Body, Chip, LineClick, Route, Tint,
};
use graviz::model::{build_model, Model};
use graviz::sdl::sdl_to_graph;
use graviz::search::{search, SnippetKind};
use graviz::sidebar::Sidebar;
use graviz::types::{NodeKind, RootTypeMap, SdlToGraphOptions};
use graviz::typing::{Press, SearchReply};

const BLOG: &str = r#"
interface Node { id: ID! }
interface Named { name: String }
type Query { author(id: ID!, exact: Boolean): Author, posts: [Post] }
type Mutation { publish: Post }
type Author implements Node & Named { id: ID!, name: String, posts: [Post] }
type Post implements Node { id: ID!, author: Author, old: String @deprecated(reason: "[until 2020-01-01] gone"), slug: String @deprecated }
union Found = Post | Author
union Written = Post
enum Tone { DRY }
enum Nothing2 { X }
"#;

fn blog() -> Model {
    let g = sdl_to_graph(
        BLOG,
        &SdlToGraphOptions { hide_relay_boilerplate: false, ..Default::default() },
    );
    assert!(g.error.is_none(), "{:?}", g.error);
    build_model(g, "blog".into(), &ModelOptions::on_day("2021-01-01"))
}

fn at(m: &Model, name: &str) -> u32 {
    index_of(&m.graph.nodes, name).unwrap()
}

fn bar(m: &Model) -> Sidebar {
    Sidebar::new(&m.graph, &m.cards, vec![])
}

fn key(name: &str) -> Press<'_> {
    Press { key: name, command: false, shift: false, control: false, typed: None, clipboard: None }
}

// ── state ──

#[test]
fn a_new_sidebar_is_empty_and_picks_the_first_root() {
    let m = blog();
    let s = bar(&m);
    assert!(s.search.text.is_empty() && s.results.is_empty() && s.filtered.is_empty());
    assert_eq!(s.root_pick.as_deref(), Some("Query"));
    assert_eq!(s.selected, None);
    let names: Vec<&str> = s.all_sorted.iter().map(|&i| m.cards[i].name.as_str()).collect();
    let mut sorted = names.clone();
    sorted.sort();
    assert_eq!(names, sorted);
    assert_eq!(names.len(), m.cards.len());
}

#[test]
fn a_query_lists_its_hits_and_a_kind_filters_them() {
    let m = blog();
    let mut s = bar(&m);
    s.set_query("o".into(), &m.graph);
    let all = s.results.len();
    assert!(all > 0);
    assert_eq!(s.filtered.len(), all);
    s.toggle_kind(NodeKind::Union, &m.graph);
    assert_eq!(s.filtered.len(), count_kind(&s.results, NodeKind::Union));
    assert!(s.filtered.len() < all);
    s.toggle_kind(NodeKind::Union, &m.graph);
    assert_eq!(s.filtered.len(), all, "two clicks undo each other");
    s.toggle_kind(NodeKind::Enum, &m.graph);
    s.clear_kind_filter(&m.graph);
    assert_eq!(s.filtered.len(), all);
    s.set_query("   ".into(), &m.graph);
    assert!(s.results.is_empty());
}

#[test]
fn taking_a_hit_remembers_the_query_and_selects_the_card() {
    let m = blog();
    let mut s = bar(&m);
    s.set_query("Author".into(), &m.graph);
    let first = &s.results[s.filtered[0]];
    assert_eq!(first.node_name, "Author");
    let to = s.select_result(&m.graph, &m.cards, 0);
    assert_eq!(to, Some((at(&m, "Author"), None)));
    assert_eq!(s.selected, Some(at(&m, "Author")));
    assert_eq!(s.history, vec!["Author"]);
    assert!(s.search.text.is_empty() && s.results.is_empty());
    assert_eq!(s.select_result(&m.graph, &m.cards, 0), None);
}

#[test]
fn a_selected_field_is_pinned_where_it_is_shown() {
    let m = blog();
    let mut s = bar(&m);
    let post = at(&m, "Post");
    s.select_card(&m.cards, post, Some(2));
    assert_eq!(s.pinned, Some((post, 2)));
    s.select_card(&m.cards, post, Some(99));
    assert_eq!(s.pinned, None);
    s.select_card(&m.cards, post, None);
    assert_eq!(s.pinned, None);
}

#[test]
fn another_slice_clears_the_selection_but_keeps_the_root() {
    let m = blog();
    let mut s = bar(&m);
    s.set_query("a".into(), &m.graph);
    s.select_card(&m.cards, 0, None);
    s.pick_root("Mutation".into());
    s.set_model(&m.graph, &m.cards);
    assert_eq!(s.root_pick.as_deref(), Some("Mutation"));
    assert_eq!(s.selected, None);
    assert!(s.search.text.is_empty());
    s.pick_root("Gone".into());
    s.set_model(&m.graph, &m.cards);
    assert_eq!(s.root_pick.as_deref(), Some("Query"));
}

#[test]
fn remembered_searches_can_be_forgotten() {
    let m = blog();
    let mut s = Sidebar::new(&m.graph, &m.cards, vec!["a".into(), "b".into(), "c".into()]);
    s.remove_history("b");
    assert_eq!(s.history, vec!["a", "c"]);
    s.clear_history();
    assert!(s.history.is_empty());
}

#[test]
fn keys_type_move_and_take_hits() {
    let m = blog();
    let mut s = bar(&m);
    let typed = Press { typed: Some("P"), ..key("p") };
    assert_eq!(s.press(&typed, &m.graph, &m.cards), (SearchReply::Changed, None));
    assert_eq!(s.search.text, "P");
    assert!(s.filtered.len() > 1);
    assert_eq!(s.press(&key("down"), &m.graph, &m.cards), (SearchReply::Active(1), None));
    assert_eq!(s.active, 1);
    assert_eq!(s.press(&key("up"), &m.graph, &m.cards), (SearchReply::Active(0), None));
    let hit = s.results[s.filtered[0]].node_index as u32;
    let row = s.results[s.filtered[0]].row_index;
    let (reply, to) = s.press(&key("enter"), &m.graph, &m.cards);
    assert_eq!(reply, SearchReply::Picked(0));
    assert_eq!(to, Some((hit, row)));
    assert_eq!(s.history, vec!["P"]);
    assert_eq!(s.press(&key("f7"), &m.graph, &m.cards), (SearchReply::Ignored, None));
    assert_eq!(s.press(&key("enter"), &m.graph, &m.cards), (SearchReply::Picked(0), None));
}

#[test]
fn cutting_and_leaving_run_the_search_again() {
    let m = blog();
    let mut s = bar(&m);
    s.set_query("Post".into(), &m.graph);
    let all = Press { command: true, ..key("a") };
    assert_eq!(s.press(&all, &m.graph, &m.cards).0, SearchReply::Moved);
    let copy = Press { command: true, ..key("c") };
    assert_eq!(s.press(&copy, &m.graph, &m.cards).0, SearchReply::Copied("Post".into()));
    let cut = Press { command: true, ..key("x") };
    assert_eq!(s.press(&cut, &m.graph, &m.cards).0, SearchReply::Taken("Post".into()));
    assert!(s.results.is_empty());
    let paste = Press { command: true, clipboard: Some("Tone"), ..key("v") };
    assert_eq!(s.press(&paste, &m.graph, &m.cards).0, SearchReply::Changed);
    assert!(!s.results.is_empty());
    assert_eq!(s.press(&key("escape"), &m.graph, &m.cards).0, SearchReply::Left);
    assert!(s.search.text.is_empty() && s.results.is_empty());
}

// ── browsing ──

#[test]
fn sections_list_what_a_type_is_connected_to() {
    let m = blog();
    let name = |i: u32| m.cards[i as usize].name.as_str();
    let node = context_sections(&m.cards, at(&m, "Node"));
    let got: Vec<(&str, &Vec<String>)> =
        node.implementers.iter().map(|x| (name(x.card), &x.notes)).collect();
    assert_eq!(got, vec![("Author", &vec!["Named".to_string()]), ("Post", &vec![])]);
    assert!(node.union_members.is_empty());
    let found = context_sections(&m.cards, at(&m, "Found"));
    let got: Vec<(&str, &Vec<String>)> =
        found.union_members.iter().map(|x| (name(x.card), &x.notes)).collect();
    assert_eq!(got, vec![("Author", &vec![]), ("Post", &vec!["Written".to_string()])]);
    let post = context_sections(&m.cards, at(&m, "Post"));
    let got: Vec<(&str, &Vec<String>)> =
        post.referenced_by.iter().map(|x| (name(x.card), &x.notes)).collect();
    assert_eq!(
        got,
        vec![
            ("Author", &vec![".posts".to_string()]),
            ("Mutation", &vec![".publish".to_string()]),
            ("Query", &vec![".posts".to_string()]),
        ]
    );
}

#[test]
fn builtin_scalars_lead_nowhere() {
    let m = blog();
    assert!(is_navigable(&m.graph.nodes, "Post"));
    assert!(!is_navigable(&m.graph.nodes, "String"));
    assert!(!is_navigable(&m.graph.nodes, "Nobody"));
}

#[test]
fn a_pick_that_is_gone_falls_back_to_the_first_root() {
    let roots = RootTypeMap {
        query: None,
        mutation: Some("M".into()),
        subscription: Some("S".into()),
    };
    assert_eq!(keep_root(&roots, Some("S".into())).as_deref(), Some("S"));
    assert_eq!(keep_root(&roots, Some("Q".into())).as_deref(), Some("M"));
    assert_eq!(keep_root(&roots, None).as_deref(), Some("M"));
}

#[test]
fn equal_names_keep_their_order_in_the_list() {
    let m = blog();
    let mut cards = vec![m.cards[1].clone(), m.cards[0].clone(), m.cards[1].clone()];
    cards[0].name = "b".into();
    cards[1].name = "a".into();
    cards[2].name = "b".into();
    assert_eq!(sorted_cards(&cards), vec![1, 0, 2]);
}

#[test]
fn an_empty_filter_lets_all_kinds_through() {
    let m = blog();
    let hits = search(&m.graph, "o").unwrap();
    assert_eq!(filter_hits(&hits, &vec![]).len(), hits.len());
    assert_eq!(toggle_kind(vec![NodeKind::Enum], NodeKind::Enum), vec![]);
    assert_eq!(toggle_kind(vec![], NodeKind::Enum), vec![NodeKind::Enum]);
}

// ── details ──

#[test]
fn lines_carry_arity_notes_and_tints() {
    let m = blog();
    let query = &m.cards[at(&m, "Query") as usize];
    let l = field_line(query, 0, false);
    assert_eq!(l.label, "author");
    assert_eq!(l.arity.as_deref(), Some("(1/2)"));
    assert_eq!((l.note, l.tint, l.graph_row), (None, Tint::Plain, Some(0)));
    let post = &m.cards[at(&m, "Post") as usize];
    let old = field_line(post, 2, false);
    assert_eq!(old.note.as_deref(), Some("[until 2020-01-01] gone"));
    assert_eq!(old.tint, Tint::Expired);
    assert_eq!(field_line(post, 2, true).tint, Tint::Pinned);
    let slug = field_line(post, 3, false);
    assert_eq!(slug.tint, Tint::Deprecated);
    assert!(slug.note.is_some());
    let found = &m.cards[at(&m, "Found") as usize];
    assert_eq!(field_line(found, 0, false).label, "| Post");
}

#[test]
fn a_deprecation_without_a_reason_still_says_so() {
    let m = blog();
    let mut post = m.cards[at(&m, "Post") as usize].clone();
    post.rows[3].deprecation_reason = None;
    assert_eq!(field_line(&post, 3, false).note.as_deref(), Some("Deprecated"));
}

#[test]
fn clicks_on_lines_highlight_or_lead_on() {
    let m = blog();
    let post = &m.cards[at(&m, "Post") as usize];
    assert_eq!(line_click(post, 1), LineClick::Show(Some(1)));
    let found = &m.cards[at(&m, "Found") as usize];
    assert_eq!(line_click(found, 1), LineClick::Go(at(&m, "Author")));
    let mut stray = found.clone();
    stray.rows[1].target = None;
    assert_eq!(line_click(&stray, 1), LineClick::Nothing);
}

#[test]
fn hidden_fields_do_not_shift_the_lines() {
    let g = sdl_to_graph(BLOG, &SdlToGraphOptions::default());
    let mut options = ModelOptions::on_day("2021-01-01");
    options.hide_primitive_fields = true;
    let m = build_model(g, "blog".into(), &options);
    let post = &m.cards[at(&m, "Post") as usize];
    assert_eq!(post.rows.len(), 1);
    let l = field_line(post, 0, false);
    assert_eq!((l.label.as_str(), l.graph_row), ("author", Some(1)));
    assert_eq!(post.display_row(1), Some(0));
    assert_eq!(post.display_row(0), None);
}

#[test]
fn chips_count_the_hits_of_each_kind() {
    let m = blog();
    let hits = search(&m.graph, "Found").unwrap();
    let chips = kind_chips(&hits, &vec![NodeKind::Union]);
    let union = chips.iter().find(|c| c.kind == NodeKind::Union).unwrap();
    assert_eq!(
        *union,
        Chip { kind: NodeKind::Union, count: count_kind(&hits, NodeKind::Union), active: true }
    );
    assert!(chips.iter().all(|c| c.count > 0));
    assert_eq!(chips.iter().map(|c| c.count).sum::<usize>(), hits.len());
}

#[test]
fn headings_count_in_brackets() {
    assert_eq!(counted_heading("Members", 3), "Members (3)");
    assert_eq!(orphan_heading(0), "No orphaned types found.");
    assert_eq!(orphan_heading(1), "1 type unreachable from root");
    assert_eq!(orphan_heading(12), "12 types unreachable from root");
    assert_eq!(schema_label(""), "Schema");
    assert_eq!(schema_label("blog"), "blog");
    assert_eq!(no_rows_text(NodeKind::Enum), "no values");
    assert_eq!(no_rows_text(NodeKind::Object), "no fields");
    assert_eq!(snippet_tag(Some(SnippetKind::DeprecationReason)), "deprecated");
    assert_eq!(snippet_tag(Some(SnippetKind::Description)), "desc");
}

#[test]
fn the_body_follows_the_search_box() {
    assert_eq!(body_of(true, " ", 2), Body::History);
    assert_eq!(body_of(true, "", 0), Body::Browse);
    assert_eq!(body_of(false, "", 2), Body::Browse);
    assert_eq!(body_of(false, " a", 2), Body::Results);
}

#[test]
fn routes_lead_where_they_can() {
    for route in [Route::New, Route::View, Route::About] {
        let (about, landing) = navigate(route);
        assert_eq!(route_of(about, landing, true), route);
    }
    assert_eq!(route_of(false, false, false), Route::New, "nothing to view yet");
}
