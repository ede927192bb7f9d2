//! Search over names and descriptions.

use graviz::matching::{
    fit_prose, fit_score, fuzzy_score, hit_in_prose, make_snippet, match_folded, prose_match,
};
use graviz::sdl::sdl_to_graph;
use graviz::search::{search, search_graph, NAME_BONUS};
use graviz::types::SdlToGraphOptions;

#[test]
fn fuzzy_prefers_camel_boundaries_and_prefix() {
    let a = fuzzy_score("ru", "RepositoryUser").unwrap();
    let b = fuzzy_score("ru", "peruser").unwrap();
    assert!(a.score > b.score, "{} vs {}", a.score, b.score);
    assert_eq!(a.indices, vec![0, 10]);
    assert!(fuzzy_score("xyz", "Repository").is_none());
}

#[test]
fn fuzzy_streak_bonus() {
    let streak = fuzzy_score("repo", "Repository").unwrap();
    let scattered = fuzzy_score("rpo", "Repository").unwrap();
    assert!(streak.score > scattered.score);
}

#[test]
fn prose_match_prefers_early_hits() {
    let early = prose_match("commit", Some("commit info")).unwrap();
    let late =
        prose_match("commit", Some("The record of an individual commit somewhere")).unwrap();
    assert!(early.score > late.score);
}

#[test]
fn snippet_windows_and_highlights() {
    let text = "aaaaaaaaaaaaaaaaaaaaaaaaaaaaaaaaaaaaaaaaHITbbbbbbbbbbbbbbbbbbbbbbbbbbbbbb";
    let m = prose_match("hit", Some(text)).unwrap();
    let s = make_snippet(text, m.index, 3);
    assert!(s.snippet.starts_with('…'));
    assert!(s.snippet.ends_with('…'));
    let chars: Vec<char> = s.snippet.chars().collect();
    let hl: String = s.indices.iter().map(|&i| chars[i]).collect();
    assert_eq!(hl, "HIT");
}

#[test]
fn dotted_query_matches_type_and_field() {
    let g = sdl_to_graph(
        "type Query { user: User } type User { id: ID!, name: String }",
        &SdlToGraphOptions::default(),
    );
    let results = search_graph(&g, "user.na");
    assert!(!results.is_empty());
    let top = &results[0];
    assert_eq!(top.node_name, "User");
    assert_eq!(top.field_name.as_deref(), Some("name"));
    assert!(top.type_match_indices.is_some());
}

#[test]
fn prose_fallback_only_when_name_misses() {
    let g = sdl_to_graph(
        r#"
        "The queen of types"
        type Majesty { id: ID! }
        type Query { m: Majesty }
        "#,
        &SdlToGraphOptions::default(),
    );
    let results = search_graph(&g, "queen");
    assert_eq!(
        results
            .iter()
            .filter(|r| r.node_name == "Majesty" && r.field_name.is_none())
            .count(),
        1
    );
    assert!(results
        .iter()
        .any(|r| r.snippet.is_some() && r.node_name == "Majesty"));
}

#[test]
fn a_hit_is_placed_in_the_text_as_written() {
    let m = prose_match("hit", Some("İİhit")).unwrap();
    assert_eq!(m.index, 2);
    let s = make_snippet("İİhit", m.index, 3);
    assert_eq!((s.snippet.as_str(), s.indices), ("İİhit", vec![2, 3, 4]));
    // A hit may start within what one character is mapped to.
    assert_eq!(prose_match("\u{307}h", Some("İh")).unwrap().index, 0);
}

#[test]
fn a_hit_in_folded_text_is_traced_back() {
    let hay: Vec<char> = "i\u{307}i\u{307}hit".chars().collect();
    let needle: Vec<char> = "hit".chars().collect();
    let m = hit_in_prose(&hay, &needle, 3, &vec![2, 2, 1, 1, 1]).unwrap().unwrap();
    assert_eq!((m.index, m.score), (2, 12));
    assert!(hit_in_prose(&hay, &vec!['x'], 1, &vec![2, 2, 1, 1, 1]).unwrap().is_none());
    assert!(hit_in_prose(&hay, &needle, 0x2000_0000, &vec![1]).is_none());
}

#[test]
fn highlights_end_with_the_text() {
    assert_eq!(make_snippet("abc", 1, 5).indices, vec![1, 2]);
    let none: Vec<usize> = vec![];
    assert_eq!(make_snippet("abc", 3, 2).indices, none);
    assert_eq!(make_snippet("abc", 20, 2).snippet, "abc");
}

#[test]
fn long_names_are_scored() {
    let long = "a".repeat(40_000);
    let m = fuzzy_score(&long, &long).unwrap();
    // one for the first letter, 4 + 2 * run for the others, 8 at the start, 8 for the length
    assert_eq!(m.score, 1 + 4 * 39_999 + 39_999 * 40_000 + 8 + 8);
    assert!(fit_score(&long, &"a".repeat(60_000)).unwrap().is_some());
    let longer = "a".repeat(50_000);
    assert!(fit_score(&longer, &longer).is_none());
    let g = sdl_to_graph(&format!("type {longer} {{ b: Int }}"), &SdlToGraphOptions::default());
    assert!(search(&g, &longer).is_none());
    assert_eq!(search(&g, "b").unwrap().len(), 1);
}

#[test]
fn folded_names_match_where_they_spell_the_query() {
    let c = |s: &str| s.chars().collect::<Vec<char>>();
    let m = match_folded(2, &c("ab"), &c("xab"), &c("xAb")).unwrap().unwrap();
    assert_eq!((m.score, m.indices), (1 + 5 + 6 + 5, vec![1, 2]));
    assert!(match_folded(1, &c("z"), &c("xab"), &c("xAb")).unwrap().is_none());
    assert!(fit_prose("b", Some("abc")).unwrap().is_some());
}

#[test]
fn a_plain_query_finds_names_else_prose() {
    let g = sdl_to_graph(
        "\"holds a cat\" type Box { cat: Int \"no cat\" dog: Int lid: Int @deprecated(reason: \"the cat\") }
         type Query { box: Box }",
        &SdlToGraphOptions::default(),
    );
    let at = g.nodes.iter().position(|n| n.name == "Box").unwrap();
    let found = search_graph(&g, " cat ");
    let mut hits: Vec<Option<usize>> =
        found.iter().filter(|r| r.node_index == at).map(|r| r.row_index).collect();
    hits.sort();
    assert_eq!(hits, vec![None, Some(0), Some(1), Some(2)]);
    assert_eq!(found.len(), 4);
    let found = search_graph(&g, "Box");
    let own = found.iter().find(|r| r.node_index == at && r.row_index.is_none()).unwrap();
    assert_eq!(own.score, fuzzy_score("Box", "Box").unwrap().score + NAME_BONUS);
}

#[test]
fn a_dotted_query_finds_rows_of_matching_types() {
    let g = sdl_to_graph(
        "type Cat { name: String, age: Int } type Dog { name: String } type Query { cat: Cat dog: Dog }",
        &SdlToGraphOptions::default(),
    );
    let hits = |q: &str| {
        let mut v: Vec<(String, Option<String>)> =
            search_graph(&g, q).into_iter().map(|r| (r.node_name, r.field_name)).collect();
        v.sort();
        v
    };
    let on = |t: &str, f: &str| (t.to_string(), Some(f.to_string()));
    assert_eq!(hits("cat.na"), vec![on("Cat", "name")]);
    assert_eq!(hits("cat."), vec![on("Cat", "age"), on("Cat", "name")]);
}

#[test]
fn an_early_hit_counts_more_until_it_counts_nothing() {
    let at = |n: usize| {
        let text = format!("{}hit{}", "a".repeat(n), "b".repeat(1000));
        prose_match("hit", Some(&text)).unwrap().score
    };
    assert_eq!([at(0), at(3), at(4), at(23), at(24), at(28), at(4000)], [10, 10, 9, 5, 4, 4, 4]);
}
