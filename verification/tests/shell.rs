//! The title of a schema file.

use graviz::labels::file_label;
use std::path::Path;

fn label(path: &str, home: Option<&str>) -> (String, Option<String>) {
    let path = Path::new(path);
    let name = path.file_name().map(|n| n.to_string_lossy().into_owned());
    let dir = path.parent().map(|p| p.to_string_lossy().into_owned());
    file_label(&path.to_string_lossy(), name.as_deref(), dir.as_deref(), home)
}

#[test]
fn file_label_splits_the_name_from_its_directory() {
    let (name, dir) = label("/Users/b/git/crepe/schema.graphql", Some("/Users/b"));
    assert_eq!(&*name, "schema.graphql");
    assert_eq!(dir.as_deref(), Some("~/git/crepe"));
}

#[test]
fn file_label_leaves_a_pasted_schema_without_a_directory() {
    let (name, dir) = label("(pasted)", Some("/Users/b"));
    assert_eq!(&*name, "(pasted)");
    assert_eq!(dir, None, "a pasted schema is not a file on disk");
}

#[test]
fn file_label_collapses_home_but_not_a_lookalike_sibling() {
    let (_, dir) = label("/Users/b/a.graphql", Some("/Users/b"));
    assert_eq!(dir.as_deref(), Some("~"), "home itself");
    let (_, dir) = label("/Users/bison/a.graphql", Some("/Users/b"));
    assert_eq!(dir.as_deref(), Some("/Users/bison"), "shares a prefix, not a parent");
}
