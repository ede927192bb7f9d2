//! Coloring of SDL lines.

use graviz::highlight::{highlight, Ink};

/// Runs must tile the line exactly — a mismatch makes shape_line panic.
fn total(line: &str) -> usize {
    highlight(line).iter().map(|(l, _)| l).sum()
}

#[test]
fn runs_cover_every_byte() {
    for line in [
        "type User implements Node {",
        "  name: String! @deprecated(reason: \"gone\")",
        "# a comment",
        "\"\"\"description\"\"\"",
        "  -legacyName",
        "",
        "  tags: [String!]!",
    ] {
        assert_eq!(total(line), line.len(), "line: {line:?}");
    }
}

#[test]
fn keywords_types_and_comments_get_distinct_colors() {
    let runs = highlight("type User {");
    assert_eq!(runs[0].1, Ink::Keyword);
    assert!(runs.iter().any(|(_, c)| *c == Ink::TypeName));
    let c = highlight("# note");
    assert_eq!(c, vec![(6, Ink::Muted)]);
}
