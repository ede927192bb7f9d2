//! What the landing screen says of a file.

use graviz::dates::format_stamp;
use graviz::landing::summarize;

#[test]
fn stamp_formats_like_the_web() {
    // 2021-01-01 00:00 UTC
    assert_eq!(format_stamp(1_609_459_200), "2021-01-01 00:00");
}

#[test]
fn summary_counts_declarations_and_lines() {
    let s = "type A { x: Int }\nenum B { C }\nunion U = A\n";
    assert_eq!(summarize(s), "1 types · 1 enums · 1 unions · 3 lines");
}
