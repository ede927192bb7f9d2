//! Texts: words, highlighting, carets, typing and matching.

use graviz::carets::{cursor_line_col, line_count, offset_for_line_col, selection_band};
use graviz::highlight::{char_byte_ranges, highlight, width_of, Ink};
use graviz::matching::{fuzzy_score, make_snippet, prose_match};
use graviz::sorting::arrange;
use graviz::textedit::TextEdit;
use graviz::typing::{drag_to, editor_press, press_at, release, search_press, Press, Reply, SearchReply};
use graviz::words::{cut_text, one_line};

fn key(name: &str) -> Press<'_> {
    Press { key: name, command: false, shift: false, control: false, typed: None, clipboard: None }
}

fn cmd(name: &str) -> Press<'_> {
    Press { command: true, ..key(name) }
}

fn editor(text: &str) -> TextEdit {
    let mut e = TextEdit::default();
    e.set_text(text.to_string());
    e
}

#[test]
fn white_space_becomes_single_blanks() {
    assert_eq!(one_line("  a\n\t b  c "), "a b c");
    assert_eq!(one_line(" \n "), "");
    assert_eq!(one_line("one"), "one");
}

#[test]
fn texts_are_cut_by_characters() {
    assert_eq!(cut_text("abcdef", 4), "abcd…");
    assert_eq!(cut_text("한글", 1), "한…");
    assert_eq!(cut_text("ab", 9), "ab…");
}

#[test]
fn a_line_is_colored_by_its_words() {
    assert_eq!(
        highlight("type A # x"),
        vec![(4, Ink::Keyword), (1, Ink::Muted), (1, Ink::TypeName), (4, Ink::Muted)]
    );
    assert_eq!(
        highlight("-A.b @x 1"),
        vec![
            (1, Ink::Red),
            (1, Ink::TypeName),
            (1, Ink::Muted),
            (1, Ink::Text),
            (1, Ink::Muted),
            (2, Ink::Amber),
            (1, Ink::Muted),
            (1, Ink::Amber),
        ]
    );
    assert_eq!(highlight("\"a b\" c"), vec![(5, Ink::Green), (1, Ink::Muted), (1, Ink::Text)]);
    assert_eq!(highlight("\"\"\"a\"b\"\"\""), vec![(9, Ink::Green)]);
    assert!(highlight("").is_empty());
}

#[test]
fn runs_cover_lines_beyond_ascii() {
    for line in ["한 type", "\"é", "a → b", "€€"] {
        let total: usize = highlight(line).iter().map(|r| r.0).sum();
        assert_eq!(total, line.len(), "{line}");
    }
    assert_eq!((width_of('a'), width_of('é'), width_of('한'), width_of('🙂')), (1, 2, 3, 4));
}

#[test]
fn marked_characters_become_byte_ranges() {
    assert_eq!(char_byte_ranges("a한b", &vec![1, 2]), vec![(1, 5)]);
    assert_eq!(char_byte_ranges("abc", &vec![2, 0]), vec![(0, 1), (2, 3)]);
    assert!(char_byte_ranges("abc", &vec![7]).is_empty());
}

#[test]
fn carets_have_lines_and_columns() {
    let text = "ab\n한c\n";
    assert_eq!(cursor_line_col(text, 0), (0, 0, 0));
    assert_eq!(cursor_line_col(text, 6), (1, 3, 1));
    assert_eq!(cursor_line_col(text, 8), (2, 8, 0));
    assert_eq!(line_count(text), 3);
    assert_eq!(offset_for_line_col(text, 1, 1), 6);
    assert_eq!(offset_for_line_col(text, 1, 99), 7);
    assert_eq!(offset_for_line_col(text, 9, 0), text.len());
}

#[test]
fn lines_and_columns_lead_back_to_the_caret() {
    let text = "one\ntwo 한\n\nlast";
    for (at, _) in text.char_indices() {
        let (line, _, col) = cursor_line_col(text, at);
        assert_eq!(offset_for_line_col(text, line, col), at);
    }
}

#[test]
fn a_selection_covers_parts_of_lines() {
    assert_eq!(selection_band(0, 5, 2, 9), Some((2, 5)));
    assert_eq!(selection_band(6, 5, 2, 9), Some((6, 9)));
    assert_eq!(selection_band(6, 0, 2, 9), Some((6, 6)), "an empty line in between");
    assert_eq!(selection_band(6, 5, 2, 6), None);
    assert_eq!(selection_band(0, 5, 7, 9), None);
}

#[test]
fn typing_replaces_the_selection() {
    let mut e = editor("abc");
    assert_eq!(editor_press(&mut e, &cmd("a")), Reply::Moved);
    let typed = Press { typed: Some("한"), ..key("x") };
    assert_eq!(editor_press(&mut e, &typed), Reply::Changed);
    assert_eq!((e.text.as_str(), e.cursor), ("한", 3));
    assert_eq!(editor_press(&mut e, &key("enter")), Reply::Changed);
    assert_eq!(editor_press(&mut e, &key("tab")), Reply::Changed);
    assert_eq!(e.text, "한\n  ");
    assert_eq!(editor_press(&mut e, &cmd("enter")), Reply::Submitted);
}

#[test]
fn deleting_removes_whole_characters() {
    let mut e = editor("a한");
    assert_eq!(editor_press(&mut e, &key("backspace")), Reply::Changed);
    assert_eq!(e.text, "a");
    e.move_cursor(0, false);
    assert_eq!(editor_press(&mut e, &key("delete")), Reply::Changed);
    assert_eq!(e.text, "");
    assert_eq!(editor_press(&mut e, &key("backspace")), Reply::Changed);
    assert_eq!(e.text, "");
}

#[test]
fn arrows_move_between_lines() {
    let mut e = editor("ab\ncdef\ng");
    e.move_cursor(6, false);
    editor_press(&mut e, &key("up"));
    assert_eq!(e.cursor, 2, "the line above is shorter");
    editor_press(&mut e, &key("down"));
    assert_eq!(e.cursor, 5);
    editor_press(&mut e, &cmd("left"));
    assert_eq!(e.cursor, 3);
    editor_press(&mut e, &cmd("right"));
    assert_eq!(e.cursor, 7);
    editor_press(&mut e, &cmd("up"));
    assert_eq!(e.cursor, 0);
    editor_press(&mut e, &Press { shift: true, ..cmd("down") });
    assert_eq!(e.selection(), Some((0, 9)));
}

#[test]
fn copying_and_cutting_hand_the_text_out() {
    let mut e = editor("abc");
    assert_eq!(editor_press(&mut e, &cmd("a")), Reply::Moved);
    assert_eq!(editor_press(&mut e, &cmd("c")), Reply::Copied("abc".into()));
    assert_eq!(editor_press(&mut e, &cmd("x")), Reply::Taken("abc".into()));
    assert_eq!(e.text, "");
    let paste = Press { clipboard: Some("xyz"), ..cmd("v") };
    assert_eq!(editor_press(&mut e, &paste), Reply::Changed);
    assert_eq!((e.text.as_str(), e.cursor), ("xyz", 3));
    let control = Press { control: true, typed: Some("q"), ..key("q") };
    assert_eq!(editor_press(&mut e, &control), Reply::Ignored);
}

#[test]
fn dragging_selects_and_a_click_does_not() {
    let mut e = editor("abcdef");
    press_at(&mut e, 1);
    drag_to(&mut e, 4);
    assert_eq!(e.selection(), Some((1, 4)));
    drag_to(&mut e, 1);
    release(&mut e);
    assert_eq!((e.anchor, e.cursor), (None, 1));
}

#[test]
fn the_search_box_has_one_line() {
    let mut e = editor("ab");
    assert_eq!(search_press(&mut e, &key("home"), 0, 3), SearchReply::Moved);
    assert_eq!(e.cursor, 0);
    assert_eq!(search_press(&mut e, &key("end"), 0, 3), SearchReply::Moved);
    assert_eq!(e.cursor, 2);
    assert_eq!(search_press(&mut e, &key("down"), 2, 3), SearchReply::Active(2));
    assert_eq!(search_press(&mut e, &key("down"), 0, 0), SearchReply::Active(0));
    assert_eq!(search_press(&mut e, &key("up"), 0, 3), SearchReply::Active(0));
    assert_eq!(search_press(&mut e, &key("enter"), 1, 3), SearchReply::Picked(1));
    assert_eq!(search_press(&mut e, &key("escape"), 1, 3), SearchReply::Left);
    assert_eq!(e.text, "");
    let control = Press { typed: Some("\u{7}"), ..key("g") };
    assert_eq!(search_press(&mut e, &control, 0, 0), SearchReply::Moved);
    assert_eq!(e.text, "");
}

#[test]
fn matching_ignores_case_beyond_ascii() {
    assert!(fuzzy_score("ÄÖ", "äxö").is_some());
    assert_eq!(fuzzy_score("ÄÖ", "äxö").unwrap().indices, vec![0, 2]);
    assert!(fuzzy_score("b", "acd").is_none());
    let hit = prose_match("ÜBER", Some("Alles über alles")).unwrap();
    assert_eq!(hit.index, 6);
    assert!(prose_match("x", None).is_none());
}

#[test]
fn excerpts_mark_what_was_found() {
    let s = make_snippet("the quick brown fox", 4, 5);
    let marked: String =
        s.snippet.chars().enumerate().filter(|(i, _)| s.indices.contains(i)).map(|(_, c)| c).collect();
    assert_eq!(marked, "quick");
}

#[test]
fn equal_keys_keep_their_order() {
    let k = |a: &str, b: &str| (a.to_string(), b.to_string());
    let keys = vec![k("b", ""), k("a", "2"), k("a", "1"), k("b", "")];
    assert_eq!(arrange(&keys, &vec![0, 1, 2, 3]), vec![2, 1, 0, 3]);
    assert_eq!(arrange(&keys, &vec![3, 0]), vec![3, 0]);
}
