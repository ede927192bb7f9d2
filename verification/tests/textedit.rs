//! Caret and selection.

use graviz::textedit::TextEdit;

fn at(text: &str, cursor: usize) -> TextEdit {
    TextEdit { text: text.into(), cursor, anchor: None }
}

#[test]
fn insert_lands_at_the_caret_not_the_end() {
    let mut t = at("user", 2);
    t.insert("XY");
    assert_eq!(t.text, "usXYer");
    assert_eq!(t.cursor, 4, "caret follows the inserted text");
}

#[test]
fn insert_replaces_a_selection() {
    let mut t = at("user", 0);
    t.select_all();
    t.insert("post");
    assert_eq!(t.text, "post");
    assert_eq!(t.cursor, 4);
    assert!(t.anchor.is_none(), "the selection is consumed");
}

#[test]
fn backspace_takes_the_selection_whole_else_one_char() {
    let mut t = at("user", 4);
    t.backspace();
    assert_eq!(t.text, "use");

    let mut t = at("user", 0);
    t.select_all();
    t.backspace();
    assert_eq!(t.text, "");

    // A no-op at the start rather than an underflow.
    let mut t = at("user", 0);
    t.backspace();
    assert_eq!(t.text, "user");
}

#[test]
fn delete_forward_takes_the_char_after_the_caret() {
    let mut t = at("user", 0);
    t.delete_forward();
    assert_eq!(t.text, "ser");

    // A no-op at the end.
    let mut t = at("user", 4);
    t.delete_forward();
    assert_eq!(t.text, "user");
}

/// Byte offsets, so a multi-byte glyph must move as one unit — stepping
/// by bytes would slice a char in half and panic.
#[test]
fn boundaries_step_over_whole_characters() {
    let t = at("한글", 0);
    assert_eq!(t.next_boundary(0), 3);
    assert_eq!(t.next_boundary(3), 6);
    assert_eq!(t.prev_boundary(6), 3);
    assert_eq!(t.prev_boundary(3), 0);

    let mut t = at("한글", 6);
    t.backspace();
    assert_eq!(t.text, "한");
}

#[test]
fn move_cursor_extends_or_collapses_the_selection() {
    let mut t = at("user", 0);
    t.move_cursor(2, true);
    assert_eq!(t.selection(), Some((0, 2)));
    assert_eq!(t.selected_text(), Some("us"));

    // Extending again keeps the original anchor.
    t.move_cursor(4, true);
    assert_eq!(t.selection(), Some((0, 4)));

    // Moving without `select` drops it.
    t.move_cursor(1, false);
    assert_eq!(t.selection(), None);
}

#[test]
fn selection_is_ordered_regardless_of_drag_direction() {
    let mut t = at("user", 4);
    t.move_cursor(1, true);
    assert_eq!(t.selection(), Some((1, 4)), "anchor after cursor still reads low..high");
}

#[test]
fn move_cursor_is_clamped_to_the_text() {
    let mut t = at("user", 0);
    t.move_cursor(99, false);
    assert_eq!(t.cursor, 4);
}

#[test]
fn select_all_on_an_empty_buffer_selects_nothing() {
    let mut t = at("", 0);
    t.select_all();
    assert_eq!(t.selection(), None);
}

#[test]
fn delete_forward_is_a_step_and_a_backspace() {
    let mut t = at("a한글", 1);
    let mut u = at("a한글", 1);
    t.delete_forward();
    let next = u.next_boundary(u.cursor);
    u.move_cursor(next, false);
    u.backspace();
    assert_eq!(t, u);
    assert_eq!((t.text.as_str(), t.cursor), ("a글", 1));
}

#[test]
fn backspace_takes_back_what_was_typed() {
    let mut t = at("한글", 3);
    t.insert("é");
    t.backspace();
    assert_eq!(t, at("한글", 3));
}

#[test]
fn a_step_forward_and_back_ends_where_it_began() {
    let t = at("한a글", 0);
    for b in [0, 3, 4] {
        assert_eq!(t.prev_boundary(t.next_boundary(b)), b);
    }
    assert_eq!(t.next_boundary(t.prev_boundary(7)), 7);
}
