//! Concrete checks of the engine's stated behaviour: cursor clamping,
//! serialisation round trips, motions, history, and the structural edits.

use kenotex::buffer::TextBuffer;
use kenotex::markdown_fmt::MarkdownFormat;
use kenotex::mode::AppMode;
use kenotex::visual_mode::{VisualMode, VisualType};

#[test]
fn test_set_cursor_clamps_row_and_col() {
    let mut buffer = TextBuffer::from_string("ab\ncdef");
    buffer.set_cursor(99, 99);
    assert_eq!(buffer.cursor_position(), (1, 4));
    buffer.set_cursor(0, 99);
    assert_eq!(buffer.cursor_position(), (0, 2));
}

#[test]
fn test_round_trip_plain() {
    let s = "hello\nworld";
    assert_eq!(TextBuffer::from_string(s).to_string(), s);
}

#[test]
fn test_round_trip_empty_and_blank_lines() {
    assert_eq!(TextBuffer::from_string("").to_string(), "");
    let s = "a\n\nb";
    assert_eq!(TextBuffer::from_string(s).to_string(), s);
}

#[test]
fn test_round_trip_drops_trailing_newline() {
    assert_eq!(TextBuffer::from_string("hello\n").to_string(), "hello");
}

#[test]
fn test_newline_split_lines() {
    let mut buffer = TextBuffer::from_string("hello");
    buffer.set_cursor(0, 2);
    buffer.insert_newline();
    let lines = buffer.content();
    assert_eq!(lines.len(), 2);
    assert_eq!(lines[0], "he");
    assert_eq!(lines[1], "llo");
}

#[test]
fn test_search_wraps_examples() {
    let buffer = TextBuffer::from_string("hello world hello");
    assert_eq!(buffer.find_next("world", 0, 0), Some((0, 6)));
    assert_eq!(buffer.find_next("hello", 0, 0), Some((0, 12)));
}

#[test]
fn test_move_word_forward_across_lines() {
    let mut buffer = TextBuffer::from_string("one two\nthree");
    buffer.set_cursor(0, 0);
    buffer.move_word_forward();
    assert_eq!(buffer.cursor_position(), (0, 4));
    buffer.move_word_forward();
    assert_eq!(buffer.cursor_position(), (1, 0));
}

#[test]
fn test_move_word_backward() {
    let mut buffer = TextBuffer::from_string("one two three");
    buffer.set_cursor(0, 8);
    buffer.move_word_backward();
    assert_eq!(buffer.cursor_position(), (0, 4));
    buffer.set_cursor(0, 0);
    buffer.move_word_backward();
    assert_eq!(buffer.cursor_position(), (0, 0));
}

#[test]
fn test_move_word_backward_to_previous_line() {
    let mut buffer = TextBuffer::from_string("one\ntwo");
    buffer.set_cursor(1, 0);
    buffer.move_word_backward();
    assert_eq!(buffer.cursor_position(), (0, 3));
}

#[test]
fn test_basic_motions() {
    let mut buffer = TextBuffer::from_string("abc\ndefgh");
    buffer.set_cursor(0, 1);
    buffer.move_right();
    assert_eq!(buffer.cursor_position(), (0, 2));
    buffer.move_down();
    assert_eq!(buffer.cursor_position(), (1, 2));
    buffer.move_to_line_end();
    assert_eq!(buffer.cursor_position(), (1, 5));
    buffer.move_up();
    assert_eq!(buffer.cursor_position(), (0, 3));
    buffer.move_left();
    assert_eq!(buffer.cursor_position(), (0, 2));
    buffer.move_to_first_line();
    assert_eq!(buffer.cursor_position(), (0, 0));
    buffer.move_to_last_line();
    assert_eq!(buffer.cursor_position(), (1, 0));
}

#[test]
fn test_delete_char_merges_next_line() {
    let mut buffer = TextBuffer::from_string("ab\ncd");
    buffer.set_cursor(0, 2);
    buffer.delete_char();
    assert_eq!(buffer.to_string(), "abcd");
}

#[test]
fn test_backspace_merges_previous_line() {
    let mut buffer = TextBuffer::from_string("ab\ncd");
    buffer.set_cursor(1, 0);
    buffer.backspace();
    assert_eq!(buffer.to_string(), "abcd");
    assert_eq!(buffer.cursor_position(), (0, 2));
}

#[test]
fn test_delete_line_keeps_one_line() {
    let mut buffer = TextBuffer::from_string("only");
    buffer.delete_line();
    assert_eq!(buffer.to_string(), "");
    assert_eq!(buffer.line_count(), 1);
}

#[test]
fn test_insert_line_below_and_above() {
    let mut buffer = TextBuffer::from_string("a\nb");
    buffer.set_cursor(0, 1);
    buffer.insert_line_below();
    assert_eq!(buffer.to_string(), "a\n\nb");
    assert_eq!(buffer.cursor_position(), (1, 0));
    buffer.insert_line_above();
    assert_eq!(buffer.to_string(), "a\n\n\nb");
    assert_eq!(buffer.cursor_position(), (1, 0));
}

#[test]
fn test_insert_tab_inserts_spaces() {
    let mut buffer = TextBuffer::from_string("x");
    buffer.set_cursor(0, 0);
    buffer.insert_tab(4);
    assert_eq!(buffer.to_string(), "    x");
    assert_eq!(buffer.cursor_position(), (0, 4));
}

#[test]
fn test_indent_and_dedent_line() {
    let mut buffer = TextBuffer::from_string("hi");
    buffer.set_cursor(0, 1);
    buffer.indent_line(4);
    assert_eq!(buffer.to_string(), "    hi");
    assert_eq!(buffer.cursor_position(), (0, 5));
    buffer.dedent_line(4);
    assert_eq!(buffer.to_string(), "hi");
    assert_eq!(buffer.cursor_position(), (0, 1));
}

#[test]
fn test_dedent_line_partial_indent() {
    let mut buffer = TextBuffer::from_string("  deep");
    buffer.set_cursor(0, 3);
    buffer.dedent_line(4);
    assert_eq!(buffer.to_string(), "deep");
    assert_eq!(buffer.cursor_position(), (0, 1));
}

#[test]
fn test_indent_dedent_lines_range() {
    let mut buffer = TextBuffer::from_string("a\nb\nc");
    buffer.set_cursor(1, 0);
    buffer.indent_lines(0, 2, 2);
    assert_eq!(buffer.to_string(), "  a\n  b\n  c");
    buffer.dedent_lines(0, 2, 2);
    assert_eq!(buffer.to_string(), "a\nb\nc");
}

#[test]
fn test_toggle_comment_lines_comment_and_uncomment() {
    let mut buffer = TextBuffer::from_string("one\ntwo");
    buffer.toggle_comment_lines(0, 1);
    assert_eq!(buffer.to_string(), "<!-- one -->\n<!-- two -->");
    buffer.toggle_comment_lines(0, 1);
    assert_eq!(buffer.to_string(), "one\ntwo");
}

#[test]
fn test_toggle_comment_lines_mixed_comments_all() {
    let mut buffer = TextBuffer::from_string("<!-- one -->\ntwo");
    buffer.toggle_comment_lines(0, 1);
    assert_eq!(buffer.to_string(), "<!-- <!-- one --> -->\n<!-- two -->");
}

#[test]
fn test_toggle_format_visual_on_buffer() {
    let mut buffer = TextBuffer::from_string("hello world");
    let (s, e) = buffer.toggle_format_visual(0, 0, 5, MarkdownFormat::Bold);
    assert_eq!(buffer.to_string(), "**hello** world");
    assert_eq!((s, e), (0, 9));
    let (s2, e2) = buffer.toggle_format_visual(0, 0, 9, MarkdownFormat::Bold);
    assert_eq!(buffer.to_string(), "hello world");
    assert_eq!((s2, e2), (0, 5));
}

#[test]
fn test_delete_line_and_return_text() {
    let mut buffer = TextBuffer::from_string("one\ntwo");
    buffer.set_cursor(0, 0);
    let text = buffer.delete_line_and_return();
    assert_eq!(text, "one\n");
    assert_eq!(buffer.to_string(), "two");
}

#[test]
fn test_extract_line_has_newline() {
    let buffer = TextBuffer::from_string("one\ntwo");
    assert_eq!(buffer.extract_line(), "one\n");
}

#[test]
fn test_visual_character_delete() {
    let mut buffer = TextBuffer::from_string("hello world");
    let visual = VisualMode::new(VisualType::Character, (0, 0));
    let deleted = visual.delete_selection(&mut buffer, (0, 4));
    assert_eq!(deleted, "hello");
    assert_eq!(buffer.to_string(), " world");
}

#[test]
fn test_visual_line_delete_all_rows() {
    let mut buffer = TextBuffer::from_string("one\ntwo");
    let visual = VisualMode::new(VisualType::Line, (0, 0));
    let deleted = visual.delete_selection(&mut buffer, (1, 0));
    assert_eq!(deleted, "one\ntwo\n");
    assert_eq!(buffer.to_string(), "");
    assert_eq!(buffer.line_count(), 1);
}

#[test]
fn test_visual_line_yank() {
    let buffer = TextBuffer::from_string("one\ntwo\nthree");
    let visual = VisualMode::new(VisualType::Line, (1, 0));
    let yanked = visual.yank_selection(&buffer, (2, 0));
    assert_eq!(yanked, "two\nthree\n");
    assert_eq!(buffer.to_string(), "one\ntwo\nthree");
}

#[test]
fn test_visual_indent_selection() {
    let mut buffer = TextBuffer::from_string("a\nb");
    buffer.set_cursor(0, 0);
    let visual = VisualMode::new(VisualType::Line, (0, 0));
    visual.indent_selection(&mut buffer, (1, 0), 2);
    assert_eq!(buffer.to_string(), "  a\n  b");
}

#[test]
fn test_mode_labels() {
    assert_eq!(AppMode::Normal.as_str(), "NORMAL");
    assert_eq!(AppMode::Visual(VisualType::Block).as_str(), "VISUAL BLOCK");
    assert_eq!(AppMode::default(), AppMode::Normal);
}

#[test]
fn test_find_prev_excludes_match_under_cursor() {
    let buffer = TextBuffer::from_string("abc abc");
    assert_eq!(buffer.find_prev("abc", 0, 4), Some((0, 0)));
    assert_eq!(buffer.find_prev("abc", 0, 0), Some((0, 4)));
}

#[test]
fn test_paste_line_below_empty_text_is_noop() {
    let mut buffer = TextBuffer::from_string("a");
    buffer.paste_line_below("");
    assert_eq!(buffer.to_string(), "a");
    assert_eq!(buffer.line_count(), 1);
}

#[test]
fn test_combining_mark_is_one_grapheme() {
    // 'e' followed by a combining acute accent is a single grapheme cell
    let mut buffer = TextBuffer::from_string("e\u{301}x");
    buffer.set_cursor(0, 99);
    assert_eq!(buffer.cursor_position(), (0, 2));
    buffer.set_cursor(0, 1);
    buffer.backspace();
    assert_eq!(buffer.to_string(), "x");
}

#[test]
fn test_undo_restores_cursor() {
    let mut buffer = TextBuffer::from_string("ab");
    buffer.set_cursor(0, 1);
    buffer.save_undo_snapshot();
    buffer.set_cursor(0, 2);
    buffer.insert_char('c');
    assert!(buffer.undo());
    assert_eq!(buffer.cursor_position(), (0, 1));
    assert_eq!(buffer.to_string(), "ab");
}
