use kenotex::buffer::TextBuffer;
use kenotex::vim_mode::Motion;

#[test]
fn test_buffer_from_string() {
    let buffer = TextBuffer::from_string("Hello\nWorld");
    assert_eq!(buffer.line_count(), 2);
    assert_eq!(buffer.to_string(), "Hello\nWorld");
}

#[test]
fn test_insert_char() {
    let mut buffer = TextBuffer::new();
    buffer.insert_char('a');
    buffer.insert_char('b');
    assert_eq!(buffer.to_string(), "ab");
}

#[test]
fn test_backspace() {
    let mut buffer = TextBuffer::from_string("abc");
    buffer.set_cursor(0, 3);
    buffer.backspace();
    assert_eq!(buffer.to_string(), "ab");
}

#[test]
fn test_newline() {
    let mut buffer = TextBuffer::from_string("hello");
    buffer.set_cursor(0, 2);
    buffer.insert_newline();
    assert_eq!(buffer.to_string(), "he\nllo");
}

#[test]
fn test_current_line_content() {
    let buffer = TextBuffer::from_string("first\nsecond");
    assert_eq!(buffer.current_line_content(), "first");
}

#[test]
fn test_insert_line_below_with_prefix() {
    let mut buffer = TextBuffer::from_string("- [ ] task one");
    buffer.insert_line_below_with_prefix("- [ ] ");
    assert_eq!(buffer.to_string(), "- [ ] task one\n- [ ] ");
    assert_eq!(buffer.cursor_position(), (1, 6));
}

#[test]
fn test_insert_newline_with_prefix() {
    let mut buffer = TextBuffer::from_string("- [ ] hello world");
    buffer.set_cursor(0, 12);
    buffer.insert_newline_with_prefix("- [ ] ");
    assert_eq!(buffer.to_string(), "- [ ] hello \n- [ ] world");
    assert_eq!(buffer.cursor_position(), (1, 6));
}

#[test]
fn test_clear_current_line() {
    let mut buffer = TextBuffer::from_string("- [ ] ");
    buffer.set_cursor(0, 6);
    buffer.clear_current_line();
    assert_eq!(buffer.to_string(), "");
    assert_eq!(buffer.cursor_position(), (0, 0));
}

#[test]
fn test_insert_checkbox_on_plain_line() {
    let mut buffer = TextBuffer::from_string("buy milk");
    buffer.set_cursor(0, 3);
    buffer.insert_checkbox();
    assert_eq!(buffer.to_string(), "- [ ] buy milk");
    assert_eq!(buffer.cursor_position(), (0, 9));
}

#[test]
fn buffer_test_insert_checkbox_already_exists() {
    let mut buffer = TextBuffer::from_string("- [ ] already");
    buffer.set_cursor(0, 8);
    buffer.insert_checkbox();
    assert_eq!(buffer.to_string(), "- [ ] already");
    assert_eq!(buffer.cursor_position(), (0, 8));
}

#[test]
fn test_insert_checkbox_indented() {
    let mut buffer = TextBuffer::from_string("    indented text");
    buffer.set_cursor(0, 4);
    buffer.insert_checkbox();
    assert_eq!(buffer.to_string(), "    - [ ] indented text");
    assert_eq!(buffer.cursor_position(), (0, 10));
}

#[test]
fn test_undo_basic() {
    let mut buffer = TextBuffer::from_string("hello");
    buffer.save_undo_snapshot();
    buffer.set_cursor(0, 5);
    buffer.insert_char('!');
    assert_eq!(buffer.to_string(), "hello!");

    assert!(buffer.undo());
    assert_eq!(buffer.to_string(), "hello");
    assert_eq!(buffer.cursor_position(), (0, 0));
}

#[test]
fn test_redo_basic() {
    let mut buffer = TextBuffer::from_string("hello");
    buffer.save_undo_snapshot();
    buffer.set_cursor(0, 5);
    buffer.insert_char('!');
    assert_eq!(buffer.to_string(), "hello!");

    buffer.undo();
    assert_eq!(buffer.to_string(), "hello");

    assert!(buffer.redo());
    assert_eq!(buffer.to_string(), "hello!");
}

#[test]
fn test_undo_limit_50() {
    let mut buffer = TextBuffer::new();
    for i in 0..60u8 {
        buffer.save_undo_snapshot();
        buffer.insert_char(char::from(b'a' + (i % 26)));
    }
    let mut count = 0;
    while buffer.undo() {
        count += 1;
    }
    assert_eq!(count, 50);
}

#[test]
fn test_undo_clears_redo() {
    let mut buffer = TextBuffer::from_string("hello");
    buffer.save_undo_snapshot();
    buffer.set_cursor(0, 5);
    buffer.insert_char('!');

    buffer.undo();
    assert_eq!(buffer.to_string(), "hello");

    buffer.save_undo_snapshot();
    buffer.set_cursor(0, 5);
    buffer.insert_char('?');
    assert_eq!(buffer.to_string(), "hello?");

    assert!(!buffer.redo());
}

#[test]
fn test_delete_range_same_line() {
    let mut buffer = TextBuffer::from_string("hello world");
    let deleted = buffer.delete_range(0, 0, 0, 5);
    assert_eq!(deleted, "hello");
    assert_eq!(buffer.to_string(), " world");
}

#[test]
fn test_delete_range_multi_line() {
    let mut buffer = TextBuffer::from_string("hello\nworld\nfoo");
    let deleted = buffer.delete_range(0, 3, 1, 3);
    assert_eq!(deleted, "lo\nwor");
    assert_eq!(buffer.to_string(), "helld\nfoo");
}

#[test]
fn test_extract_range() {
    let buffer = TextBuffer::from_string("hello world");
    let text = buffer.extract_range(0, 0, 0, 5);
    assert_eq!(text, "hello");
    assert_eq!(buffer.to_string(), "hello world");
}

#[test]
fn test_apply_motion_delete_word() {
    let mut buffer = TextBuffer::from_string("hello world");
    buffer.set_cursor(0, 0);
    let (text, linewise) = buffer.apply_motion_delete(Motion::WordForward);
    assert_eq!(text, "hello ");
    assert!(!linewise);
    assert_eq!(buffer.to_string(), "world");
}

#[test]
fn test_apply_motion_delete_line() {
    let mut buffer = TextBuffer::from_string("first\nsecond\nthird");
    buffer.set_cursor(1, 0);
    let (text, linewise) = buffer.apply_motion_delete(Motion::Line);
    assert_eq!(text, "second\n");
    assert!(linewise);
    assert_eq!(buffer.to_string(), "first\nthird");
}

#[test]
fn test_apply_motion_yank_line() {
    let buffer = TextBuffer::from_string("first\nsecond");
    let (text, linewise) = buffer.apply_motion_yank(Motion::Line);
    assert_eq!(text, "first\n");
    assert!(linewise);
    assert_eq!(buffer.to_string(), "first\nsecond");
}

#[test]
fn test_paste_after_cursor() {
    let mut buffer = TextBuffer::from_string("helo");
    buffer.set_cursor(0, 1);
    buffer.paste_after_cursor("l");
    assert_eq!(buffer.to_string(), "hello");
}

#[test]
fn test_paste_line_below() {
    let mut buffer = TextBuffer::from_string("first\nthird");
    buffer.set_cursor(0, 0);
    buffer.paste_line_below("second");
    assert_eq!(buffer.to_string(), "first\nsecond\nthird");
    assert_eq!(buffer.cursor_position(), (1, 0));
}

#[test]
fn test_paste_line_above() {
    let mut buffer = TextBuffer::from_string("second\nthird");
    buffer.set_cursor(0, 0);
    buffer.paste_line_above("first");
    assert_eq!(buffer.to_string(), "first\nsecond\nthird");
    assert_eq!(buffer.cursor_position(), (0, 0));
}

#[test]
fn buffer_test_toggle_checkbox_check() {
    let mut buffer = TextBuffer::from_string("- [ ] buy milk");
    buffer.set_cursor(0, 8);
    buffer.toggle_checkbox();
    assert_eq!(buffer.to_string(), "- [x] buy milk");
    assert_eq!(buffer.cursor_position(), (0, 8));
}

#[test]
fn test_toggle_checkbox_uncheck() {
    let mut buffer = TextBuffer::from_string("- [x] buy milk");
    buffer.set_cursor(0, 8);
    buffer.toggle_checkbox();
    assert_eq!(buffer.to_string(), "- [ ] buy milk");
    assert_eq!(buffer.cursor_position(), (0, 8));
}

#[test]
fn buffer_test_toggle_checkbox_no_checkbox() {
    let mut buffer = TextBuffer::from_string("plain text");
    buffer.set_cursor(0, 3);
    buffer.toggle_checkbox();
    assert_eq!(buffer.to_string(), "plain text");
    assert_eq!(buffer.cursor_position(), (0, 3));
}

#[test]
fn test_find_next_basic() {
    let buffer = TextBuffer::from_string("hello world hello");
    let result = buffer.find_next("world", 0, 0);
    assert_eq!(result, Some((0, 6)));
}

#[test]
fn test_find_next_skips_current_position() {
    let buffer = TextBuffer::from_string("hello world hello");
    let result = buffer.find_next("hello", 0, 0);
    assert_eq!(result, Some((0, 12)));
}

#[test]
fn test_find_next_wraps() {
    let buffer = TextBuffer::from_string("hello\nworld\nfoo");
    let result = buffer.find_next("hello", 2, 0);
    assert_eq!(result, Some((0, 0)));
}

#[test]
fn test_find_next_case_insensitive() {
    let buffer = TextBuffer::from_string("Hello World HELLO");
    let result = buffer.find_next("hello", 0, 0);
    assert_eq!(result, Some((0, 12)));
    let result2 = buffer.find_next("hello", 0, 12);
    assert_eq!(result2, Some((0, 0)));
}

#[test]
fn test_find_next_no_match() {
    let buffer = TextBuffer::from_string("hello world");
    let result = buffer.find_next("xyz", 0, 0);
    assert_eq!(result, None);
}

#[test]
fn test_find_next_empty_query() {
    let buffer = TextBuffer::from_string("hello");
    let result = buffer.find_next("", 0, 0);
    assert_eq!(result, None);
}

#[test]
fn test_find_prev_basic() {
    let buffer = TextBuffer::from_string("hello world hello");
    let result = buffer.find_prev("world", 0, 12);
    assert_eq!(result, Some((0, 6)));
}

#[test]
fn test_find_prev_wraps() {
    let buffer = TextBuffer::from_string("hello\nworld\nfoo");
    let result = buffer.find_prev("foo", 0, 0);
    assert_eq!(result, Some((2, 0)));
}

#[test]
fn test_find_next_multiline() {
    let buffer = TextBuffer::from_string("aaa\nbbb\nccc\naaa");
    let result = buffer.find_next("aaa", 0, 0);
    assert_eq!(result, Some((3, 0)));
}

#[test]
fn test_find_prev_multiline() {
    let buffer = TextBuffer::from_string("aaa\nbbb\nccc\naaa");
    let result = buffer.find_prev("aaa", 3, 0);
    assert_eq!(result, Some((0, 0)));
}

#[test]
fn test_find_next_unicode() {
    let buffer = TextBuffer::from_string("café résumé café");
    let result = buffer.find_next("résumé", 0, 0);
    assert_eq!(result, Some((0, 5)));
}

#[test]
fn test_find_next_chinese() {
    let buffer = TextBuffer::from_string("你好世界你好");
    let result = buffer.find_next("世界", 0, 0);
    assert_eq!(result, Some((0, 2)));
}

#[test]
fn test_find_all_basic() {
    let buffer = TextBuffer::from_string("hello world hello");
    let matches = buffer.find_all("hello");
    assert_eq!(matches.len(), 2);
    assert_eq!(matches[0], (0, 0, 5));
    assert_eq!(matches[1], (0, 12, 5));
}

#[test]
fn test_find_all_case_insensitive() {
    let buffer = TextBuffer::from_string("Hello HELLO hello");
    let matches = buffer.find_all("hello");
    assert_eq!(matches.len(), 3);
    assert_eq!(matches[0], (0, 0, 5));
    assert_eq!(matches[1], (0, 6, 5));
    assert_eq!(matches[2], (0, 12, 5));
}

#[test]
fn test_find_all_empty_query() {
    let buffer = TextBuffer::from_string("hello");
    let matches = buffer.find_all("");
    assert!(matches.is_empty());
}

#[test]
fn test_find_all_multiline() {
    let buffer = TextBuffer::from_string("foo bar\nbaz foo\nfoo");
    let matches = buffer.find_all("foo");
    assert_eq!(matches.len(), 3);
    assert_eq!(matches[0], (0, 0, 3));
    assert_eq!(matches[1], (1, 4, 3));
    assert_eq!(matches[2], (2, 0, 3));
}

#[test]
fn test_paste_after_cursor_multiline() {
    let mut buffer = TextBuffer::from_string("hello world");
    buffer.set_cursor(0, 4);
    buffer.paste_after_cursor("foo\nbar");
    assert_eq!(buffer.line_count(), 2);
    assert_eq!(buffer.content()[0], "hellofoo");
    assert_eq!(buffer.content()[1], "bar world");
    assert_eq!(buffer.cursor_position(), (1, 2));
}

#[test]
fn test_paste_after_cursor_three_lines() {
    let mut buffer = TextBuffer::from_string("AB");
    buffer.set_cursor(0, 0);
    buffer.paste_after_cursor("x\ny\nz");
    assert_eq!(buffer.line_count(), 3);
    assert_eq!(buffer.content()[0], "Ax");
    assert_eq!(buffer.content()[1], "y");
    assert_eq!(buffer.content()[2], "zB");
    assert_eq!(buffer.cursor_position(), (2, 0));
}

#[test]
fn test_paste_after_cursor_trailing_newline() {
    let mut buffer = TextBuffer::from_string("AB");
    buffer.set_cursor(0, 0);
    buffer.paste_after_cursor("line1\n");
    assert_eq!(buffer.line_count(), 2);
    assert_eq!(buffer.content()[0], "Aline1");
    assert_eq!(buffer.content()[1], "B");
    assert_eq!(buffer.cursor_position().0, 1);
}

#[test]
fn test_paste_before_cursor_multiline() {
    let mut buffer = TextBuffer::from_string("hello world");
    buffer.set_cursor(0, 5);
    buffer.paste_before_cursor("foo\nbar");
    assert_eq!(buffer.line_count(), 2);
    assert_eq!(buffer.content()[0], "hellofoo");
    assert_eq!(buffer.content()[1], "bar world");
    assert_eq!(buffer.cursor_position(), (1, 2));
}

#[test]
fn test_paste_after_cursor_single_line_unchanged() {
    let mut buffer = TextBuffer::from_string("helo");
    buffer.set_cursor(0, 1);
    buffer.paste_after_cursor("l");
    assert_eq!(buffer.to_string(), "hello");
    assert_eq!(buffer.line_count(), 1);
}

#[test]
fn test_insert_text_multiline() {
    let mut buffer = TextBuffer::new();
    buffer.insert_text("hello\nworld\nfoo");
    assert_eq!(buffer.line_count(), 3);
    assert_eq!(buffer.content()[0], "hello");
    assert_eq!(buffer.content()[1], "world");
    assert_eq!(buffer.content()[2], "foo");
    assert_eq!(buffer.cursor_position(), (2, 3));
}

#[test]
fn test_insert_char_newline() {
    let mut buffer = TextBuffer::from_string("hello");
    buffer.set_cursor(0, 3);
    buffer.insert_char('\n');
    assert_eq!(buffer.line_count(), 2);
    assert_eq!(buffer.content()[0], "hel");
    assert_eq!(buffer.content()[1], "lo");
    assert_eq!(buffer.cursor_position(), (1, 0));
}
