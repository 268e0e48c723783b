use kenotex::markdown_fmt::{
    find_enclosing_pair, is_inside_code_block, toggle_code_block, toggle_code_block_visual,
    toggle_inline_format, toggle_inline_format_visual, MarkdownFormat,
};

#[test]
fn test_markers() {
    assert_eq!(MarkdownFormat::Bold.marker(), "**");
    assert_eq!(MarkdownFormat::Italic.marker(), "*");
    assert_eq!(MarkdownFormat::Strikethrough.marker(), "~~");
    assert_eq!(MarkdownFormat::InlineCode.marker(), "`");
    assert_eq!(MarkdownFormat::CodeBlock.marker(), "```");
}

#[test]
fn test_find_pair_bold_inside() {
    let line = "hello **world** foo";
    let result = find_enclosing_pair(line, 8, MarkdownFormat::Bold);
    assert!(result.is_some());
    let (start, end) = result.unwrap();
    assert_eq!(start, 6);
    assert_eq!(end, 15);
}

#[test]
fn test_find_pair_bold_outside() {
    let line = "hello **world** foo";
    let result = find_enclosing_pair(line, 3, MarkdownFormat::Bold);
    assert!(result.is_none());
}

#[test]
fn test_find_pair_italic_disambiguates_bold() {
    let line = "hello *italic* **bold** end";
    let result = find_enclosing_pair(line, 7, MarkdownFormat::Italic);
    assert!(result.is_some());
}

#[test]
fn test_find_pair_inline_code() {
    let line = "hello `code` world";
    let result = find_enclosing_pair(line, 7, MarkdownFormat::InlineCode);
    assert!(result.is_some());
}

#[test]
fn test_find_pair_strikethrough() {
    let line = "hello ~~struck~~ world";
    let result = find_enclosing_pair(line, 8, MarkdownFormat::Strikethrough);
    assert!(result.is_some());
}

#[test]
fn test_find_pair_no_markers() {
    let line = "hello world";
    let result = find_enclosing_pair(line, 3, MarkdownFormat::Bold);
    assert!(result.is_none());
}

#[test]
fn test_find_pair_empty_line() {
    let result = find_enclosing_pair("", 0, MarkdownFormat::Bold);
    assert!(result.is_none());
}

#[test]
fn test_find_pair_cursor_on_opening_marker() {
    let line = "**bold** end";
    let result = find_enclosing_pair(line, 0, MarkdownFormat::Bold);
    assert!(result.is_some());
    let (start, end) = result.unwrap();
    assert_eq!(start, 0);
    assert_eq!(end, 8);
}

#[test]
fn test_toggle_insert_bold_empty() {
    let (result, col) = toggle_inline_format("hello world", 5, MarkdownFormat::Bold);
    assert_eq!(result, "hello**** world");
    assert_eq!(col, 7);
}

#[test]
fn test_toggle_remove_bold() {
    let (result, col) = toggle_inline_format("hello **world** foo", 8, MarkdownFormat::Bold);
    assert_eq!(result, "hello world foo");
    assert_eq!(col, 6);
}

#[test]
fn test_toggle_insert_italic() {
    let (result, col) = toggle_inline_format("hello", 5, MarkdownFormat::Italic);
    assert_eq!(result, "hello**");
    assert_eq!(col, 6);
}

#[test]
fn test_toggle_remove_inline_code() {
    let (result, col) = toggle_inline_format("say `hello` there", 6, MarkdownFormat::InlineCode);
    assert_eq!(result, "say hello there");
    assert_eq!(col, 5);
}

#[test]
fn test_toggle_insert_at_start() {
    let (result, col) = toggle_inline_format("hello", 0, MarkdownFormat::Bold);
    assert_eq!(result, "****hello");
    assert_eq!(col, 2);
}

#[test]
fn test_toggle_empty_line() {
    let (result, col) = toggle_inline_format("", 0, MarkdownFormat::Bold);
    assert_eq!(result, "****");
    assert_eq!(col, 2);
}

#[test]
fn test_toggle_line_with_only_markers() {
    let (result, col) = toggle_inline_format("****", 2, MarkdownFormat::Bold);
    assert_eq!(result, "");
    assert_eq!(col, 0);
}

#[test]
fn test_visual_wrap_bold() {
    let (result, start, end) =
        toggle_inline_format_visual("hello world foo", 6, 11, MarkdownFormat::Bold);
    assert_eq!(result, "hello **world** foo");
    assert_eq!(start, 6);
    assert_eq!(end, 15);
}

#[test]
fn test_visual_unwrap_bold() {
    let (result, start, end) =
        toggle_inline_format_visual("hello **world** foo", 6, 15, MarkdownFormat::Bold);
    assert_eq!(result, "hello world foo");
    assert_eq!(start, 6);
    assert_eq!(end, 11);
}

#[test]
fn test_visual_wrap_inline_code() {
    let (result, start, end) =
        toggle_inline_format_visual("hello world", 0, 5, MarkdownFormat::InlineCode);
    assert_eq!(result, "`hello` world");
    assert_eq!(start, 0);
    assert_eq!(end, 7);
}

#[test]
fn test_visual_wrap_strikethrough() {
    let (result, _, _) =
        toggle_inline_format_visual("hello world", 6, 11, MarkdownFormat::Strikethrough);
    assert_eq!(result, "hello ~~world~~");
}

#[test]
fn test_visual_empty_selection() {
    let (result, start, end) = toggle_inline_format_visual("hello", 3, 3, MarkdownFormat::Bold);
    assert_eq!(result, "hel****lo");
    assert_eq!(start, 3);
    assert_eq!(end, 7);
}

#[test]
fn test_inside_code_block() {
    let lines: Vec<String> = vec![
        "hello".to_string(),
        "```".to_string(),
        "code here".to_string(),
        "```".to_string(),
        "world".to_string(),
    ];
    let result = is_inside_code_block(&lines, 2);
    assert_eq!(result, Some((1, 3)));
}

#[test]
fn test_not_inside_code_block() {
    let lines: Vec<String> = vec!["hello".to_string(), "world".to_string()];
    let result = is_inside_code_block(&lines, 0);
    assert!(result.is_none());
}

#[test]
fn test_outside_code_block_after_close() {
    let lines: Vec<String> = vec![
        "```".to_string(),
        "code".to_string(),
        "```".to_string(),
        "outside".to_string(),
    ];
    let result = is_inside_code_block(&lines, 3);
    assert!(result.is_none());
}

#[test]
fn test_toggle_code_block_insert() {
    let lines: Vec<String> = vec![
        "hello".to_string(),
        "code line".to_string(),
        "world".to_string(),
    ];
    let (new_lines, row, col) = toggle_code_block(&lines, 1);
    assert_eq!(new_lines.len(), 5);
    assert_eq!(new_lines[0], "hello");
    assert_eq!(new_lines[1], "```");
    assert_eq!(new_lines[2], "code line");
    assert_eq!(new_lines[3], "```");
    assert_eq!(new_lines[4], "world");
    assert_eq!(row, 1);
    assert_eq!(col, 3);
}

#[test]
fn test_toggle_code_block_remove() {
    let lines: Vec<String> = vec![
        "hello".to_string(),
        "```rust".to_string(),
        "code".to_string(),
        "```".to_string(),
        "world".to_string(),
    ];
    let (new_lines, row, _col) = toggle_code_block(&lines, 2);
    assert_eq!(new_lines.len(), 3);
    assert_eq!(new_lines[0], "hello");
    assert_eq!(new_lines[1], "code");
    assert_eq!(new_lines[2], "world");
    assert_eq!(row, 1);
}

#[test]
fn test_visual_code_block_wrap() {
    let lines: Vec<String> = vec![
        "line1".to_string(),
        "line2".to_string(),
        "line3".to_string(),
    ];
    let (new_lines, row, col) = toggle_code_block_visual(&lines, 0, 1);
    assert_eq!(new_lines.len(), 5);
    assert_eq!(new_lines[0], "```");
    assert_eq!(new_lines[1], "line1");
    assert_eq!(new_lines[2], "line2");
    assert_eq!(new_lines[3], "```");
    assert_eq!(new_lines[4], "line3");
    assert_eq!(row, 0);
    assert_eq!(col, 3);
}

#[test]
fn test_visual_code_block_unwrap() {
    let lines: Vec<String> = vec![
        "```rust".to_string(),
        "code1".to_string(),
        "code2".to_string(),
        "```".to_string(),
        "after".to_string(),
    ];
    let (new_lines, _row, _col) = toggle_code_block_visual(&lines, 0, 3);
    assert_eq!(new_lines.len(), 3);
    assert_eq!(new_lines[0], "code1");
    assert_eq!(new_lines[1], "code2");
    assert_eq!(new_lines[2], "after");
}
