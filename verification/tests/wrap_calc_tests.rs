use kenotex::wrap_calc::{
    display_rows_for_line, virtual_block_positions, visual_cursor_position,
    visual_positions_in_range,
};

#[test]
fn test_display_rows_empty_line() {
    assert_eq!(display_rows_for_line("", 10), 1);
}

#[test]
fn test_display_rows_short_line() {
    assert_eq!(display_rows_for_line("hello", 10), 1);
}

#[test]
fn test_display_rows_exact_width() {
    assert_eq!(display_rows_for_line("abcde", 5), 1);
}

#[test]
fn test_display_rows_wraps_once() {
    assert_eq!(display_rows_for_line("abcdef", 5), 2);
}

#[test]
fn test_display_rows_wraps_twice() {
    assert_eq!(display_rows_for_line("abcdefghijk", 5), 3);
}

#[test]
fn test_display_rows_wide_chars() {
    assert_eq!(display_rows_for_line("你好世界", 5), 2);
}

#[test]
fn test_display_rows_wide_char_at_boundary() {
    assert_eq!(display_rows_for_line("a你", 3), 1);
    assert_eq!(display_rows_for_line("ab你", 3), 2);
}

#[test]
fn test_display_rows_zero_width() {
    assert_eq!(display_rows_for_line("hello", 0), 1);
}

#[test]
fn test_cursor_position_simple() {
    let lines = vec!["hello".to_string(), "world".to_string()];
    let vpos = visual_cursor_position(&lines, 0, 3, 10);
    assert_eq!(vpos.rows_before, 0);
    assert_eq!(vpos.wrap_row, 0);
    assert_eq!(vpos.col, 3);
}

#[test]
fn test_cursor_position_second_line() {
    let lines = vec!["hello".to_string(), "world".to_string()];
    let vpos = visual_cursor_position(&lines, 1, 2, 10);
    assert_eq!(vpos.rows_before, 1);
    assert_eq!(vpos.wrap_row, 0);
    assert_eq!(vpos.col, 2);
}

#[test]
fn test_cursor_position_wrapped_line() {
    let lines = vec!["abcdefgh".to_string()];
    let vpos = visual_cursor_position(&lines, 0, 6, 5);
    assert_eq!(vpos.rows_before, 0);
    assert_eq!(vpos.wrap_row, 1);
    assert_eq!(vpos.col, 1);
}

#[test]
fn test_cursor_position_at_wrap_boundary() {
    let lines = vec!["abcde".to_string()];
    let vpos = visual_cursor_position(&lines, 0, 5, 5);
    assert_eq!(vpos.wrap_row, 0);
    assert_eq!(vpos.col, 5);
}

#[test]
fn test_cursor_position_wrapped_affects_rows_before() {
    let lines = vec!["abcdefgh".to_string(), "xy".to_string()];
    let vpos = visual_cursor_position(&lines, 1, 1, 5);
    assert_eq!(vpos.rows_before, 2);
    assert_eq!(vpos.wrap_row, 0);
    assert_eq!(vpos.col, 1);
}

#[test]
fn test_cursor_position_wide_chars() {
    let lines = vec!["你好世".to_string()];
    let vpos = visual_cursor_position(&lines, 0, 2, 5);
    assert_eq!(vpos.wrap_row, 1);
    assert_eq!(vpos.col, 0);
}

#[test]
fn test_cursor_position_empty_line() {
    let lines = vec!["".to_string()];
    let vpos = visual_cursor_position(&lines, 0, 0, 10);
    assert_eq!(vpos.rows_before, 0);
    assert_eq!(vpos.wrap_row, 0);
    assert_eq!(vpos.col, 0);
    assert_eq!(vpos.line_display_rows, 1);
}

#[test]
fn test_visual_positions_in_range_simple() {
    let positions = visual_positions_in_range("hello", 1, 4, 10);
    assert_eq!(positions.len(), 3);
    assert_eq!(positions[0], (0, 1, 1));
    assert_eq!(positions[1], (0, 2, 1));
    assert_eq!(positions[2], (0, 3, 1));
}

#[test]
fn test_visual_positions_in_range_wrapped() {
    let positions = visual_positions_in_range("abcdefgh", 3, 7, 5);
    assert_eq!(positions.len(), 4);
    assert_eq!(positions[0], (0, 3, 1));
    assert_eq!(positions[1], (0, 4, 1));
    assert_eq!(positions[2], (1, 0, 1));
    assert_eq!(positions[3], (1, 1, 1));
}

#[test]
fn test_visual_positions_trailing() {
    let positions = visual_positions_in_range("ab", 0, 3, 10);
    assert_eq!(positions.len(), 3);
    assert_eq!(positions[2], (0, 2, 1));
}

#[test]
fn test_virtual_block_positions_beyond_line() {
    let positions = virtual_block_positions("ab", 3, 5, 10);
    assert_eq!(positions.len(), 2);
    assert_eq!(positions[0], (0, 3, 1));
    assert_eq!(positions[1], (0, 4, 1));
}

#[test]
fn test_virtual_block_positions_partial_virtual() {
    let positions = virtual_block_positions("abc", 2, 5, 10);
    assert_eq!(positions.len(), 3);
    assert_eq!(positions[0], (0, 2, 1));
    assert_eq!(positions[1], (0, 3, 1));
    assert_eq!(positions[2], (0, 4, 1));
}

#[test]
fn test_virtual_block_positions_with_cjk() {
    let positions = virtual_block_positions("你好", 3, 5, 10);
    assert_eq!(positions.len(), 2);
    assert_eq!(positions[0], (0, 5, 1));
    assert_eq!(positions[1], (0, 6, 1));
}

#[test]
fn test_virtual_block_positions_wrapping() {
    let positions = virtual_block_positions("ab", 3, 8, 5);
    assert_eq!(positions.len(), 5);
    assert_eq!(positions[0], (0, 3, 1));
    assert_eq!(positions[1], (0, 4, 1));
    assert_eq!(positions[2], (1, 0, 1));
    assert_eq!(positions[3], (1, 1, 1));
    assert_eq!(positions[4], (1, 2, 1));
}
