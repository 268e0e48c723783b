//! Wide-character edge cases: block selection alignment, cursor movement,
//! soft wrap and block edits over mixed ASCII and CJK text.

use kenotex::buffer::TextBuffer;
use kenotex::visual_mode::{RenderSelection, VisualMode, VisualType};
use kenotex::wrap_calc;

#[test]
fn test_block_render_data_uses_display_columns() {
    let buffer = TextBuffer::from_string("Hello\n你好world");

    let anchor = (0, 2);
    let cursor_grapheme = buffer.grapheme_at_display_col(1, 2);
    let cursor = (1, cursor_grapheme);

    let visual = VisualMode::new(VisualType::Block, anchor);
    let render = visual.render_data(&buffer, cursor);

    match render {
        RenderSelection::BlockRegion {
            top_row,
            bottom_row,
            left_col,
            right_col,
        } => {
            assert_eq!(top_row, 0);
            assert_eq!(bottom_row, 1);
            assert_eq!(left_col, 2);
            assert_eq!(right_col, 3);
        }
        _ => panic!("Expected BlockRegion for Block visual mode"),
    }
}

#[test]
fn test_block_render_data_cjk_anchor_ascii_cursor() {
    let buffer = TextBuffer::from_string("你好世界\nabcdefgh");

    let anchor = (0, 1);
    let cursor = (1, 3);

    let visual = VisualMode::new(VisualType::Block, anchor);
    let render = visual.render_data(&buffer, cursor);

    match render {
        RenderSelection::BlockRegion {
            left_col, right_col, ..
        } => {
            assert_eq!(left_col, 2);
            assert_eq!(right_col, 3);
        }
        _ => panic!("Expected BlockRegion"),
    }
}

#[test]
fn test_block_render_data_mid_wide_char() {
    let buffer = TextBuffer::from_string("ab\n你好");

    let anchor = (0, 1);
    let cursor = (1, 0);

    let visual = VisualMode::new(VisualType::Block, anchor);
    let render = visual.render_data(&buffer, cursor);

    match render {
        RenderSelection::BlockRegion {
            left_col, right_col, ..
        } => {
            assert_eq!(left_col, 0);
            assert_eq!(right_col, 1);
        }
        _ => panic!("Expected BlockRegion"),
    }
}

#[test]
fn test_cursor_display_col_cjk_movement() {
    let buffer = TextBuffer::from_string("你好世界");
    assert_eq!(buffer.display_col_at(0, 0), 0);
    assert_eq!(buffer.display_col_at(0, 1), 2);
    assert_eq!(buffer.display_col_at(0, 2), 4);
    assert_eq!(buffer.display_col_at(0, 3), 6);
}

#[test]
fn test_grapheme_at_display_col_mid_wide_char() {
    let buffer = TextBuffer::from_string("你好世界");
    assert_eq!(buffer.grapheme_at_display_col(0, 0), 0);
    assert_eq!(buffer.grapheme_at_display_col(0, 1), 0);
    assert_eq!(buffer.grapheme_at_display_col(0, 2), 1);
    assert_eq!(buffer.grapheme_at_display_col(0, 3), 1);
}

#[test]
fn test_cursor_display_col_mixed_line() {
    let buffer = TextBuffer::from_string("AB中文EF");
    assert_eq!(buffer.display_col_at(0, 0), 0);
    assert_eq!(buffer.display_col_at(0, 1), 1);
    assert_eq!(buffer.display_col_at(0, 2), 2);
    assert_eq!(buffer.display_col_at(0, 3), 4);
    assert_eq!(buffer.display_col_at(0, 4), 6);
    assert_eq!(buffer.display_col_at(0, 5), 7);
}

#[test]
fn test_vertical_movement_maintains_display_col() {
    let buffer = TextBuffer::from_string("Hello\n你好world");
    let display_col = buffer.display_col_at(0, 4);
    assert_eq!(display_col, 4);
    let target_grapheme = buffer.grapheme_at_display_col(1, display_col);
    assert_eq!(target_grapheme, 2);
}

#[test]
fn test_soft_wrap_no_split_wide_char_at_boundary() {
    assert_eq!(wrap_calc::display_rows_for_line("ab你", 3), 2);
    assert_eq!(wrap_calc::display_rows_for_line("ab你", 4), 1);
}

#[test]
fn test_cursor_position_after_wide_char_wrap() {
    let lines = vec!["ab你好".to_string()];
    let vpos = wrap_calc::visual_cursor_position(&lines, 0, 3, 3);
    assert_eq!(vpos.wrap_row, 2);
    assert_eq!(vpos.col, 0);
}

#[test]
fn test_soft_wrap_cjk_sequence_odd_width() {
    assert_eq!(wrap_calc::display_rows_for_line("你好世界", 3), 4);
}

#[test]
fn test_soft_wrap_mixed_content() {
    assert_eq!(wrap_calc::display_rows_for_line("Hi你好AB", 5), 2);
}

#[test]
fn test_block_insert_start_display_aligned() {
    let mut buffer = TextBuffer::from_string("Hello\n你好world");

    let anchor = (0, 2);
    let cursor_grapheme = buffer.grapheme_at_display_col(1, 2);
    let cursor = (1, cursor_grapheme);

    let mut visual = VisualMode::new(VisualType::Block, anchor);
    let positions = visual.prepare_insert_start(&mut buffer, cursor);

    assert_eq!(positions.len(), 2);
    assert_eq!(positions[0], (0, 2));
    assert_eq!(positions[1], (1, 1));
}

#[test]
fn test_block_insert_end_display_aligned() {
    let mut buffer = TextBuffer::from_string("Hello\n你好world");

    let anchor = (0, 4);
    let cursor_grapheme = buffer.grapheme_at_display_col(1, 4);
    let cursor = (1, cursor_grapheme);

    let mut visual = VisualMode::new(VisualType::Block, anchor);
    let positions = visual.prepare_insert_end(&mut buffer, cursor);

    assert_eq!(positions.len(), 2);
    assert_eq!(positions[0], (0, 5));
    assert_eq!(positions[1], (1, 3));
}

#[test]
fn test_block_delete_display_aligned() {
    let mut buffer = TextBuffer::from_string("Hello world\n你好world!!");

    let anchor = (0, 3);
    let cursor_grapheme = buffer.grapheme_at_display_col(1, 2);
    let cursor = (1, cursor_grapheme);

    let visual = VisualMode::new(VisualType::Block, anchor);
    let _deleted = visual.delete_selection(&mut buffer, cursor);

    let lines = buffer.content();
    assert_eq!(lines[0], "Heo world");
    assert_eq!(lines[1], "你world!!");
}

#[test]
fn test_block_yank_display_aligned() {
    let buffer = TextBuffer::from_string("abcdef\n你好世界");

    let anchor = (0, 2);
    let cursor = (1, 1);

    let visual = VisualMode::new(VisualType::Block, anchor);
    let yanked = visual.yank_selection(&buffer, cursor);

    let parts: Vec<&str> = yanked.split('\n').collect();
    assert_eq!(parts.len(), 2);
    assert_eq!(parts[0], "cd");
    assert_eq!(parts[1], "好");
}

#[test]
fn test_block_delete_cursor_position_with_cjk() {
    let mut buffer = TextBuffer::from_string("你好世界\nabcdefgh");

    let anchor = (0, 1);
    let cursor = (1, 3);

    let visual = VisualMode::new(VisualType::Block, anchor);
    let _deleted = visual.delete_selection(&mut buffer, cursor);

    let (cursor_row, cursor_col) = buffer.cursor_position();
    assert_eq!(cursor_row, 0);
    let display_col = buffer.display_col_at(cursor_row, cursor_col);
    assert_eq!(display_col, 2);
}

#[test]
fn test_block_delete_right_edge_mid_wide_char() {
    let mut buffer = TextBuffer::from_string("abcde\n你好世界");

    let anchor = (0, 2);
    let cursor = (1, 0);

    let visual = VisualMode::new(VisualType::Block, anchor);
    let deleted = visual.delete_selection(&mut buffer, cursor);

    let lines = buffer.content();
    assert_eq!(lines[0], "de");
    assert_eq!(lines[1], "世界");
    assert!(deleted.contains("abc"));
    assert!(deleted.contains("你好"));
}

#[test]
fn test_block_selection_all_cjk_lines() {
    let buffer = TextBuffer::from_string("你好世界\n天地玄黄");

    let anchor = (0, 1);
    let cursor = (1, 2);

    let visual = VisualMode::new(VisualType::Block, anchor);
    let render = visual.render_data(&buffer, cursor);

    match render {
        RenderSelection::BlockRegion {
            left_col, right_col, ..
        } => {
            assert_eq!(left_col, 2);
            assert_eq!(right_col, 5);
        }
        _ => panic!("Expected BlockRegion"),
    }
}

#[test]
fn test_block_yank_all_cjk() {
    let buffer = TextBuffer::from_string("你好世界\n天地玄黄");

    let anchor = (0, 1);
    let cursor = (1, 1);

    let visual = VisualMode::new(VisualType::Block, anchor);
    let yanked = visual.yank_selection(&buffer, cursor);

    let parts: Vec<&str> = yanked.split('\n').collect();
    assert_eq!(parts[0], "好");
    assert_eq!(parts[1], "地");
}

#[test]
fn test_visual_positions_cjk_chars() {
    let positions = wrap_calc::visual_positions_in_range("A你B", 0, 3, 10);
    assert_eq!(positions.len(), 3);
    assert_eq!(positions[0], (0, 0, 1));
    assert_eq!(positions[1], (0, 1, 2));
    assert_eq!(positions[2], (0, 3, 1));
}

#[test]
fn test_visual_positions_cjk_wrap_boundary() {
    let positions = wrap_calc::visual_positions_in_range("abc你", 0, 4, 4);
    assert_eq!(positions.len(), 4);
    assert_eq!(positions[0], (0, 0, 1));
    assert_eq!(positions[1], (0, 1, 1));
    assert_eq!(positions[2], (0, 2, 1));
    assert_eq!(positions[3], (1, 0, 2));
}
