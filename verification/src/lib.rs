//! A modal text-editing engine: a grapheme-indexed buffer with bounded
//! undo/redo, vim-like key dispatch, visual selections that stay rectangular
//! under variable-width glyphs, and soft-wrap geometry.

pub mod buffer;
pub mod comment;
pub mod keys;
pub mod list_prefix;
pub mod markdown_fmt;
pub mod mode;
pub mod text;
pub mod unicode;
pub mod vim_mode;
pub mod visual_mode;
pub mod wrap_calc;
