//! The application's editing modes.

use vstd::prelude::*;

use crate::visual_mode::VisualType;

verus! {

/// The current editing mode; modes beyond Normal/Insert/Visual/Search are
/// driven by the surrounding application.
#[derive(Debug, Clone, Copy, PartialEq, Eq, Structural)]
pub enum AppMode {
    Normal,
    Insert,
    Visual(VisualType),
    Processing,
    Search,
    ConfirmDelete,
}

impl Default for AppMode {
    fn default() -> (r: Self)
        ensures
            r == AppMode::Normal,
    {
        AppMode::Normal
    }
}

impl AppMode {
    /// The label shown for the mode.
    pub fn as_str(&self) -> &'static str {
        match self {
            AppMode::Normal => "NORMAL",
            AppMode::Insert => "INSERT",
            AppMode::Visual(VisualType::Character) => "VISUAL",
            AppMode::Visual(VisualType::Line) => "VISUAL LINE",
            AppMode::Visual(VisualType::Block) => "VISUAL BLOCK",
            AppMode::Processing => "PROCESSING",
            AppMode::Search => "SEARCH",
            AppMode::ConfirmDelete => "CONFIRM",
        }
    }
}

/// Which pane the application is showing; only the editor concerns the
/// engine.
#[derive(Debug, Clone, Copy, PartialEq, Eq, Structural)]
pub enum View {
    Editor,
    DraftList,
    ArchiveList,
}

impl Default for View {
    fn default() -> (r: Self)
        ensures
            r == View::Editor,
    {
        View::Editor
    }
}

impl View {
    /// The label shown for the view.
    pub fn as_str(&self) -> &'static str {
        match self {
            View::Editor => "Editor",
            View::DraftList => "Drafts",
            View::ArchiveList => "Archive",
        }
    }
}

} // verus!
