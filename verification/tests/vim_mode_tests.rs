use kenotex::keys::{KeyCode, KeyEvent, KeyModifiers};
use kenotex::mode::AppMode;
use kenotex::vim_mode::{Motion, VimAction, VimMode};

#[test]
fn test_leader_key_sequence() {
    let mut vim = VimMode::new();

    let action = vim.handle_key(
        KeyEvent::new(KeyCode::Char(' '), KeyModifiers::NONE),
        AppMode::Normal,
    );
    assert_eq!(action, VimAction::LeaderKey);
    assert!(vim.is_leader_pending());

    let action = vim.handle_key(
        KeyEvent::new(KeyCode::Char('s'), KeyModifiers::NONE),
        AppMode::Normal,
    );
    assert_eq!(action, VimAction::LeaderProcess);
    assert!(!vim.is_leader_pending());
}

#[test]
fn test_leader_toggle_hints() {
    let mut vim = VimMode::new();

    let action = vim.handle_key(
        KeyEvent::new(KeyCode::Char(' '), KeyModifiers::NONE),
        AppMode::Normal,
    );
    assert_eq!(action, VimAction::LeaderKey);
    assert!(vim.is_leader_pending());

    let action = vim.handle_key(
        KeyEvent::new(KeyCode::Char('h'), KeyModifiers::NONE),
        AppMode::Normal,
    );
    assert_eq!(action, VimAction::ToggleHints);
    assert!(!vim.is_leader_pending());
}

#[test]
fn test_leader_multi_char_cancel() {
    let mut vim = VimMode::new();

    vim.handle_key(
        KeyEvent::new(KeyCode::Char(' '), KeyModifiers::NONE),
        AppMode::Normal,
    );

    vim.handle_key(
        KeyEvent::new(KeyCode::Char('n'), KeyModifiers::NONE),
        AppMode::Normal,
    );
    assert!(vim.is_leader_pending());

    let action = vim.handle_key(
        KeyEvent::new(KeyCode::Char('x'), KeyModifiers::NONE),
        AppMode::Normal,
    );
    assert_eq!(action, VimAction::NoOp);
    assert!(!vim.is_leader_pending());
}

#[test]
fn test_leader_insert_checkbox() {
    let mut vim = VimMode::new();

    let action = vim.handle_key(
        KeyEvent::new(KeyCode::Char(' '), KeyModifiers::NONE),
        AppMode::Normal,
    );
    assert_eq!(action, VimAction::LeaderKey);
    assert!(vim.is_leader_pending());

    let action = vim.handle_key(
        KeyEvent::new(KeyCode::Char('m'), KeyModifiers::NONE),
        AppMode::Normal,
    );
    assert_eq!(action, VimAction::NoOp);
    assert!(vim.is_leader_pending());

    let action = vim.handle_key(
        KeyEvent::new(KeyCode::Char('c'), KeyModifiers::NONE),
        AppMode::Normal,
    );
    assert_eq!(action, VimAction::InsertCheckbox);
    assert!(!vim.is_leader_pending());
}

#[test]
fn test_leader_toggle_checkbox() {
    let mut vim = VimMode::new();

    let action = vim.handle_key(
        KeyEvent::new(KeyCode::Char(' '), KeyModifiers::NONE),
        AppMode::Normal,
    );
    assert_eq!(action, VimAction::LeaderKey);

    let action = vim.handle_key(
        KeyEvent::new(KeyCode::Char('d'), KeyModifiers::NONE),
        AppMode::Normal,
    );
    assert_eq!(action, VimAction::ToggleCheckbox);
    assert!(!vim.is_leader_pending());
}

#[test]
fn test_leader_m_invalid_second() {
    let mut vim = VimMode::new();

    vim.handle_key(
        KeyEvent::new(KeyCode::Char(' '), KeyModifiers::NONE),
        AppMode::Normal,
    );
    vim.handle_key(
        KeyEvent::new(KeyCode::Char('m'), KeyModifiers::NONE),
        AppMode::Normal,
    );

    let action = vim.handle_key(
        KeyEvent::new(KeyCode::Char('z'), KeyModifiers::NONE),
        AppMode::Normal,
    );
    assert_eq!(action, VimAction::NoOp);
    assert!(!vim.is_leader_pending());
}

#[test]
fn test_leader_new_note() {
    let mut vim = VimMode::new();

    let action = vim.handle_key(
        KeyEvent::new(KeyCode::Char(' '), KeyModifiers::NONE),
        AppMode::Normal,
    );
    assert_eq!(action, VimAction::LeaderKey);
    assert!(vim.is_leader_pending());

    let action = vim.handle_key(
        KeyEvent::new(KeyCode::Char('n'), KeyModifiers::NONE),
        AppMode::Normal,
    );
    assert_eq!(action, VimAction::NoOp);
    assert!(vim.is_leader_pending());

    let action = vim.handle_key(
        KeyEvent::new(KeyCode::Char('n'), KeyModifiers::NONE),
        AppMode::Normal,
    );
    assert_eq!(action, VimAction::LeaderNew);
    assert!(!vim.is_leader_pending());
}

#[test]
fn test_insert_mode() {
    let mut vim = VimMode::new();

    let action = vim.handle_key(
        KeyEvent::new(KeyCode::Char('i'), KeyModifiers::NONE),
        AppMode::Normal,
    );
    assert_eq!(action, VimAction::InsertMode);

    let action = vim.handle_key(
        KeyEvent::new(KeyCode::Char('a'), KeyModifiers::NONE),
        AppMode::Insert,
    );
    assert_eq!(action, VimAction::InsertChar('a'));
}

#[test]
fn test_dd_deletes_line() {
    let mut vim = VimMode::new();
    let action = vim.handle_key(
        KeyEvent::new(KeyCode::Char('d'), KeyModifiers::NONE),
        AppMode::Normal,
    );
    assert_eq!(action, VimAction::NoOp);
    assert!(vim.is_operator_pending());

    let action = vim.handle_key(
        KeyEvent::new(KeyCode::Char('d'), KeyModifiers::NONE),
        AppMode::Normal,
    );
    assert_eq!(action, VimAction::Delete(Motion::Line));
}

#[test]
fn test_dw_delete_word() {
    let mut vim = VimMode::new();
    vim.handle_key(
        KeyEvent::new(KeyCode::Char('d'), KeyModifiers::NONE),
        AppMode::Normal,
    );
    let action = vim.handle_key(
        KeyEvent::new(KeyCode::Char('w'), KeyModifiers::NONE),
        AppMode::Normal,
    );
    assert_eq!(action, VimAction::Delete(Motion::WordForward));
}

#[test]
fn test_yy_yank_line() {
    let mut vim = VimMode::new();
    vim.handle_key(
        KeyEvent::new(KeyCode::Char('y'), KeyModifiers::NONE),
        AppMode::Normal,
    );
    let action = vim.handle_key(
        KeyEvent::new(KeyCode::Char('y'), KeyModifiers::NONE),
        AppMode::Normal,
    );
    assert_eq!(action, VimAction::Yank(Motion::Line));
}

#[test]
fn test_operator_cancel_on_invalid() {
    let mut vim = VimMode::new();
    vim.handle_key(
        KeyEvent::new(KeyCode::Char('d'), KeyModifiers::NONE),
        AppMode::Normal,
    );
    let action = vim.handle_key(
        KeyEvent::new(KeyCode::Char('z'), KeyModifiers::NONE),
        AppMode::Normal,
    );
    assert_eq!(action, VimAction::NoOp);
    assert!(!vim.is_operator_pending());
}

#[test]
fn test_visual_d() {
    let mut vim = VimMode::new();
    let action = vim.handle_key(
        KeyEvent::new(KeyCode::Char('d'), KeyModifiers::NONE),
        AppMode::Visual(kenotex::visual_mode::VisualType::Character),
    );
    assert_eq!(action, VimAction::VisualDelete);
}

#[test]
fn test_visual_y() {
    let mut vim = VimMode::new();
    let action = vim.handle_key(
        KeyEvent::new(KeyCode::Char('y'), KeyModifiers::NONE),
        AppMode::Visual(kenotex::visual_mode::VisualType::Character),
    );
    assert_eq!(action, VimAction::VisualYank);
}

#[test]
fn test_paste_keys() {
    let mut vim = VimMode::new();
    let action = vim.handle_key(
        KeyEvent::new(KeyCode::Char('p'), KeyModifiers::NONE),
        AppMode::Normal,
    );
    assert_eq!(action, VimAction::PasteAfter);

    let action = vim.handle_key(
        KeyEvent::new(KeyCode::Char('P'), KeyModifiers::NONE),
        AppMode::Normal,
    );
    assert_eq!(action, VimAction::PasteBefore);
}

#[test]
fn test_colemak_bindings() {
    let mut vim = VimMode::with_config(kenotex::keys::KeyboardConfig::colemak());
    let action = vim.handle_key(
        KeyEvent::new(KeyCode::Char('u'), KeyModifiers::NONE),
        AppMode::Normal,
    );
    assert_eq!(action, VimAction::MoveUp);
    let action = vim.handle_key(
        KeyEvent::new(KeyCode::Char('z'), KeyModifiers::NONE),
        AppMode::Normal,
    );
    assert_eq!(action, VimAction::Undo);
}

#[test]
fn test_ctrl_r_redo() {
    let mut vim = VimMode::new();
    let action = vim.handle_key(
        KeyEvent::new(KeyCode::Char('r'), KeyModifiers::CONTROL),
        AppMode::Normal,
    );
    assert_eq!(action, VimAction::Redo);
}

#[test]
fn test_search_mode_keys() {
    let mut vim = VimMode::new();
    let action = vim.handle_key(
        KeyEvent::new(KeyCode::Char('x'), KeyModifiers::NONE),
        AppMode::Search,
    );
    assert_eq!(action, VimAction::InsertChar('x'));
    let action = vim.handle_key(
        KeyEvent::new(KeyCode::Enter, KeyModifiers::NONE),
        AppMode::Search,
    );
    assert_eq!(action, VimAction::ExitToNormal);
}
