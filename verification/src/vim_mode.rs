//! The modal key dispatcher: key events in, abstract editing actions out,
//! with the leader-key and operator-pending sub-state machines inside.

use vstd::prelude::*;

use crate::keys::{mods_contain, KeyboardConfig, KeyCode, KeyEvent, KeyModifiers};
use crate::mode::AppMode;

verus! {

/// The scope a pending operator applies over.
#[derive(Debug, Clone, Copy, PartialEq, Eq, Structural)]
pub enum Motion {
    Line,
    WordForward,
    WordBackward,
    LineEnd,
    LineStart,
    FileEnd,
    FileStart,
}

/// The closed vocabulary of actions the dispatcher can hand back.
#[derive(Debug, Clone, Copy, PartialEq, Eq, Structural)]
pub enum VimAction {
    NoOp,
    MoveLeft,
    MoveRight,
    MoveUp,
    MoveDown,
    MoveWordForward,
    MoveWordBackward,
    MoveLineStart,
    MoveLineEnd,
    MoveFileStart,
    MoveFileEnd,
    InsertMode,
    InsertModeAppend,
    InsertModeLineEnd,
    InsertModeLineStart,
    InsertLineBelow,
    InsertLineAbove,
    DeleteChar,
    DeleteLine,
    Backspace,
    InsertChar(char),
    InsertTab,
    Indent,
    Dedent,
    InsertNewline,
    EnterVisualMode,
    ExitToNormal,
    Undo,
    Redo,
    LeaderKey,
    LeaderList,
    LeaderNew,
    LeaderProcess,
    ToggleHints,
    InsertCheckbox,
    ToggleCheckbox,
    CycleTheme,
    Search,
    SearchNext,
    SearchPrev,
    ClearSearch,
    ExternalEditor,
    Quit,
    Delete(Motion),
    Yank(Motion),
    VisualDelete,
    VisualYank,
    PasteAfter,
    PasteBefore,
    ReloadBuffer,
}

/// Where a leader sequence stands: idle, awaiting its first key, or
/// awaiting the second key of a two-key command.
#[derive(Debug, Clone, Copy, PartialEq, Eq, Structural)]
pub enum LeaderState {
    Inactive,
    AwaitingFirst,
    AwaitingSecond(char),
}

/// Whether a delete or yank operator awaits its motion.
#[derive(Debug, Clone, Copy, PartialEq, Eq, Structural)]
pub enum OperatorPending {
    Idle,
    Delete,
    Yank,
}

/// Whether the plain character `c` is the whole binding.
pub open spec fn key_is(c: char, binding: Seq<char>) -> bool {
    binding == seq![c]
}

/// Whether the key event matches a binding that may carry a `ctrl+` chord;
/// a chord binds one ASCII character with the control modifier.
pub open spec fn key_event_is(key: KeyEvent, binding: Seq<char>) -> bool {
    if binding.len() >= 5 && binding.subrange(0, 5) == seq!['c', 't', 'r', 'l', '+'] {
        &&& binding.len() == 6
        &&& (binding[5] as u32) < 128
        &&& key.code == KeyCode::Char(binding[5])
        &&& mods_contain(key.modifiers, KeyModifiers::CONTROL)
    } else {
        match key.code {
            KeyCode::Char(c) => binding == seq![c],
            _ => false,
        }
    }
}

/// The motion a key resolves a pending operator to.
pub open spec fn motion_of(k: KeyboardConfig, key: KeyEvent) -> Option<Motion> {
    match key.code {
        KeyCode::Char(c) => if key_is(c, k.delete_line@) {
            Some(Motion::Line)
        } else if key_is(c, k.yank@) {
            Some(Motion::Line)
        } else if key_is(c, k.word_forward@) {
            Some(Motion::WordForward)
        } else if key_is(c, k.word_backward@) {
            Some(Motion::WordBackward)
        } else if key_is(c, k.line_end@) {
            Some(Motion::LineEnd)
        } else if key_is(c, k.line_start@) {
            Some(Motion::LineStart)
        } else if key_is(c, k.file_end@) {
            Some(Motion::FileEnd)
        } else if key_is(c, k.file_start@) {
            Some(Motion::FileStart)
        } else {
            None
        },
        _ => None,
    }
}

/// The Normal-mode key table, tried in binding order once the leader and
/// operator machines have had their turn: the resulting action, and the
/// operator it arms, if any.
pub open spec fn normal_table(k: KeyboardConfig, key: KeyEvent) -> (VimAction, OperatorPending) {
    match key.code {
        KeyCode::Left => (VimAction::MoveLeft, OperatorPending::Idle),
        KeyCode::Right => (VimAction::MoveRight, OperatorPending::Idle),
        KeyCode::Up => (VimAction::MoveUp, OperatorPending::Idle),
        KeyCode::Down => (VimAction::MoveDown, OperatorPending::Idle),
        KeyCode::Home => (VimAction::MoveLineStart, OperatorPending::Idle),
        KeyCode::End => (VimAction::MoveLineEnd, OperatorPending::Idle),
        KeyCode::Esc => (VimAction::ExitToNormal, OperatorPending::Idle),
        KeyCode::Char(c) => if key_is(c, k.move_left@) {
            (VimAction::MoveLeft, OperatorPending::Idle)
        } else if key_is(c, k.move_right@) {
            (VimAction::MoveRight, OperatorPending::Idle)
        } else if key_is(c, k.move_up@) {
            (VimAction::MoveUp, OperatorPending::Idle)
        } else if key_is(c, k.move_down@) {
            (VimAction::MoveDown, OperatorPending::Idle)
        } else if key_is(c, k.word_forward@) {
            (VimAction::MoveWordForward, OperatorPending::Idle)
        } else if key_is(c, k.word_backward@) {
            (VimAction::MoveWordBackward, OperatorPending::Idle)
        } else if key_is(c, k.line_start@) {
            (VimAction::MoveLineStart, OperatorPending::Idle)
        } else if key_is(c, k.line_end@) {
            (VimAction::MoveLineEnd, OperatorPending::Idle)
        } else if key_is(c, k.file_end@) {
            (VimAction::MoveFileEnd, OperatorPending::Idle)
        } else if key_is(c, k.file_start@) && !mods_contain(
            key.modifiers,
            KeyModifiers::CONTROL,
        ) {
            (VimAction::MoveFileStart, OperatorPending::Idle)
        } else if key_is(c, k.insert@) {
            (VimAction::InsertMode, OperatorPending::Idle)
        } else if key_is(c, k.insert_append@) {
            (VimAction::InsertModeAppend, OperatorPending::Idle)
        } else if key_is(c, k.insert_line_end@) {
            (VimAction::InsertModeLineEnd, OperatorPending::Idle)
        } else if key_is(c, k.insert_line_start@) {
            (VimAction::InsertModeLineStart, OperatorPending::Idle)
        } else if key_is(c, k.insert_line_below@) {
            (VimAction::InsertLineBelow, OperatorPending::Idle)
        } else if key_is(c, k.insert_line_above@) {
            (VimAction::InsertLineAbove, OperatorPending::Idle)
        } else if key_is(c, k.delete_char@) {
            (VimAction::DeleteChar, OperatorPending::Idle)
        } else if key_is(c, k.delete_line@) {
            (VimAction::NoOp, OperatorPending::Delete)
        } else if key_is(c, k.yank@) {
            (VimAction::NoOp, OperatorPending::Yank)
        } else if key_is(c, k.paste_after@) {
            (VimAction::PasteAfter, OperatorPending::Idle)
        } else if key_is(c, k.paste_before@) {
            (VimAction::PasteBefore, OperatorPending::Idle)
        } else if key_is(c, k.undo@) {
            (VimAction::Undo, OperatorPending::Idle)
        } else if key_event_is(key, k.redo@) {
            (VimAction::Redo, OperatorPending::Idle)
        } else if key_is(c, k.visual_mode@) {
            (VimAction::EnterVisualMode, OperatorPending::Idle)
        } else if key_is(c, k.search@) {
            (VimAction::Search, OperatorPending::Idle)
        } else if c == 'f' {
            (VimAction::Search, OperatorPending::Idle)
        } else if key_is(c, k.search_next@) {
            (VimAction::SearchNext, OperatorPending::Idle)
        } else if key_is(c, k.search_prev@) {
            (VimAction::SearchPrev, OperatorPending::Idle)
        } else if key_is(c, k.cycle_theme@) {
            (VimAction::CycleTheme, OperatorPending::Idle)
        } else if c == 'l' && mods_contain(key.modifiers, KeyModifiers::CONTROL) {
            (VimAction::ReloadBuffer, OperatorPending::Idle)
        } else if c == 'g' && mods_contain(key.modifiers, KeyModifiers::CONTROL) {
            (VimAction::ExternalEditor, OperatorPending::Idle)
        } else if c == 'q' && mods_contain(key.modifiers, KeyModifiers::CONTROL) {
            (VimAction::Quit, OperatorPending::Idle)
        } else if c == 'c' && mods_contain(key.modifiers, KeyModifiers::CONTROL) {
            (VimAction::Quit, OperatorPending::Idle)
        } else if c == '>' {
            (VimAction::Indent, OperatorPending::Idle)
        } else if c == '<' {
            (VimAction::Dedent, OperatorPending::Idle)
        } else {
            (VimAction::NoOp, OperatorPending::Idle)
        },
        _ => (VimAction::NoOp, OperatorPending::Idle),
    }
}

/// One Normal-mode step of the whole machine: next leader state, next
/// operator state, and the action.
pub open spec fn normal_step(
    k: KeyboardConfig,
    leader: LeaderState,
    op: OperatorPending,
    key: KeyEvent,
) -> (LeaderState, OperatorPending, VimAction) {
    match leader {
        LeaderState::AwaitingSecond(first) => {
            let action = if first == 'n' && key.code == KeyCode::Char('n') {
                VimAction::LeaderNew
            } else if first == 'm' && key.code == KeyCode::Char('c') {
                VimAction::InsertCheckbox
            } else {
                VimAction::NoOp
            };
            (LeaderState::Inactive, op, action)
        },
        LeaderState::AwaitingFirst => {
            match key.code {
                KeyCode::Char(c) => if key_is(c, k.leader_process@) {
                    (LeaderState::Inactive, op, VimAction::LeaderProcess)
                } else if key_is(c, k.leader_list@) {
                    (LeaderState::Inactive, op, VimAction::LeaderList)
                } else if key_is(c, k.leader_quit@) {
                    (LeaderState::Inactive, op, VimAction::Quit)
                } else if c == 'd' {
                    (LeaderState::Inactive, op, VimAction::ToggleCheckbox)
                } else if c == 'h' {
                    (LeaderState::Inactive, op, VimAction::ToggleHints)
                } else if c == 'n' {
                    (LeaderState::AwaitingSecond('n'), op, VimAction::NoOp)
                } else if c == 'm' {
                    (LeaderState::AwaitingSecond('m'), op, VimAction::NoOp)
                } else {
                    (LeaderState::Inactive, op, VimAction::NoOp)
                },
                _ => (LeaderState::Inactive, op, VimAction::NoOp),
            }
        },
        LeaderState::Inactive => {
            if op != OperatorPending::Idle {
                let action = match motion_of(k, key) {
                    Some(m) => if op == OperatorPending::Delete {
                        VimAction::Delete(m)
                    } else {
                        VimAction::Yank(m)
                    },
                    None => VimAction::NoOp,
                };
                (LeaderState::Inactive, OperatorPending::Idle, action)
            } else if key.code == KeyCode::Char(' ') {
                (LeaderState::AwaitingFirst, op, VimAction::LeaderKey)
            } else {
                let (action, newop) = normal_table(k, key);
                (LeaderState::Inactive, newop, action)
            }
        },
    }
}

/// The Insert-mode key table.
pub open spec fn insert_step(key: KeyEvent) -> VimAction {
    match key.code {
        KeyCode::Esc => VimAction::ExitToNormal,
        KeyCode::Backspace => VimAction::Backspace,
        KeyCode::Delete => VimAction::DeleteChar,
        KeyCode::Enter => VimAction::InsertNewline,
        KeyCode::Left => VimAction::MoveLeft,
        KeyCode::Right => VimAction::MoveRight,
        KeyCode::Up => VimAction::MoveUp,
        KeyCode::Down => VimAction::MoveDown,
        KeyCode::Home => VimAction::MoveLineStart,
        KeyCode::End => VimAction::MoveLineEnd,
        KeyCode::Tab => VimAction::InsertTab,
        KeyCode::BackTab => VimAction::Dedent,
        KeyCode::Char(c) => if mods_contain(key.modifiers, KeyModifiers::CONTROL) {
            if c == 'c' {
                VimAction::ExitToNormal
            } else if c == 'g' {
                VimAction::ExternalEditor
            } else {
                VimAction::NoOp
            }
        } else {
            VimAction::InsertChar(c)
        },
        _ => VimAction::NoOp,
    }
}

/// The Visual-mode key table: Normal's navigation plus selection-scoped
/// operations.
pub open spec fn visual_step(k: KeyboardConfig, key: KeyEvent) -> VimAction {
    match key.code {
        KeyCode::Esc => VimAction::ExitToNormal,
        KeyCode::Left => VimAction::MoveLeft,
        KeyCode::Right => VimAction::MoveRight,
        KeyCode::Up => VimAction::MoveUp,
        KeyCode::Down => VimAction::MoveDown,
        KeyCode::Char(c) => if key_is(c, k.move_left@) {
            VimAction::MoveLeft
        } else if key_is(c, k.move_right@) {
            VimAction::MoveRight
        } else if key_is(c, k.move_up@) {
            VimAction::MoveUp
        } else if key_is(c, k.move_down@) {
            VimAction::MoveDown
        } else if key_is(c, k.word_forward@) {
            VimAction::MoveWordForward
        } else if key_is(c, k.word_backward@) {
            VimAction::MoveWordBackward
        } else if key_is(c, k.line_start@) {
            VimAction::MoveLineStart
        } else if key_is(c, k.line_end@) {
            VimAction::MoveLineEnd
        } else if key_is(c, k.file_start@) {
            VimAction::MoveFileStart
        } else if key_is(c, k.file_end@) {
            VimAction::MoveFileEnd
        } else if key_is(c, k.delete_line@) {
            VimAction::VisualDelete
        } else if key_is(c, k.yank@) {
            VimAction::VisualYank
        } else if c == '>' {
            VimAction::Indent
        } else if c == '<' {
            VimAction::Dedent
        } else {
            VimAction::NoOp
        },
        _ => VimAction::NoOp,
    }
}

/// The Search-mode key table.
pub open spec fn search_step(key: KeyEvent) -> VimAction {
    match key.code {
        KeyCode::Esc => VimAction::ExitToNormal,
        KeyCode::Enter => VimAction::ExitToNormal,
        KeyCode::Backspace => VimAction::Backspace,
        KeyCode::Char(c) => VimAction::InsertChar(c),
        _ => VimAction::NoOp,
    }
}

/// The whole dispatcher step, every mode.
pub open spec fn vim_step(
    k: KeyboardConfig,
    leader: LeaderState,
    op: OperatorPending,
    mode: AppMode,
    key: KeyEvent,
) -> (LeaderState, OperatorPending, VimAction) {
    match mode {
        AppMode::Normal => normal_step(k, leader, op, key),
        AppMode::Insert => (leader, op, insert_step(key)),
        AppMode::Visual(_) => (leader, op, visual_step(k, key)),
        AppMode::Search => (leader, op, search_step(key)),
        AppMode::Processing => (leader, op, VimAction::NoOp),
        AppMode::ConfirmDelete => (leader, op, VimAction::NoOp),
    }
}

/// The modal dispatcher: the leader and operator sub-states, and the key
/// bindings they resolve against.
#[derive(Debug, Clone)]
pub struct VimMode {
    leader_state: LeaderState,
    operator_state: OperatorPending,
    keys: KeyboardConfig,
}

impl Default for VimMode {
    fn default() -> (r: Self)
        ensures
            r.leader() == LeaderState::Inactive,
            r.operator() == OperatorPending::Idle,
            crate::keys::qwerty_defaults(r.config()),
    {
        VimMode::new()
    }
}

impl VimMode {
    pub closed spec fn leader(&self) -> LeaderState {
        self.leader_state
    }

    pub closed spec fn operator(&self) -> OperatorPending {
        self.operator_state
    }

    pub closed spec fn config(&self) -> KeyboardConfig {
        self.keys
    }

    /// A dispatcher with the default bindings and idle sub-states.
    pub fn new() -> (r: Self)
        ensures
            r.leader() == LeaderState::Inactive,
            r.operator() == OperatorPending::Idle,
            crate::keys::qwerty_defaults(r.config()),
    {
        VimMode {
            leader_state: LeaderState::Inactive,
            operator_state: OperatorPending::Idle,
            keys: KeyboardConfig::default(),
        }
    }

    /// A dispatcher over the given bindings.
    pub fn with_config(config: KeyboardConfig) -> (r: Self)
        ensures
            r.leader() == LeaderState::Inactive,
            r.operator() == OperatorPending::Idle,
            r.config() == config,
    {
        VimMode { leader_state: LeaderState::Inactive, operator_state: OperatorPending::Idle, keys: config }
    }

    pub fn is_leader_pending(&self) -> (r: bool)
        ensures
            r == (self.leader() != LeaderState::Inactive),
    {
        !(self.leader_state == LeaderState::Inactive)
    }

    pub fn clear_leader(&mut self)
        ensures
            final(self).leader() == LeaderState::Inactive,
            final(self).operator() == old(self).operator(),
            final(self).config() == old(self).config(),
    {
        self.leader_state = LeaderState::Inactive;
    }

    pub fn is_operator_pending(&self) -> (r: bool)
        ensures
            r == (self.operator() != OperatorPending::Idle),
    {
        !(self.operator_state == OperatorPending::Idle)
    }

    pub fn clear_operator(&mut self)
        ensures
            final(self).operator() == OperatorPending::Idle,
            final(self).leader() == old(self).leader(),
            final(self).config() == old(self).config(),
    {
        self.operator_state = OperatorPending::Idle;
    }

    /// Whether the plain character `c` is the whole of `binding`.
    fn key_matches(&self, c: char, binding: &String) -> (r: bool)
        ensures
            r == key_is(c, binding@),
    {
        let n = binding.as_str().unicode_len();
        if n == 1 && binding.as_str().get_char(0) == c {
            proof {
                assert(binding@ =~= seq![c]);
            }
            true
        } else {
            proof {
                if binding@ == seq![c] {
                    assert(binding@.len() == 1 && binding@[0] == c);
                }
            }
            false
        }
    }

    /// Whether the key event matches `binding`, honouring a `ctrl+` chord.
    fn key_event_matches(&self, key: &KeyEvent, binding: &String) -> (r: bool)
        ensures
            r == key_event_is(*key, binding@),
    {
        let n = binding.as_str().unicode_len();
        let is_chord = n >= 5 && binding.as_str().get_char(0) == 'c' && binding.as_str().get_char(
            1,
        ) == 't' && binding.as_str().get_char(2) == 'r' && binding.as_str().get_char(3) == 'l'
            && binding.as_str().get_char(4) == '+';
        proof {
            if is_chord {
                assert(binding@.subrange(0, 5) =~= seq!['c', 't', 'r', 'l', '+']);
            } else if n >= 5 && binding@.subrange(0, 5) == seq!['c', 't', 'r', 'l', '+'] {
                assert(binding@[0] == 'c' && binding@[1] == 't' && binding@[2] == 'r'
                    && binding@[3] == 'l' && binding@[4] == '+');
            }
        }
        if is_chord {
            if n == 6 {
                let tail = binding.as_str().get_char(5);
                if (tail as u32) < 128 {
                    match key.code {
                        KeyCode::Char(c) => c == tail && key.modifiers.contains(
                            KeyModifiers::CONTROL,
                        ),
                        _ => false,
                    }
                } else {
                    false
                }
            } else {
                false
            }
        } else {
            match key.code {
                KeyCode::Char(c) => self.key_matches(c, binding),
                _ => false,
            }
        }
    }

    /// The motion a key resolves a pending operator to.
    fn resolve_motion(&self, key: KeyEvent) -> (r: Option<Motion>)
        ensures
            r == motion_of(self.config(), key),
    {
        match key.code {
            KeyCode::Char(c) => {
                if self.key_matches(c, &self.keys.delete_line) {
                    Some(Motion::Line)
                } else if self.key_matches(c, &self.keys.yank) {
                    Some(Motion::Line)
                } else if self.key_matches(c, &self.keys.word_forward) {
                    Some(Motion::WordForward)
                } else if self.key_matches(c, &self.keys.word_backward) {
                    Some(Motion::WordBackward)
                } else if self.key_matches(c, &self.keys.line_end) {
                    Some(Motion::LineEnd)
                } else if self.key_matches(c, &self.keys.line_start) {
                    Some(Motion::LineStart)
                } else if self.key_matches(c, &self.keys.file_end) {
                    Some(Motion::FileEnd)
                } else if self.key_matches(c, &self.keys.file_start) {
                    Some(Motion::FileStart)
                } else {
                    None
                }
            },
            _ => None,
        }
    }

    /// Feeds one key event in the given mode through the machine and hands
    /// back the action it resolves to.
    pub fn handle_key(&mut self, key: KeyEvent, mode: AppMode) -> (r: VimAction)
        ensures
            ({
                let st = vim_step(old(self).config(), old(self).leader(), old(self).operator(), mode, key);
                &&& final(self).leader() == st.0
                &&& final(self).operator() == st.1
                &&& r == st.2
                &&& final(self).config() == old(self).config()
            }),
    {
        match mode {
            AppMode::Normal => self.handle_normal_mode(key),
            AppMode::Insert => self.handle_insert_mode(key),
            AppMode::Visual(_) => self.handle_visual_mode(key),
            AppMode::Search => self.handle_search_mode(key),
            AppMode::Processing => VimAction::NoOp,
            AppMode::ConfirmDelete => VimAction::NoOp,
        }
    }

    fn handle_normal_mode(&mut self, key: KeyEvent) -> (r: VimAction)
        ensures
            ({
                let st = normal_step(old(self).config(), old(self).leader(), old(self).operator(), key);
                &&& final(self).leader() == st.0
                &&& final(self).operator() == st.1
                &&& r == st.2
                &&& final(self).config() == old(self).config()
            }),
    {
        match self.leader_state {
            LeaderState::AwaitingSecond(first) => {
                self.leader_state = LeaderState::Inactive;
                return match (first, key.code) {
                    ('n', KeyCode::Char('n')) => VimAction::LeaderNew,
                    ('m', KeyCode::Char('c')) => VimAction::InsertCheckbox,
                    _ => VimAction::NoOp,
                };
            },
            LeaderState::AwaitingFirst => {
                return match key.code {
                    KeyCode::Char(c) => {
                        if self.key_matches(c, &self.keys.leader_process) {
                            self.leader_state = LeaderState::Inactive;
                            VimAction::LeaderProcess
                        } else if self.key_matches(c, &self.keys.leader_list) {
                            self.leader_state = LeaderState::Inactive;
                            VimAction::LeaderList
                        } else if self.key_matches(c, &self.keys.leader_quit) {
                            self.leader_state = LeaderState::Inactive;
                            VimAction::Quit
                        } else if c == 'd' {
                            self.leader_state = LeaderState::Inactive;
                            VimAction::ToggleCheckbox
                        } else if c == 'h' {
                            self.leader_state = LeaderState::Inactive;
                            VimAction::ToggleHints
                        } else if c == 'n' {
                            self.leader_state = LeaderState::AwaitingSecond('n');
                            VimAction::NoOp
                        } else if c == 'm' {
                            self.leader_state = LeaderState::AwaitingSecond('m');
                            VimAction::NoOp
                        } else {
                            self.leader_state = LeaderState::Inactive;
                            VimAction::NoOp
                        }
                    },
                    _ => {
                        self.leader_state = LeaderState::Inactive;
                        VimAction::NoOp
                    },
                };
            },
            LeaderState::Inactive => {},
        }
        if !(self.operator_state == OperatorPending::Idle) {
            let op = self.operator_state;
            self.operator_state = OperatorPending::Idle;
            return match self.resolve_motion(key) {
                Some(motion) => if op == OperatorPending::Delete {
                    VimAction::Delete(motion)
                } else {
                    VimAction::Yank(motion)
                },
                None => VimAction::NoOp,
            };
        }
        match key.code {
            KeyCode::Char(' ') => {
                self.leader_state = LeaderState::AwaitingFirst;
                return VimAction::LeaderKey;
            },
            _ => {},
        }
        let (action, newop) = self.normal_table_lookup(key);
        self.operator_state = newop;
        action
    }

    /// The plain Normal-mode table, tried in binding order.
    fn normal_table_lookup(&self, key: KeyEvent) -> (r: (VimAction, OperatorPending))
        ensures
            r == normal_table(self.config(), key),
    {
        match key.code {
            KeyCode::Left => (VimAction::MoveLeft, OperatorPending::Idle),
            KeyCode::Right => (VimAction::MoveRight, OperatorPending::Idle),
            KeyCode::Up => (VimAction::MoveUp, OperatorPending::Idle),
            KeyCode::Down => (VimAction::MoveDown, OperatorPending::Idle),
            KeyCode::Home => (VimAction::MoveLineStart, OperatorPending::Idle),
            KeyCode::End => (VimAction::MoveLineEnd, OperatorPending::Idle),
            KeyCode::Esc => (VimAction::ExitToNormal, OperatorPending::Idle),
            KeyCode::Char(c) => {
                if self.key_matches(c, &self.keys.move_left) {
                    (VimAction::MoveLeft, OperatorPending::Idle)
                } else if self.key_matches(c, &self.keys.move_right) {
                    (VimAction::MoveRight, OperatorPending::Idle)
                } else if self.key_matches(c, &self.keys.move_up) {
                    (VimAction::MoveUp, OperatorPending::Idle)
                } else if self.key_matches(c, &self.keys.move_down) {
                    (VimAction::MoveDown, OperatorPending::Idle)
                } else if self.key_matches(c, &self.keys.word_forward) {
                    (VimAction::MoveWordForward, OperatorPending::Idle)
                } else if self.key_matches(c, &self.keys.word_backward) {
                    (VimAction::MoveWordBackward, OperatorPending::Idle)
                } else if self.key_matches(c, &self.keys.line_start) {
                    (VimAction::MoveLineStart, OperatorPending::Idle)
                } else if self.key_matches(c, &self.keys.line_end) {
                    (VimAction::MoveLineEnd, OperatorPending::Idle)
                } else if self.key_matches(c, &self.keys.file_end) {
                    (VimAction::MoveFileEnd, OperatorPending::Idle)
                } else if self.key_matches(c, &self.keys.file_start) && !key.modifiers.contains(
                    KeyModifiers::CONTROL,
                ) {
                    (VimAction::MoveFileStart, OperatorPending::Idle)
                } else if self.key_matches(c, &self.keys.insert) {
                    (VimAction::InsertMode, OperatorPending::Idle)
                } else if self.key_matches(c, &self.keys.insert_append) {
                    (VimAction::InsertModeAppend, OperatorPending::Idle)
                } else if self.key_matches(c, &self.keys.insert_line_end) {
                    (VimAction::InsertModeLineEnd, OperatorPending::Idle)
                } else if self.key_matches(c, &self.keys.insert_line_start) {
                    (VimAction::InsertModeLineStart, OperatorPending::Idle)
                } else if self.key_matches(c, &self.keys.insert_line_below) {
                    (VimAction::InsertLineBelow, OperatorPending::Idle)
                } else if self.key_matches(c, &self.keys.insert_line_above) {
                    (VimAction::InsertLineAbove, OperatorPending::Idle)
                } else if self.key_matches(c, &self.keys.delete_char) {
                    (VimAction::DeleteChar, OperatorPending::Idle)
                } else if self.key_matches(c, &self.keys.delete_line) {
                    (VimAction::NoOp, OperatorPending::Delete)
                } else if self.key_matches(c, &self.keys.yank) {
                    (VimAction::NoOp, OperatorPending::Yank)
                } else if self.key_matches(c, &self.keys.paste_after) {
                    (VimAction::PasteAfter, OperatorPending::Idle)
                } else if self.key_matches(c, &self.keys.paste_before) {
                    (VimAction::PasteBefore, OperatorPending::Idle)
                } else if self.key_matches(c, &self.keys.undo) {
                    (VimAction::Undo, OperatorPending::Idle)
                } else if self.key_event_matches(&key, &self.keys.redo) {
                    (VimAction::Redo, OperatorPending::Idle)
                } else if self.key_matches(c, &self.keys.visual_mode) {
                    (VimAction::EnterVisualMode, OperatorPending::Idle)
                } else if self.key_matches(c, &self.keys.search) {
                    (VimAction::Search, OperatorPending::Idle)
                } else if c == 'f' {
                    (VimAction::Search, OperatorPending::Idle)
                } else if self.key_matches(c, &self.keys.search_next) {
                    (VimAction::SearchNext, OperatorPending::Idle)
                } else if self.key_matches(c, &self.keys.search_prev) {
                    (VimAction::SearchPrev, OperatorPending::Idle)
                } else if self.key_matches(c, &self.keys.cycle_theme) {
                    (VimAction::CycleTheme, OperatorPending::Idle)
                } else if c == 'l' && key.modifiers.contains(KeyModifiers::CONTROL) {
                    (VimAction::ReloadBuffer, OperatorPending::Idle)
                } else if c == 'g' && key.modifiers.contains(KeyModifiers::CONTROL) {
                    (VimAction::ExternalEditor, OperatorPending::Idle)
                } else if c == 'q' && key.modifiers.contains(KeyModifiers::CONTROL) {
                    (VimAction::Quit, OperatorPending::Idle)
                } else if c == 'c' && key.modifiers.contains(KeyModifiers::CONTROL) {
                    (VimAction::Quit, OperatorPending::Idle)
                } else if c == '>' {
                    (VimAction::Indent, OperatorPending::Idle)
                } else if c == '<' {
                    (VimAction::Dedent, OperatorPending::Idle)
                } else {
                    (VimAction::NoOp, OperatorPending::Idle)
                }
            },
            _ => (VimAction::NoOp, OperatorPending::Idle),
        }
    }

    fn handle_insert_mode(&mut self, key: KeyEvent) -> (r: VimAction)
        ensures
            r == insert_step(key),
            final(self).leader() == old(self).leader(),
            final(self).operator() == old(self).operator(),
            final(self).config() == old(self).config(),
    {
        match key.code {
            KeyCode::Esc => VimAction::ExitToNormal,
            KeyCode::Backspace => VimAction::Backspace,
            KeyCode::Delete => VimAction::DeleteChar,
            KeyCode::Enter => VimAction::InsertNewline,
            KeyCode::Left => VimAction::MoveLeft,
            KeyCode::Right => VimAction::MoveRight,
            KeyCode::Up => VimAction::MoveUp,
            KeyCode::Down => VimAction::MoveDown,
            KeyCode::Home => VimAction::MoveLineStart,
            KeyCode::End => VimAction::MoveLineEnd,
            KeyCode::Tab => VimAction::InsertTab,
            KeyCode::BackTab => VimAction::Dedent,
            KeyCode::Char(c) => {
                if key.modifiers.contains(KeyModifiers::CONTROL) {
                    if c == 'c' {
                        VimAction::ExitToNormal
                    } else if c == 'g' {
                        VimAction::ExternalEditor
                    } else {
                        VimAction::NoOp
                    }
                } else {
                    VimAction::InsertChar(c)
                }
            },
            _ => VimAction::NoOp,
        }
    }

    fn handle_visual_mode(&mut self, key: KeyEvent) -> (r: VimAction)
        ensures
            r == visual_step(old(self).config(), key),
            final(self).leader() == old(self).leader(),
            final(self).operator() == old(self).operator(),
            final(self).config() == old(self).config(),
    {
        match key.code {
            KeyCode::Esc => VimAction::ExitToNormal,
            KeyCode::Left => VimAction::MoveLeft,
            KeyCode::Right => VimAction::MoveRight,
            KeyCode::Up => VimAction::MoveUp,
            KeyCode::Down => VimAction::MoveDown,
            KeyCode::Char(c) => {
                if self.key_matches(c, &self.keys.move_left) {
                    VimAction::MoveLeft
                } else if self.key_matches(c, &self.keys.move_right) {
                    VimAction::MoveRight
                } else if self.key_matches(c, &self.keys.move_up) {
                    VimAction::MoveUp
                } else if self.key_matches(c, &self.keys.move_down) {
                    VimAction::MoveDown
                } else if self.key_matches(c, &self.keys.word_forward) {
                    VimAction::MoveWordForward
                } else if self.key_matches(c, &self.keys.word_backward) {
                    VimAction::MoveWordBackward
                } else if self.key_matches(c, &self.keys.line_start) {
                    VimAction::MoveLineStart
                } else if self.key_matches(c, &self.keys.line_end) {
                    VimAction::MoveLineEnd
                } else if self.key_matches(c, &self.keys.file_start) {
                    VimAction::MoveFileStart
                } else if self.key_matches(c, &self.keys.file_end) {
                    VimAction::MoveFileEnd
                } else if self.key_matches(c, &self.keys.delete_line) {
                    VimAction::VisualDelete
                } else if self.key_matches(c, &self.keys.yank) {
                    VimAction::VisualYank
                } else if c == '>' {
                    VimAction::Indent
                } else if c == '<' {
                    VimAction::Dedent
                } else {
                    VimAction::NoOp
                }
            },
            _ => VimAction::NoOp,
        }
    }

    fn handle_search_mode(&mut self, key: KeyEvent) -> (r: VimAction)
        ensures
            r == search_step(key),
            final(self).leader() == old(self).leader(),
            final(self).operator() == old(self).operator(),
            final(self).config() == old(self).config(),
    {
        match key.code {
            KeyCode::Esc => VimAction::ExitToNormal,
            KeyCode::Enter => VimAction::ExitToNormal,
            KeyCode::Backspace => VimAction::Backspace,
            KeyCode::Char(c) => VimAction::InsertChar(c),
            _ => VimAction::NoOp,
        }
    }
}

} // verus!
