//! The abstract key events the engine consumes, and the remappable key
//! binding table the dispatcher resolves them against.

use vstd::prelude::*;

verus! {

/// A key, as the terminal reports it: a printable character or a named key.
#[derive(Debug, Clone, Copy, PartialEq, Eq, Structural)]
pub enum KeyCode {
    Char(char),
    Left,
    Right,
    Up,
    Down,
    Home,
    End,
    Esc,
    Backspace,
    Delete,
    Enter,
    Tab,
    BackTab,
    Other,
}

/// The modifier held with a key, a single flag at a time.
#[allow(non_camel_case_types)]
#[derive(Debug, Clone, Copy, PartialEq, Eq, Structural)]
pub enum KeyModifiers {
    NONE,
    CONTROL,
    SHIFT,
    ALT,
}

/// Whether a modifier set includes `m`: the empty flag is in every set.
pub open spec fn mods_contain(mods: KeyModifiers, m: KeyModifiers) -> bool {
    m == KeyModifiers::NONE || mods == m
}

impl KeyModifiers {
    pub fn contains(self, m: KeyModifiers) -> (r: bool)
        ensures
            r == mods_contain(self, m),
    {
        match m {
            KeyModifiers::NONE => true,
            _ => self == m,
        }
    }
}

/// One key press: a code and the modifier held with it.
#[derive(Debug, Clone, Copy, PartialEq, Eq, Structural)]
pub struct KeyEvent {
    pub code: KeyCode,
    pub modifiers: KeyModifiers,
}

impl KeyEvent {
    pub fn new(code: KeyCode, modifiers: KeyModifiers) -> (r: Self)
        ensures
            r.code == code && r.modifiers == modifiers,
    {
        KeyEvent { code, modifiers }
    }
}

/// The remappable key bindings: each entry a one-character key, or a
/// `ctrl+` chord.
#[derive(Debug, Clone, PartialEq, Eq)]
pub struct KeyboardConfig {
    pub layout: String,
    pub move_left: String,
    pub move_down: String,
    pub move_up: String,
    pub move_right: String,
    pub word_forward: String,
    pub word_backward: String,
    pub line_start: String,
    pub line_end: String,
    pub file_start: String,
    pub file_end: String,
    pub insert: String,
    pub insert_append: String,
    pub insert_line_start: String,
    pub insert_line_end: String,
    pub insert_line_below: String,
    pub insert_line_above: String,
    pub delete_char: String,
    pub delete_line: String,
    pub undo: String,
    pub redo: String,
    pub yank: String,
    pub paste_after: String,
    pub paste_before: String,
    pub visual_mode: String,
    pub search: String,
    pub search_next: String,
    pub search_prev: String,
    pub cycle_theme: String,
    pub leader_process: String,
    pub leader_list: String,
    pub leader_new: String,
    pub leader_quit: String,
}

/// The qwerty defaults, vim-style.
pub open spec fn qwerty_defaults(k: KeyboardConfig) -> bool {
    &&& k.layout@ == seq!['q', 'w', 'e', 'r', 't', 'y']
    &&& k.move_left@ == seq!['h']
    &&& k.move_down@ == seq!['j']
    &&& k.move_up@ == seq!['k']
    &&& k.move_right@ == seq!['l']
    &&& k.word_forward@ == seq!['w']
    &&& k.word_backward@ == seq!['b']
    &&& k.line_start@ == seq!['0']
    &&& k.line_end@ == seq!['$']
    &&& k.file_start@ == seq!['g']
    &&& k.file_end@ == seq!['G']
    &&& k.insert@ == seq!['i']
    &&& k.insert_append@ == seq!['a']
    &&& k.insert_line_start@ == seq!['I']
    &&& k.insert_line_end@ == seq!['A']
    &&& k.insert_line_below@ == seq!['o']
    &&& k.insert_line_above@ == seq!['O']
    &&& k.delete_char@ == seq!['x']
    &&& k.delete_line@ == seq!['d']
    &&& k.undo@ == seq!['u']
    &&& k.redo@ == seq!['c', 't', 'r', 'l', '+', 'r']
    &&& k.yank@ == seq!['y']
    &&& k.paste_after@ == seq!['p']
    &&& k.paste_before@ == seq!['P']
    &&& k.visual_mode@ == seq!['v']
    &&& k.search@ == seq!['/']
    &&& k.search_next@ == seq!['n']
    &&& k.search_prev@ == seq!['N']
    &&& k.cycle_theme@ == seq!['T']
    &&& k.leader_process@ == seq!['s']
    &&& k.leader_list@ == seq!['l']
    &&& k.leader_new@ == seq!['n', 'n']
    &&& k.leader_quit@ == seq!['q']
}

fn string_lit(s: &str) -> (r: String)
    ensures
        r@ == s@,
{
    String::from_str(s)
}

impl Default for KeyboardConfig {
    /// The qwerty binding set.
    fn default() -> (r: Self)
        ensures
            qwerty_defaults(r),
    {
        let r = KeyboardConfig {
            layout: string_lit("qwerty"),
            move_left: string_lit("h"),
            move_down: string_lit("j"),
            move_up: string_lit("k"),
            move_right: string_lit("l"),
            word_forward: string_lit("w"),
            word_backward: string_lit("b"),
            line_start: string_lit("0"),
            line_end: string_lit("$"),
            file_start: string_lit("g"),
            file_end: string_lit("G"),
            insert: string_lit("i"),
            insert_append: string_lit("a"),
            insert_line_start: string_lit("I"),
            insert_line_end: string_lit("A"),
            insert_line_below: string_lit("o"),
            insert_line_above: string_lit("O"),
            delete_char: string_lit("x"),
            delete_line: string_lit("d"),
            undo: string_lit("u"),
            redo: string_lit("ctrl+r"),
            yank: string_lit("y"),
            paste_after: string_lit("p"),
            paste_before: string_lit("P"),
            visual_mode: string_lit("v"),
            search: string_lit("/"),
            search_next: string_lit("n"),
            search_prev: string_lit("N"),
            cycle_theme: string_lit("T"),
            leader_process: string_lit("s"),
            leader_list: string_lit("l"),
            leader_new: string_lit("nn"),
            leader_quit: string_lit("q"),
        };
        proof {
            reveal_strlit("qwerty");
            reveal_strlit("h");
            reveal_strlit("j");
            reveal_strlit("k");
            reveal_strlit("l");
            reveal_strlit("w");
            reveal_strlit("b");
            reveal_strlit("0");
            reveal_strlit("$");
            reveal_strlit("g");
            reveal_strlit("G");
            reveal_strlit("i");
            reveal_strlit("a");
            reveal_strlit("I");
            reveal_strlit("A");
            reveal_strlit("o");
            reveal_strlit("O");
            reveal_strlit("x");
            reveal_strlit("d");
            reveal_strlit("u");
            reveal_strlit("ctrl+r");
            reveal_strlit("y");
            reveal_strlit("p");
            reveal_strlit("P");
            reveal_strlit("v");
            reveal_strlit("/");
            reveal_strlit("n");
            reveal_strlit("N");
            reveal_strlit("T");
            reveal_strlit("s");
            reveal_strlit("nn");
            reveal_strlit("q");
            assert(r.layout@ =~= seq!['q', 'w', 'e', 'r', 't', 'y']);
            assert(r.move_left@ =~= seq!['h']);
            assert(r.move_down@ =~= seq!['j']);
            assert(r.move_up@ =~= seq!['k']);
            assert(r.move_right@ =~= seq!['l']);
            assert(r.word_forward@ =~= seq!['w']);
            assert(r.word_backward@ =~= seq!['b']);
            assert(r.line_start@ =~= seq!['0']);
            assert(r.line_end@ =~= seq!['$']);
            assert(r.file_start@ =~= seq!['g']);
            assert(r.file_end@ =~= seq!['G']);
            assert(r.insert@ =~= seq!['i']);
            assert(r.insert_append@ =~= seq!['a']);
            assert(r.insert_line_start@ =~= seq!['I']);
            assert(r.insert_line_end@ =~= seq!['A']);
            assert(r.insert_line_below@ =~= seq!['o']);
            assert(r.insert_line_above@ =~= seq!['O']);
            assert(r.delete_char@ =~= seq!['x']);
            assert(r.delete_line@ =~= seq!['d']);
            assert(r.undo@ =~= seq!['u']);
            assert(r.redo@ =~= seq!['c', 't', 'r', 'l', '+', 'r']);
            assert(r.yank@ =~= seq!['y']);
            assert(r.paste_after@ =~= seq!['p']);
            assert(r.paste_before@ =~= seq!['P']);
            assert(r.visual_mode@ =~= seq!['v']);
            assert(r.search@ =~= seq!['/']);
            assert(r.search_next@ =~= seq!['n']);
            assert(r.search_prev@ =~= seq!['N']);
            assert(r.cycle_theme@ =~= seq!['T']);
            assert(r.leader_process@ =~= seq!['s']);
            assert(r.leader_list@ =~= seq!['l']);
            assert(r.leader_new@ =~= seq!['n', 'n']);
            assert(r.leader_quit@ =~= seq!['q']);
        }
        r
    }
}

impl KeyboardConfig {
    /// The colemak variant: up and down move to `u` and `e`, undo to `z`.
    pub fn colemak() -> (r: Self)
        ensures
            r.layout@ == seq!['c', 'o', 'l', 'e', 'm', 'a', 'k'],
            r.move_up@ == seq!['u'],
            r.move_down@ == seq!['e'],
            r.undo@ == seq!['z'],
            r.move_left@ == seq!['h'] && r.move_right@ == seq!['l'],
            r.word_forward@ == seq!['w'] && r.word_backward@ == seq!['b'],
            r.delete_line@ == seq!['d'] && r.yank@ == seq!['y'],
    {
        let mut r = KeyboardConfig::default();
        r.layout = string_lit("colemak");
        r.move_up = string_lit("u");
        r.move_down = string_lit("e");
        r.undo = string_lit("z");
        proof {
            reveal_strlit("colemak");
            reveal_strlit("u");
            reveal_strlit("e");
            reveal_strlit("z");
            assert(r.layout@ =~= seq!['c', 'o', 'l', 'e', 'm', 'a', 'k']);
            assert(r.move_up@ =~= seq!['u']);
            assert(r.move_down@ =~= seq!['e']);
            assert(r.undo@ =~= seq!['z']);
        }
        r
    }
}

} // verus!
