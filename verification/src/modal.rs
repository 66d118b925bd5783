//! The modal state machine: in each mode (normal, insert, visual) it turns
//! the requests of the user interface into editing actions, and switches
//! modes.

use vstd::prelude::*;
use crate::rpc::RpcRequest;

verus! {

/// The modes of the editor.
pub enum Mode {
    Normal,
    Insert,
    Visual,
}

/// What the editor is to do in response to a request.
pub enum EditorAction {
    /// The mode has changed to the given one.
    ChangeMode(Mode),
    /// Insert the given text at the cursor.
    InsertText(String),
    /// Delete the character before the cursor.
    DeleteBackwards,
    /// Move the cursor left.
    MoveLeft,
    /// Move the cursor right.
    MoveRight,
    /// Quit the editor.
    Quit,
    /// Nothing to do.
    DoNothing,
}

/// The state of the modal state machine: the current mode.
pub struct StateMachine {
    pub current_mode: Mode,
}

/// `ToString::to_string` on a `char`: a string holding just that character.
#[verifier::external_body]
fn char_to_string(c: char) -> (s: String)
    ensures
        s@ == seq![c],
{
    c.to_string()
}

/// The mode after a request handled by normal-mode rules.
pub open spec fn normal_mode_after(mode: Mode, req: RpcRequest) -> Mode {
    match req {
        RpcRequest::Char(c) => if c == 'i' {
            Mode::Insert
        } else if c == 'v' {
            Mode::Visual
        } else {
            mode
        },
        _ => mode,
    }
}

/// The action for a request under normal-mode rules.
pub open spec fn normal_action(req: RpcRequest, action: EditorAction) -> bool {
    match req {
        RpcRequest::Char(c) => if c == 'i' {
            action == EditorAction::ChangeMode(Mode::Insert)
        } else if c == 'v' {
            action == EditorAction::ChangeMode(Mode::Visual)
        } else if c == 'h' {
            action == EditorAction::MoveLeft
        } else if c == 'l' {
            action == EditorAction::MoveRight
        } else {
            action == EditorAction::DoNothing
        },
        RpcRequest::Quit => action == EditorAction::Quit,
        _ => action == EditorAction::DoNothing,
    }
}

/// The mode after a request handled by insert-mode rules.
pub open spec fn insert_mode_after(mode: Mode, req: RpcRequest) -> Mode {
    match req {
        RpcRequest::Esc => Mode::Normal,
        _ => mode,
    }
}

/// The action for a request under insert-mode rules: a typed character or
/// Enter inserts that character.
pub open spec fn insert_action(req: RpcRequest, action: EditorAction) -> bool {
    match req {
        RpcRequest::Esc => action == EditorAction::ChangeMode(Mode::Normal),
        RpcRequest::Char(c) => action matches EditorAction::InsertText(s) && s@ == seq![c],
        RpcRequest::Enter => action matches EditorAction::InsertText(s) && s@ == seq!['\n'],
        RpcRequest::Backspace => action == EditorAction::DeleteBackwards,
        RpcRequest::Quit => action == EditorAction::Quit,
    }
}

/// The mode after a request handled by visual-mode rules.
pub open spec fn visual_mode_after(mode: Mode, req: RpcRequest) -> Mode {
    match req {
        RpcRequest::Esc => Mode::Normal,
        _ => mode,
    }
}

/// The action for a request under visual-mode rules: Escape returns to
/// normal mode, and a quit request quits.
pub open spec fn visual_action(req: RpcRequest, action: EditorAction) -> bool {
    match req {
        RpcRequest::Esc => action == EditorAction::ChangeMode(Mode::Normal),
        RpcRequest::Quit => action == EditorAction::Quit,
        _ => action == EditorAction::DoNothing,
    }
}

/// The mode after a request, by the rules of the current mode.
pub open spec fn mode_after(mode: Mode, req: RpcRequest) -> Mode {
    match mode {
        Mode::Normal => normal_mode_after(mode, req),
        Mode::Insert => insert_mode_after(mode, req),
        Mode::Visual => visual_mode_after(mode, req),
    }
}

/// The action for a request, by the rules of the current mode.
pub open spec fn action_for(mode: Mode, req: RpcRequest, action: EditorAction) -> bool {
    match mode {
        Mode::Normal => normal_action(req, action),
        Mode::Insert => insert_action(req, action),
        Mode::Visual => visual_action(req, action),
    }
}

impl StateMachine {
    /// A state machine in normal mode.
    pub fn new() -> (sm: Self)
        ensures
            sm.current_mode == Mode::Normal,
    {
        Self { current_mode: Mode::Normal }
    }

    /// Handles a request by the rules of the current mode.
    pub fn process_input(&mut self, req: RpcRequest) -> (action: EditorAction)
        ensures
            final(self).current_mode == mode_after(old(self).current_mode, req),
            action_for(old(self).current_mode, req, action),
    {
        match self.current_mode {
            Mode::Normal => self.process_normal(req),
            Mode::Insert => self.process_insert(req),
            Mode::Visual => self.process_visual(req),
        }
    }

    /// Handles a request by normal-mode rules: `i` enters insert mode, `v`
    /// visual mode, `h` and `l` move the cursor, a quit request quits.
    pub fn process_normal(&mut self, req: RpcRequest) -> (action: EditorAction)
        ensures
            final(self).current_mode == normal_mode_after(old(self).current_mode, req),
            normal_action(req, action),
    {
        match req {
            RpcRequest::Char('i') => {
                self.current_mode = Mode::Insert;
                EditorAction::ChangeMode(Mode::Insert)
            },
            RpcRequest::Char('v') => {
                self.current_mode = Mode::Visual;
                EditorAction::ChangeMode(Mode::Visual)
            },
            RpcRequest::Char('h') => EditorAction::MoveLeft,
            RpcRequest::Char('l') => EditorAction::MoveRight,
            RpcRequest::Quit => EditorAction::Quit,
            _ => EditorAction::DoNothing,
        }
    }

    /// Handles a request by insert-mode rules: Escape returns to normal mode,
    /// a character or Enter is inserted, Backspace deletes backwards.
    pub fn process_insert(&mut self, req: RpcRequest) -> (action: EditorAction)
        ensures
            final(self).current_mode == insert_mode_after(old(self).current_mode, req),
            insert_action(req, action),
    {
        match req {
            RpcRequest::Esc => {
                self.current_mode = Mode::Normal;
                EditorAction::ChangeMode(Mode::Normal)
            },
            RpcRequest::Char(c) => EditorAction::InsertText(char_to_string(c)),
            RpcRequest::Enter => EditorAction::InsertText(char_to_string('\n')),
            RpcRequest::Backspace => EditorAction::DeleteBackwards,
            RpcRequest::Quit => EditorAction::Quit,
        }
    }

    /// Handles a request by visual-mode rules: Escape returns to normal mode,
    /// a quit request quits, anything else does nothing.
    pub fn process_visual(&mut self, req: RpcRequest) -> (action: EditorAction)
        ensures
            final(self).current_mode == visual_mode_after(old(self).current_mode, req),
            visual_action(req, action),
    {
        match req {
            RpcRequest::Esc => {
                self.current_mode = Mode::Normal;
                EditorAction::ChangeMode(Mode::Normal)
            },
            RpcRequest::Quit => EditorAction::Quit,
            _ => EditorAction::DoNothing,
        }
    }
}

/// A quit request quits in every mode, and leaves the mode as it is.
pub proof fn law_quit_in_every_mode(mode: Mode, action: EditorAction)
    requires
        action_for(mode, RpcRequest::Quit, action),
    ensures
        action == EditorAction::Quit,
        mode_after(mode, RpcRequest::Quit) == mode,
{
}

/// Escape leads back to normal mode from every mode.
pub proof fn law_escape_returns_to_normal(mode: Mode)
    ensures
        mode_after(mode, RpcRequest::Esc) == Mode::Normal,
{
}

/// Only `i` and `v` leave normal mode, for insert and visual mode; and
/// insert and visual mode are left only by Escape.
pub proof fn law_mode_changes(mode: Mode, req: RpcRequest)
    ensures
        mode == Mode::Normal ==> (mode_after(mode, req) != Mode::Normal <==> (req == RpcRequest::Char('i')
            || req == RpcRequest::Char('v'))),
        mode == Mode::Normal && req == RpcRequest::Char('i') ==> mode_after(mode, req) == Mode::Insert,
        mode == Mode::Normal && req == RpcRequest::Char('v') ==> mode_after(mode, req) == Mode::Visual,
        mode != Mode::Normal ==> (mode_after(mode, req) != mode <==> req == RpcRequest::Esc),
{
}

/// In insert mode every typed character, whatever it is, becomes an
/// insertion of exactly that character, and Enter an insertion of a line
/// feed; Backspace deletes backwards; none of them changes the mode.
pub proof fn law_insert_mode_actions(c: char, action: EditorAction)
    ensures
        action_for(Mode::Insert, RpcRequest::Char(c), action) ==> (action matches EditorAction::InsertText(s)
            && s@ == seq![c]),
        action_for(Mode::Insert, RpcRequest::Enter, action) ==> (action matches EditorAction::InsertText(s)
            && s@ == seq!['\n']),
        action_for(Mode::Insert, RpcRequest::Backspace, action) ==> action == EditorAction::DeleteBackwards,
        action_for(Mode::Insert, RpcRequest::Esc, action) ==> action == EditorAction::ChangeMode(Mode::Normal),
        mode_after(Mode::Insert, RpcRequest::Char(c)) == Mode::Insert,
        mode_after(Mode::Insert, RpcRequest::Enter) == Mode::Insert,
        mode_after(Mode::Insert, RpcRequest::Backspace) == Mode::Insert,
{
}

/// In normal mode `h` and `l` move the cursor, `i` and `v` switch to insert
/// and visual mode, and every other character, Enter, Backspace and Escape
/// do nothing.
pub proof fn law_normal_mode_actions(c: char, action: EditorAction)
    ensures
        action_for(Mode::Normal, RpcRequest::Char('h'), action) ==> action == EditorAction::MoveLeft,
        action_for(Mode::Normal, RpcRequest::Char('l'), action) ==> action == EditorAction::MoveRight,
        action_for(Mode::Normal, RpcRequest::Char('i'), action) ==> action == EditorAction::ChangeMode(Mode::Insert),
        action_for(Mode::Normal, RpcRequest::Char('v'), action) ==> action == EditorAction::ChangeMode(Mode::Visual),
        c != 'h' && c != 'l' && c != 'i' && c != 'v' ==> (action_for(Mode::Normal, RpcRequest::Char(c), action)
            ==> action == EditorAction::DoNothing),
        action_for(Mode::Normal, RpcRequest::Enter, action) ==> action == EditorAction::DoNothing,
        action_for(Mode::Normal, RpcRequest::Backspace, action) ==> action == EditorAction::DoNothing,
        action_for(Mode::Normal, RpcRequest::Esc, action) ==> action == EditorAction::DoNothing,
        c != 'i' && c != 'v' ==> mode_after(Mode::Normal, RpcRequest::Char(c)) == Mode::Normal,
{
}

/// In visual mode Escape returns to normal mode, a quit request quits, and
/// every other request does nothing and keeps the mode.
pub proof fn law_visual_mode_actions(req: RpcRequest, action: EditorAction)
    ensures
        req != RpcRequest::Esc && req != RpcRequest::Quit ==> (action_for(Mode::Visual, req, action) ==> action
            == EditorAction::DoNothing) && mode_after(Mode::Visual, req) == Mode::Visual,
        action_for(Mode::Visual, RpcRequest::Esc, action) ==> action == EditorAction::ChangeMode(Mode::Normal),
{
}

} // verus!
