//! Key presses as the dashboard sees them, and what it asks its caller to
//! do after one.
use vstd::prelude::*;

verus! {

/// The key that was pressed.
#[derive(PartialEq, Eq, Structural, Clone, Copy, Debug)]
pub enum KeyCode {
    Char(char),
    Up,
    Down,
    Left,
    Right,
    Enter,
    Esc,
    Tab,
    BackTab,
    Backspace,
    Home,
    End,
    PageUp,
    PageDown,
    Other,
}

/// A key press: the key, and whether Control was held.
#[derive(PartialEq, Eq, Structural, Clone, Copy, Debug)]
pub struct KeyInput {
    pub code: KeyCode,
    pub ctrl: bool,
}

/// What the caller does after a key press.
#[derive(Debug)]
pub enum KeyAction {
    /// Keep running.
    Continue,
    /// Leave the dashboard.
    Quit,
    /// Fetch the tasks again.
    Refresh,
    /// Open the task with this id in the task editor.
    EditTask(String),
    /// Show the task with this id and open it in the task editor.
    OpenInEditor(String),
}

pub enum ActionView {
    Continue,
    Quit,
    Refresh,
    EditTask(Seq<char>),
    OpenInEditor(Seq<char>),
}

impl View for KeyAction {
    type V = ActionView;

    open spec fn view(&self) -> ActionView {
        match self {
            KeyAction::Continue => ActionView::Continue,
            KeyAction::Quit => ActionView::Quit,
            KeyAction::Refresh => ActionView::Refresh,
            KeyAction::EditTask(id) => ActionView::EditTask(id@),
            KeyAction::OpenInEditor(id) => ActionView::OpenInEditor(id@),
        }
    }
}

} // verus!
