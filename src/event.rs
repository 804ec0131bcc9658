//! Semantic actions and the mapping from raw keys to them.
use vstd::prelude::*;

verus! {

/// Something that wakes the navigation loop: a key press or a timer tick.
pub enum Event<I> {
    Input(I),
    Tick,
}

/// The actions the navigation controller understands.
#[derive(Debug, Clone, Copy, PartialEq, Eq, Structural)]
pub enum Action {
    Quit,
    ToggleSort,
    MoveSelection(isize),
    NavigateIn,
    NavigateOut,
}

/// A raw key as delivered by the terminal, reduced to what the dispatcher reads.
#[derive(Debug, Clone, Copy, PartialEq, Eq, Structural)]
pub enum KeyCode {
    Char(char),
    Up,
    Down,
    Left,
    Right,
    Enter,
    Backspace,
    Other,
}

/// The action bound to a key, if any.
pub open spec fn action_of(key: KeyCode) -> Option<Action> {
    match key {
        KeyCode::Char('q') => Some(Action::Quit),
        KeyCode::Char('s') => Some(Action::ToggleSort),
        KeyCode::Down | KeyCode::Char('j') => Some(Action::MoveSelection(1isize)),
        KeyCode::Up | KeyCode::Char('k') => Some(Action::MoveSelection(-1isize)),
        KeyCode::Right | KeyCode::Enter => Some(Action::NavigateIn),
        KeyCode::Left | KeyCode::Backspace => Some(Action::NavigateOut),
        _ => None,
    }
}

/// Maps a key to its action: `q` quits, `s` toggles the sort order, down/`j`
/// and up/`k` move the selection, right/enter drill in, left/backspace go back.
pub fn handle_key_event(key: KeyCode) -> (r: Option<Action>)
    ensures
        r == action_of(key),
{
    match key {
        KeyCode::Char('q') => Some(Action::Quit),
        KeyCode::Char('s') => Some(Action::ToggleSort),
        KeyCode::Down | KeyCode::Char('j') => Some(Action::MoveSelection(1)),
        KeyCode::Up | KeyCode::Char('k') => Some(Action::MoveSelection(-1)),
        KeyCode::Right | KeyCode::Enter => Some(Action::NavigateIn),
        KeyCode::Left | KeyCode::Backspace => Some(Action::NavigateOut),
        _ => None,
    }
}

} // verus!
