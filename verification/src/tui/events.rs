//! Mapping key presses to high-level UI actions, per interaction mode.

use vstd::prelude::*;

verus! {

/// The interaction mode of the screen.
#[derive(Clone, Copy, Debug, PartialEq, Eq, Structural)]
pub enum Mode {
    /// Browsing the list.
    Normal,
    /// Typing into the filter box.
    Filter,
    /// Awaiting y/n on a pending deletion.
    Confirm,
    /// Help overlay shown.
    Help,
}

/// What the user asked for.
#[derive(Clone, Debug)]
pub enum Action {
    Quit,
    Up,
    Down,
    Top,
    Bottom,
    ToggleSelect,
    SelectAll,
    ClearSelection,
    /// Delete the selected rows, or the focused one when none is selected.
    RequestDelete,
    /// Delete the focused row.
    DeleteFocused,
    ConfirmYes,
    ConfirmNo,
    CycleSort,
    StartFilter,
    FilterInput(char),
    FilterBackspace,
    FilterDone,
    FilterClear,
    ToggleHelp,
    Nothing,
}

/// The key of a key press, as far as the mapping tells keys apart.
#[derive(Clone, Copy, Debug, PartialEq, Eq, Structural)]
pub enum KeyCode {
    Char(char),
    Enter,
    Esc,
    Backspace,
    Up,
    Down,
    Home,
    End,
    Delete,
    /// Any other key.
    Other,
}

/// A key press: the key, and whether Control was held.
#[derive(Clone, Copy, Debug, PartialEq, Eq, Structural)]
pub struct KeyPress {
    pub code: KeyCode,
    pub control: bool,
}

/// The action a key press means in `mode`.
pub open spec fn action_for(mode: Mode, key: KeyPress) -> Action {
    match mode {
        Mode::Confirm => match key.code {
            KeyCode::Char('y') | KeyCode::Char('Y') | KeyCode::Enter => Action::ConfirmYes,
            _ => Action::ConfirmNo,
        },
        Mode::Help => match key.code {
            KeyCode::Char('q') => Action::Quit,
            _ => Action::ToggleHelp,
        },
        Mode::Filter => match key.code {
            KeyCode::Esc => Action::FilterClear,
            KeyCode::Enter => Action::FilterDone,
            KeyCode::Backspace => Action::FilterBackspace,
            KeyCode::Char(c) => Action::FilterInput(c),
            _ => Action::Nothing,
        },
        Mode::Normal => if key.control && key.code == KeyCode::Char('c') {
            Action::Quit
        } else {
            match key.code {
                KeyCode::Char('q') | KeyCode::Esc => Action::Quit,
                KeyCode::Up | KeyCode::Char('k') => Action::Up,
                KeyCode::Down | KeyCode::Char('j') => Action::Down,
                KeyCode::Char('g') | KeyCode::Home => Action::Top,
                KeyCode::Char('G') | KeyCode::End => Action::Bottom,
                KeyCode::Char(' ') => Action::ToggleSelect,
                KeyCode::Char('a') => Action::SelectAll,
                KeyCode::Char('c') => Action::ClearSelection,
                KeyCode::Char('d') | KeyCode::Delete => Action::RequestDelete,
                KeyCode::Enter => Action::DeleteFocused,
                KeyCode::Char('s') => Action::CycleSort,
                KeyCode::Char('/') => Action::StartFilter,
                KeyCode::Char('?') => Action::ToggleHelp,
                _ => Action::Nothing,
            }
        },
    }
}

/// Translate a key press into an [`Action`] given the current [`Mode`].
pub fn map(mode: Mode, key: KeyPress) -> (a: Action)
    ensures
        a == action_for(mode, key),
{
    match mode {
        Mode::Confirm => match key.code {
            KeyCode::Char('y') | KeyCode::Char('Y') | KeyCode::Enter => Action::ConfirmYes,
            _ => Action::ConfirmNo,
        },
        Mode::Help => match key.code {
            KeyCode::Char('q') => Action::Quit,
            _ => Action::ToggleHelp,
        },
        Mode::Filter => match key.code {
            KeyCode::Esc => Action::FilterClear,
            KeyCode::Enter => Action::FilterDone,
            KeyCode::Backspace => Action::FilterBackspace,
            KeyCode::Char(c) => Action::FilterInput(c),
            _ => Action::Nothing,
        },
        Mode::Normal => {
            if key.control && matches!(key.code, KeyCode::Char('c')) {
                return Action::Quit;
            }
            match key.code {
                KeyCode::Char('q') | KeyCode::Esc => Action::Quit,
                KeyCode::Up | KeyCode::Char('k') => Action::Up,
                KeyCode::Down | KeyCode::Char('j') => Action::Down,
                KeyCode::Char('g') | KeyCode::Home => Action::Top,
                KeyCode::Char('G') | KeyCode::End => Action::Bottom,
                KeyCode::Char(' ') => Action::ToggleSelect,
                KeyCode::Char('a') => Action::SelectAll,
                KeyCode::Char('c') => Action::ClearSelection,
                KeyCode::Char('d') | KeyCode::Delete => Action::RequestDelete,
                KeyCode::Enter => Action::DeleteFocused,
                KeyCode::Char('s') => Action::CycleSort,
                KeyCode::Char('/') => Action::StartFilter,
                KeyCode::Char('?') => Action::ToggleHelp,
                _ => Action::Nothing,
            }
        },
    }
}

/// Confirming a deletion is only ever read from a key press while a
/// deletion is awaiting confirmation, and a deletion is only requested while
/// browsing.
pub proof fn lemma_confirm_only_in_confirm_mode(mode: Mode, key: KeyPress)
    ensures
        action_for(mode, key) is ConfirmYes ==> mode == Mode::Confirm,
        action_for(mode, key) is RequestDelete ==> mode == Mode::Normal,
        action_for(mode, key) is DeleteFocused ==> mode == Mode::Normal,
{
}

/// In the help overlay every key but `q` closes the overlay.
pub proof fn lemma_help_closes(key: KeyPress)
    ensures
        key.code != KeyCode::Char('q') ==> action_for(Mode::Help, key) is ToggleHelp,
{
}

} // verus!
