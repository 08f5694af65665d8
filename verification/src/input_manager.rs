use vstd::prelude::*;

use crate::ui_handles::Direction;

verus! {

/// What a key press asks the window to do.
#[derive(Debug, Clone, Copy, PartialEq, Eq, Structural)]
pub enum InputAction {
    /// Step through the filter's selection.
    FilterNext(Direction),
    /// Give the filter field the focus.
    FocusFilter,
    /// Show or hide the toolbar.
    ToggleToolbar,
    /// Nothing.
    Ignore,
}

/// Decides what a key press does from its first character and whether
/// Control was held: Ctrl+P and Ctrl+N step backward and forward through
/// the filter's selection, Ctrl+F focuses the filter, N alone toggles the toolbar.
pub fn process_input(first: Option<char>, control: bool) -> (action: InputAction)
    ensures
        action == (if first == Some('p') && control {
            InputAction::FilterNext(Direction::Backward)
        } else if first == Some('n') && control {
            InputAction::FilterNext(Direction::Forward)
        } else if first == Some('f') && control {
            InputAction::FocusFilter
        } else if first == Some('n') {
            InputAction::ToggleToolbar
        } else {
            InputAction::Ignore
        }),
{
    match (first, control) {
        (Some('p'), true) => InputAction::FilterNext(Direction::Backward),
        (Some('n'), true) => InputAction::FilterNext(Direction::Forward),
        (Some('f'), true) => InputAction::FocusFilter,
        (Some('n'), _) => InputAction::ToggleToolbar,
        _ => InputAction::Ignore,
    }
}

} // verus!
