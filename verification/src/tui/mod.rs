//! The terminal interface: its colour themes, and what each input event
//! makes the interface do.

pub mod theme;

use vstd::prelude::*;

verus! {

/// An input event, as far as the interface looks at it.
#[derive(Clone, Copy, Debug, PartialEq, Eq)]
pub enum TuiEvent {
    /// A key that types this character.
    Char(char),
    /// Any other key.
    OtherKey,
    /// Any event that is not a key press (resize, mouse, focus, ...).
    Other,
}

/// What the interface does next.
#[derive(Clone, Copy, Debug, PartialEq, Eq)]
pub enum TuiAction {
    /// Draw the next frame and wait for input again.
    Continue,
    /// Leave the interface.
    Quit,
}

/// The interface's reaction to what a poll returned (`None`: nothing
/// arrived in time): `q` quits, everything else keeps it running.
pub fn next_action(event: Option<TuiEvent>) -> (r: TuiAction)
    ensures
        r == (if event == Some(TuiEvent::Char('q')) {
            TuiAction::Quit
        } else {
            TuiAction::Continue
        }),
{
    match event {
        Some(TuiEvent::Char(c)) => if c == 'q' {
            TuiAction::Quit
        } else {
            TuiAction::Continue
        },
        _ => TuiAction::Continue,
    }
}

} // verus!
