//! Mouse and key events.

use vstd::prelude::*;
use crate::error::ParseError;

pub use crate::parser::parse_event;

verus! {

/// An event reported by the terminal.
#[derive(Debug, PartialEq, Eq, Hash)]
pub enum Event {
    /// A key press.
    Key(Key),
    /// A mouse button press, release or wheel use at specific coordinates.
    Mouse(MouseEvent),
    /// Input that could not be classified, kept byte for byte.
    Unsupported(Vec<u8>),
}

/// What an [`Event`] is, with the raw bytes of an unsupported one as a
/// sequence.
pub enum EventView {
    Key(Key),
    Mouse(MouseEvent),
    Unsupported(Seq<u8>),
}

impl View for Event {
    type V = EventView;

    open spec fn view(&self) -> EventView {
        match *self {
            Event::Key(k) => EventView::Key(k),
            Event::Mouse(m) => EventView::Mouse(m),
            Event::Unsupported(bytes) => EventView::Unsupported(bytes@),
        }
    }
}

impl Clone for Event {
    fn clone(&self) -> (copy: Self)
        ensures
            copy@ == self@,
    {
        match self {
            Event::Key(k) => Event::Key(*k),
            Event::Mouse(m) => Event::Mouse(*m),
            Event::Unsupported(bytes) => Event::Unsupported(bytes.clone()),
        }
    }
}

/// The result of a decoder with its event, if it has one, as a view.
pub open spec fn outcome_view(r: Result<Event, ParseError>) -> Result<EventView, ParseError> {
    match r {
        Ok(event) => Ok(event@),
        Err(e) => Err(e),
    }
}

/// A mouse related event.
///
/// The coordinates are one-based: the upper left cell is `(1, 1)`.
#[derive(Debug, Copy, Clone, PartialEq, Eq, Hash)]
pub enum MouseEvent {
    /// A mouse button was pressed.
    Press(MouseButton, u16, u16),
    /// A mouse button was released.
    Release(u16, u16),
    /// A mouse button is held over the given coordinates.
    Hold(u16, u16),
}

/// A mouse button.
#[derive(Debug, Copy, Clone, PartialEq, Eq, Hash)]
pub enum MouseButton {
    /// The left mouse button.
    Left,
    /// The right mouse button.
    Right,
    /// The middle mouse button.
    Middle,
    /// Mouse wheel is going up.
    WheelUp,
    /// Mouse wheel is going down.
    WheelDown,
}

/// A key.
#[derive(Debug, Copy, Clone, PartialEq, Eq, Hash)]
pub enum Key {
    /// Backspace.
    Backspace,
    /// Left arrow.
    Left,
    /// Right arrow.
    Right,
    /// Up arrow.
    Up,
    /// Down arrow.
    Down,
    /// Home key.
    Home,
    /// End key.
    End,
    /// Page Up key.
    PageUp,
    /// Page Down key.
    PageDown,
    /// Delete key.
    Delete,
    /// Insert key.
    Insert,
    /// Function keys, numbered from 1 to 12.
    F(u8),
    /// Normal character.
    Char(char),
    /// Alt modified character.
    Alt(char),
    /// Ctrl modified character.
    ///
    /// Note that certain keys may not be modifiable with `ctrl`, due to
    /// limitations of terminals.
    Ctrl(char),
    /// Null byte.
    Null,
    /// Esc key.
    Esc,
}

} // verus!
