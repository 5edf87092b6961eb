//! Input events of Halogen that carry no floating-point data: keys,
//! buttons, modifiers, and the result of handling an event. Pointer, touch,
//! window and axis events carry positions and magnitudes and live with the
//! runtime glue.

use vstd::prelude::*;

verus! {

/// What a widget did with an event.
pub enum EventResult {
    /// Handled; the event goes no further.
    Consumed,
    /// Not handled; the event goes on to the next widget.
    Bubble,
}

/// A mouse button.
pub enum MouseButton {
    Left,
    Right,
    Middle,
    Other(u16),
}

/// A key press, release or repeat.
pub struct KeyboardEvent {
    pub kind: KeyboardEventKind,
    pub key: Key,
    pub modifiers: Modifiers,
}

pub enum KeyboardEventKind {
    Pressed,
    Released,
    Repeated,
}

/// A key, by what it produces or controls.
pub enum Key {
    /// A printable character.
    Char(char),
    Backspace,
    Delete,
    Enter,
    Escape,
    Tab,
    Space,
    Left,
    Right,
    Up,
    Down,
    Home,
    End,
    PageUp,
    PageDown,
    Insert,
    /// A function key, F1 to F24.
    Function(u8),
    /// Any other key, by its raw platform keycode.
    Other(u32),
}

/// Phase of a touch contact.
pub enum TouchEventKind {
    Began,
    Moved,
    Ended,
    Cancelled,
}

/// A gamepad button.
pub enum GamepadButton {
    South,
    North,
    East,
    West,
    LeftBumper,
    RightBumper,
    LeftTrigger,
    RightTrigger,
    LeftStick,
    RightStick,
    DPadUp,
    DPadDown,
    DPadLeft,
    DPadRight,
    Start,
    Select,
    Other(u16),
}

/// A gamepad axis.
pub enum GamepadAxis {
    LeftStickX,
    LeftStickY,
    RightStickX,
    RightStickY,
    LeftTrigger,
    RightTrigger,
}

/// Modifier keys held during an event.
#[derive(Clone, Copy)]
pub struct Modifiers {
    pub shift: bool,
    pub ctrl: bool,
    pub alt: bool,
    /// Cmd on macOS, the Windows key on Windows, Super on Linux.
    pub meta: bool,
}

impl Default for Modifiers {
    /// No modifier held.
    fn default() -> (r: Self)
        ensures
            !r.shift && !r.ctrl && !r.alt && !r.meta,
    {
        Modifiers { shift: false, ctrl: false, alt: false, meta: false }
    }
}

} // verus!
