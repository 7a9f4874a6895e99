//! Pointer-event data as the editor surface reports it: a button code
//! and a canvas position.

use vstd::prelude::*;

verus! {

/// A mouse button, decoded from the host's integer code.
#[derive(Clone, Copy, Debug, PartialEq, Eq, Structural)]
pub enum MouseButton {
    NoButton,
    Left,
    Middle,
    Right,
    X1,
    X2,
    Other(u8),
}

/// A pointer event on the editor canvas.
pub struct MouseEvent {
    pub x: u32,
    pub y: u32,
    pub button: MouseButton,
}

impl MouseButton {
    /// Decode the host's button code: the mapping the editor binding
    /// applies, any unknown code carried through as `Other`.
    pub fn from_code(code: i64) -> (r: MouseButton)
        ensures
            code == 0 ==> r == MouseButton::NoButton,
            code == 1 ==> r == MouseButton::Left,
            code == 2 ==> r == MouseButton::Right,
            code == 3 ==> r == MouseButton::Middle,
            code == 4 ==> r == MouseButton::X1,
            code == 5 ==> r == MouseButton::X2,
            !(0 <= code <= 5) ==> r == MouseButton::Other(code as u8),
    {
        match code {
            0 => MouseButton::NoButton,
            1 => MouseButton::Left,
            2 => MouseButton::Right,
            3 => MouseButton::Middle,
            4 => MouseButton::X1,
            5 => MouseButton::X2,
            _ => MouseButton::Other(code as u8),
        }
    }
}

} // verus!
