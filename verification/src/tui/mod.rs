//! The terminal screen, as plain data: rows, the model behind them, and what each
//! key does. Drawing is the caller's.
use vstd::prelude::*;

pub mod app;
pub mod diff;
pub mod layout;
pub mod nav;
pub mod picker;
pub mod rows;

verus! {

/// A key.
#[derive(Debug, Clone, Copy, PartialEq, Eq, Structural)]
pub enum KeyCode {
    Char(char),
    Enter,
    Esc,
    Tab,
    Up,
    Down,
    /// A key that means nothing here.
    Other,
}

/// What is held while a key is pressed.
#[derive(Debug, Clone, Copy, PartialEq, Eq, Structural)]
pub enum Modifiers {
    Nothing,
    /// The control key and no other.
    Control,
    /// Any other combination.
    Other,
}

/// A key press.
#[derive(Debug, Clone, Copy, PartialEq, Eq, Structural)]
pub struct KeyEvent {
    pub code: KeyCode,
    pub modifiers: Modifiers,
}

} // verus!
