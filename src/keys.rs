//! The key domain: key codes, key states and key events.

use vstd::prelude::*;

verus! {

/// A physical key, identified by its Linux input key code.
pub type Key = u16;

/// The transition a key event reports.
#[derive(Clone, Copy, Debug, PartialEq, Eq, Structural)]
pub enum KeyState {
    Released,
    Pressed,
    Autorepeat,
    /// A raw event value other than those of the three transitions above.
    Other(i32),
}

impl KeyState {
    /// The raw event value that stands for this state.
    pub open spec fn spec_value(self) -> i32 {
        match self {
            KeyState::Released => 0,
            KeyState::Pressed => 1,
            KeyState::Autorepeat => 2,
            KeyState::Other(value) => value,
        }
    }

    /// The state that a raw event value stands for.
    pub fn from_value(value: i32) -> (r: KeyState)
        ensures
            r.spec_value() == value,
            r is Other <==> !(0 <= value <= 2),
    {
        if value == 0 {
            KeyState::Released
        } else if value == 1 {
            KeyState::Pressed
        } else if value == 2 {
            KeyState::Autorepeat
        } else {
            KeyState::Other(value)
        }
    }

    /// The raw event value of this state.
    pub fn value(self) -> (r: i32)
        ensures
            r == self.spec_value(),
    {
        match self {
            KeyState::Released => 0,
            KeyState::Pressed => 1,
            KeyState::Autorepeat => 2,
            KeyState::Other(value) => value,
        }
    }

    /// Whether the key is held down after this transition.
    pub open spec fn spec_is_down(self) -> bool {
        self is Pressed || self is Autorepeat
    }

    /// Whether the key is held down after this transition.
    #[verifier::when_used_as_spec(spec_is_down)]
    pub fn is_down(self) -> (r: bool)
        ensures
            r == self.spec_is_down(),
    {
        match self {
            KeyState::Pressed | KeyState::Autorepeat => true,
            _ => false,
        }
    }
}

/// One observed transition of one key.
#[derive(Clone, Copy, Debug, PartialEq, Eq, Structural)]
pub struct KeyEvent {
    pub key: Key,
    pub state: KeyState,
}

impl KeyEvent {
    pub fn new(key: Key, state: KeyState) -> (r: KeyEvent)
        ensures
            r == (KeyEvent { key, state }),
    {
        KeyEvent { key, state }
    }
}

} // verus!
