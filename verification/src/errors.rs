//! The closed set of error kinds the engine can report.

use vstd::prelude::*;
use vstd::string::StringExecFns;

verus! {

/// Everything that can go wrong while compiling hotkeys, spawning commands,
/// or reading the input source.
#[derive(Debug)]
pub enum HotkeyError {
    /// A combo named a key that the keycode table does not define;
    /// carries the offending key name.
    UnknownKey(String),
    /// A combo contained no keys at all.
    EmptyCombo,
    /// The OS refused to start a command; carries the OS error text.
    Spawn(String),
    /// The input source failed fatally at setup; carries the OS error text.
    FatalInput(String),
}

impl HotkeyError {
    /// Operator-facing description, naming the rejected value.
    pub fn message(&self) -> (r: String)
        ensures
            match self {
                HotkeyError::UnknownKey(name) => r@ == "undefined keycode: "@ + name@,
                HotkeyError::EmptyCombo => r@ == "no keys defined for hotkey"@,
                HotkeyError::Spawn(text) => r@ == "failed to spawn command: "@ + text@,
                HotkeyError::FatalInput(text) => r@ == "fatal input error: "@ + text@,
            },
    {
        match self {
            HotkeyError::UnknownKey(name) => {
                let mut r = String::from_str("undefined keycode: ");
                r.append(name.as_str());
                r
            },
            HotkeyError::EmptyCombo => String::from_str("no keys defined for hotkey"),
            HotkeyError::Spawn(text) => {
                let mut r = String::from_str("failed to spawn command: ");
                r.append(text.as_str());
                r
            },
            HotkeyError::FatalInput(text) => {
                let mut r = String::from_str("fatal input error: ");
                r.append(text.as_str());
                r
            },
        }
    }
}

} // verus!
