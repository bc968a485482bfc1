//! Key presses as the explorer reads them: a key and whether Control or Alt
//! was held.
use vstd::prelude::*;

verus! {

#[derive(Clone, Copy, Debug, PartialEq, Eq)]
pub enum KeyCode {
    Char(char),
    Enter,
    Esc,
    Backspace,
    Tab,
    Up,
    Down,
    Left,
    Right,
    Home,
    End,
    PageUp,
    PageDown,
    /// Any key the explorer does not bind.
    Other,
}

#[derive(Clone, Copy, Debug, PartialEq, Eq)]
pub struct KeyModifiers {
    pub control: bool,
    pub alt: bool,
}

impl KeyModifiers {
    /// No modifier held.
    pub fn none() -> (m: KeyModifiers)
        ensures
            !m.control && !m.alt,
    {
        KeyModifiers { control: false, alt: false }
    }

    /// Control held.
    pub fn control() -> (m: KeyModifiers)
        ensures
            m.control && !m.alt,
    {
        KeyModifiers { control: true, alt: false }
    }
}

#[derive(Clone, Copy, Debug, PartialEq, Eq)]
pub struct KeyEvent {
    pub code: KeyCode,
    pub modifiers: KeyModifiers,
}

impl KeyEvent {
    pub fn new(code: KeyCode, modifiers: KeyModifiers) -> (k: KeyEvent)
        ensures
            k.code == code,
            k.modifiers == modifiers,
    {
        KeyEvent { code, modifiers }
    }
}

/// No Control or Alt held, so a character key types or commands.
pub open spec fn is_plain(key: KeyEvent) -> bool {
    !key.modifiers.control && !key.modifiers.alt
}

} // verus!
