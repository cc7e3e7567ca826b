//! Events of input devices and the PS/2 mouse packet decoder.

use vstd::prelude::*;
use crate::storage::Error;

verus! {

/// A device that reports key, button and axis events.
pub trait InputDevice {
    fn read(&self) -> Result<InputEvent, Error>;
}

/// One event of an input device.
#[allow(inconsistent_fields)]
#[derive(Clone, Copy, Debug, PartialEq, Eq, Structural)]
pub enum InputEvent {
    /// A key or button went down (`value` true) or up.
    Key { key: Key, value: bool },
    /// Relative movement along an axis.
    Rel { axis: Axis, value: i16 },
    /// Absolute position on an axis.
    Abs { axis: Axis, value: u16 },
}

/// Keys and buttons, named after their place on a US keyboard.
#[derive(Clone, Copy, Debug, PartialEq, Eq, Structural)]
pub enum Key {
    Backquote,
    Backslash,
    BracketLeft,
    BracketRight,
    Comma,
    Digit0,
    Digit1,
    Digit2,
    Digit3,
    Digit4,
    Digit5,
    Digit6,
    Digit7,
    Digit8,
    Digit9,
    Equal,
    IntlBackslash,
    IntlRo,
    IntlYen,
    KeyA,
    KeyB,
    KeyC,
    KeyD,
    KeyE,
    KeyF,
    KeyG,
    KeyH,
    KeyI,
    KeyJ,
    KeyK,
    KeyL,
    KeyM,
    KeyN,
    KeyO,
    KeyP,
    KeyQ,
    KeyR,
    KeyS,
    KeyT,
    KeyU,
    KeyV,
    KeyW,
    KeyX,
    KeyY,
    KeyZ,
    Minus,
    Period,
    Quote,
    Semicolon,
    Slash,
    AltLeft,
    AltRight,
    Backspace,
    CapsLock,
    ContextMenu,
    ControlLeft,
    ControlRight,
    Enter,
    SuperLeft,
    SuperRight,
    ShiftLeft,
    ShiftRight,
    Space,
    Tab,
    Convert,
    KanaMode,
    Lang1,
    Lang2,
    Lang3,
    Lang4,
    Lang5,
    NonConvert,
    Delete,
    End,
    Help,
    Home,
    Insert,
    PageDown,
    PageUp,
    ArrowDown,
    ArrowLeft,
    ArrowRight,
    ArrowUp,
    NumLock,
    Numpad0,
    Numpad1,
    Numpad2,
    Numpad3,
    Numpad4,
    Numpad5,
    Numpad6,
    Numpad7,
    Numpad8,
    Numpad9,
    NumpadAdd,
    NumpadBackspace,
    NumpadClear,
    NumpadClearEntry,
    NumpadComma,
    NumpadDecimal,
    NumpadDivide,
    NumpadEnter,
    NumpadEqual,
    NumpadHash,
    NumpadMemoryAdd,
    NumpadMemoryClear,
    NumpadMemoryRecall,
    NumpadMemoryStore,
    NumpadMemorySubtract,
    NumpadMultiply,
    NumpadParenLeft,
    NumpadParenRight,
    NumpadStar,
    NumpadSubtract,
    Escape,
    F1,
    F2,
    F3,
    F4,
    F5,
    F6,
    F7,
    F8,
    F9,
    F10,
    F11,
    F12,
    Fn,
    FnLock,
    PrintScreen,
    ScrollLock,
    Pause,
    BrowserBack,
    BrowserFavorites,
    BrowserForward,
    BrowserHome,
    BrowserRefresh,
    BrowserSearch,
    BrowserStop,
    Eject,
    LaunchApp1,
    LaunchApp2,
    LaunchMail,
    MediaPlayPause,
    MediaSelect,
    MediaStop,
    MediaTrackNext,
    MediaTrackPrevious,
    Power,
    Sleep,
    AudioVolumeDown,
    AudioVolumeMute,
    AudioVolumeUp,
    WakeUp,
    Hyper,
    Super,
    Turbo,
    Abort,
    Resume,
    Suspend,
    Again,
    Copy,
    Cut,
    Find,
    Open,
    Paste,
    Props,
    Select,
    Undo,
    Hiragana,
    Katakana,
    MouseLeft,
    MouseMiddle,
    MouseRight,
    GamepadA,
    GamepadB,
    GamepadX,
    GamepadY,
    GamepadTop,
    GamepadBottom,
    GamepadLeft,
    GamepadRight,
    GamepadL1,
    GamepadR1,
    GamepadL2,
    GamepadR2,
    GamepadThumbL,
    GamepadThumbR,
    Unidentified,
}

/// Axes of pointing devices and gamepads.
#[derive(Clone, Copy, Debug, PartialEq, Eq, Structural)]
pub enum Axis {
    X,
    Y,
    Z,
    GamepadXL,
    GamepadXR,
    GamepadYL,
    GamepadYR,
    Unidentified,
}

/// Whether the bit of `b` with value `weight` (a power of two) is set.
pub open spec fn bit(b: u8, weight: int) -> bool {
    (b as int / weight) % 2 == 1
}

/// Movement `v` along an axis, negated where the packet's sign bit is set.
pub open spec fn signed_move(v: u8, negative: bool) -> i16 {
    if negative {
        -(v as int) as i16
    } else {
        v as i16
    }
}

/// `s` with `e` appended where `c` holds.
pub open spec fn push_if(s: Seq<InputEvent>, c: bool, e: InputEvent) -> Seq<InputEvent> {
    if c {
        s.push(e)
    } else {
        s
    }
}

/// A press of key `k`.
pub open spec fn press(k: Key) -> InputEvent {
    InputEvent::Key { key: k, value: true }
}

/// The events a PS/2 mouse packet reports, in order: a press of each button
/// whose bit is set in `flags` (left, middle, right), the movement along X
/// and Y (negated where the sign bits 4 and 5 of `flags` are set) and along
/// the wheel, then a press of the back and forward buttons whose bits (4 and
/// 5) are set in the wheel byte.
pub open spec fn mouse_events(flags: u8, rel_x: u8, rel_y: u8, rel_z: u8) -> Seq<InputEvent> {
    let buttons = push_if(
        push_if(push_if(seq![], bit(flags, 1), press(Key::MouseLeft)), bit(flags, 2), press(Key::MouseMiddle)),
        bit(flags, 4),
        press(Key::MouseRight),
    );
    let moves = buttons.push(InputEvent::Rel { axis: Axis::X, value: signed_move(rel_x, bit(flags, 16)) }).push(
        InputEvent::Rel { axis: Axis::Y, value: signed_move(rel_y, bit(flags, 32)) },
    ).push(InputEvent::Rel { axis: Axis::Z, value: rel_z as i16 });
    push_if(push_if(moves, bit(rel_z, 16), press(Key::BrowserBack)), bit(rel_z, 32), press(Key::BrowserForward))
}

/// A PS/2 keyboard.
pub struct PS2Keyboard {}

/// A PS/2 mouse.
pub struct PS2Mouse {}

impl PS2Mouse {
    /// The events that one packet of a PS/2 mouse reports.
    pub fn decode(flags: u8, rel_x: u8, rel_y: u8, rel_z: u8) -> (r: Vec<InputEvent>)
        ensures
            r@ == mouse_events(flags, rel_x, rel_y, rel_z),
    {
        let mut r: Vec<InputEvent> = Vec::new();
        if flags % 2 == 1 {
            r.push(InputEvent::Key { key: Key::MouseLeft, value: true });
        }
        if (flags / 2) % 2 == 1 {
            r.push(InputEvent::Key { key: Key::MouseMiddle, value: true });
        }
        if (flags / 4) % 2 == 1 {
            r.push(InputEvent::Key { key: Key::MouseRight, value: true });
        }
        let x: i16 = if (flags / 16) % 2 == 1 {
            -(rel_x as i16)
        } else {
            rel_x as i16
        };
        let y: i16 = if (flags / 32) % 2 == 1 {
            -(rel_y as i16)
        } else {
            rel_y as i16
        };
        r.push(InputEvent::Rel { axis: Axis::X, value: x });
        r.push(InputEvent::Rel { axis: Axis::Y, value: y });
        r.push(InputEvent::Rel { axis: Axis::Z, value: rel_z as i16 });
        if (rel_z / 16) % 2 == 1 {
            r.push(InputEvent::Key { key: Key::BrowserBack, value: true });
        }
        if (rel_z / 32) % 2 == 1 {
            r.push(InputEvent::Key { key: Key::BrowserForward, value: true });
        }
        r
    }
}

impl InputDevice for PS2Keyboard {
    /// No controller is attached to read scan codes from.
    fn read(&self) -> (r: Result<InputEvent, Error>)
        ensures
            r == Err::<InputEvent, Error>(Error::Unimplemented),
    {
        Err(Error::Unimplemented)
    }
}

impl InputDevice for PS2Mouse {
    /// No controller is attached to read packets from.
    fn read(&self) -> (r: Result<InputEvent, Error>)
        ensures
            r == Err::<InputEvent, Error>(Error::Unimplemented),
    {
        Err(Error::Unimplemented)
    }
}

} // verus!
