//! Decisions of the global paste hotkey: which events the keyboard event tap
//! answers, and when no tap is needed at all.
use vstd::prelude::*;

verus! {

/// `kCGEventKeyDown`.
pub const EVENT_KEY_DOWN: u32 = 10;

/// `kCGEventTapDisabledByTimeout`: the system turned the tap off.
pub const TAP_DISABLED: u32 = 0xFFFFFFFE;

/// The modifier flags that a hotkey compares: shift, control, option, command.
pub const MOD_MASK: u64 = 0x1E0000;

/// The command modifier flag.
pub const MOD_CMD: u64 = 0x100000;

/// The virtual key code of `V`.
pub const V_KEY: u16 = 0x09;

/// What the event tap does with an event of a given type.
pub enum TapEvent {
    /// The tap was disabled: enable it again and pass the event on.
    Disabled,
    /// A key press: check it against the hotkey.
    KeyDown,
    /// Anything else: pass it on.
    Other,
}

/// Classifies an event type seen by the tap.
pub fn tap_event(ty: u32) -> (r: TapEvent)
    ensures
        r == (if ty == TAP_DISABLED {
            TapEvent::Disabled
        } else if ty == EVENT_KEY_DOWN {
            TapEvent::KeyDown
        } else {
            TapEvent::Other
        }),
{
    if ty == TAP_DISABLED {
        TapEvent::Disabled
    } else if ty == EVENT_KEY_DOWN {
        TapEvent::KeyDown
    } else {
        TapEvent::Other
    }
}

/// A key press is the hotkey: its modifiers (within `MOD_MASK`) are exactly
/// `mods` and its key code, taken as 16 bits, is `key`. Such a press is
/// swallowed and replaced by Cmd+V.
pub fn is_hotkey_press(flags: u64, keycode: i64, mods: u64, key: u16) -> (r: bool)
    ensures
        r == ((flags & MOD_MASK) == mods && (keycode as u16) == key),
{
    (flags & MOD_MASK) == mods && (keycode as u16) == key
}

/// A tap is needed unless the hotkey already is Cmd+V.
pub fn needs_event_tap(mods: u64, key: u16) -> (r: bool)
    ensures
        r == !(mods == MOD_CMD && key == V_KEY),
{
    !(mods == MOD_CMD && key == V_KEY)
}

} // verus!
