//! The global hotkey Ctrl+Alt+Q that calls the panel up from anywhere. It is
//! registered on a thread of its own (with no window), whose message loop
//! hands every message here to be recognised.
use vstd::prelude::*;

verus! {

/// The hotkey's id; unique within its thread, and easy to spot ('W''D').
pub const HOTKEY_ID: i32 = 0x5744;

/// `MOD_CONTROL | MOD_ALT | MOD_NOREPEAT`: Ctrl+Alt, without auto-repeat.
/// Plain Alt combinations clash with vendor background services.
pub const HOTKEY_MODIFIERS: u32 = 0x4003;

/// The virtual key of Q.
pub const HOTKEY_KEY: u32 = 0x51;

/// The `WM_HOTKEY` message.
pub const WM_HOTKEY: u32 = 0x0312;

/// Whether a message taken from the hotkey thread's queue is our hotkey being
/// pressed. The panel itself decides whether that opens or closes it.
pub fn is_hotkey_press(message: u32, wparam: usize) -> (r: bool)
    ensures
        r == (message == WM_HOTKEY && wparam == HOTKEY_ID as usize),
{
    message == WM_HOTKEY && wparam == 0x5744usize
}

} // verus!
