//! Decisions the hosted workload's hardware callbacks make.
//!
//! The callbacks themselves read ports and write video memory outside
//! this crate; the color quantization and the key decoding they apply
//! are plain functions and live here.

use vstd::prelude::*;

verus! {

/// A joypad key the workload can ask about.
#[derive(Clone, Copy, PartialEq, Eq, Structural, Debug)]
pub enum JoypadKey {
    Right,
    Left,
    Up,
    Down,
    A,
    B,
    Select,
    Start,
}

/// The four-level quantization of a pixel's low byte to the palette
/// colors black, dark gray, light gray and white.
pub open spec fn spec_shade(b: u32) -> u8 {
    let v = b & 0xff;
    if v < 64 {
        0
    } else if v < 128 {
        8
    } else if v < 192 {
        7
    } else {
        15
    }
}

/// Quantizes one pixel value for the framebuffer.
pub fn shade(b: u32) -> (c: u8)
    ensures
        c == spec_shade(b),
{
    proof {
        assert(b & 0xff < 0x100) by (bit_vector);
    }
    let v = b & 0xff;
    if v < 64 {
        0
    } else if v < 128 {
        8
    } else if v < 192 {
        7
    } else {
        15
    }
}

/// The keyboard scancode that stands for each joypad key.
pub open spec fn spec_scancode(key: JoypadKey) -> u8 {
    match key {
        JoypadKey::Right => 0x4d,
        JoypadKey::Left => 0x4b,
        JoypadKey::Up => 0x48,
        JoypadKey::Down => 0x50,
        JoypadKey::A => 0x2c,
        JoypadKey::B => 0x2d,
        JoypadKey::Select => 0x39,
        JoypadKey::Start => 0x1c,
    }
}

/// Looks up a key's scancode.
pub fn scancode(key: JoypadKey) -> (s: u8)
    ensures
        s == spec_scancode(key),
{
    match key {
        JoypadKey::Right => 0x4d,
        JoypadKey::Left => 0x4b,
        JoypadKey::Up => 0x48,
        JoypadKey::Down => 0x50,
        JoypadKey::A => 0x2c,
        JoypadKey::B => 0x2d,
        JoypadKey::Select => 0x39,
        JoypadKey::Start => 0x1c,
    }
}

/// Decides whether a key counts as pressed from the byte the keyboard
/// port returned: exactly when that byte is the key's scancode.
pub fn joypad_pressed_from(key: JoypadKey, read: Option<u8>) -> (r: bool)
    ensures
        r == (read == Some(spec_scancode(key))),
{
    match read {
        Some(s) => s == scancode(key),
        None => false,
    }
}

} // verus!
