use bootmem::display::{Display, DISPLAY_HEIGHT, DISPLAY_WIDTH, VRAM_BASE};
use bootmem::workload::{joypad_pressed_from, scancode, shade, JoypadKey};

#[test]
fn display_starts_at_vga_base() {
    let d = Display::new();
    assert_eq!(d.vram_base, 0xa0000);
    assert_eq!(VRAM_BASE, 0xa0000);
}

#[test]
fn pixel_addresses_walk_rows() {
    let d = Display::new();
    assert_eq!(d.pixel_address(0, 0), 0xa0000);
    assert_eq!(d.pixel_address(1, 0), 0xa0001);
    assert_eq!(d.pixel_address(0, 1), 0xa0000 + 320);
    assert_eq!(
        d.pixel_address(DISPLAY_WIDTH - 1, DISPLAY_HEIGHT - 1),
        0xa0000 + 320 * 200 - 1
    );
}

#[test]
fn shade_quantizes_to_four_levels() {
    assert_eq!(shade(0), 0);
    assert_eq!(shade(63), 0);
    assert_eq!(shade(64), 8);
    assert_eq!(shade(127), 8);
    assert_eq!(shade(128), 7);
    assert_eq!(shade(191), 7);
    assert_eq!(shade(192), 15);
    assert_eq!(shade(255), 15);
    // Only the low byte of the pixel matters.
    assert_eq!(shade(0x1ff), 15);
    assert_eq!(shade(0xab00), 0);
}

#[test]
fn scancodes_match_the_layout() {
    assert_eq!(scancode(JoypadKey::Right), 0x4d);
    assert_eq!(scancode(JoypadKey::Left), 0x4b);
    assert_eq!(scancode(JoypadKey::Up), 0x48);
    assert_eq!(scancode(JoypadKey::Down), 0x50);
    assert_eq!(scancode(JoypadKey::A), 0x2c);
    assert_eq!(scancode(JoypadKey::B), 0x2d);
    assert_eq!(scancode(JoypadKey::Select), 0x39);
    assert_eq!(scancode(JoypadKey::Start), 0x1c);
}

#[test]
fn joypad_is_pressed_only_on_its_own_scancode() {
    assert!(joypad_pressed_from(JoypadKey::A, Some(0x2c)));
    assert!(!joypad_pressed_from(JoypadKey::A, Some(0x2d)));
    assert!(!joypad_pressed_from(JoypadKey::A, None));
    assert!(joypad_pressed_from(JoypadKey::Start, Some(0x1c)));
}
