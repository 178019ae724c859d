//! The VGA framebuffer geometry.
//!
//! The display driver itself is a register-level collaborator outside
//! this crate; what is decided here is which framebuffer byte each
//! pixel lands on. The platform layer performs the store.

use vstd::prelude::*;

verus! {

/// Physical address of the VGA framebuffer.
pub const VRAM_BASE: usize = 0xa0000;

/// Pixels per framebuffer row.
pub const DISPLAY_WIDTH: usize = 320;

/// Rows in the framebuffer.
pub const DISPLAY_HEIGHT: usize = 200;

/// The framebuffer writer: a base address and row-major pixel layout.
pub struct Display {
    /// First byte of the framebuffer.
    pub vram_base: usize,
}

impl Display {
    /// A writer over the VGA framebuffer.
    pub fn new() -> (d: Display)
        ensures
            d.vram_base == VRAM_BASE,
    {
        Display { vram_base: VRAM_BASE }
    }

    /// The byte the color of pixel `(x, y)` is stored to; it always
    /// lies inside the framebuffer.
    pub fn pixel_address(&self, x: usize, y: usize) -> (a: usize)
        requires
            x < DISPLAY_WIDTH,
            y < DISPLAY_HEIGHT,
            self.vram_base + DISPLAY_WIDTH * DISPLAY_HEIGHT <= usize::MAX,
        ensures
            a == self.vram_base + x + y * DISPLAY_WIDTH,
            self.vram_base <= a < self.vram_base + DISPLAY_WIDTH * DISPLAY_HEIGHT,
    {
        self.vram_base + x + y * DISPLAY_WIDTH
    }
}

} // verus!
