//! Plain RGBA color values.
//!
//! A cell of a grid holds an `Option<Color>`: `None` means the cell was never
//! painted (fully transparent, letting lower layers show through), which is
//! distinct from a painted transparent black. Equality is exact comparison of
//! the four components.

use vstd::prelude::*;

verus! {

/// One RGBA color; each channel is an 8-bit integer.
#[derive(Clone, Copy, PartialEq, Eq, Structural, Debug)]
pub struct Color {
    pub r: u8,
    pub g: u8,
    pub b: u8,
    pub a: u8,
}

impl Color {
    pub fn new(r: u8, g: u8, b: u8, a: u8) -> (c: Color)
        ensures
            c == (Color { r, g, b, a }),
    {
        Color { r, g, b, a }
    }
}

} // verus!
