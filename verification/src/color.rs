//! Opaque RGB colours, and the partial pixel maps that contracts are stated over.

use vstd::prelude::*;

verus! {

/// An opaque colour: red, green and blue, one byte each.
#[derive(Clone, Copy, PartialEq, Eq, Structural, Debug)]
pub struct Color {
    pub r: u8,
    pub g: u8,
    pub b: u8,
}

/// Colours by screen position `(x, y)`: the model of a canvas, and of whatever a
/// widget puts on the screen.
pub type PixelMap = Map<(int, int), Color>;

impl Color {
    /// The colour with the given red, green and blue.
    pub fn new(r: u8, g: u8, b: u8) -> (color: Self)
        ensures
            color == (Color { r, g, b }),
    {
        Self { r, g, b }
    }

    /// White: every channel full.
    pub fn white() -> (color: Self)
        ensures
            color == (Color { r: 0xff, g: 0xff, b: 0xff }),
    {
        Self { r: 0xff, g: 0xff, b: 0xff }
    }

    /// Black: every channel empty.
    pub fn black() -> (color: Self)
        ensures
            color == (Color { r: 0x00, g: 0x00, b: 0x00 }),
    {
        Self { r: 0x00, g: 0x00, b: 0x00 }
    }
}

/// A colour from its red, green and blue, in this order.
impl From<(u8, u8, u8)> for Color {
    fn from(rgb: (u8, u8, u8)) -> (color: Self) {
        Self { r: rgb.0, g: rgb.1, b: rgb.2 }
    }
}

impl vstd::std_specs::convert::FromSpecImpl<(u8, u8, u8)> for Color {
    open spec fn obeys_from_spec() -> bool {
        true
    }

    open spec fn from_spec(rgb: (u8, u8, u8)) -> Self {
        Color { r: rgb.0, g: rgb.1, b: rgb.2 }
    }
}

} // verus!
