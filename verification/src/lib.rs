//! A small paint program's core: a pixel canvas, drawing tools driven by
//! press / hold / release pointer events, a colour palette, and the
//! rendering of all three into a raw RGBA frame.
//!
//! Positions are screen positions throughout: `x` grows to the right and `y`
//! downwards, and `(0, 0)` is the top-left pixel of the frame.

use vstd::prelude::*;

pub mod app;
pub mod buffer;
pub mod canvas;
pub mod color;
pub mod color_picker;
pub mod tools;
pub mod utils;
pub mod widget;

verus! {

/// Width of the margin around the canvas, in pixels.
pub const BORDER_WIDTH: usize = 1;

/// Height of the palette strip below the canvas, in pixels.
pub const COLOR_PICKER_SIZE: usize = 5;

/// Width of the frame, in pixels.
pub const WIDTH: usize = canvas::CANVAS_WIDTH;

/// Height of the frame, in pixels: the canvas, the palette strip and three margins.
pub const HEIGHT: usize = canvas::CANVAS_HEIGHT + 3 * BORDER_WIDTH + COLOR_PICKER_SIZE;

} // verus!
