//! A bare pencil: it draws a stroke when asked, and keeps nothing.

use crate::canvas::Canvas;
use crate::color::Color;
use crate::tools::stroke::{lemma_stamp_in_sight, spot, stamp, stamped};
use crate::tools::{in_reach, line_points, plot_line_in_view};
use vstd::prelude::*;

verus! {

/// A pencil that draws in red.
pub struct Pencil {}

impl Pencil {
    /// The colour of the pencil's strokes: red.
    pub open spec fn stroke_color() -> Color {
        Color { r: 0xff, g: 0x00, b: 0x00 }
    }

    /// Draws the line from `prev_mouse` to `curr_mouse` on the canvas.
    pub fn handle_click(
        &self,
        prev_mouse: (isize, isize),
        curr_mouse: (isize, isize),
        canvas: &mut Canvas,
    )
        requires
            in_reach(prev_mouse),
            in_reach(curr_mouse),
        ensures
            final(canvas)@ == stamped(
                old(canvas)@,
                line_points(spot(prev_mouse), spot(curr_mouse)).to_set(),
                Self::stroke_color(),
            ),
    {
        let points = plot_line_in_view(prev_mouse, curr_mouse);
        stamp(canvas, &points, Color::new(0xff, 0x00, 0x00));
        proof {
            old(canvas).lemma_extent();
            lemma_stamp_in_sight(
                old(canvas)@,
                line_points(spot(prev_mouse), spot(curr_mouse)).to_set(),
                Self::stroke_color(),
            );
        }
    }
}

} // verus!
