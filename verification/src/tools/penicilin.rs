//! The pencil tool: while the pointer is held down, every move of it is drawn
//! on the canvas at once.

use crate::buffer::{clipped, lemma_overlay_nothing, Guard, GuardedBuffer};
use crate::canvas::Canvas;
use crate::color::{Color, PixelMap};
use crate::tools::stroke::{lemma_stamp_in_sight, spot, stamp, stamped};
use crate::tools::{line_points, plot_line_in_view, Tool};
use crate::widget::Widget;
use vstd::prelude::*;

verus! {

/// The pencil tool. It keeps nothing between events.
#[derive(PartialEq, Eq, Structural)]
pub struct Penicilin {}

impl Penicilin {
    /// The colour of the pencil's strokes: black.
    pub open spec fn stroke_color() -> Color {
        Color { r: 0x00, g: 0x00, b: 0x00 }
    }

    /// The pencil tool.
    pub fn new() -> (tool: Self) {
        Self {  }
    }
}

impl Widget for Penicilin {
    /// The pencil has no preview: what it draws is on the canvas already.
    open spec fn layer(&self) -> PixelMap {
        Map::empty()
    }

    fn display<G: Guard>(&self, buffer: &mut GuardedBuffer<'_, '_, G>) {
        proof {
            assert(clipped(self.layer(), buffer.guard) =~= Map::<(int, int), Color>::empty());
            lemma_overlay_nothing(buffer.frame(), clipped(self.layer(), buffer.guard));
        }
    }
}

impl Tool for Penicilin {
    /// A press draws nothing.
    open spec fn on_press(&self, mouse: (isize, isize), pixels: PixelMap) -> (Self, PixelMap) {
        (*self, pixels)
    }

    /// A hold draws the line from where the pointer was to where it is.
    open spec fn on_hold(
        &self,
        prev_mouse: (isize, isize),
        curr_mouse: (isize, isize),
        pixels: PixelMap,
    ) -> (Self, PixelMap) {
        (
            *self,
            stamped(
                pixels,
                line_points(spot(prev_mouse), spot(curr_mouse)).to_set(),
                Self::stroke_color(),
            ),
        )
    }

    /// A release draws nothing.
    open spec fn on_release(&self, mouse: (isize, isize), pixels: PixelMap) -> (Self, PixelMap) {
        (*self, pixels)
    }

    /// The pencil's colour is fixed: a pick does not change it.
    open spec fn recolored(&self, outline_color: Color) -> Self {
        *self
    }

    fn handle_press(&mut self, mouse: (isize, isize), canvas: &mut Canvas) {
    }

    fn handle_hold(
        &mut self,
        prev_mouse: (isize, isize),
        curr_mouse: (isize, isize),
        canvas: &mut Canvas,
    ) {
        let points = plot_line_in_view(prev_mouse, curr_mouse);
        stamp(canvas, &points, Color::black());
        proof {
            old(canvas).lemma_extent();
            lemma_stamp_in_sight(
                old(canvas)@,
                line_points(spot(prev_mouse), spot(curr_mouse)).to_set(),
                Self::stroke_color(),
            );
        }
    }

    fn handle_release(&mut self, mouse: (isize, isize), canvas: &mut Canvas) {
    }

    fn set_outline_color(&mut self, outline_color: Color) {
    }
}

} // verus!
