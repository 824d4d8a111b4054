//! The line tool: press at one end, drag, release at the other.

use crate::buffer::{clipped, lemma_overlay_nothing, Guard, GuardedBuffer};
use crate::canvas::Canvas;
use crate::color::{Color, PixelMap};
use crate::tools::stroke::{
    lemma_paint_in_sight, lemma_stamp_in_sight, paint, spot, stamp, stamped, tint,
};
use crate::tools::{in_reach, line_points, plot_line_in_view, Tool};
use crate::widget::Widget;
use vstd::prelude::*;

verus! {

/// The line tool's state: the two ends of the line, and whether it is being drawn.
pub struct Linen {
    origin: (isize, isize),
    mouse: (isize, isize),
    down: bool,
}

impl Linen {
    #[verifier::type_invariant]
    spec fn well_formed(&self) -> bool {
        in_reach(self.origin) && in_reach(self.mouse)
    }

    /// Where the pointer went down.
    pub closed spec fn origin(&self) -> (isize, isize) {
        self.origin
    }

    /// Where the pointer was last seen.
    pub closed spec fn pointer(&self) -> (isize, isize) {
        self.mouse
    }

    /// Whether a line is being drawn.
    pub closed spec fn is_down(&self) -> bool {
        self.down
    }

    /// The colour of the tool's lines: yellow.
    pub open spec fn stroke_color() -> Color {
        Color { r: 0xff, g: 0xff, b: 0x00 }
    }

    /// The positions of the line that the tool holds.
    pub open spec fn marks(&self) -> Set<(int, int)> {
        line_points(spot(self.origin()), spot(self.pointer())).to_set()
    }

    /// An idle tool.
    pub fn new() -> (tool: Self)
        ensures
            tool.origin() == (0isize, 0isize),
            tool.pointer() == (0isize, 0isize),
            !tool.is_down(),
    {
        Self { origin: (0, 0), mouse: (0, 0), down: false }
    }
}

impl Widget for Linen {
    /// While the pointer is down the tool shows the line from where it went
    /// down to where it is; otherwise nothing.
    open spec fn layer(&self) -> PixelMap {
        if self.is_down() {
            tint(self.marks(), Self::stroke_color())
        } else {
            Map::empty()
        }
    }

    fn display<G: Guard>(&self, buffer: &mut GuardedBuffer<'_, '_, G>) {
        proof {
            use_type_invariant(self);
        }
        if !self.down {
            proof {
                assert(clipped(self.layer(), buffer.guard) =~= Map::<(int, int), Color>::empty());
                lemma_overlay_nothing(buffer.frame(), clipped(self.layer(), buffer.guard));
            }
            return ;
        }
        let points = plot_line_in_view(self.origin, self.mouse);
        paint(buffer, &points, Color::new(0xff, 0xff, 0x00));
        proof {
            lemma_paint_in_sight(
                old(buffer).frame(),
                self.marks(),
                Self::stroke_color(),
                old(buffer).guard,
            );
        }
    }
}

impl Tool for Linen {
    /// A press starts a line of a single position.
    closed spec fn on_press(&self, mouse: (isize, isize), pixels: PixelMap) -> (Self, PixelMap) {
        (Linen { origin: mouse, mouse: mouse, down: true }, pixels)
    }

    /// A hold moves the line's far end.
    closed spec fn on_hold(
        &self,
        prev_mouse: (isize, isize),
        curr_mouse: (isize, isize),
        pixels: PixelMap,
    ) -> (Self, PixelMap) {
        (Linen { origin: self.origin, mouse: curr_mouse, down: self.down }, pixels)
    }

    /// A release commits the line from where the pointer went down to where it came up.
    closed spec fn on_release(&self, mouse: (isize, isize), pixels: PixelMap) -> (
        Self,
        PixelMap,
    ) {
        (
            Linen { origin: self.origin, mouse: mouse, down: false },
            stamped(
                pixels,
                line_points(spot(self.origin), spot(mouse)).to_set(),
                Self::stroke_color(),
            ),
        )
    }

    /// The tool's colour is fixed: a pick does not change it.
    open spec fn recolored(&self, outline_color: Color) -> Self {
        *self
    }

    fn handle_press(&mut self, mouse: (isize, isize), canvas: &mut Canvas) {
        proof {
            use_type_invariant(&*self);
        }
        self.down = true;
        self.origin = mouse;
        self.mouse = self.origin;
    }

    fn handle_hold(
        &mut self,
        prev_mouse: (isize, isize),
        curr_mouse: (isize, isize),
        canvas: &mut Canvas,
    ) {
        proof {
            use_type_invariant(&*self);
        }
        self.mouse = curr_mouse;
    }

    fn handle_release(&mut self, mouse: (isize, isize), canvas: &mut Canvas) {
        proof {
            use_type_invariant(&*self);
        }
        self.mouse = mouse;
        self.down = false;

        let points = plot_line_in_view(self.origin, self.mouse);
        stamp(canvas, &points, Color::new(0xff, 0xff, 0x00));
        proof {
            old(canvas).lemma_extent();
            lemma_stamp_in_sight(
                old(canvas)@,
                line_points(spot(self.origin), spot(mouse)).to_set(),
                Self::stroke_color(),
            );
        }
    }

    fn set_outline_color(&mut self, outline_color: Color) {
    }
}

impl Linen {
    /// What each event does to the tool and to the canvas, in terms of what
    /// the tool holds.
    pub proof fn lemma_events(
        &self,
        mouse: (isize, isize),
        prev_mouse: (isize, isize),
        pixels: PixelMap,
    )
        ensures
            self.on_press(mouse, pixels).0.origin() == mouse,
            self.on_press(mouse, pixels).0.pointer() == mouse,
            self.on_press(mouse, pixels).0.is_down(),
            self.on_press(mouse, pixels).1 == pixels,
            self.on_hold(prev_mouse, mouse, pixels).0.origin() == self.origin(),
            self.on_hold(prev_mouse, mouse, pixels).0.pointer() == mouse,
            self.on_hold(prev_mouse, mouse, pixels).0.is_down() == self.is_down(),
            self.on_hold(prev_mouse, mouse, pixels).1 == pixels,
            self.on_release(mouse, pixels).0.origin() == self.origin(),
            self.on_release(mouse, pixels).0.pointer() == mouse,
            !self.on_release(mouse, pixels).0.is_down(),
            self.on_release(mouse, pixels).1 == stamped(
                pixels,
                self.on_release(mouse, pixels).0.marks(),
                Self::stroke_color(),
            ),
    {
    }
}

} // verus!
