//! The rectangle tool: press at one corner, drag, release at the opposite one.

use crate::buffer::{clipped, lemma_overlay_nothing, Guard, GuardedBuffer};
use crate::canvas::Canvas;
use crate::color::{Color, PixelMap};
use crate::tools::stroke::{
    alike_in_view, all_in_view, in_sight, lemma_in_sight, lemma_paint_in_sight,
    lemma_stamp_in_sight, note, paint, spot, spots, stamp, stamped, tint,
};
use crate::tools::{in_reach, Tool};
use crate::utils::{greater, lesser, range_inclusive};
use crate::widget::Widget;
use vstd::prelude::*;

verus! {

/// The positions of the outline of the upright box with corners `a` and `b`:
/// its top and bottom rows and its left and right columns, none of its inside.
pub open spec fn rect_outline(a: (int, int), b: (int, int)) -> Set<(int, int)> {
    Set::new(
        |at: (int, int)|
            {
                ||| lesser(a.0, b.0) <= at.0 <= greater(a.0, b.0) && (at.1 == a.1 || at.1 == b.1)
                ||| lesser(a.1, b.1) <= at.1 <= greater(a.1, b.1) && (at.0 == a.0 || at.0 == b.0)
            },
    )
}

/// An outline is hollow: it holds the positions on the box's edges, and none
/// strictly inside the box.
pub proof fn lemma_outline_hollow(a: (int, int), b: (int, int), at: (int, int))
    ensures
        lesser(a.0, b.0) < at.0 < greater(a.0, b.0) && lesser(a.1, b.1) < at.1 < greater(a.1, b.1)
            ==> !rect_outline(a, b).contains(at),
        lesser(a.0, b.0) <= at.0 <= greater(a.0, b.0) && (at.1 == lesser(a.1, b.1) || at.1
            == greater(a.1, b.1)) ==> rect_outline(a, b).contains(at),
        lesser(a.1, b.1) <= at.1 <= greater(a.1, b.1) && (at.0 == lesser(a.0, b.0) || at.0
            == greater(a.0, b.0)) ==> rect_outline(a, b).contains(at),
        rect_outline(a, b).contains(at) ==> lesser(a.0, b.0) <= at.0 <= greater(a.0, b.0)
            && lesser(a.1, b.1) <= at.1 <= greater(a.1, b.1),
{
}

/// Lists the positions in view of the outline of the box with corners `a` and
/// `b`: first of its two rows, column by column, then of its two columns, row
/// by row.
pub(crate) fn outline(a: (isize, isize), b: (isize, isize)) -> (points: Vec<(isize, isize)>)
    requires
        in_reach(a),
        in_reach(b),
    ensures
        spots(points@).to_set() == in_sight(rect_outline(spot(a), spot(b))),
{
    let mut points: Vec<(isize, isize)> = Vec::new();
    let columns = range_inclusive(a.0, b.0);
    let left = *columns.start();
    let right = *columns.end();
    let rows = range_inclusive(a.1, b.1);
    let top = *rows.start();
    let bottom = *rows.end();
    assert(spots(points@).to_set() =~= Set::<(int, int)>::empty());

    let mut x = left;
    while x <= right
        invariant
            in_reach(a),
            in_reach(b),
            left == lesser(a.0 as int, b.0 as int),
            right == greater(a.0 as int, b.0 as int),
            left <= x <= right + 1,
            all_in_view(points@),
            alike_in_view(
                spots(points@).to_set(),
                Set::new(|at: (int, int)| left <= at.0 < x && (at.1 == a.1 || at.1 == b.1)),
            ),
        decreases right + 1 - x,
    {
        note(&mut points, (x, a.1));
        note(&mut points, (x, b.1));
        x += 1;
    }

    let mut y = top;
    while y <= bottom
        invariant
            in_reach(a),
            in_reach(b),
            left == lesser(a.0 as int, b.0 as int),
            right == greater(a.0 as int, b.0 as int),
            top == lesser(a.1 as int, b.1 as int),
            bottom == greater(a.1 as int, b.1 as int),
            top <= y <= bottom + 1,
            all_in_view(points@),
            alike_in_view(
                spots(points@).to_set(),
                Set::new(
                    |at: (int, int)|
                        {
                            ||| left <= at.0 <= right && (at.1 == a.1 || at.1 == b.1)
                            ||| top <= at.1 < y && (at.0 == a.0 || at.0 == b.0)
                        },
                ),
            ),
        decreases bottom + 1 - y,
    {
        note(&mut points, (a.0, y));
        note(&mut points, (b.0, y));
        y += 1;
    }
    proof {
        lemma_in_sight(points@, rect_outline(spot(a), spot(b)));
    }
    points
}

/// The rectangle tool's state: two opposite corners of the box, whether it is
/// being drawn, and the colour of its outline.
pub struct Rectangel {
    origin: (isize, isize),
    mouse: (isize, isize),
    down: bool,
    outline_color: Color,
}

impl Rectangel {
    #[verifier::type_invariant]
    spec fn well_formed(&self) -> bool {
        in_reach(self.origin) && in_reach(self.mouse)
    }

    /// Where the pointer went down: one corner of the box.
    pub closed spec fn origin(&self) -> (isize, isize) {
        self.origin
    }

    /// Where the pointer was last seen: the opposite corner.
    pub closed spec fn pointer(&self) -> (isize, isize) {
        self.mouse
    }

    /// Whether a box is being drawn.
    pub closed spec fn is_down(&self) -> bool {
        self.down
    }

    /// The colour of the tool's outlines.
    pub closed spec fn outline_color(&self) -> Color {
        self.outline_color
    }

    /// The positions of the outline that the tool holds.
    pub open spec fn marks(&self) -> Set<(int, int)> {
        rect_outline(spot(self.origin()), spot(self.pointer()))
    }

    /// An idle tool that draws in black.
    pub fn new() -> (tool: Self)
        ensures
            tool.origin() == (0isize, 0isize),
            tool.pointer() == (0isize, 0isize),
            !tool.is_down(),
            tool.outline_color() == (Color { r: 0x00, g: 0x00, b: 0x00 }),
    {
        Self { origin: (0, 0), mouse: (0, 0), down: false, outline_color: Color::black() }
    }
}

impl Widget for Rectangel {
    /// While the pointer is down the tool shows the outline of the box between
    /// where it went down and where it is; otherwise nothing.
    open spec fn layer(&self) -> PixelMap {
        if self.is_down() {
            tint(self.marks(), self.outline_color())
        } else {
            Map::empty()
        }
    }

    fn display<G: Guard>(&self, buffer: &mut GuardedBuffer<'_, '_, G>) {
        proof {
            use_type_invariant(self);
        }
        if !self.down {
            proof {
                assert(clipped(self.layer(), buffer.guard) =~= Map::<(int, int), Color>::empty());
                lemma_overlay_nothing(buffer.frame(), clipped(self.layer(), buffer.guard));
            }
            return ;
        }
        let points = outline(self.origin, self.mouse);
        paint(buffer, &points, self.outline_color);
        proof {
            lemma_paint_in_sight(
                old(buffer).frame(),
                self.marks(),
                self.outline_color,
                old(buffer).guard,
            );
        }
    }
}

impl Tool for Rectangel {
    /// A press starts a box of a single position.
    closed spec fn on_press(&self, mouse: (isize, isize), pixels: PixelMap) -> (Self, PixelMap) {
        (
            Rectangel { origin: mouse, mouse: mouse, down: true, outline_color: self.outline_color },
            pixels,
        )
    }

    /// A hold moves the box's far corner.
    closed spec fn on_hold(
        &self,
        prev_mouse: (isize, isize),
        curr_mouse: (isize, isize),
        pixels: PixelMap,
    ) -> (Self, PixelMap) {
        (
            Rectangel {
                origin: self.origin,
                mouse: curr_mouse,
                down: self.down,
                outline_color: self.outline_color,
            },
            pixels,
        )
    }

    /// A release commits the outline of the box between where the pointer went
    /// down and where it came up.
    closed spec fn on_release(&self, mouse: (isize, isize), pixels: PixelMap) -> (
        Self,
        PixelMap,
    ) {
        (
            Rectangel {
                origin: self.origin,
                mouse: mouse,
                down: false,
                outline_color: self.outline_color,
            },
            stamped(pixels, rect_outline(spot(self.origin), spot(mouse)), self.outline_color),
        )
    }

    closed spec fn recolored(&self, outline_color: Color) -> Self {
        Rectangel {
            origin: self.origin,
            mouse: self.mouse,
            down: self.down,
            outline_color: outline_color,
        }
    }

    fn handle_press(&mut self, mouse: (isize, isize), canvas: &mut Canvas) {
        proof {
            use_type_invariant(&*self);
        }
        self.down = true;
        self.origin = mouse;
        self.mouse = self.origin;
    }

    fn handle_hold(
        &mut self,
        prev_mouse: (isize, isize),
        curr_mouse: (isize, isize),
        canvas: &mut Canvas,
    ) {
        proof {
            use_type_invariant(&*self);
        }
        self.mouse = curr_mouse;
    }

    fn handle_release(&mut self, mouse: (isize, isize), canvas: &mut Canvas) {
        proof {
            use_type_invariant(&*self);
        }
        self.mouse = mouse;
        self.down = false;

        let points = outline(self.origin, self.mouse);
        stamp(canvas, &points, self.outline_color);
        proof {
            old(canvas).lemma_extent();
            lemma_stamp_in_sight(
                old(canvas)@,
                rect_outline(spot(self.origin), spot(mouse)),
                self.outline_color,
            );
        }
    }

    fn set_outline_color(&mut self, outline_color: Color) {
        proof {
            use_type_invariant(&*self);
        }
        self.outline_color = outline_color;
    }
}

impl Rectangel {
    /// A drag commits one box: after a press at `corner`, any hold, and a
    /// release at `opposite`, the canvas is the one before the press with the
    /// outline of the box between `corner` and `opposite` in the tool's
    /// colour, and the tool is idle.
    pub proof fn lemma_drag(
        &self,
        corner: (isize, isize),
        prev_mouse: (isize, isize),
        curr_mouse: (isize, isize),
        opposite: (isize, isize),
        pixels: PixelMap,
    )
        ensures
            ({
                let (down, first) = self.on_press(corner, pixels);
                let (dragged, second) = down.on_hold(prev_mouse, curr_mouse, first);
                let (up, last) = dragged.on_release(opposite, second);
                &&& down.is_down()
                &&& dragged.is_down()
                &&& !up.is_down()
                &&& down.layer() == tint(rect_outline(spot(corner), spot(corner)), self.outline_color())
                &&& dragged.layer() == tint(
                    rect_outline(spot(corner), spot(curr_mouse)),
                    self.outline_color(),
                )
                &&& up.layer() == Map::<(int, int), Color>::empty()
                &&& first == pixels
                &&& second == pixels
                &&& last == stamped(
                    pixels,
                    rect_outline(spot(corner), spot(opposite)),
                    self.outline_color(),
                )
            }),
    {
    }

    /// What each event does to the tool and to the canvas, in terms of what
    /// the tool holds.
    pub proof fn lemma_events(
        &self,
        mouse: (isize, isize),
        prev_mouse: (isize, isize),
        color: Color,
        pixels: PixelMap,
    )
        ensures
            self.on_press(mouse, pixels).0.origin() == mouse,
            self.on_press(mouse, pixels).0.pointer() == mouse,
            self.on_press(mouse, pixels).0.is_down(),
            self.on_press(mouse, pixels).0.outline_color() == self.outline_color(),
            self.on_press(mouse, pixels).1 == pixels,
            self.on_hold(prev_mouse, mouse, pixels).0.origin() == self.origin(),
            self.on_hold(prev_mouse, mouse, pixels).0.pointer() == mouse,
            self.on_hold(prev_mouse, mouse, pixels).0.is_down() == self.is_down(),
            self.on_hold(prev_mouse, mouse, pixels).0.outline_color() == self.outline_color(),
            self.on_hold(prev_mouse, mouse, pixels).1 == pixels,
            self.on_release(mouse, pixels).0.origin() == self.origin(),
            self.on_release(mouse, pixels).0.pointer() == mouse,
            !self.on_release(mouse, pixels).0.is_down(),
            self.on_release(mouse, pixels).0.outline_color() == self.outline_color(),
            self.on_release(mouse, pixels).1 == stamped(
                pixels,
                self.on_release(mouse, pixels).0.marks(),
                self.outline_color(),
            ),
            self.recolored(color).origin() == self.origin(),
            self.recolored(color).pointer() == self.pointer(),
            self.recolored(color).is_down() == self.is_down(),
            self.recolored(color).outline_color() == color,
    {
    }
}

} // verus!
