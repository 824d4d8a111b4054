//! The circle tool: press at the centre, drag, release on the rim.

use crate::buffer::{clipped, lemma_overlay_nothing, Guard, GuardedBuffer};
use crate::canvas::Canvas;
use crate::color::{Color, PixelMap};
use crate::tools::stroke::{
    alike_in_view, all_in_view, in_sight, in_view, lemma_in_sight, lemma_paint_in_sight,
    lemma_stamp_in_sight, note, paint, spot, spots, stamp, stamped, tint,
};
use crate::tools::{in_reach, magnitude, Tool};
use crate::widget::Widget;
use vstd::prelude::*;

verus! {

/// The square of the distance between two positions.
pub open spec fn radius_sq(origin: (int, int), rim: (int, int)) -> int {
    (rim.0 - origin.0) * (rim.0 - origin.0) + (rim.1 - origin.1) * (rim.1 - origin.1)
}

/// Whether `n` is the square root of `v` rounded to the nearest integer. The
/// square root of an integer is never half-way between two integers. A
/// negative `v` has no square root, and counts as 0 here.
pub open spec fn is_root_round(v: int, n: int) -> bool {
    &&& 0 <= n
    &&& v <= n * n + n
    &&& n == 0 || n * n - n < v
}

/// Whether the offset `a` lies within the eighth of a circle that is computed:
/// from 0 up to the radius divided by the square root of 2, rounded up.
pub open spec fn in_span(r2: int, a: int) -> bool {
    0 <= a && (a == 0 || 2 * (a - 1) * (a - 1) < r2)
}

/// Whether the circle of squared radius `r2`, at the offset `a` along one
/// axis, is drawn at the offset `b` along the other.
pub open spec fn on_arc(r2: int, a: int, b: int) -> bool {
    in_span(r2, a) && is_root_round(r2 - a * a, b)
}

/// The positions of the circle round `origin` with squared radius `r2`: one
/// eighth of it is computed, offset by offset, and mirrored eight ways. A
/// circle of radius 0 has no positions.
pub open spec fn ring(origin: (int, int), r2: int) -> Set<(int, int)> {
    Set::new(
        |at: (int, int)|
            {
                let a = magnitude(at.0 - origin.0);
                let b = magnitude(at.1 - origin.1);
                r2 > 0 && (on_arc(r2, a, b) || on_arc(r2, b, a))
            },
    )
}

/// A circle is its own mirror image, left to right and top to bottom, about
/// its centre: it holds a position if and only if it holds the position as
/// far from the centre on the other side.
pub proof fn lemma_ring_mirrored(origin: (int, int), r2: int, d_x: int, d_y: int)
    ensures
        ring(origin, r2).contains((origin.0 + d_x, origin.1 + d_y)) <==> ring(origin, r2).contains(
            (origin.0 - d_x, origin.1 + d_y),
        ),
        ring(origin, r2).contains((origin.0 + d_x, origin.1 + d_y)) <==> ring(origin, r2).contains(
            (origin.0 + d_x, origin.1 - d_y),
        ),
        ring(origin, r2).contains((origin.0 + d_x, origin.1 + d_y)) <==> ring(origin, r2).contains(
            (origin.0 + d_y, origin.1 + d_x),
        ),
{
}

/// A number has one rounded square root.
pub proof fn lemma_root_unique(v: int, n: int, m: int)
    requires
        is_root_round(v, n),
        is_root_round(v, m),
    ensures
        n == m,
{
    if n < m {
        assert(m * m - m >= n * n + n) by (nonlinear_arith)
            requires
                0 <= n,
                n + 1 <= m,
        ;
    }
    if m < n {
        assert(n * n - n >= m * m + m) by (nonlinear_arith)
            requires
                0 <= m,
                m + 1 <= n,
        ;
    }
}

/// Beyond an offset that is out of the computed eighth, every offset is.
proof fn lemma_span_ends(r2: int, last: int, a: int)
    requires
        0 <= last,
        2 * last * last >= r2,
        last < a,
    ensures
        !in_span(r2, a),
{
    assert(2 * (a - 1) * (a - 1) >= 2 * last * last) by (nonlinear_arith)
        requires
            0 <= last <= a - 1,
    ;
}

/// Offsets of a circle within reach stay below 2 to the 30th.
proof fn lemma_offsets_bounded(r2: int, a: int, b: int)
    requires
        r2 <= 0x0800_0000_0000_0000,
        in_span(r2, a),
        is_root_round(r2 - a * a, b),
    ensures
        a <= 0x2000_0000,
        b <= 0x4000_0000,
{
    if a > 0x2000_0000 {
        assert(2 * (a - 1) * (a - 1) >= 0x0800_0000_0000_0000) by (nonlinear_arith)
            requires
                a - 1 >= 0x2000_0000,
        ;
    }
    if b > 0x4000_0000 {
        assert(b * b - b >= 0x0800_0000_0000_0000) by (nonlinear_arith)
            requires
                b >= 0x4000_0001,
        ;
        assert(a * a >= 0) by (nonlinear_arith);
    }
}

/// Whether the offset `a` lies within the computed eighth of the circle.
fn spans(r2: i64, a: i64) -> (within: bool)
    requires
        0 <= a <= 0x2000_0001,
    ensures
        within == in_span(r2 as int, a as int),
{
    if a == 0 {
        true
    } else {
        let back = a - 1;
        assert(0 <= back * back <= 0x0400_0000_0000_0000) by (nonlinear_arith)
            requires
                0 <= back <= 0x2000_0000,
        ;
        assert(2 * (back * back) == 2 * back * back) by (nonlinear_arith);
        2 * (back * back) < r2
    }
}

/// Whether `n` is too large to be the rounded square root of `v`.
fn overshoots(n: i64, v: i64) -> (over: bool)
    requires
        0 <= n <= 0x4000_0000,
    ensures
        over == (n > 0 && n * n - n >= v),
{
    assert(0 <= n * n <= 0x1000_0000_0000_0000) by (nonlinear_arith)
        requires
            0 <= n <= 0x4000_0000,
    ;
    n > 0 && n * n - n >= v
}

/// Lists the positions in view of the circle round `origin` through `rim`.
pub(crate) fn circle(origin: (isize, isize), rim: (isize, isize)) -> (points: Vec<(isize, isize)>)
    requires
        in_reach(origin),
        in_reach(rim),
    ensures
        spots(points@).to_set() == in_sight(
            ring(spot(origin), radius_sq(spot(origin), spot(rim))),
        ),
{
    let mut points: Vec<(isize, isize)> = Vec::new();
    let d_x = (rim.0 - origin.0) as i64;
    let d_y = (rim.1 - origin.1) as i64;
    assert(d_x * d_x <= 0x0400_0000_0000_0000 && d_y * d_y <= 0x0400_0000_0000_0000)
        by (nonlinear_arith)
        requires
            -0x2000_0000 <= d_x <= 0x2000_0000,
            -0x2000_0000 <= d_y <= 0x2000_0000,
    ;
    assert(d_x * d_x >= 0 && d_y * d_y >= 0) by (nonlinear_arith);
    let r2: i64 = d_x * d_x + d_y * d_y;
    let ghost target = ring(spot(origin), r2 as int);
    assert(r2 == radius_sq(spot(origin), spot(rim)));
    assert(spots(points@).to_set() =~= Set::<(int, int)>::empty());
    if r2 == 0 {
        assert(in_sight(target) =~= Set::<(int, int)>::empty());
        return points;
    }
    let mut pixel_y: i64 = 0;
    while pixel_y * pixel_y + pixel_y < r2
        invariant
            0 < r2 <= 0x0800_0000_0000_0000,
            0 <= pixel_y <= 0x4000_0000,
            pixel_y == 0 || pixel_y * pixel_y - pixel_y < r2,
        decreases 0x4000_0000 - pixel_y,
    {
        proof {
            let n = pixel_y as int;
            assert((n + 1) * (n + 1) - (n + 1) == n * n + n) by (nonlinear_arith);
            if n + 1 > 0x4000_0000 {
                assert(n * n + n >= 0x0800_0000_0000_0000) by (nonlinear_arith)
                    requires
                        n >= 0x4000_0000,
                ;
            }
            assert((n + 1) * (n + 1) + (n + 1) <= 0x7000_0000_0000_0000) by (nonlinear_arith)
                requires
                    0 <= n <= 0x4000_0000,
            ;
        }
        pixel_y += 1;
    }

    let mut pixel_x: i64 = 0;
    while spans(r2, pixel_x)
        invariant
            in_reach(origin),
            0 < r2 <= 0x0800_0000_0000_0000,
            0 <= pixel_x <= 0x2000_0001,
            0 <= pixel_y <= 0x4000_0000,
            pixel_x > 0 ==> in_span(r2 as int, pixel_x - 1),
            is_root_round(r2 - pixel_x * pixel_x, pixel_y as int),
            target == ring(spot(origin), r2 as int),
            all_in_view(points@),
            alike_in_view(
                spots(points@).to_set(),
                Set::new(
                    |at: (int, int)|
                        {
                            let a = magnitude(at.0 - origin.0);
                            let b = magnitude(at.1 - origin.1);
                            (a < pixel_x && on_arc(r2 as int, a, b)) || (b < pixel_x && on_arc(
                                r2 as int,
                                b,
                                a,
                            ))
                        },
                ),
            ),
        decreases 0x2000_0001 - pixel_x,
    {
        proof {
            lemma_offsets_bounded(r2 as int, pixel_x as int, pixel_y as int);
        }
        let ghost before = spots(points@).to_set();
        let right = origin.0 + (pixel_x as isize);
        let left = origin.0 - (pixel_x as isize);
        let below = origin.1 + (pixel_y as isize);
        let above = origin.1 - (pixel_y as isize);
        let far_right = origin.0 + (pixel_y as isize);
        let far_left = origin.0 - (pixel_y as isize);
        let low = origin.1 + (pixel_x as isize);
        let high = origin.1 - (pixel_x as isize);
        note(&mut points, (right, below));
        note(&mut points, (far_right, low));
        note(&mut points, (left, below));
        note(&mut points, (far_left, low));
        note(&mut points, (right, above));
        note(&mut points, (far_right, high));
        note(&mut points, (left, above));
        note(&mut points, (far_left, high));
        proof {
            let v = r2 - pixel_x * pixel_x;
            let after = Set::new(
                |at: (int, int)|
                    {
                        let a = magnitude(at.0 - origin.0);
                        let b = magnitude(at.1 - origin.1);
                        (a < pixel_x + 1 && on_arc(r2 as int, a, b)) || (b < pixel_x + 1 && on_arc(
                            r2 as int,
                            b,
                            a,
                        ))
                    },
            );
            assert forall|at: (int, int)| in_view(at) implies (spots(points@).to_set().contains(at)
                <==> after.contains(at)) by {
                let a = magnitude(at.0 - origin.0);
                let b = magnitude(at.1 - origin.1);
                assert(before.contains(at) <==> (a < pixel_x && on_arc(r2 as int, a, b)) || (b
                    < pixel_x && on_arc(r2 as int, b, a)));
                if a == pixel_x && is_root_round(v, b) {
                    lemma_root_unique(v, b, pixel_y as int);
                }
                if b == pixel_x && is_root_round(v, a) {
                    lemma_root_unique(v, a, pixel_y as int);
                }
            }
        }
        pixel_x += 1;
        assert(pixel_x * pixel_x <= 0x0400_0001_0000_0000) by (nonlinear_arith)
            requires
                0 <= pixel_x <= 0x2000_0001,
        ;
        let v = r2 - pixel_x * pixel_x;
        proof {
            let x = pixel_x as int;
            let y = pixel_y as int;
            assert(x * x >= (x - 1) * (x - 1)) by (nonlinear_arith)
                requires
                    x >= 1,
            ;
        }
        while overshoots(pixel_y, v)
            invariant
                0 <= pixel_y <= 0x4000_0000,
                v <= pixel_y * pixel_y + pixel_y,
            decreases pixel_y,
        {
            proof {
                let n = pixel_y as int;
                assert((n - 1) * (n - 1) + (n - 1) == n * n - n) by (nonlinear_arith);
            }
            pixel_y -= 1;
        }
    }
    proof {
        let listed = Set::new(
            |at: (int, int)|
                {
                    let a = magnitude(at.0 - origin.0);
                    let b = magnitude(at.1 - origin.1);
                    (a < pixel_x && on_arc(r2 as int, a, b)) || (b < pixel_x && on_arc(
                        r2 as int,
                        b,
                        a,
                    ))
                },
        );
        assert forall|at: (int, int)| in_view(at) implies (spots(points@).to_set().contains(at)
            <==> target.contains(at)) by {
            let a = magnitude(at.0 - origin.0);
            let b = magnitude(at.1 - origin.1);
            assert(spots(points@).to_set().contains(at) <==> listed.contains(at));
            if a >= pixel_x {
                lemma_span_ends(r2 as int, pixel_x - 1, a);
            }
            if b >= pixel_x {
                lemma_span_ends(r2 as int, pixel_x - 1, b);
            }
        }
        lemma_in_sight(points@, target);
    }
    points
}

/// The circle tool's state: the centre of the circle and a position on its
/// rim, whether it is being drawn, and its colour.
pub struct Circe {
    origin: (isize, isize),
    mouse: (isize, isize),
    down: bool,
    outline_color: Color,
}

impl Circe {
    #[verifier::type_invariant]
    spec fn well_formed(&self) -> bool {
        in_reach(self.origin) && in_reach(self.mouse)
    }

    /// Where the pointer went down: the centre of the circle.
    pub closed spec fn origin(&self) -> (isize, isize) {
        self.origin
    }

    /// Where the pointer was last seen: a position on the rim.
    pub closed spec fn pointer(&self) -> (isize, isize) {
        self.mouse
    }

    /// Whether a circle is being drawn.
    pub closed spec fn is_down(&self) -> bool {
        self.down
    }

    /// The colour of the tool's circles.
    pub closed spec fn outline_color(&self) -> Color {
        self.outline_color
    }

    /// The positions of the circle that the tool holds.
    pub open spec fn marks(&self) -> Set<(int, int)> {
        ring(spot(self.origin()), radius_sq(spot(self.origin()), spot(self.pointer())))
    }

    /// An idle tool that draws in black.
    pub fn new() -> (tool: Self)
        ensures
            tool.origin() == (0isize, 0isize),
            tool.pointer() == (0isize, 0isize),
            !tool.is_down(),
            tool.outline_color() == (Color { r: 0x00, g: 0x00, b: 0x00 }),
    {
        Self { origin: (0, 0), mouse: (0, 0), down: false, outline_color: Color::black() }
    }
}

impl Widget for Circe {
    /// While the pointer is down the tool shows the circle round where it went
    /// down through where it is; otherwise nothing.
    open spec fn layer(&self) -> PixelMap {
        if self.is_down() {
            tint(self.marks(), self.outline_color())
        } else {
            Map::empty()
        }
    }

    fn display<G: Guard>(&self, buffer: &mut GuardedBuffer<'_, '_, G>) {
        proof {
            use_type_invariant(self);
        }
        if !self.down {
            proof {
                assert(clipped(self.layer(), buffer.guard) =~= Map::<(int, int), Color>::empty());
                lemma_overlay_nothing(buffer.frame(), clipped(self.layer(), buffer.guard));
            }
            return ;
        }
        let points = circle(self.origin, self.mouse);
        paint(buffer, &points, self.outline_color);
        proof {
            lemma_paint_in_sight(
                old(buffer).frame(),
                self.marks(),
                self.outline_color,
                old(buffer).guard,
            );
        }
    }
}

impl Tool for Circe {
    /// A press starts a circle of radius 0.
    closed spec fn on_press(&self, mouse: (isize, isize), pixels: PixelMap) -> (Self, PixelMap) {
        (
            Circe { origin: mouse, mouse: mouse, down: true, outline_color: self.outline_color },
            pixels,
        )
    }

    /// A hold moves the rim.
    closed spec fn on_hold(
        &self,
        prev_mouse: (isize, isize),
        curr_mouse: (isize, isize),
        pixels: PixelMap,
    ) -> (Self, PixelMap) {
        (
            Circe {
                origin: self.origin,
                mouse: curr_mouse,
                down: self.down,
                outline_color: self.outline_color,
            },
            pixels,
        )
    }

    /// A release away from the centre commits the circle through where the
    /// pointer came up. A release at the centre commits nothing and leaves the
    /// tool as it was, a circle still being drawn if one was.
    closed spec fn on_release(&self, mouse: (isize, isize), pixels: PixelMap) -> (
        Self,
        PixelMap,
    ) {
        if mouse == self.origin {
            (
                Circe {
                    origin: self.origin,
                    mouse: mouse,
                    down: self.down,
                    outline_color: self.outline_color,
                },
                pixels,
            )
        } else {
            (
                Circe {
                    origin: self.origin,
                    mouse: mouse,
                    down: false,
                    outline_color: self.outline_color,
                },
                stamped(
                    pixels,
                    ring(spot(self.origin), radius_sq(spot(self.origin), spot(mouse))),
                    self.outline_color,
                ),
            )
        }
    }

    closed spec fn recolored(&self, outline_color: Color) -> Self {
        Circe {
            origin: self.origin,
            mouse: self.mouse,
            down: self.down,
            outline_color: outline_color,
        }
    }

    fn handle_press(&mut self, mouse: (isize, isize), canvas: &mut Canvas) {
        proof {
            use_type_invariant(&*self);
        }
        self.down = true;
        self.origin = mouse;
        self.mouse = mouse;
    }

    fn handle_hold(
        &mut self,
        prev_mouse: (isize, isize),
        curr_mouse: (isize, isize),
        canvas: &mut Canvas,
    ) {
        proof {
            use_type_invariant(&*self);
        }
        self.mouse = curr_mouse;
    }

    fn handle_release(&mut self, mouse: (isize, isize), canvas: &mut Canvas) {
        proof {
            use_type_invariant(&*self);
        }
        self.mouse = mouse;

        if mouse.0 == self.origin.0 && mouse.1 == self.origin.1 {
            return ;
        }
        self.down = false;

        let points = circle(self.origin, self.mouse);
        stamp(canvas, &points, self.outline_color);
        proof {
            old(canvas).lemma_extent();
            lemma_stamp_in_sight(
                old(canvas)@,
                ring(spot(self.origin), radius_sq(spot(self.origin), spot(mouse))),
                self.outline_color,
            );
        }
    }

    fn set_outline_color(&mut self, outline_color: Color) {
        proof {
            use_type_invariant(&*self);
        }
        self.outline_color = outline_color;
    }
}

impl Circe {
    /// What each event does to the tool and to the canvas, in terms of what
    /// the tool holds.
    pub proof fn lemma_events(
        &self,
        mouse: (isize, isize),
        prev_mouse: (isize, isize),
        color: Color,
        pixels: PixelMap,
    )
        ensures
            self.on_press(mouse, pixels).0.origin() == mouse,
            self.on_press(mouse, pixels).0.pointer() == mouse,
            self.on_press(mouse, pixels).0.is_down(),
            self.on_press(mouse, pixels).0.outline_color() == self.outline_color(),
            self.on_press(mouse, pixels).1 == pixels,
            self.on_hold(prev_mouse, mouse, pixels).0.origin() == self.origin(),
            self.on_hold(prev_mouse, mouse, pixels).0.pointer() == mouse,
            self.on_hold(prev_mouse, mouse, pixels).0.is_down() == self.is_down(),
            self.on_hold(prev_mouse, mouse, pixels).0.outline_color() == self.outline_color(),
            self.on_hold(prev_mouse, mouse, pixels).1 == pixels,
            self.on_release(mouse, pixels).0.origin() == self.origin(),
            self.on_release(mouse, pixels).0.pointer() == mouse,
            self.on_release(mouse, pixels).0.is_down() == (self.is_down() && mouse
                == self.origin()),
            self.on_release(mouse, pixels).0.outline_color() == self.outline_color(),
            self.on_release(mouse, pixels).1 == stamped(
                pixels,
                self.on_release(mouse, pixels).0.marks(),
                self.outline_color(),
            ),
            self.recolored(color).origin() == self.origin(),
            self.recolored(color).pointer() == self.pointer(),
            self.recolored(color).is_down() == self.is_down(),
            self.recolored(color).outline_color() == color,
    {
        if mouse == self.origin {
            let kept = self.on_release(mouse, pixels).0;
            let d_x = kept.pointer().0 - kept.origin().0;
            let d_y = kept.pointer().1 - kept.origin().1;
            assert(d_x * d_x + d_y * d_y == 0) by (nonlinear_arith)
                requires
                    d_x == 0,
                    d_y == 0,
            ;
            assert(kept.marks() =~= Set::<(int, int)>::empty());
            assert(stamped(pixels, kept.marks(), self.outline_color()) =~= pixels);
        }
    }
}

} // verus!
