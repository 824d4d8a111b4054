//! The drawing tools, and the geometry they share: which positions a stroke
//! covers, and how a stroke is committed to the canvas or previewed in a frame.

use crate::buffer::{Guard, GuardedBuffer};
use crate::canvas::Canvas;
use crate::color::{Color, PixelMap};
use crate::utils::{greater, lesser};
use crate::widget::Widget;
use vstd::arithmetic::div_mod::{lemma_div_is_ordered, lemma_fundamental_div_mod_converse};
use vstd::prelude::*;

pub mod circe;
pub mod linen;
pub mod pencil;
pub mod penicilin;
pub mod phill;
pub mod rectangel;
pub mod stroke;

pub use circe::Circe;
pub use linen::Linen;
pub use pencil::Pencil;
pub use penicilin::Penicilin;
pub use phill::Phill;
pub use rectangel::Rectangel;
use stroke::{
    alike_in_view, all_in_view, in_sight, lemma_in_sight, lemma_marks_grow, lemma_marks_push, note,
    spot, spots,
};

verus! {

/// A drawing tool: a small machine that takes the pointer's press, hold and
/// release, and answers each with its next state and with what has become of
/// the canvas. What it shows meanwhile, as a widget, is its preview.
pub trait Tool: Widget + Sized {
    /// The tool and the canvas after the pointer has gone down at `mouse`.
    spec fn on_press(&self, mouse: (isize, isize), pixels: PixelMap) -> (Self, PixelMap);

    /// The tool and the canvas after the pointer, held down, has moved from
    /// `prev_mouse` to `curr_mouse`.
    spec fn on_hold(
        &self,
        prev_mouse: (isize, isize),
        curr_mouse: (isize, isize),
        pixels: PixelMap,
    ) -> (Self, PixelMap);

    /// The tool and the canvas after the pointer has come up at `mouse`.
    spec fn on_release(&self, mouse: (isize, isize), pixels: PixelMap) -> (Self, PixelMap);

    /// The tool after a colour has been picked for it.
    spec fn recolored(&self, outline_color: Color) -> Self;

    /// Takes a press of the pointer at `mouse`, a position in reach.
    fn handle_press(&mut self, mouse: (isize, isize), canvas: &mut Canvas)
        requires
            in_reach(mouse),
        ensures
            (*final(self), final(canvas)@) == old(self).on_press(mouse, old(canvas)@),
    ;

    /// Takes a move of the pointer, held down, between two positions in reach.
    fn handle_hold(
        &mut self,
        prev_mouse: (isize, isize),
        curr_mouse: (isize, isize),
        canvas: &mut Canvas,
    )
        requires
            in_reach(prev_mouse),
            in_reach(curr_mouse),
        ensures
            (*final(self), final(canvas)@) == old(self).on_hold(
                prev_mouse,
                curr_mouse,
                old(canvas)@,
            ),
    ;

    /// Takes a release of the pointer at `mouse`, a position in reach.
    fn handle_release(&mut self, mouse: (isize, isize), canvas: &mut Canvas)
        requires
            in_reach(mouse),
        ensures
            (*final(self), final(canvas)@) == old(self).on_release(mouse, old(canvas)@),
    ;

    /// Takes a colour picked from the palette.
    fn set_outline_color(&mut self, outline_color: Color)
        ensures
            *final(self) == old(self).recolored(outline_color),
    ;
}

/// How far from the screen's origin a pointer position may lie, along either
/// axis, for the tools to take it. Within this bound the distance between two
/// positions, its square, and every position of a circle through them fit the
/// machine's integers, also where `isize` has 32 bits.
pub const REACH: isize = 0x0fff_ffff;

/// Whether the tools take the position.
pub open spec fn in_reach(point: (isize, isize)) -> bool {
    &&& -REACH <= point.0 <= REACH
    &&& -REACH <= point.1 <= REACH
}

/// Tells whether the tools take the position.
pub fn within_reach(point: (isize, isize)) -> (inside: bool)
    ensures
        inside == in_reach(point),
{
    -REACH <= point.0 && point.0 <= REACH && -REACH <= point.1 && point.1 <= REACH
}

/// The absolute value.
pub open spec fn magnitude(v: int) -> int {
    if v < 0 {
        -v
    } else {
        v
    }
}

/// `n / d` rounded to the nearest integer, a half rounded away from zero.
pub open spec fn div_round(n: int, d: int) -> int
    recommends
        d != 0,
{
    let q = (2 * magnitude(n) + magnitude(d)) / (2 * magnitude(d));
    if (n < 0) == (d < 0) {
        q
    } else {
        -q
    }
}

/// Whether a line is stepped along x (one position per column) rather than
/// along y (one position per row): it is where the line is flatter than it is
/// steep, and where it is level.
pub open spec fn steps_along_x(from: (int, int), to: (int, int)) -> bool {
    magnitude(to.0 - from.0) > magnitude(to.1 - from.1) || to.1 == from.1
}

/// The positions of the line from `from` to `to`, in the order they are plotted:
/// one per step along the longer axis, going up from its lesser end. The other
/// coordinate is the exact one, `from.1 + d_y / d_x * (x - from.0)` where the
/// line is stepped along x, rounded to the nearest integer.
pub open spec fn line_points(from: (int, int), to: (int, int)) -> Seq<(int, int)> {
    let d_x = to.0 - from.0;
    let d_y = to.1 - from.1;
    if d_x == 0 && d_y == 0 {
        seq![to]
    } else if steps_along_x(from, to) {
        Seq::new(
            (magnitude(d_x) + 1) as nat,
            |i: int|
                {
                    let x = lesser(from.0, to.0) + i;
                    (x, div_round(from.1 * d_x + d_y * (x - from.0), d_x))
                },
        )
    } else {
        Seq::new(
            (magnitude(d_y) + 1) as nat,
            |i: int|
                {
                    let y = lesser(from.1, to.1) + i;
                    (div_round(from.0 * d_y + d_x * (y - from.1), d_y), y)
                },
        )
    }
}

/// A line from a position to itself is that position alone.
pub proof fn lemma_line_of_one(at: (int, int))
    ensures
        line_points(at, at) == seq![at],
{
}

/// A quotient that comes out whole is not changed by rounding.
pub proof fn lemma_div_round_exact(k: int, d: int)
    requires
        d != 0,
    ensures
        div_round(k * d, d) == k,
{
    lemma_magnitude_mul(k, d);
    let a = magnitude(k);
    let b = magnitude(d);
    assert(2 * (a * b) + b == a * (2 * b) + b) by (nonlinear_arith);
    lemma_fundamental_div_mod_converse(2 * (a * b) + b, 2 * b, a, b);
    assert(k > 0 && d > 0 ==> k * d > 0) by (nonlinear_arith);
    assert(k > 0 && d < 0 ==> k * d < 0) by (nonlinear_arith);
    assert(k < 0 && d > 0 ==> k * d < 0) by (nonlinear_arith);
    assert(k < 0 && d < 0 ==> k * d > 0) by (nonlinear_arith);
    assert(k == 0 ==> k * d == 0) by (nonlinear_arith);
}

/// A line holds both its ends, and has one position for each step along its
/// longer axis, the ends included.
pub proof fn lemma_line_ends(from: (int, int), to: (int, int))
    ensures
        line_points(from, to).contains(from),
        line_points(from, to).contains(to),
        line_points(from, to).len() == greater(
            magnitude(to.0 - from.0),
            magnitude(to.1 - from.1),
        ) + 1,
{
    let line = line_points(from, to);
    let d_x = to.0 - from.0;
    let d_y = to.1 - from.1;
    if d_x == 0 && d_y == 0 {
        assert(line[0] == to);
    } else if steps_along_x(from, to) {
        let lo = lesser(from.0, to.0);
        lemma_div_round_exact(from.1, d_x);
        lemma_div_round_exact(from.1 + d_y, d_x);
        assert(from.1 * d_x + d_y * (from.0 - from.0) == from.1 * d_x) by (nonlinear_arith);
        assert(from.1 * d_x + d_y * (to.0 - from.0) == (from.1 + d_y) * d_x) by (nonlinear_arith)
            requires
                d_x == to.0 - from.0,
        ;
        assert(line[from.0 - lo] == from);
        assert(line[to.0 - lo] == to);
    } else {
        let lo = lesser(from.1, to.1);
        lemma_div_round_exact(from.0, d_y);
        lemma_div_round_exact(from.0 + d_x, d_y);
        assert(from.0 * d_y + d_x * (from.1 - from.1) == from.0 * d_y) by (nonlinear_arith);
        assert(from.0 * d_y + d_x * (to.1 - from.1) == (from.0 + d_x) * d_y) by (nonlinear_arith)
            requires
                d_y == to.1 - from.1,
        ;
        assert(line[from.1 - lo] == from);
        assert(line[to.1 - lo] == to);
    }
}

/// A rounded quotient is no larger than the bound of the exact one.
proof fn lemma_div_round_bound(n: int, d: int, bound: int)
    requires
        d != 0,
        0 <= bound,
        magnitude(n) <= bound * magnitude(d),
    ensures
        magnitude(div_round(n, d)) <= bound,
{
    let a = magnitude(n);
    let b = magnitude(d);
    assert((2 * bound + 1) * b == bound * (2 * b) + b) by (nonlinear_arith);
    lemma_fundamental_div_mod_converse((2 * bound + 1) * b, 2 * b, bound, b);
    assert(2 * a + b <= (2 * bound + 1) * b) by (nonlinear_arith)
        requires
            a <= bound * b,
    ;
    lemma_div_is_ordered(2 * a + b, (2 * bound + 1) * b, 2 * b);
    assert(0 <= (2 * a + b) / (2 * b)) by (nonlinear_arith)
        requires
            0 <= a,
            0 < b,
    ;
}

/// The magnitude of a product is the product of the magnitudes.
proof fn lemma_magnitude_mul(a: int, b: int)
    ensures
        magnitude(a * b) == magnitude(a) * magnitude(b),
{
    assert(magnitude(a * b) == magnitude(a) * magnitude(b)) by (nonlinear_arith)
        requires
            magnitude(a) == if a < 0 {
                -a
            } else {
                a
            },
            magnitude(b) == if b < 0 {
                -b
            } else {
                b
            },
            magnitude(a * b) == if a * b < 0 {
                -(a * b)
            } else {
                a * b
            },
    ;
}

/// A position of a line lies no further from the origin, along the shorter
/// axis, than the line's start and its extent on that axis together.
proof fn lemma_step_bound(base: int, short: int, run: int, long: int, limit: int)
    requires
        long != 0,
        magnitude(run) <= magnitude(long) <= limit,
        magnitude(short) <= limit,
        magnitude(base) <= limit,
    ensures
        magnitude(base * long + short * run) <= 2 * limit * limit,
        magnitude(div_round(base * long + short * run, long)) <= magnitude(base) + magnitude(
            short,
        ),
{
    lemma_magnitude_mul(short, run);
    lemma_magnitude_mul(base, long);
    let reach = magnitude(base) + magnitude(short);
    assert(magnitude(base) * magnitude(long) + magnitude(short) * magnitude(run) <= reach
        * magnitude(long) <= 2 * limit * limit) by (nonlinear_arith)
        requires
            0 <= magnitude(short) <= limit,
            0 <= magnitude(base) <= limit,
            0 <= magnitude(run) <= magnitude(long) <= limit,
            reach == magnitude(base) + magnitude(short),
    ;
    lemma_div_round_bound(base * long + short * run, long, reach);
}

/// `n / d` rounded to the nearest integer, a half rounded away from zero.
fn rounded_ratio(n: i64, d: i64) -> (q: i64)
    requires
        d != 0,
        -0x1000_0000_0000_0000 < n < 0x1000_0000_0000_0000,
        -0x8000_0000 < d < 0x8000_0000,
    ensures
        q == div_round(n as int, d as int),
{
    let a: u64 = if n < 0 {
        (-n) as u64
    } else {
        n as u64
    };
    let b: u64 = if d < 0 {
        (-d) as u64
    } else {
        d as u64
    };
    let q = (2 * a + b) / (2 * b);
    assert(q <= 2 * a + b) by (nonlinear_arith)
        requires
            q == (2 * a + b) / (2 * b),
            0 < b,
    ;
    if (n < 0) == (d < 0) {
        q as i64
    } else {
        -(q as i64)
    }
}

/// Lists the positions of the line from `from` to `to` in the order they are
/// plotted: all of them if `whole`, else those in view.
fn trace(from: (isize, isize), to: (isize, isize), whole: bool) -> (points: Vec<(isize, isize)>)
    requires
        in_reach(from),
        in_reach(to),
    ensures
        whole ==> spots(points@) == line_points(spot(from), spot(to)),
        !whole ==> spots(points@).to_set() == in_sight(
            line_points(spot(from), spot(to)).to_set(),
        ),
{
    let d_x = to.0 - from.0;
    let d_y = to.1 - from.1;
    let span_x = if d_x < 0 {
        -d_x
    } else {
        d_x
    };
    let span_y = if d_y < 0 {
        -d_y
    } else {
        d_y
    };
    let ghost line = line_points(spot(from), spot(to));
    let mut points: Vec<(isize, isize)> = Vec::new();
    assert(spots(points@).to_set() =~= line.take(0).to_set());

    if d_x == 0 && d_y == 0 {
        proof {
            lemma_marks_push(points@, to);
            lemma_marks_grow(line, 0);
            assert(line.take(1) =~= line);
        }
        if whole {
            points.push(to);
        } else {
            note(&mut points, to);
        }
    } else if span_x > span_y || d_y == 0 {
        let min_x = if to.0 <= from.0 {
            to.0
        } else {
            from.0
        };
        let max_x = if to.0 <= from.0 {
            from.0
        } else {
            to.0
        };
        let mut pixel_x = min_x;
        while pixel_x <= max_x
            invariant
                in_reach(from),
                in_reach(to),
                d_x == to.0 - from.0,
                d_y == to.1 - from.1,
                d_x != 0,
                min_x == lesser(from.0 as int, to.0 as int),
                max_x == min_x + magnitude(d_x as int),
                min_x <= pixel_x <= max_x + 1,
                steps_along_x(spot(from), spot(to)),
                line == line_points(spot(from), spot(to)),
                whole ==> points@.len() == pixel_x - min_x,
                whole ==> forall|i: int|
                    0 <= i < points@.len() ==> spot(#[trigger] points@[i]) == line[i],
                !whole ==> all_in_view(points@),
                alike_in_view(spots(points@).to_set(), line.take(pixel_x - min_x).to_set()),
            decreases max_x + 1 - pixel_x,
        {
            let run = pixel_x - from.0;
            proof {
                lemma_step_bound(from.1 as int, d_y as int, run as int, d_x as int, 0x2000_0000);
                lemma_magnitude_mul(from.1 as int, d_x as int);
                lemma_magnitude_mul(d_y as int, run as int);
                assert(magnitude(from.1 as int) * magnitude(d_x as int) <= 0x2000_0000 * 0x2000_0000
                    && magnitude(d_y as int) * magnitude(run as int) <= 0x2000_0000 * 0x2000_0000)
                    by (nonlinear_arith)
                    requires
                        0 <= magnitude(from.1 as int) <= 0x2000_0000,
                        0 <= magnitude(d_x as int) <= 0x2000_0000,
                        0 <= magnitude(d_y as int) <= 0x2000_0000,
                        0 <= magnitude(run as int) <= 0x2000_0000,
                ;
            }
            let pixel_y = rounded_ratio(
                (from.1 as i64) * (d_x as i64) + (d_y as i64) * (run as i64),
                d_x as i64,
            ) as isize;
            proof {
                lemma_marks_push(points@, (pixel_x, pixel_y));
                lemma_marks_grow(line, pixel_x - min_x);
            }
            if whole {
                points.push((pixel_x, pixel_y));
            } else {
                note(&mut points, (pixel_x, pixel_y));
            }
            pixel_x += 1;
        }
    } else {
        let min_y = if to.1 <= from.1 {
            to.1
        } else {
            from.1
        };
        let max_y = if to.1 <= from.1 {
            from.1
        } else {
            to.1
        };
        let mut pixel_y = min_y;
        while pixel_y <= max_y
            invariant
                in_reach(from),
                in_reach(to),
                d_x == to.0 - from.0,
                d_y == to.1 - from.1,
                d_y != 0,
                magnitude(d_x as int) <= magnitude(d_y as int),
                min_y == lesser(from.1 as int, to.1 as int),
                max_y == min_y + magnitude(d_y as int),
                min_y <= pixel_y <= max_y + 1,
                !steps_along_x(spot(from), spot(to)),
                line == line_points(spot(from), spot(to)),
                whole ==> points@.len() == pixel_y - min_y,
                whole ==> forall|i: int|
                    0 <= i < points@.len() ==> spot(#[trigger] points@[i]) == line[i],
                !whole ==> all_in_view(points@),
                alike_in_view(spots(points@).to_set(), line.take(pixel_y - min_y).to_set()),
            decreases max_y + 1 - pixel_y,
        {
            let run = pixel_y - from.1;
            proof {
                lemma_step_bound(from.0 as int, d_x as int, run as int, d_y as int, 0x2000_0000);
                lemma_magnitude_mul(from.0 as int, d_y as int);
                lemma_magnitude_mul(d_x as int, run as int);
                assert(magnitude(from.0 as int) * magnitude(d_y as int) <= 0x2000_0000 * 0x2000_0000
                    && magnitude(d_x as int) * magnitude(run as int) <= 0x2000_0000 * 0x2000_0000)
                    by (nonlinear_arith)
                    requires
                        0 <= magnitude(from.0 as int) <= 0x2000_0000,
                        0 <= magnitude(d_y as int) <= 0x2000_0000,
                        0 <= magnitude(d_x as int) <= 0x2000_0000,
                        0 <= magnitude(run as int) <= 0x2000_0000,
                ;
            }
            let pixel_x = rounded_ratio(
                (from.0 as i64) * (d_y as i64) + (d_x as i64) * (run as i64),
                d_y as i64,
            ) as isize;
            proof {
                lemma_marks_push(points@, (pixel_x, pixel_y));
                lemma_marks_grow(line, pixel_y - min_y);
            }
            if whole {
                points.push((pixel_x, pixel_y));
            } else {
                note(&mut points, (pixel_x, pixel_y));
            }
            pixel_y += 1;
        }
    }
    proof {
        assert(line.take(line.len() as int) =~= line);
        if whole {
            assert(spots(points@) =~= line);
        } else {
            lemma_in_sight(points@, line.to_set());
        }
    }
    points
}

/// Plots the line from `from` to `to`. A line that is no longer than a single
/// position is that position.
pub fn plot_line(from: (isize, isize), to: (isize, isize)) -> (points: Vec<(isize, isize)>)
    requires
        in_reach(from),
        in_reach(to),
    ensures
        spots(points@) == line_points(spot(from), spot(to)),
        points@.len() == line_points(spot(from), spot(to)).len(),
{
    let points = trace(from, to, true);
    assert(spots(points@).len() == points@.len());
    points
}

/// Lists the positions in view of the line from `from` to `to`: a line drawn
/// by a tool takes no more room than what can show of it.
pub(crate) fn plot_line_in_view(from: (isize, isize), to: (isize, isize)) -> (points: Vec<
    (isize, isize),
>)
    requires
        in_reach(from),
        in_reach(to),
    ensures
        spots(points@).to_set() == in_sight(line_points(spot(from), spot(to)).to_set()),
{
    trace(from, to, false)
}

/// The tool in use: one of the five.
pub enum ActiveTool {
    Pencil(Penicilin),
    Rectangle(Rectangel),
    Circle(Circe),
    Line(Linen),
    FloodFill(Phill),
}

impl Widget for ActiveTool {
    /// The tool in use shows what its variant shows.
    open spec fn layer(&self) -> PixelMap {
        match self {
            ActiveTool::Pencil(tool) => tool.layer(),
            ActiveTool::Rectangle(tool) => tool.layer(),
            ActiveTool::Circle(tool) => tool.layer(),
            ActiveTool::Line(tool) => tool.layer(),
            ActiveTool::FloodFill(tool) => tool.layer(),
        }
    }

    fn display<G: Guard>(&self, buffer: &mut GuardedBuffer<'_, '_, G>) {
        match self {
            ActiveTool::Pencil(tool) => tool.display(buffer),
            ActiveTool::Rectangle(tool) => tool.display(buffer),
            ActiveTool::Circle(tool) => tool.display(buffer),
            ActiveTool::Line(tool) => tool.display(buffer),
            ActiveTool::FloodFill(tool) => tool.display(buffer),
        }
    }
}

impl Tool for ActiveTool {
    open spec fn on_press(&self, mouse: (isize, isize), pixels: PixelMap) -> (Self, PixelMap) {
        match self {
            ActiveTool::Pencil(tool) => (
                ActiveTool::Pencil(tool.on_press(mouse, pixels).0),
                tool.on_press(mouse, pixels).1,
            ),
            ActiveTool::Rectangle(tool) => (
                ActiveTool::Rectangle(tool.on_press(mouse, pixels).0),
                tool.on_press(mouse, pixels).1,
            ),
            ActiveTool::Circle(tool) => (
                ActiveTool::Circle(tool.on_press(mouse, pixels).0),
                tool.on_press(mouse, pixels).1,
            ),
            ActiveTool::Line(tool) => (
                ActiveTool::Line(tool.on_press(mouse, pixels).0),
                tool.on_press(mouse, pixels).1,
            ),
            ActiveTool::FloodFill(tool) => (
                ActiveTool::FloodFill(tool.on_press(mouse, pixels).0),
                tool.on_press(mouse, pixels).1,
            ),
        }
    }

    open spec fn on_hold(
        &self,
        prev_mouse: (isize, isize),
        curr_mouse: (isize, isize),
        pixels: PixelMap,
    ) -> (Self, PixelMap) {
        match self {
            ActiveTool::Pencil(tool) => (
                ActiveTool::Pencil(tool.on_hold(prev_mouse, curr_mouse, pixels).0),
                tool.on_hold(prev_mouse, curr_mouse, pixels).1,
            ),
            ActiveTool::Rectangle(tool) => (
                ActiveTool::Rectangle(tool.on_hold(prev_mouse, curr_mouse, pixels).0),
                tool.on_hold(prev_mouse, curr_mouse, pixels).1,
            ),
            ActiveTool::Circle(tool) => (
                ActiveTool::Circle(tool.on_hold(prev_mouse, curr_mouse, pixels).0),
                tool.on_hold(prev_mouse, curr_mouse, pixels).1,
            ),
            ActiveTool::Line(tool) => (
                ActiveTool::Line(tool.on_hold(prev_mouse, curr_mouse, pixels).0),
                tool.on_hold(prev_mouse, curr_mouse, pixels).1,
            ),
            ActiveTool::FloodFill(tool) => (
                ActiveTool::FloodFill(tool.on_hold(prev_mouse, curr_mouse, pixels).0),
                tool.on_hold(prev_mouse, curr_mouse, pixels).1,
            ),
        }
    }

    open spec fn on_release(&self, mouse: (isize, isize), pixels: PixelMap) -> (Self, PixelMap) {
        match self {
            ActiveTool::Pencil(tool) => (
                ActiveTool::Pencil(tool.on_release(mouse, pixels).0),
                tool.on_release(mouse, pixels).1,
            ),
            ActiveTool::Rectangle(tool) => (
                ActiveTool::Rectangle(tool.on_release(mouse, pixels).0),
                tool.on_release(mouse, pixels).1,
            ),
            ActiveTool::Circle(tool) => (
                ActiveTool::Circle(tool.on_release(mouse, pixels).0),
                tool.on_release(mouse, pixels).1,
            ),
            ActiveTool::Line(tool) => (
                ActiveTool::Line(tool.on_release(mouse, pixels).0),
                tool.on_release(mouse, pixels).1,
            ),
            ActiveTool::FloodFill(tool) => (
                ActiveTool::FloodFill(tool.on_release(mouse, pixels).0),
                tool.on_release(mouse, pixels).1,
            ),
        }
    }

    open spec fn recolored(&self, outline_color: Color) -> Self {
        match self {
            ActiveTool::Pencil(tool) => ActiveTool::Pencil(tool.recolored(outline_color)),
            ActiveTool::Rectangle(tool) => ActiveTool::Rectangle(tool.recolored(outline_color)),
            ActiveTool::Circle(tool) => ActiveTool::Circle(tool.recolored(outline_color)),
            ActiveTool::Line(tool) => ActiveTool::Line(tool.recolored(outline_color)),
            ActiveTool::FloodFill(tool) => ActiveTool::FloodFill(tool.recolored(outline_color)),
        }
    }

    fn handle_press(&mut self, mouse: (isize, isize), canvas: &mut Canvas) {
        match self {
            ActiveTool::Pencil(tool) => tool.handle_press(mouse, canvas),
            ActiveTool::Rectangle(tool) => tool.handle_press(mouse, canvas),
            ActiveTool::Circle(tool) => tool.handle_press(mouse, canvas),
            ActiveTool::Line(tool) => tool.handle_press(mouse, canvas),
            ActiveTool::FloodFill(tool) => tool.handle_press(mouse, canvas),
        }
    }

    fn handle_hold(
        &mut self,
        prev_mouse: (isize, isize),
        curr_mouse: (isize, isize),
        canvas: &mut Canvas,
    ) {
        match self {
            ActiveTool::Pencil(tool) => tool.handle_hold(prev_mouse, curr_mouse, canvas),
            ActiveTool::Rectangle(tool) => tool.handle_hold(prev_mouse, curr_mouse, canvas),
            ActiveTool::Circle(tool) => tool.handle_hold(prev_mouse, curr_mouse, canvas),
            ActiveTool::Line(tool) => tool.handle_hold(prev_mouse, curr_mouse, canvas),
            ActiveTool::FloodFill(tool) => tool.handle_hold(prev_mouse, curr_mouse, canvas),
        }
    }

    fn handle_release(&mut self, mouse: (isize, isize), canvas: &mut Canvas) {
        match self {
            ActiveTool::Pencil(tool) => tool.handle_release(mouse, canvas),
            ActiveTool::Rectangle(tool) => tool.handle_release(mouse, canvas),
            ActiveTool::Circle(tool) => tool.handle_release(mouse, canvas),
            ActiveTool::Line(tool) => tool.handle_release(mouse, canvas),
            ActiveTool::FloodFill(tool) => tool.handle_release(mouse, canvas),
        }
    }

    fn set_outline_color(&mut self, outline_color: Color) {
        match self {
            ActiveTool::Pencil(tool) => tool.set_outline_color(outline_color),
            ActiveTool::Rectangle(tool) => tool.set_outline_color(outline_color),
            ActiveTool::Circle(tool) => tool.set_outline_color(outline_color),
            ActiveTool::Line(tool) => tool.set_outline_color(outline_color),
            ActiveTool::FloodFill(tool) => tool.set_outline_color(outline_color),
        }
    }
}

} // verus!
