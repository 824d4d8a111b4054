//! The canvas: the grid of committed colours that makes up the drawing.

use crate::buffer::{clipped, lemma_draw_step, overlay, Guard, GuardedBuffer};
use crate::color::{Color, PixelMap};
use crate::widget::Widget;
use crate::BORDER_WIDTH;
use vstd::prelude::*;

verus! {

/// Number of columns of the canvas.
pub const CANVAS_WIDTH: usize = 200;

/// Number of rows of the canvas.
pub const CANVAS_HEIGHT: usize = 100;

/// Whether the screen position `(x, y)` shows a cell of the canvas. The canvas
/// sits one margin in from the top-left corner of the screen.
pub open spec fn on_canvas(x: int, y: int) -> bool {
    &&& BORDER_WIDTH <= x < BORDER_WIDTH + CANVAS_WIDTH
    &&& BORDER_WIDTH <= y < BORDER_WIDTH + CANVAS_HEIGHT
}

/// The screen positions of the canvas's cells.
pub open spec fn canvas_region() -> Set<(int, int)> {
    Set::new(|at: (int, int)| on_canvas(at.0, at.1))
}

/// A canvas whose every cell has one colour.
pub open spec fn plain(color: Color) -> PixelMap {
    Map::new(|at: (int, int)| on_canvas(at.0, at.1), |at: (int, int)| color)
}

/// The pixels after one cell has been written: a position off the canvas changes nothing.
pub open spec fn with_cell(pixels: PixelMap, x: int, y: int, color: Color) -> PixelMap {
    if on_canvas(x, y) {
        pixels.insert((x, y), color)
    } else {
        pixels
    }
}

/// The colour of the cell shown at `(x, y)`, if the canvas has a cell there.
pub open spec fn cell_at(pixels: PixelMap, x: int, y: int) -> Option<Color> {
    if on_canvas(x, y) {
        Some(pixels[(x, y)])
    } else {
        None
    }
}

/// A cell that has been written reads back as written: on the canvas, the
/// colour at `(x, y)` after a write of `color` there is `color`.
pub proof fn lemma_write_then_read(pixels: PixelMap, x: int, y: int, color: Color)
    requires
        on_canvas(x, y),
    ensures
        cell_at(with_cell(pixels, x, y, color), x, y) == Some(color),
{
}

/// A write leaves every other cell as it was, and a write off the canvas
/// leaves all of them: only the cell written can read differently afterwards.
pub proof fn lemma_write_elsewhere(
    pixels: PixelMap,
    x: int,
    y: int,
    color: Color,
    other_x: int,
    other_y: int,
)
    requires
        (other_x, other_y) != (x, y) || !on_canvas(x, y),
    ensures
        cell_at(with_cell(pixels, x, y, color), other_x, other_y) == cell_at(
            pixels,
            other_x,
            other_y,
        ),
{
}

/// The drawing surface. Its cells are kept row by row; its view gives each cell
/// by the screen position where it shows.
pub struct Canvas {
    cells: Vec<Color>,
}

impl View for Canvas {
    type V = PixelMap;

    closed spec fn view(&self) -> PixelMap {
        Map::new(
            |at: (int, int)| on_canvas(at.0, at.1),
            |at: (int, int)| self.cells@[cell_index(at.0, at.1)],
        )
    }
}

/// Where the cell shown at `(x, y)` is kept.
spec fn cell_index(x: int, y: int) -> int {
    (y - BORDER_WIDTH) * CANVAS_WIDTH + (x - BORDER_WIDTH)
}

impl Canvas {
    #[verifier::type_invariant]
    spec fn well_formed(&self) -> bool {
        self.cells@.len() == CANVAS_WIDTH * CANVAS_HEIGHT
    }

    /// A canvas never changes its extent: it has exactly the cells of `canvas_region`.
    pub proof fn lemma_extent(&self)
        ensures
            self@.dom() == canvas_region(),
    {
        assert(self@.dom() =~= canvas_region());
    }

    /// A white canvas.
    pub fn new() -> (canvas: Self)
        ensures
            canvas@ == plain(Color { r: 0xff, g: 0xff, b: 0xff }),
    {
        let white = Color::white();
        let mut cells: Vec<Color> = Vec::new();
        let mut filled: usize = 0;
        while filled < CANVAS_WIDTH * CANVAS_HEIGHT
            invariant
                filled <= CANVAS_WIDTH * CANVAS_HEIGHT,
                cells@.len() == filled,
                white == (Color { r: 0xff, g: 0xff, b: 0xff }),
                forall|k: int| 0 <= k < filled ==> cells@[k] == white,
            decreases CANVAS_WIDTH * CANVAS_HEIGHT - filled,
        {
            cells.push(white);
            filled += 1;
        }
        let canvas = Self { cells };
        assert(canvas@ =~= plain(white));
        canvas
    }

    /// Overwrites the cell shown at `(x, y)`; a position off the canvas is ignored.
    pub fn set_pixel(&mut self, x: usize, y: usize, color: Color)
        ensures
            final(self)@ == with_cell(old(self)@, x as int, y as int, color),
    {
        proof {
            use_type_invariant(&*self);
        }
        if x >= BORDER_WIDTH && y >= BORDER_WIDTH {
            let col = x - BORDER_WIDTH;
            let row = y - BORDER_WIDTH;
            if col < CANVAS_WIDTH && row < CANVAS_HEIGHT {
                self.cells[row * CANVAS_WIDTH + col] = color;
                assert(self@ =~= old(self)@.insert((x as int, y as int), color));
            }
        }
    }

    /// The colour of the cell shown at `(x, y)`, if there is one.
    pub fn get_pixel(&self, x: usize, y: usize) -> (pixel: Option<Color>)
        ensures
            pixel == cell_at(self@, x as int, y as int),
    {
        proof {
            use_type_invariant(self);
        }
        if x >= BORDER_WIDTH && y >= BORDER_WIDTH {
            let col = x - BORDER_WIDTH;
            let row = y - BORDER_WIDTH;
            if col < CANVAS_WIDTH && row < CANVAS_HEIGHT {
                return Some(self.cells[row * CANVAS_WIDTH + col]);
            }
        }
        None
    }

    /// The cells kept before index `count`, by screen position.
    spec fn first_cells(&self, count: int) -> PixelMap {
        Map::new(
            |at: (int, int)| on_canvas(at.0, at.1) && cell_index(at.0, at.1) < count,
            |at: (int, int)| self.cells@[cell_index(at.0, at.1)],
        )
    }
}

impl Widget for Canvas {
    /// A canvas shows its cells.
    open spec fn layer(&self) -> PixelMap {
        self@
    }

    /// Draws every cell, row by row, at its screen position.
    fn display<G: Guard>(&self, buffer: &mut GuardedBuffer<'_, '_, G>) {
        proof {
            use_type_invariant(self);
            assert(clipped(self.first_cells(0), buffer.guard) =~= Map::<(int, int), Color>::empty());
            crate::buffer::lemma_overlay_nothing(
                buffer.frame(),
                clipped(self.first_cells(0), buffer.guard),
            );
        }
        let mut row: usize = 0;
        while row < CANVAS_HEIGHT
            invariant
                row <= CANVAS_HEIGHT,
                self.cells@.len() == CANVAS_WIDTH * CANVAS_HEIGHT,
                buffer.guard == old(buffer).guard,
                buffer.frame() == overlay(
                    old(buffer).frame(),
                    clipped(self.first_cells(row * CANVAS_WIDTH), buffer.guard),
                ),
                *final(buffer.buffer) == *final(old(buffer).buffer),
                final(buffer.buffer.pixels)@ == final(old(buffer).buffer.pixels)@,
            decreases CANVAS_HEIGHT - row,
        {
            let mut col: usize = 0;
            while col < CANVAS_WIDTH
                invariant
                    row < CANVAS_HEIGHT,
                    col <= CANVAS_WIDTH,
                    self.cells@.len() == CANVAS_WIDTH * CANVAS_HEIGHT,
                    buffer.guard == old(buffer).guard,
                    buffer.frame() == overlay(
                        old(buffer).frame(),
                        clipped(self.first_cells(row * CANVAS_WIDTH + col), buffer.guard),
                    ),
                    *final(buffer.buffer) == *final(old(buffer).buffer),
                    final(buffer.buffer.pixels)@ == final(old(buffer).buffer.pixels)@,
                decreases CANVAS_WIDTH - col,
            {
                let x = col + BORDER_WIDTH;
                let y = row + BORDER_WIDTH;
                let color = self.cells[row * CANVAS_WIDTH + col];
                proof {
                    let count = row * CANVAS_WIDTH + col;
                    let before = clipped(self.first_cells(count), buffer.guard);
                    let after = clipped(self.first_cells(count + 1), buffer.guard);
                    if buffer.guard.admits(x as int, y as int) {
                        assert(after =~= before.insert((x as int, y as int), color));
                        lemma_draw_step(old(buffer).frame(), before, x as int, y as int, color);
                    } else {
                        assert(after =~= before);
                    }
                }
                buffer.put_pixel(x, y, color);
                col += 1;
            }
            row += 1;
        }
        proof {
            assert(self.first_cells(CANVAS_HEIGHT * CANVAS_WIDTH) =~= self@);
        }
    }
}

} // verus!
