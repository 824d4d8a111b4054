//! The application: it owns the canvas, the tool in use and the palette, hands
//! the pointer's events to them, and draws all three into a frame.

use crate::buffer::{clipped, overlay, Buffer, Guard};
use crate::canvas::{
    canvas_region, on_canvas, plain, with_cell, Canvas, CANVAS_HEIGHT, CANVAS_WIDTH,
};
use crate::color::{Color, PixelMap};
use crate::color_picker::{
    palette, pick, shown, swatch, ColorButton, ColorPicker, BUTTON_SIZE, SWATCHES,
};
use crate::tools::stroke::{spot, stamped};
use crate::tools::{in_reach, within_reach, ActiveTool, Rectangel, Tool};
use crate::widget::Widget;
use crate::BORDER_WIDTH;
use vstd::prelude::*;

verus! {

/// The part of the screen lent out for the canvas and for the tool's preview:
/// left and top, then width and height.
pub open spec fn canvas_rect() -> ((usize, usize), (usize, usize)) {
    ((BORDER_WIDTH, BORDER_WIDTH), (CANVAS_WIDTH, CANVAS_HEIGHT))
}

/// The part of the screen lent out for the palette: a strip one margin below
/// the canvas.
pub open spec fn picker_rect() -> ((usize, usize), (usize, usize)) {
    ((BORDER_WIDTH, (2 * BORDER_WIDTH + CANVAS_HEIGHT) as usize), (CANVAS_WIDTH, BUTTON_SIZE))
}

/// The tool and the canvas after a press at `mouse`: the tool takes the press,
/// and then, if the press hit a swatch, that swatch's colour. A press out of
/// the tools' reach changes nothing.
pub open spec fn pressed(tool: ActiveTool, pixels: PixelMap, mouse: (isize, isize)) -> (
    ActiveTool,
    PixelMap,
) {
    if in_reach(mouse) {
        let (next, marked) = tool.on_press(mouse, pixels);
        match pick(palette(), spot(mouse)) {
            Some(color) => (next.recolored(color), marked),
            None => (next, marked),
        }
    } else {
        (tool, pixels)
    }
}

/// The tool and the canvas after the pointer, held down, has moved. A move
/// from or to a position out of the tools' reach changes nothing.
pub open spec fn held(
    tool: ActiveTool,
    pixels: PixelMap,
    prev_mouse: (isize, isize),
    curr_mouse: (isize, isize),
) -> (ActiveTool, PixelMap) {
    if in_reach(prev_mouse) && in_reach(curr_mouse) {
        tool.on_hold(prev_mouse, curr_mouse, pixels)
    } else {
        (tool, pixels)
    }
}

/// The tool and the canvas after a release at `mouse`. A release out of the
/// tools' reach changes nothing.
pub open spec fn released(tool: ActiveTool, pixels: PixelMap, mouse: (isize, isize)) -> (
    ActiveTool,
    PixelMap,
) {
    if in_reach(mouse) {
        tool.on_release(mouse, pixels)
    } else {
        (tool, pixels)
    }
}

/// The frame after a redraw: the canvas, then over it the tool's preview, both
/// within the canvas's part of the screen; then the palette within its strip.
pub open spec fn drawn(
    bytes: Seq<u8>,
    pixels: PixelMap,
    preview: PixelMap,
    swatches: Seq<ColorButton>,
) -> Seq<u8> {
    overlay(
        overlay(overlay(bytes, clipped(pixels, canvas_rect())), clipped(preview, canvas_rect())),
        clipped(shown(swatches), picker_rect()),
    )
}

/// The canvas's part of the screen is the canvas, and the palette's strip is
/// off it: no position belongs to both, and a cell written in the strip is no
/// cell of the canvas.
pub proof fn lemma_parts_apart(x: int, y: int)
    ensures
        canvas_rect().admits(x, y) <==> on_canvas(x, y),
        !(canvas_rect().admits(x, y) && picker_rect().admits(x, y)),
        picker_rect().admits(x, y) ==> forall|pixels: PixelMap, color: Color|
            #[trigger] with_cell(pixels, x, y, color) == pixels,
        forall|i: int| 0 <= i < SWATCHES && swatch(i).covers((x, y)) ==> picker_rect().admits(x, y),
{
}

/// A stroke made in the palette's strip leaves the canvas as it is.
pub proof fn lemma_strip_spares_canvas(pixels: PixelMap, marks: Set<(int, int)>, color: Color)
    requires
        pixels.dom() == canvas_region(),
        forall|at: (int, int)| marks.contains(at) ==> picker_rect().admits(at.0, at.1),
    ensures
        stamped(pixels, marks, color) == pixels,
{
    assert forall|at: (int, int)| pixels.dom().contains(at) implies !marks.contains(at) by {
        lemma_parts_apart(at.0, at.1);
    }
    assert(stamped(pixels, marks, color) =~= pixels);
}

/// The paint program's state.
pub struct App {
    canvas: Canvas,
    tool: ActiveTool,
    color_picker: ColorPicker,
}

impl App {
    /// The drawing.
    pub closed spec fn canvas(&self) -> PixelMap {
        self.canvas@
    }

    /// The tool in use.
    pub closed spec fn tool(&self) -> ActiveTool {
        self.tool
    }

    /// The swatches of the palette.
    pub closed spec fn swatches(&self) -> Seq<ColorButton> {
        self.color_picker@
    }

    /// A white canvas, an idle rectangle tool that draws in black, and the palette.
    pub fn new() -> (app: Self)
        ensures
            app.canvas() == plain(Color { r: 0xff, g: 0xff, b: 0xff }),
            app.swatches() == palette(),
            app.tool() matches ActiveTool::Rectangle(tool) && tool.origin() == (0isize, 0isize)
                && tool.pointer() == (0isize, 0isize) && !tool.is_down() && tool.outline_color()
                == (Color { r: 0x00, g: 0x00, b: 0x00 }),
    {
        Self {
            canvas: Canvas::new(),
            tool: ActiveTool::Rectangle(Rectangel::new()),
            color_picker: ColorPicker::new(),
        }
    }

    /// Takes a press of the pointer at `mouse`.
    pub fn handle_press(&mut self, mouse: (isize, isize))
        ensures
            (final(self).tool(), final(self).canvas()) == pressed(
                old(self).tool(),
                old(self).canvas(),
                mouse,
            ),
            final(self).swatches() == old(self).swatches(),
    {
        if !within_reach(mouse) {
            return ;
        }
        self.tool.handle_press(mouse, &mut self.canvas);
        if let Some(color) = self.color_picker.pick_color(mouse) {
            self.tool.set_outline_color(color);
        }
    }

    /// Takes a move of the pointer, held down, from `prev_mouse` to `curr_mouse`.
    pub fn handle_hold(&mut self, prev_mouse: (isize, isize), curr_mouse: (isize, isize))
        ensures
            (final(self).tool(), final(self).canvas()) == held(
                old(self).tool(),
                old(self).canvas(),
                prev_mouse,
                curr_mouse,
            ),
            final(self).swatches() == old(self).swatches(),
    {
        if !within_reach(prev_mouse) || !within_reach(curr_mouse) {
            return ;
        }
        self.tool.handle_hold(prev_mouse, curr_mouse, &mut self.canvas);
    }

    /// Takes a release of the pointer at `mouse`.
    pub fn handle_release(&mut self, mouse: (isize, isize))
        ensures
            (final(self).tool(), final(self).canvas()) == released(
                old(self).tool(),
                old(self).canvas(),
                mouse,
            ),
            final(self).swatches() == old(self).swatches(),
    {
        if !within_reach(mouse) {
            return ;
        }
        self.tool.handle_release(mouse, &mut self.canvas);
    }

    /// Puts another tool in use. Whatever the tool in use was in the middle of
    /// is dropped with it.
    pub fn switch_tool(&mut self, tool: ActiveTool)
        ensures
            final(self).tool() == tool,
            final(self).canvas() == old(self).canvas(),
            final(self).swatches() == old(self).swatches(),
    {
        self.tool = tool;
    }

    /// Draws the application into a frame.
    pub fn draw(&self, frame: &mut [u8])
        ensures
            final(frame)@ == drawn(
                old(frame)@,
                self.canvas(),
                self.tool().layer(),
                self.swatches(),
            ),
    {
        let mut buffer = Buffer::new(frame);

        {
            let mut canvas_buffer = buffer.lend(
                ((BORDER_WIDTH, BORDER_WIDTH), (CANVAS_WIDTH, CANVAS_HEIGHT)),
            );

            self.canvas.display(&mut canvas_buffer);
            self.tool.display(&mut canvas_buffer);
        }

        let mut picker_buffer = buffer.lend(
            ((BORDER_WIDTH, 2 * BORDER_WIDTH + CANVAS_HEIGHT), (CANVAS_WIDTH, BUTTON_SIZE)),
        );
        self.color_picker.display(&mut picker_buffer);
    }
}

} // verus!
