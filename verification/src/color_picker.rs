//! The palette: a row of colour swatches below the canvas, picked by a press.

use crate::buffer::{clipped, lemma_draw_step, lemma_overlay_nothing, lemma_overlay_twice, overlay, Guard, GuardedBuffer};
use crate::canvas::CANVAS_HEIGHT;
use crate::color::{Color, PixelMap};
use crate::tools::stroke::spot;
use crate::widget::Widget;
use crate::BORDER_WIDTH;
use vstd::prelude::*;

verus! {

/// Width and height of a swatch, in pixels.
pub const BUTTON_SIZE: usize = 5;

/// Number of swatches of the palette.
pub const SWATCHES: usize = 5;

/// A swatch: a square of one colour, `BUTTON_SIZE` pixels wide and high, with
/// its top-left corner at `(x, y)`.
#[derive(Clone, Copy, PartialEq, Eq, Structural, Debug)]
pub struct ColorButton {
    pub color: Color,
    pub x: isize,
    pub y: isize,
}

impl ColorButton {
    /// Whether the swatch covers the position.
    pub open spec fn covers(&self, at: (int, int)) -> bool {
        &&& self.x <= at.0 < self.x + BUTTON_SIZE
        &&& self.y <= at.1 < self.y + BUTTON_SIZE
    }

    /// Whether a press at `mouse` hits the swatch.
    pub fn clicked(&self, mouse: (isize, isize)) -> (hit: bool)
        ensures
            hit == self.covers(spot(mouse)),
    {
        let off_x = (mouse.0 as i128) - (self.x as i128);
        let off_y = (mouse.1 as i128) - (self.y as i128);
        0 <= off_x && off_x < (BUTTON_SIZE as i128) && 0 <= off_y && off_y < (BUTTON_SIZE as i128)
    }

    /// The part of the swatch drawn before its pixel number `count`, column by column.
    spec fn first_pixels(&self, count: int) -> PixelMap {
        Map::new(
            |at: (int, int)|
                self.covers(at) && (at.0 - self.x) * BUTTON_SIZE + (at.1 - self.y) < count,
            |at: (int, int)| self.color,
        )
    }
}

impl Widget for ColorButton {
    /// A swatch shows its colour on the square it covers.
    open spec fn layer(&self) -> PixelMap {
        Map::new(|at: (int, int)| self.covers(at), |at: (int, int)| self.color)
    }

    fn display<G: Guard>(&self, buffer: &mut GuardedBuffer<'_, '_, G>) {
        proof {
            assert(clipped(self.first_pixels(0), buffer.guard) =~= Map::<(int, int), Color>::empty());
            lemma_overlay_nothing(buffer.frame(), clipped(self.first_pixels(0), buffer.guard));
        }
        let mut x: usize = 0;
        while x < BUTTON_SIZE
            invariant
                x <= BUTTON_SIZE,
                buffer.guard == old(buffer).guard,
                buffer.frame() == overlay(
                    old(buffer).frame(),
                    clipped(self.first_pixels(x * BUTTON_SIZE), buffer.guard),
                ),
                *final(buffer.buffer) == *final(old(buffer).buffer),
                final(buffer.buffer.pixels)@ == final(old(buffer).buffer.pixels)@,
            decreases BUTTON_SIZE - x,
        {
            let mut y: usize = 0;
            while y < BUTTON_SIZE
                invariant
                    x < BUTTON_SIZE,
                    y <= BUTTON_SIZE,
                    buffer.guard == old(buffer).guard,
                    buffer.frame() == overlay(
                        old(buffer).frame(),
                        clipped(self.first_pixels(x * BUTTON_SIZE + y), buffer.guard),
                    ),
                    *final(buffer.buffer) == *final(old(buffer).buffer),
                    final(buffer.buffer.pixels)@ == final(old(buffer).buffer.pixels)@,
                decreases BUTTON_SIZE - y,
            {
                let at_x = (self.x as i128) + (x as i128);
                let at_y = (self.y as i128) + (y as i128);
                proof {
                    let count = x * BUTTON_SIZE + y;
                    let before = clipped(self.first_pixels(count), buffer.guard);
                    let after = clipped(self.first_pixels(count + 1), buffer.guard);
                    if at_x >= 0 && at_y >= 0 && buffer.guard.admits(at_x as int, at_y as int) {
                        assert(after =~= before.insert((at_x as int, at_y as int), self.color));
                        lemma_draw_step(
                            old(buffer).frame(),
                            before,
                            at_x as int,
                            at_y as int,
                            self.color,
                        );
                    } else if at_x >= 0 && at_y >= 0 {
                        assert(after =~= before);
                    } else {
                        crate::buffer::lemma_overlay_agree(old(buffer).frame(), before, after);
                    }
                }
                if at_x >= 0 && at_y >= 0 {
                    buffer.put_pixel(at_x as usize, at_y as usize, self.color);
                }
                y += 1;
            }
            x += 1;
        }
        proof {
            assert(self.first_pixels(BUTTON_SIZE * BUTTON_SIZE) =~= self.layer());
        }
    }
}

/// The colour of swatch `i` of the palette: red, black, green, blue, white.
pub open spec fn palette_color(i: int) -> Color {
    if i == 0 {
        Color { r: 0xff, g: 0x00, b: 0x00 }
    } else if i == 1 {
        Color { r: 0x00, g: 0x00, b: 0x00 }
    } else if i == 2 {
        Color { r: 0x00, g: 0xff, b: 0x00 }
    } else if i == 3 {
        Color { r: 0x00, g: 0x00, b: 0xff }
    } else {
        Color { r: 0xff, g: 0xff, b: 0xff }
    }
}

/// Swatch `i` of the palette. The swatches stand in a row one margin below
/// the canvas, from the left, one margin apart.
pub open spec fn swatch(i: int) -> ColorButton {
    ColorButton {
        color: palette_color(i),
        x: ((BUTTON_SIZE + BORDER_WIDTH) * i + BORDER_WIDTH) as isize,
        y: (CANVAS_HEIGHT + 2 * BORDER_WIDTH) as isize,
    }
}

/// The swatches of the palette, from left to right.
pub open spec fn palette() -> Seq<ColorButton> {
    Seq::new(SWATCHES as nat, |i: int| swatch(i))
}

/// The colour of the first of the swatches that covers the position, if one does.
pub open spec fn pick(buttons: Seq<ColorButton>, at: (int, int)) -> Option<Color>
    decreases buttons.len(),
{
    if buttons.len() == 0 {
        None
    } else if buttons[0].covers(at) {
        Some(buttons[0].color)
    } else {
        pick(buttons.drop_first(), at)
    }
}

/// What a row of swatches shows: each its square, a later one over an earlier one.
pub open spec fn shown(buttons: Seq<ColorButton>) -> PixelMap
    decreases buttons.len(),
{
    if buttons.len() == 0 {
        Map::empty()
    } else {
        shown(buttons.drop_last()).union_prefer_right(buttons.last().layer())
    }
}

/// A press on a swatch picks that swatch's colour.
pub proof fn lemma_pick_swatch(i: int, at: (int, int))
    requires
        0 <= i < SWATCHES,
        swatch(i).covers(at),
    ensures
        pick(palette(), at) == Some(palette_color(i)),
{
    reveal_with_fuel(pick, 6);
    let all = palette();
    assert(all.drop_first()[0] == swatch(1));
    assert(all.drop_first().drop_first()[0] == swatch(2));
    assert(all.drop_first().drop_first().drop_first()[0] == swatch(3));
    assert(all.drop_first().drop_first().drop_first().drop_first()[0] == swatch(4));
}

/// A press that hits no swatch picks nothing. Such are the presses in the gap
/// between two swatches that stand next to each other, and those above or
/// below the row.
pub proof fn lemma_pick_nothing(at: (int, int))
    requires
        forall|i: int| 0 <= i < SWATCHES ==> !swatch(i).covers(at),
    ensures
        pick(palette(), at) == None::<Color>,
{
    reveal_with_fuel(pick, 6);
    let all = palette();
    assert(!swatch(0).covers(at));
    assert(!swatch(1).covers(at));
    assert(!swatch(2).covers(at));
    assert(!swatch(3).covers(at));
    assert(!swatch(4).covers(at));
    assert(all.drop_first()[0] == swatch(1));
    assert(all.drop_first().drop_first()[0] == swatch(2));
    assert(all.drop_first().drop_first().drop_first()[0] == swatch(3));
    assert(all.drop_first().drop_first().drop_first().drop_first()[0] == swatch(4));
    assert(all.drop_first().drop_first().drop_first().drop_first().drop_first().len() == 0);
}

/// Between two swatches that stand next to each other lies a gap that
/// neither covers, nor any other swatch.
pub proof fn lemma_gap(i: int, at: (int, int))
    requires
        0 <= i < SWATCHES - 1,
        swatch(i).x + BUTTON_SIZE <= at.0 < swatch(i + 1).x,
    ensures
        pick(palette(), at) == None::<Color>,
{
    lemma_pick_nothing(at);
}

/// The palette. It is made once and never changes.
pub struct ColorPicker {
    buttons: Vec<ColorButton>,
}

impl View for ColorPicker {
    type V = Seq<ColorButton>;

    closed spec fn view(&self) -> Seq<ColorButton> {
        self.buttons@
    }
}

impl ColorPicker {
    #[verifier::type_invariant]
    spec fn well_formed(&self) -> bool {
        self.buttons@ == palette()
    }

    /// The palette of five swatches.
    pub fn new() -> (picker: Self)
        ensures
            picker@ == palette(),
    {
        let y = (CANVAS_HEIGHT + 2 * BORDER_WIDTH) as isize;
        let colors: [Color; 5] = [
            Color::from((0xff, 0x00, 0x00)),
            Color::from((0x00, 0x00, 0x00)),
            Color::from((0x00, 0xff, 0x00)),
            Color::from((0x00, 0x00, 0xff)),
            Color::from((0xff, 0xff, 0xff)),
        ];
        let mut buttons: Vec<ColorButton> = Vec::new();
        let mut i: usize = 0;
        while i < SWATCHES
            invariant
                i <= SWATCHES,
                y == CANVAS_HEIGHT + 2 * BORDER_WIDTH,
                buttons@.len() == i,
                forall|k: int| 0 <= k < SWATCHES ==> colors@[k] == palette_color(k),
                forall|k: int| 0 <= k < i ==> buttons@[k] == swatch(k),
            decreases SWATCHES - i,
        {
            let x = ((BUTTON_SIZE + BORDER_WIDTH) * i + BORDER_WIDTH) as isize;
            buttons.push(ColorButton { color: colors[i], x, y });
            i += 1;
        }
        assert(buttons@ =~= palette());
        Self { buttons }
    }

    /// The colour picked by a press at `mouse`: that of the swatch pressed, if
    /// one was. The palette stays as it is.
    pub fn pick_color(&mut self, mouse: (isize, isize)) -> (picked: Option<Color>)
        ensures
            picked == pick(palette(), spot(mouse)),
            final(self)@ == old(self)@,
    {
        proof {
            use_type_invariant(&*self);
            assert(self.buttons@.subrange(0, self.buttons@.len() as int) =~= palette());
        }
        let mut i: usize = 0;
        while i < self.buttons.len()
            invariant
                i <= self.buttons@.len(),
                self.buttons@ == palette(),
                *self == *old(self),
                pick(palette(), spot(mouse)) == pick(
                    self.buttons@.subrange(i as int, self.buttons@.len() as int),
                    spot(mouse),
                ),
            decreases self.buttons@.len() - i,
        {
            let ghost rest = self.buttons@.subrange(i as int, self.buttons@.len() as int);
            assert(rest[0] == self.buttons@[i as int]);
            assert(rest.drop_first() =~= self.buttons@.subrange(
                i as int + 1,
                self.buttons@.len() as int,
            ));
            if self.buttons[i].clicked(mouse) {
                return Some(self.buttons[i].color);
            }
            i += 1;
        }
        None
    }
}

impl Widget for ColorPicker {
    /// The palette shows its swatches.
    open spec fn layer(&self) -> PixelMap {
        shown(self@)
    }

    fn display<G: Guard>(&self, buffer: &mut GuardedBuffer<'_, '_, G>) {
        proof {
            assert(self.buttons@.take(0) =~= Seq::<ColorButton>::empty());
            assert(clipped(shown(self.buttons@.take(0)), buffer.guard) =~= Map::<
                (int, int),
                Color,
            >::empty());
            lemma_overlay_nothing(
                buffer.frame(),
                clipped(shown(self.buttons@.take(0)), buffer.guard),
            );
        }
        let mut i: usize = 0;
        while i < self.buttons.len()
            invariant
                i <= self.buttons@.len(),
                buffer.guard == old(buffer).guard,
                buffer.frame() == overlay(
                    old(buffer).frame(),
                    clipped(shown(self.buttons@.take(i as int)), buffer.guard),
                ),
                *final(buffer.buffer) == *final(old(buffer).buffer),
                final(buffer.buffer.pixels)@ == final(old(buffer).buffer.pixels)@,
            decreases self.buttons@.len() - i,
        {
            proof {
                let fewer = self.buttons@.take(i as int);
                let more = self.buttons@.take(i as int + 1);
                assert(more.drop_last() =~= fewer);
                assert(more.last() == self.buttons@[i as int]);
                lemma_overlay_twice(
                    old(buffer).frame(),
                    clipped(shown(fewer), buffer.guard),
                    clipped(self.buttons@[i as int].layer(), buffer.guard),
                );
                assert(clipped(shown(fewer), buffer.guard).union_prefer_right(
                    clipped(self.buttons@[i as int].layer(), buffer.guard),
                ) =~= clipped(shown(more), buffer.guard));
            }
            self.buttons[i].display(buffer);
            i += 1;
        }
        proof {
            assert(self.buttons@.take(self.buttons@.len() as int) =~= self.buttons@);
        }
    }
}

} // verus!
