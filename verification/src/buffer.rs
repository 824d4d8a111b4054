//! The frame buffer: raw RGBA bytes, written pixel by pixel, and lent out
//! region by region so that no part of the screen can draw over another.

use crate::color::{Color, PixelMap};
use crate::{HEIGHT, WIDTH};
use std::ops::Range;
use vstd::prelude::*;

verus! {

/// Whether `(x, y)` is a pixel of the frame.
pub open spec fn in_frame(x: int, y: int) -> bool {
    0 <= x < WIDTH && 0 <= y < HEIGHT
}

/// Where the four bytes of pixel `(x, y)` start: rows are packed tightly.
pub open spec fn pixel_offset(x: int, y: int) -> int {
    (x + y * WIDTH) * 4
}

/// Byte `k` of a pixel of the given colour: red, green, blue, then full opacity.
pub open spec fn channel(color: Color, k: int) -> u8 {
    if k == 0 {
        color.r
    } else if k == 1 {
        color.g
    } else if k == 2 {
        color.b
    } else {
        0xff
    }
}

/// The bytes after one pixel has been written. Nothing changes unless `(x, y)`
/// is a pixel of the frame and the bytes are long enough to hold it.
pub open spec fn with_pixel(bytes: Seq<u8>, x: int, y: int, color: Color) -> Seq<u8> {
    let ix = pixel_offset(x, y);
    if in_frame(x, y) && ix + 4 <= bytes.len() {
        bytes.update(ix, color.r).update(ix + 1, color.g).update(ix + 2, color.b).update(
            ix + 3,
            0xffu8,
        )
    } else {
        bytes
    }
}

/// Byte `i` of a frame on which `layer` has been drawn.
pub open spec fn overlaid_byte(bytes: Seq<u8>, layer: PixelMap, i: int) -> u8 {
    let p = i / 4;
    let at = (p % (WIDTH as int), p / (WIDTH as int));
    if at.1 < HEIGHT && 4 * p + 4 <= bytes.len() && layer.dom().contains(at) {
        channel(layer[at], i % 4)
    } else {
        bytes[i]
    }
}

/// The frame after `layer` has been drawn on it: every pixel of the frame that
/// the layer colours is opaque and has that colour, every other byte is kept.
pub open spec fn overlay(bytes: Seq<u8>, layer: PixelMap) -> Seq<u8> {
    Seq::new(bytes.len(), |i: int| overlaid_byte(bytes, layer, i))
}

/// The layer that colours the single position `(x, y)`.
pub open spec fn dot(x: int, y: int, color: Color) -> PixelMap {
    Map::empty().insert((x, y), color)
}

/// Writing one pixel is drawing a layer of one dot.
pub proof fn lemma_pixel_is_dot(bytes: Seq<u8>, x: int, y: int, color: Color)
    ensures
        with_pixel(bytes, x, y, color) == overlay(bytes, dot(x, y, color)),
{
    let layer = dot(x, y, color);
    let ix = pixel_offset(x, y);
    assert forall|i: int| 0 <= i < bytes.len() implies with_pixel(bytes, x, y, color)[i]
        == overlaid_byte(bytes, layer, i) by {
        let p = i / 4;
        let at = (p % (WIDTH as int), p / (WIDTH as int));
        if at == (x, y) {
            assert(p == x + y * WIDTH);
        }
        if in_frame(x, y) && ix <= i < ix + 4 {
            assert(p == x + y * WIDTH);
        }
    }
    assert(with_pixel(bytes, x, y, color) =~= overlay(bytes, layer));
}

/// Drawing one layer and then another is drawing both at once, the later one on top.
pub proof fn lemma_overlay_twice(bytes: Seq<u8>, below: PixelMap, above: PixelMap)
    ensures
        overlay(overlay(bytes, below), above) == overlay(bytes, below.union_prefer_right(above)),
{
    assert(overlay(overlay(bytes, below), above) =~= overlay(
        bytes,
        below.union_prefer_right(above),
    ));
}

/// Drawing a layer a second time changes nothing.
pub proof fn lemma_overlay_again(bytes: Seq<u8>, layer: PixelMap)
    ensures
        overlay(overlay(bytes, layer), layer) == overlay(bytes, layer),
{
    lemma_overlay_twice(bytes, layer, layer);
    assert(layer.union_prefer_right(layer) =~= layer);
}

/// Writing one more pixel onto a drawn layer gives the layer with that position recoloured.
pub proof fn lemma_draw_step(bytes: Seq<u8>, drawn: PixelMap, x: int, y: int, color: Color)
    ensures
        with_pixel(overlay(bytes, drawn), x, y, color) == overlay(
            bytes,
            drawn.insert((x, y), color),
        ),
{
    lemma_pixel_is_dot(overlay(bytes, drawn), x, y, color);
    lemma_overlay_twice(bytes, drawn, dot(x, y, color));
    assert(drawn.union_prefer_right(dot(x, y, color)) =~= drawn.insert((x, y), color));
}

/// Two layers that colour the pixels of the frame alike draw the same frame.
pub proof fn lemma_overlay_agree(bytes: Seq<u8>, one: PixelMap, other: PixelMap)
    requires
        forall|x: int, y: int|
            in_frame(x, y) ==> (one.dom().contains((x, y)) <==> other.dom().contains((x, y))),
        forall|x: int, y: int|
            in_frame(x, y) && one.dom().contains((x, y)) ==> one[(x, y)] == other[(x, y)],
    ensures
        overlay(bytes, one) == overlay(bytes, other),
{
    assert forall|i: int| 0 <= i < bytes.len() implies overlaid_byte(bytes, one, i)
        == overlaid_byte(bytes, other, i) by {
        let p = i / 4;
        assert(in_frame(p % (WIDTH as int), p / (WIDTH as int)) || !(p / (WIDTH as int) < HEIGHT));
    }
    assert(overlay(bytes, one) =~= overlay(bytes, other));
}

/// A layer that colours no pixel of the frame leaves the frame as it is.
pub proof fn lemma_overlay_nothing(bytes: Seq<u8>, layer: PixelMap)
    requires
        forall|x: int, y: int| in_frame(x, y) ==> !layer.dom().contains((x, y)),
    ensures
        overlay(bytes, layer) == bytes,
{
    lemma_overlay_agree(bytes, layer, Map::empty());
    assert(overlay(bytes, Map::empty()) =~= bytes);
}

/// A containment rule for drawing: which positions of the screen a borrower of
/// the frame may write.
pub trait Guard {
    /// Whether the rule lets `(x, y)` be written.
    spec fn admits(&self, x: int, y: int) -> bool;

    /// Tells whether the rule lets `(x, y)` be written.
    fn contains_pixel(&self, x: usize, y: usize) -> (inside: bool)
        ensures
            inside == self.admits(x as int, y as int),
    ;
}

/// A rectangle given as `((left, top), (width, height))`.
impl Guard for ((usize, usize), (usize, usize)) {
    open spec fn admits(&self, x: int, y: int) -> bool {
        &&& self.0.0 <= x < self.0.0 + self.1.0
        &&& self.0.1 <= y < self.0.1 + self.1.1
    }

    fn contains_pixel(&self, x: usize, y: usize) -> (inside: bool) {
        let ((left, top), (width, height)) = *self;
        left <= x && x - left < width && top <= y && y - top < height
    }
}

/// A rectangle given as a half-open range of columns and one of rows.
impl Guard for (Range<usize>, Range<usize>) {
    open spec fn admits(&self, x: int, y: int) -> bool {
        &&& self.0.start <= x < self.0.end
        &&& self.1.start <= y < self.1.end
    }

    fn contains_pixel(&self, x: usize, y: usize) -> (inside: bool) {
        self.0.start <= x && x < self.0.end && self.1.start <= y && y < self.1.end
    }
}

/// The part of `layer` that lies where `guard` lets it be drawn.
pub open spec fn clipped<G: Guard>(layer: PixelMap, guard: G) -> PixelMap {
    Map::new(
        |at: (int, int)| layer.dom().contains(at) && guard.admits(at.0, at.1),
        |at: (int, int)| layer[at],
    )
}

/// What is drawn into a lent frame stays where the lender's rule admits it:
/// the bytes of every pixel that the rule does not admit are as they were.
pub proof fn lemma_lent_confines<G: Guard>(bytes: Seq<u8>, layer: PixelMap, guard: G, i: int)
    requires
        0 <= i < bytes.len(),
        !guard.admits((i / 4) % (WIDTH as int), (i / 4) / (WIDTH as int)),
    ensures
        overlay(bytes, clipped(layer, guard)).len() == bytes.len(),
        overlay(bytes, clipped(layer, guard))[i] == bytes[i],
{
}

/// A frame of `WIDTH` by `HEIGHT` pixels, four bytes each, borrowed from whoever
/// presents it.
///
/// The contracts speak of two things: `pixels@`, the bytes as the buffer holds
/// them now, and `final(pixels)@`, the bytes as the one who lent them finds
/// them when the loan is over. A write changes the first and leaves the
/// second alone: the buffer writes through to the same bytes all its life.
pub struct Buffer<'p> {
    pub pixels: &'p mut [u8],
}

impl<'p> Buffer<'p> {
    /// Wraps the borrowed bytes of a frame.
    pub fn new(pixels: &'p mut [u8]) -> (buffer: Self)
        ensures
            buffer.pixels@ == old(pixels)@,
            final(buffer.pixels)@ == final(pixels)@,
    {
        Self { pixels }
    }

    /// Writes one opaque pixel. A position outside the frame, or one that the
    /// borrowed bytes are too short to hold, is ignored.
    pub fn put_pixel(&mut self, x: usize, y: usize, color: Color)
        ensures
            final(self).pixels@ == with_pixel(old(self).pixels@, x as int, y as int, color),
            final(final(self).pixels)@ == final(old(self).pixels)@,
    {
        if let Some(ix) = Self::calc_pixel_ix(x, y) {
            if ix + 4 <= self.pixels.len() {
                self.pixels[ix] = color.r;
                self.pixels[ix + 1] = color.g;
                self.pixels[ix + 2] = color.b;
                self.pixels[ix + 3] = 0xff;
            }
        }
    }

    /// Lends the frame out for drawing under a containment rule.
    pub fn lend<'b, G: Guard>(&'b mut self, guard: G) -> (lent: GuardedBuffer<'b, 'p, G>)
        ensures
            lent.guard == guard,
            lent.buffer.pixels@ == old(self).pixels@,
            final(lent.buffer.pixels)@ == final(old(self).pixels)@,
            *final(self) == *final(lent.buffer),
    {
        GuardedBuffer::new(self, guard)
    }

    /// Fills the frame with one colour, four bytes at a time; bytes left over at
    /// the end, fewer than four, are kept.
    pub fn clear(&mut self, color: Color)
        ensures
            final(self).pixels@ == Seq::new(
                old(self).pixels@.len(),
                |i: int|
                    if i < old(self).pixels@.len() - old(self).pixels@.len() % 4 {
                        channel(color, i % 4)
                    } else {
                        old(self).pixels@[i]
                    },
            ),
            final(final(self).pixels)@ == final(old(self).pixels)@,
    {
        let len = self.pixels.len();
        let mut ix: usize = 0;
        while len - ix >= 4
            invariant
                ix <= len,
                ix % 4 == 0,
                len == old(self).pixels@.len(),
                self.pixels@.len() == len,
                forall|i: int| 0 <= i < ix ==> self.pixels@[i] == channel(color, i % 4),
                forall|i: int| ix <= i < len ==> self.pixels@[i] == old(self).pixels@[i],
                final(self.pixels)@ == final(old(self).pixels)@,
            decreases len - ix,
        {
            self.pixels[ix] = color.r;
            self.pixels[ix + 1] = color.g;
            self.pixels[ix + 2] = color.b;
            self.pixels[ix + 3] = 0xff;
            ix += 4;
        }
    }

    /// The offset of pixel `(x, y)` in the frame's bytes, if the frame has such a pixel.
    pub fn calc_pixel_ix(x: usize, y: usize) -> (ix: Option<usize>)
        ensures
            ix == if in_frame(x as int, y as int) {
                Some(pixel_offset(x as int, y as int) as usize)
            } else {
                None::<usize>
            },
            in_frame(x as int, y as int) ==> pixel_offset(x as int, y as int) + 4 <= WIDTH * HEIGHT
                * 4,
    {
        if x < WIDTH && y < HEIGHT {
            Some((x + y * WIDTH) * 4)
        } else {
            None
        }
    }
}

/// A frame on loan: it takes pixel writes as the frame does, and drops those
/// that its containment rule does not admit.
///
/// As the frame writes through to the bytes it borrowed, so the loan writes
/// through to the frame: when the loan is over the frame holds what the loan
/// held last, and still gives it back to the same lender.
pub struct GuardedBuffer<'b, 'p, G: Guard> {
    pub buffer: &'b mut Buffer<'p>,
    pub guard: G,
}

impl<'b, 'p, G: Guard> GuardedBuffer<'b, 'p, G> {
    /// The bytes of the frame on loan.
    pub open spec fn frame(&self) -> Seq<u8> {
        self.buffer.pixels@
    }

    /// Takes the frame on loan under a containment rule.
    pub fn new(buffer: &'b mut Buffer<'p>, guard: G) -> (lent: Self)
        ensures
            lent.guard == guard,
            lent.buffer.pixels@ == old(buffer).pixels@,
            final(lent.buffer.pixels)@ == final(old(buffer).pixels)@,
            *final(buffer) == *final(lent.buffer),
    {
        Self { buffer, guard }
    }

    /// Writes one opaque pixel if the containment rule admits its position.
    pub fn put_pixel(&mut self, x: usize, y: usize, color: Color)
        ensures
            final(self).guard == old(self).guard,
            final(self).frame() == if old(self).guard.admits(x as int, y as int) {
                with_pixel(old(self).frame(), x as int, y as int, color)
            } else {
                old(self).frame()
            },
            *final(final(self).buffer) == *final(old(self).buffer),
            final(final(self).buffer.pixels)@ == final(old(self).buffer.pixels)@,
    {
        if self.guard.contains_pixel(x, y) {
            self.buffer.put_pixel(x, y, color);
        }
    }
}

} // verus!
