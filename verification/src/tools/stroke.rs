//! Strokes: the positions that a tool marks, as a list. A stroke is committed
//! to the canvas or previewed in a frame, and only what of it is in view can
//! make a difference to either.

use crate::buffer::{
    clipped, in_frame, lemma_draw_step, lemma_overlay_agree, lemma_overlay_nothing, overlay, Guard,
    GuardedBuffer,
};
use crate::canvas::{canvas_region, on_canvas, Canvas, CANVAS_HEIGHT, CANVAS_WIDTH};
use crate::color::{Color, PixelMap};
use crate::{BORDER_WIDTH, HEIGHT, WIDTH};
use vstd::prelude::*;

verus! {

/// A position as a pair of mathematical integers.
pub open spec fn spot(point: (isize, isize)) -> (int, int) {
    (point.0 as int, point.1 as int)
}

/// A list of positions as pairs of mathematical integers.
pub open spec fn spots(points: Seq<(isize, isize)>) -> Seq<(int, int)> {
    Seq::new(points.len(), |i: int| spot(points[i]))
}

/// Whether something at the position can show: it is a cell of the canvas or
/// a pixel of the frame.
pub open spec fn in_view(at: (int, int)) -> bool {
    on_canvas(at.0, at.1) || in_frame(at.0, at.1)
}

/// The positions of a set that are in view.
pub open spec fn in_sight(marks: Set<(int, int)>) -> Set<(int, int)> {
    Set::new(|at: (int, int)| in_view(at) && marks.contains(at))
}

/// Whether two sets of positions hold the same positions in view.
pub open spec fn alike_in_view(one: Set<(int, int)>, other: Set<(int, int)>) -> bool {
    forall|at: (int, int)|
        #![trigger one.contains(at)]
        #![trigger other.contains(at)]
        in_view(at) ==> (one.contains(at) <==> other.contains(at))
}

/// Whether every position of a list is in view.
pub open spec fn all_in_view(points: Seq<(isize, isize)>) -> bool {
    forall|i: int| 0 <= i < points.len() ==> in_view(spot(#[trigger] points[i]))
}

/// Whether something at the position can show.
pub fn shows(point: (isize, isize)) -> (visible: bool)
    ensures
        visible == in_view(spot(point)),
{
    if point.0 < 0 || point.1 < 0 {
        return false;
    }
    let x = point.0 as usize;
    let y = point.1 as usize;
    (x < WIDTH && y < HEIGHT) || (BORDER_WIDTH <= x && x - BORDER_WIDTH < CANVAS_WIDTH
        && BORDER_WIDTH <= y && y - BORDER_WIDTH < CANVAS_HEIGHT)
}

/// A list of positions in view that holds what a set holds in view holds
/// exactly the part of the set that is in view.
pub proof fn lemma_in_sight(points: Seq<(isize, isize)>, marks: Set<(int, int)>)
    requires
        all_in_view(points),
        alike_in_view(spots(points).to_set(), marks),
    ensures
        spots(points).to_set() == in_sight(marks),
{
    assert forall|at: (int, int)| spots(points).to_set().contains(at) implies in_view(at) by {
        let i = choose|i: int| 0 <= i < spots(points).len() && spots(points)[i] == at;
        assert(in_view(spot(points[i])));
    }
    assert(spots(points).to_set() =~= in_sight(marks));
}

/// The canvas after a stroke: its cells at the marked positions take the
/// stroke's colour, the others keep theirs.
pub open spec fn stamped(pixels: PixelMap, marks: Set<(int, int)>, color: Color) -> PixelMap {
    Map::new(
        |at: (int, int)| pixels.dom().contains(at),
        |at: (int, int)|
            if marks.contains(at) {
                color
            } else {
                pixels[at]
            },
    )
}

/// What a stroke shows before it is committed: its colour at the marked positions.
pub open spec fn tint(marks: Set<(int, int)>, color: Color) -> PixelMap {
    Map::new(|at: (int, int)| marks.contains(at), |at: (int, int)| color)
}

/// A stroke colours the cells it marks and no others: a cell of the canvas
/// reads the stroke's colour after it if the stroke marks it, and what it
/// read before if not.
pub proof fn lemma_stamp_reads(pixels: PixelMap, marks: Set<(int, int)>, color: Color, at: (int, int))
    requires
        pixels.dom().contains(at),
    ensures
        stamped(pixels, marks, color).dom() == pixels.dom(),
        stamped(pixels, marks, color)[at] == if marks.contains(at) {
            color
        } else {
            pixels[at]
        },
{
    assert(stamped(pixels, marks, color).dom() =~= pixels.dom());
}

/// What a stroke marks out of view leaves no trace on the canvas.
pub proof fn lemma_stamp_in_sight(pixels: PixelMap, marks: Set<(int, int)>, color: Color)
    requires
        pixels.dom() == canvas_region(),
    ensures
        stamped(pixels, in_sight(marks), color) == stamped(pixels, marks, color),
{
    assert forall|at: (int, int)| pixels.dom().contains(at) implies (in_sight(marks).contains(at)
        <==> marks.contains(at)) by {
        assert(in_view(at));
    }
    assert(stamped(pixels, in_sight(marks), color) =~= stamped(pixels, marks, color));
}

/// What a stroke marks out of view does not show in a frame.
pub proof fn lemma_paint_in_sight<G: Guard>(
    bytes: Seq<u8>,
    marks: Set<(int, int)>,
    color: Color,
    guard: G,
)
    ensures
        overlay(bytes, clipped(tint(in_sight(marks), color), guard)) == overlay(
            bytes,
            clipped(tint(marks, color), guard),
        ),
{
    assert forall|x: int, y: int| in_frame(x, y) implies (in_sight(marks).contains((x, y))
        <==> marks.contains((x, y))) by {
        assert(in_view((x, y)));
    }
    lemma_overlay_agree(
        bytes,
        clipped(tint(in_sight(marks), color), guard),
        clipped(tint(marks, color), guard),
    );
}

/// The positions among the first `count + 1` of a list are those among the
/// first `count`, and the one after them.
pub proof fn lemma_marks_grow(points: Seq<(int, int)>, count: int)
    requires
        0 <= count < points.len(),
    ensures
        points.take(count + 1).to_set() == points.take(count).to_set().insert(points[count]),
{
    let more = points.take(count + 1);
    let fewer = points.take(count);
    assert forall|at: (int, int)|
        more.to_set().contains(at) <==> fewer.to_set().insert(points[count]).contains(at) by {
        if more.contains(at) {
            let k = choose|k: int| 0 <= k < more.len() && more[k] == at;
            if k < count {
                assert(fewer[k] == at);
            }
        }
        if fewer.contains(at) {
            let k = choose|k: int| 0 <= k < fewer.len() && fewer[k] == at;
            assert(more[k] == at);
        }
        assert(more[count] == points[count]);
    }
    assert(more.to_set() =~= fewer.to_set().insert(points[count]));
}

/// The positions of a list with one more at its end are those of the list, and that one.
pub proof fn lemma_marks_push(points: Seq<(isize, isize)>, point: (isize, isize))
    ensures
        spots(points.push(point)).to_set() == spots(points).to_set().insert(spot(point)),
{
    let all = spots(points.push(point));
    lemma_marks_grow(all, points.len() as int);
    assert(all.take(points.len() as int) =~= spots(points));
    assert(all.take(points.len() as int + 1) =~= all);
}

/// Adds the position to the list if it is in view.
pub(crate) fn note(points: &mut Vec<(isize, isize)>, point: (isize, isize))
    ensures
        final(points)@ == if in_view(spot(point)) {
            old(points)@.push(point)
        } else {
            old(points)@
        },
        spots(final(points)@).to_set() == if in_view(spot(point)) {
            spots(old(points)@).to_set().insert(spot(point))
        } else {
            spots(old(points)@).to_set()
        },
        all_in_view(old(points)@) ==> all_in_view(final(points)@),
{
    proof {
        lemma_marks_push(points@, point);
    }
    if shows(point) {
        points.push(point);
    }
}

/// Commits a stroke to the canvas: every listed position that shows a cell of
/// the canvas takes the colour.
pub fn stamp(canvas: &mut Canvas, points: &Vec<(isize, isize)>, color: Color)
    ensures
        final(canvas)@ == stamped(old(canvas)@, spots(points@).to_set(), color),
{
    proof {
        old(canvas).lemma_extent();
        assert(spots(points@).take(0).to_set() =~= Set::<(int, int)>::empty());
        assert(canvas@ =~= stamped(canvas@, Set::<(int, int)>::empty(), color));
    }
    let mut i: usize = 0;
    while i < points.len()
        invariant
            i <= points@.len(),
            old(canvas)@.dom() == canvas_region(),
            canvas@ == stamped(old(canvas)@, spots(points@).take(i as int).to_set(), color),
        decreases points@.len() - i,
    {
        let (x, y) = points[i];
        proof {
            lemma_marks_grow(spots(points@), i as int);
        }
        if x >= 0 && y >= 0 {
            canvas.set_pixel(x as usize, y as usize, color);
        }
        assert(canvas@ =~= stamped(
            old(canvas)@,
            spots(points@).take(i as int + 1).to_set(),
            color,
        ));
        i += 1;
    }
    assert(spots(points@).take(points@.len() as int) =~= spots(points@));
}

/// Previews a stroke in a lent frame: every listed position that the lender's
/// rule admits is drawn in the colour.
pub fn paint<G: Guard>(
    buffer: &mut GuardedBuffer<'_, '_, G>,
    points: &Vec<(isize, isize)>,
    color: Color,
)
    ensures
        final(buffer).guard == old(buffer).guard,
        final(buffer).frame() == overlay(
            old(buffer).frame(),
            clipped(tint(spots(points@).to_set(), color), old(buffer).guard),
        ),
        *final(final(buffer).buffer) == *final(old(buffer).buffer),
        final(final(buffer).buffer.pixels)@ == final(old(buffer).buffer.pixels)@,
{
    proof {
        assert(spots(points@).take(0).to_set() =~= Set::<(int, int)>::empty());
        lemma_overlay_nothing(
            buffer.frame(),
            clipped(tint(spots(points@).take(0).to_set(), color), buffer.guard),
        );
    }
    let mut i: usize = 0;
    while i < points.len()
        invariant
            i <= points@.len(),
            buffer.guard == old(buffer).guard,
            buffer.frame() == overlay(
                old(buffer).frame(),
                clipped(tint(spots(points@).take(i as int).to_set(), color), buffer.guard),
            ),
            *final(buffer.buffer) == *final(old(buffer).buffer),
            final(buffer.buffer.pixels)@ == final(old(buffer).buffer.pixels)@,
        decreases points@.len() - i,
    {
        let (x, y) = points[i];
        proof {
            lemma_marks_grow(spots(points@), i as int);
            let before = clipped(
                tint(spots(points@).take(i as int).to_set(), color),
                buffer.guard,
            );
            let after = clipped(
                tint(spots(points@).take(i as int + 1).to_set(), color),
                buffer.guard,
            );
            if x >= 0 && y >= 0 && buffer.guard.admits(x as int, y as int) {
                assert(after =~= before.insert((x as int, y as int), color));
                lemma_draw_step(old(buffer).frame(), before, x as int, y as int, color);
            } else if x >= 0 && y >= 0 {
                assert(after =~= before);
            } else {
                lemma_overlay_agree(old(buffer).frame(), before, after);
            }
        }
        if x >= 0 && y >= 0 {
            buffer.put_pixel(x as usize, y as usize, color);
        }
        i += 1;
    }
    assert(spots(points@).take(points@.len() as int) =~= spots(points@));
}

} // verus!
