//! The fill tool: a press floods the patch of one colour under the pointer.

use crate::buffer::{clipped, lemma_overlay_nothing, Guard, GuardedBuffer};
use crate::canvas::{canvas_region, on_canvas, Canvas, CANVAS_HEIGHT, CANVAS_WIDTH};
use crate::color::{Color, PixelMap};
use crate::tools::stroke::spot;
use crate::tools::{magnitude, Tool};
use crate::widget::Widget;
use crate::BORDER_WIDTH;
use vstd::prelude::*;
use vstd::set_lib::{lemma_int_range, lemma_len_subset, set_int_range};

verus! {

/// Whether two positions are neighbours: next to each other in a row or in a
/// column, not diagonally.
pub open spec fn adjacent(a: (int, int), b: (int, int)) -> bool {
    magnitude(a.0 - b.0) + magnitude(a.1 - b.1) == 1
}

/// Whether `trail` is a walk over cells that all have the colour of its first
/// cell, each step going to a neighbour.
pub open spec fn is_trail(pixels: PixelMap, trail: Seq<(int, int)>) -> bool {
    &&& trail.len() > 0
    &&& forall|i: int|
        0 <= i < trail.len() ==> pixels.dom().contains(#[trigger] trail[i]) && pixels[trail[i]]
            == pixels[trail[0]]
    &&& forall|i: int| 0 < i < trail.len() ==> adjacent(trail[i - 1], #[trigger] trail[i])
}

/// Whether `to` lies in the patch of `from`: a walk over cells of one colour
/// leads from the one to the other.
pub open spec fn joined(pixels: PixelMap, from: (int, int), to: (int, int)) -> bool {
    exists|trail: Seq<(int, int)>|
        #[trigger] is_trail(pixels, trail) && trail[0] == from && trail.last() == to
}

/// The canvas after a fill from `start`: the cells of the patch of `start`
/// take the colour `fill`, the others keep theirs. A start off the canvas
/// fills nothing.
pub open spec fn flooded(pixels: PixelMap, start: (int, int), fill: Color) -> PixelMap {
    if pixels.dom().contains(start) {
        Map::new(
            |at: (int, int)| pixels.dom().contains(at),
            |at: (int, int)|
                if joined(pixels, start, at) {
                    fill
                } else {
                    pixels[at]
                },
        )
    } else {
        pixels
    }
}

/// Filling a patch with the colour it has changes nothing.
pub proof fn lemma_fill_with_same(pixels: PixelMap, start: (int, int), fill: Color)
    requires
        pixels.dom().contains(start) ==> pixels[start] == fill,
    ensures
        flooded(pixels, start, fill) == pixels,
{
    if pixels.dom().contains(start) {
        assert forall|at: (int, int)| pixels.dom().contains(at) && joined(
            pixels,
            start,
            at,
        ) implies pixels[at] == fill by {
            let trail = choose|trail: Seq<(int, int)>|
                #[trigger] is_trail(pixels, trail) && trail[0] == start && trail.last() == at;
            assert(pixels[trail[trail.len() - 1]] == pixels[trail[0]]);
        }
        assert(flooded(pixels, start, fill) =~= pixels);
    }
}

/// Filling twice from one position, with one colour, is filling once.
pub proof fn lemma_fill_twice(pixels: PixelMap, start: (int, int), fill: Color)
    ensures
        flooded(flooded(pixels, start, fill), start, fill) == flooded(pixels, start, fill),
{
    let once = flooded(pixels, start, fill);
    if pixels.dom().contains(start) {
        let trail = seq![start];
        assert(is_trail(pixels, trail) && trail[0] == start && trail.last() == start);
        assert(joined(pixels, start, start));
        assert(once.dom() =~= pixels.dom());
        assert(once[start] == fill);
    }
    lemma_fill_with_same(once, start, fill);
}

/// A fill changes the patch of its start and nothing else: a cell reads the
/// fill's colour afterwards if a walk over cells of the start's colour leads
/// to it from the start, and what it read before if none does.
pub proof fn lemma_fill_reads(pixels: PixelMap, start: (int, int), fill: Color, at: (int, int))
    requires
        pixels.dom().contains(start),
        pixels.dom().contains(at),
    ensures
        flooded(pixels, start, fill).dom() == pixels.dom(),
        flooded(pixels, start, fill)[at] == if joined(pixels, start, at) {
            fill
        } else {
            pixels[at]
        },
        flooded(pixels, start, fill)[start] == fill,
        adjacent(start, at) && pixels[at] == pixels[start] ==> flooded(pixels, start, fill)[at]
            == fill,
        pixels[at] != pixels[start] ==> flooded(pixels, start, fill)[at] == pixels[at],
{
    assert(flooded(pixels, start, fill).dom() =~= pixels.dom());
    let alone = seq![start];
    assert(is_trail(pixels, alone) && alone[0] == start && alone.last() == start);
    if adjacent(start, at) && pixels[at] == pixels[start] {
        let step = seq![start, at];
        assert(is_trail(pixels, step) && step[0] == start && step.last() == at);
    }
    if joined(pixels, start, at) {
        let trail = choose|trail: Seq<(int, int)>|
            #[trigger] is_trail(pixels, trail) && trail[0] == start && trail.last() == at;
        assert(pixels[trail[trail.len() - 1]] == pixels[trail[0]]);
    }
}

/// Where the mark of the cell shown at `at` is kept.
spec fn slot(at: (int, int)) -> int {
    (at.1 - BORDER_WIDTH) * CANVAS_WIDTH + (at.0 - BORDER_WIDTH)
}

/// A waiting position as a pair of mathematical integers.
spec fn cell(waiting: (usize, usize)) -> (int, int) {
    (waiting.0 as int, waiting.1 as int)
}

/// Whether the cell at `at` has been visited.
spec fn seen(checked: Seq<bool>, at: (int, int)) -> bool {
    on_canvas(at.0, at.1) && checked[slot(at)]
}

/// Whether `at` is a cell that had the colour of the start.
spec fn alike(pixels: PixelMap, start: (int, int), at: (int, int)) -> bool {
    pixels.dom().contains(at) && pixels[at] == pixels[start]
}

/// Whether the cell at `at` has been filled: it was visited, and had the
/// colour of the start.
spec fn filled(pixels: PixelMap, start: (int, int), checked: Seq<bool>, at: (int, int)) -> bool {
    seen(checked, at) && alike(pixels, start, at)
}

/// Whether `at` is waiting to be visited.
spec fn queued(queue: Seq<(usize, usize)>, at: (int, int)) -> bool {
    exists|k: int| 0 <= k < queue.len() && cell(#[trigger] queue[k]) == at
}

/// The marks of the cells not visited yet.
spec fn pending(checked: Seq<bool>) -> Set<int> {
    Set::new(|i: int| 0 <= i < checked.len() && !checked[i])
}

/// What holds while a fill is under way: the canvas is the one before the
/// fill with its filled cells recoloured; only cells of the start's patch are
/// filled or, if they had its colour, waiting; and a neighbour of a filled
/// cell that had the start's colour is filled or waiting.
spec fn filling(
    before: PixelMap,
    now: PixelMap,
    start: (int, int),
    fill: Color,
    checked: Seq<bool>,
    queue: Seq<(usize, usize)>,
) -> bool {
    &&& checked.len() == CANVAS_WIDTH * CANVAS_HEIGHT
    &&& before.dom() == canvas_region()
    &&& now.dom() == canvas_region()
    &&& on_canvas(start.0, start.1)
    &&& forall|at: (int, int)|
        on_canvas(at.0, at.1) ==> #[trigger] now[at] == if filled(before, start, checked, at) {
            fill
        } else {
            before[at]
        }
    &&& forall|at: (int, int)| #[trigger]
        filled(before, start, checked, at) ==> joined(before, start, at)
    &&& forall|k: int|
        0 <= k < queue.len() && alike(before, start, cell(#[trigger] queue[k])) ==> joined(
            before,
            start,
            cell(queue[k]),
        )
    &&& forall|d: (int, int), n: (int, int)|
        #![trigger filled(before, start, checked, d), adjacent(d, n)]
        filled(before, start, checked, d) && adjacent(d, n) && alike(before, start, n) ==> filled(
            before,
            start,
            checked,
            n,
        ) || queued(queue, n)
    &&& filled(before, start, checked, start) || queued(queue, start)
}

/// A walk can be taken one step further, to a neighbour of the colour walked over.
proof fn lemma_walk_on(pixels: PixelMap, from: (int, int), to: (int, int), next: (int, int))
    requires
        joined(pixels, from, to),
        adjacent(to, next),
        alike(pixels, from, next),
    ensures
        joined(pixels, from, next),
{
    let trail = choose|trail: Seq<(int, int)>|
        #[trigger] is_trail(pixels, trail) && trail[0] == from && trail.last() == to;
    let longer = trail.push(next);
    assert forall|i: int| 0 < i < longer.len() implies adjacent(
        longer[i - 1],
        #[trigger] longer[i],
    ) by {
        if i < trail.len() {
            assert(adjacent(trail[i - 1], trail[i]));
        }
    }
    assert forall|i: int| 0 <= i < longer.len() implies pixels.dom().contains(
        #[trigger] longer[i],
    ) && pixels[longer[i]] == pixels[longer[0]] by {
        if i < trail.len() {
            assert(pixels.dom().contains(trail[i]));
        }
    }
    assert(is_trail(pixels, longer) && longer[0] == from && longer.last() == next);
}

/// A cell is in its own patch.
proof fn lemma_stand(pixels: PixelMap, at: (int, int))
    requires
        pixels.dom().contains(at),
    ensures
        joined(pixels, at, at),
{
    let trail = seq![at];
    assert(is_trail(pixels, trail) && trail[0] == at && trail.last() == at);
}

/// What is closed under stepping to neighbours of the start's colour, and
/// holds the start, holds the end of every walk from the start.
proof fn lemma_walk_stays(pixels: PixelMap, done: Set<(int, int)>, trail: Seq<(int, int)>)
    requires
        is_trail(pixels, trail),
        done.contains(trail[0]),
        forall|d: (int, int), n: (int, int)|
            #![trigger done.contains(d), adjacent(d, n)]
            done.contains(d) && adjacent(d, n) && alike(pixels, trail[0], n) ==> done.contains(n),
    ensures
        done.contains(trail.last()),
    decreases trail.len(),
{
    if trail.len() > 1 {
        let shorter = trail.drop_last();
        assert forall|i: int| 0 <= i < shorter.len() implies pixels.dom().contains(
            #[trigger] shorter[i],
        ) && pixels[shorter[i]] == pixels[shorter[0]] by {
            assert(pixels.dom().contains(trail[i]));
        }
        assert forall|i: int| 0 < i < shorter.len() implies adjacent(
            shorter[i - 1],
            #[trigger] shorter[i],
        ) by {
            assert(adjacent(trail[i - 1], trail[i]));
        }
        lemma_walk_stays(pixels, done, shorter);
        let d = shorter.last();
        let n = trail.last();
        assert(d == trail[trail.len() - 2]);
        assert(adjacent(trail[trail.len() - 1 - 1], trail[trail.len() - 1]));
        assert(pixels.dom().contains(trail[trail.len() - 1]));
        assert(done.contains(d) && adjacent(d, n) && alike(pixels, trail[0], n));
    }
}

/// Once nothing is waiting, the canvas is the flooded one.
proof fn lemma_flood_done(
    before: PixelMap,
    now: PixelMap,
    start: (int, int),
    fill: Color,
    checked: Seq<bool>,
)
    requires
        filling(before, now, start, fill, checked, Seq::<(usize, usize)>::empty()),
    ensures
        now == flooded(before, start, fill),
{
    reveal(filling);
    let none = Seq::<(usize, usize)>::empty();
    let done = Set::new(|at: (int, int)| filled(before, start, checked, at));
    assert(!queued(none, start));
    assert forall|d: (int, int), n: (int, int)|
        #![trigger done.contains(d), adjacent(d, n)]
        done.contains(d) && adjacent(d, n) && alike(before, start, n) implies done.contains(n) by {
        assert(filled(before, start, checked, d));
        assert(!queued(none, n));
    }
    assert forall|at: (int, int)| on_canvas(at.0, at.1) implies now[at] == flooded(
        before,
        start,
        fill,
    )[at] by {
        if joined(before, start, at) {
            let trail = choose|trail: Seq<(int, int)>|
                #[trigger] is_trail(before, trail) && trail[0] == start && trail.last() == at;
            lemma_walk_stays(before, done, trail);
        }
    }
    assert(now =~= flooded(before, start, fill));
}

/// The marks still pending are finitely many.
proof fn lemma_pending_finite(checked: Seq<bool>)
    ensures
        pending(checked).finite(),
{
    lemma_int_range(0, checked.len() as int);
    lemma_len_subset(pending(checked), set_int_range(0, checked.len() as int));
}

/// Marking a pending cell leaves one fewer pending.
proof fn lemma_pending_shrinks(checked: Seq<bool>, i: int)
    requires
        0 <= i < checked.len(),
        !checked[i],
    ensures
        pending(checked.update(i, true)).len() < pending(checked).len(),
{
    lemma_pending_finite(checked);
    assert(pending(checked.update(i, true)) =~= pending(checked).remove(i));
    assert(pending(checked).contains(i));
}

/// A visit that fills nothing keeps what holds during a fill: the visited
/// position is off the canvas, or was visited before, or did not have the
/// colour of the start.
proof fn lemma_pass(
    before: PixelMap,
    now: PixelMap,
    start: (int, int),
    fill: Color,
    checked: Seq<bool>,
    queue: Seq<(usize, usize)>,
)
    requires
        queue.len() > 0,
        filling(before, now, start, fill, checked, queue),
        !on_canvas(cell(queue.last()).0, cell(queue.last()).1) || seen(checked, cell(queue.last()))
            || now[cell(queue.last())] != before[start],
    ensures
        on_canvas(cell(queue.last()).0, cell(queue.last()).1) ==> filling(
            before,
            now,
            start,
            fill,
            checked.update(slot(cell(queue.last())), true),
            queue.drop_last(),
        ),
        !on_canvas(cell(queue.last()).0, cell(queue.last()).1) ==> filling(
            before,
            now,
            start,
            fill,
            checked,
            queue.drop_last(),
        ),
{
    reveal(filling);
    let q = cell(queue.last());
    let rest = queue.drop_last();
    assert(on_canvas(q.0, q.1) && !seen(checked, q) ==> now[q] == before[q]);
    let marked = if on_canvas(q.0, q.1) {
        checked.update(slot(q), true)
    } else {
        checked
    };
    assert forall|at: (int, int)|
        filled(before, start, marked, at) == filled(before, start, checked, at) by {}
    assert forall|at: (int, int)|
        alike(before, start, at) && queued(queue, at) implies queued(rest, at) || filled(
        before,
        start,
        marked,
        at,
    ) by {
        let k = choose|k: int| 0 <= k < queue.len() && cell(#[trigger] queue[k]) == at;
        if k < rest.len() {
            assert(cell(rest[k]) == at);
        }
    }
    assert forall|k: int|
        0 <= k < rest.len() && alike(before, start, cell(#[trigger] rest[k])) implies joined(
        before,
        start,
        cell(rest[k]),
    ) by {
        assert(rest[k] == queue[k]);
    }
    assert forall|d: (int, int), n: (int, int)|
        #![trigger filled(before, start, marked, d), adjacent(d, n)]
        filled(before, start, marked, d) && adjacent(d, n) && alike(
            before,
            start,
            n,
        ) implies filled(before, start, marked, n) || queued(rest, n) by {
        assert(filled(before, start, checked, d));
    }
}

/// A visit that fills a cell keeps what holds during a fill, given that the
/// cell's neighbours not visited yet are made to wait.
proof fn lemma_fill(
    before: PixelMap,
    now: PixelMap,
    start: (int, int),
    fill: Color,
    checked: Seq<bool>,
    queue: Seq<(usize, usize)>,
    after: Seq<(usize, usize)>,
)
    requires
        queue.len() > 0,
        filling(before, now, start, fill, checked, queue),
        on_canvas(cell(queue.last()).0, cell(queue.last()).1),
        !seen(checked, cell(queue.last())),
        now[cell(queue.last())] == before[start],
        after.len() >= queue.len() - 1,
        forall|k: int| 0 <= k < queue.len() - 1 ==> after[k] == queue[k],
        forall|k: int|
            queue.len() - 1 <= k < after.len() ==> adjacent(
                cell(queue.last()),
                cell(#[trigger] after[k]),
            ),
        forall|n: (int, int)|
            adjacent(cell(queue.last()), n) ==> seen(checked, n) || #[trigger] queued(after, n),
    ensures
        filling(
            before,
            now.insert(cell(queue.last()), fill),
            start,
            fill,
            checked.update(slot(cell(queue.last())), true),
            after,
        ),
{
    reveal(filling);
    let q = cell(queue.last());
    let marked = checked.update(slot(q), true);
    let painted = now.insert(q, fill);
    assert(now[q] == before[q]);
    assert(alike(before, start, q));
    assert(queue[queue.len() - 1] == queue.last());
    assert(joined(before, start, q));
    assert forall|at: (int, int)|
        filled(before, start, marked, at) == (at == q || filled(before, start, checked, at)) by {}
    assert forall|at: (int, int)|
        alike(before, start, at) && queued(queue, at) implies queued(after, at) || at == q by {
        let k = choose|k: int| 0 <= k < queue.len() && cell(#[trigger] queue[k]) == at;
        if k < queue.len() - 1 {
            assert(cell(after[k]) == at);
        }
    }
    assert forall|k: int|
        0 <= k < after.len() && alike(before, start, cell(#[trigger] after[k])) implies joined(
        before,
        start,
        cell(after[k]),
    ) by {
        if k < queue.len() - 1 {
            assert(after[k] == queue[k]);
        } else {
            lemma_walk_on(before, start, q, cell(after[k]));
        }
    }
    assert forall|d: (int, int), n: (int, int)|
        #![trigger filled(before, start, marked, d), adjacent(d, n)]
        filled(before, start, marked, d) && adjacent(d, n) && alike(
            before,
            start,
            n,
        ) implies filled(before, start, marked, n) || queued(after, n) by {
        if d == q {
            assert(seen(checked, n) || queued(after, n));
        } else {
            assert(filled(before, start, checked, d));
        }
    }
    assert forall|at: (int, int)| on_canvas(at.0, at.1) implies #[trigger] painted[at] == if filled(
        before,
        start,
        marked,
        at,
    ) {
        fill
    } else {
        before[at]
    } by {
        assert(now[at] == if filled(before, start, checked, at) {
            fill
        } else {
            before[at]
        });
    }
    assert(painted.dom() =~= canvas_region());
}

/// Makes the position wait unless its cell has been visited.
fn enqueue(queue: &mut Vec<(usize, usize)>, checked: &Vec<bool>, x: usize, y: usize)
    requires
        checked@.len() == CANVAS_WIDTH * CANVAS_HEIGHT,
    ensures
        final(queue)@ == if seen(checked@, (x as int, y as int)) {
            old(queue)@
        } else {
            old(queue)@.push((x, y))
        },
{
    if x >= BORDER_WIDTH && y >= BORDER_WIDTH {
        let col = x - BORDER_WIDTH;
        let row = y - BORDER_WIDTH;
        if col < CANVAS_WIDTH && row < CANVAS_HEIGHT {
            if checked[row * CANVAS_WIDTH + col] {
                return ;
            }
        }
    }
    queue.push((x, y));
}

/// Makes the four neighbours of the cell at `(x, y)` wait, but for those
/// visited already.
fn spread(queue: &mut Vec<(usize, usize)>, checked: &Vec<bool>, x: usize, y: usize)
    requires
        checked@.len() == CANVAS_WIDTH * CANVAS_HEIGHT,
        on_canvas(x as int, y as int),
    ensures
        final(queue)@.len() >= old(queue)@.len(),
        forall|k: int| 0 <= k < old(queue)@.len() ==> final(queue)@[k] == old(queue)@[k],
        forall|k: int|
            old(queue)@.len() <= k < final(queue)@.len() ==> adjacent(
                (x as int, y as int),
                cell(#[trigger] final(queue)@[k]),
            ),
        forall|n: (int, int)|
            adjacent((x as int, y as int), n) ==> seen(checked@, n) || #[trigger] queued(
                final(queue)@,
                n,
            ),
{
    let ghost q = (x as int, y as int);
    let ghost below = (x as int, y + 1);
    let ghost above = (x as int, y - 1);
    let ghost right = (x + 1, y as int);
    let ghost left = (x - 1, y as int);
    enqueue(queue, checked, x, y + 1);
    let ghost first = queue@;
    enqueue(queue, checked, x, y - 1);
    let ghost second = queue@;
    enqueue(queue, checked, x + 1, y);
    let ghost third = queue@;
    enqueue(queue, checked, x - 1, y);
    proof {
        let all = queue@;
        if !seen(checked@, below) {
            assert(cell(all[old(queue)@.len() as int]) == below);
            assert(queued(all, below));
        }
        if !seen(checked@, above) {
            assert(cell(all[first.len() as int]) == above);
            assert(queued(all, above));
        }
        if !seen(checked@, right) {
            assert(cell(all[second.len() as int]) == right);
            assert(queued(all, right));
        }
        if !seen(checked@, left) {
            assert(cell(all[third.len() as int]) == left);
            assert(queued(all, left));
        }
        assert forall|n: (int, int)| adjacent(q, n) implies seen(checked@, n) || #[trigger] queued(
            all,
            n,
        ) by {
            assert(n == below || n == above || n == right || n == left);
        }
    }
}

/// The fill tool's state: the colour it fills with.
pub struct Phill {
    outline_color: Color,
}

impl Phill {
    /// The colour that the tool fills with.
    pub closed spec fn outline_color(&self) -> Color {
        self.outline_color
    }

    /// A tool that fills with black.
    pub fn new() -> (tool: Self)
        ensures
            tool.outline_color() == (Color { r: 0x00, g: 0x00, b: 0x00 }),
    {
        Self { outline_color: Color::black() }
    }

    /// What each event does to the tool and to the canvas, in terms of what
    /// the tool holds.
    pub proof fn lemma_events(&self, mouse: (isize, isize), color: Color, pixels: PixelMap)
        ensures
            self.on_press(mouse, pixels).0 == *self,
            self.on_press(mouse, pixels).1 == flooded(pixels, spot(mouse), self.outline_color()),
            self.recolored(color).outline_color() == color,
    {
    }
}

impl Widget for Phill {
    /// The fill tool has no preview.
    open spec fn layer(&self) -> PixelMap {
        Map::empty()
    }

    fn display<G: Guard>(&self, buffer: &mut GuardedBuffer<'_, '_, G>) {
        proof {
            assert(clipped(self.layer(), buffer.guard) =~= Map::<(int, int), Color>::empty());
            lemma_overlay_nothing(buffer.frame(), clipped(self.layer(), buffer.guard));
        }
    }
}

impl Tool for Phill {
    /// A press floods the patch under the pointer with the tool's colour.
    closed spec fn on_press(&self, mouse: (isize, isize), pixels: PixelMap) -> (Self, PixelMap) {
        (*self, flooded(pixels, spot(mouse), self.outline_color))
    }

    /// A hold fills nothing.
    open spec fn on_hold(
        &self,
        prev_mouse: (isize, isize),
        curr_mouse: (isize, isize),
        pixels: PixelMap,
    ) -> (Self, PixelMap) {
        (*self, pixels)
    }

    /// A release fills nothing.
    open spec fn on_release(&self, mouse: (isize, isize), pixels: PixelMap) -> (Self, PixelMap) {
        (*self, pixels)
    }

    closed spec fn recolored(&self, outline_color: Color) -> Self {
        Phill { outline_color: outline_color }
    }

    fn handle_press(&mut self, mouse: (isize, isize), canvas: &mut Canvas) {
        proof {
            canvas.lemma_extent();
        }
        if mouse.0 < 0 || mouse.1 < 0 {
            return ;
        }
        let start_x = mouse.0 as usize;
        let start_y = mouse.1 as usize;
        let color = match canvas.get_pixel(start_x, start_y) {
            Some(color) => color,
            _ => {
                return ;
            },
        };
        let fill = self.outline_color;
        let ghost start = spot(mouse);
        let ghost before = canvas@;

        let mut checked: Vec<bool> = Vec::new();
        let mut marks: usize = 0;
        while marks < CANVAS_WIDTH * CANVAS_HEIGHT
            invariant
                marks <= CANVAS_WIDTH * CANVAS_HEIGHT,
                checked@.len() == marks,
                forall|i: int| 0 <= i < marks ==> !checked@[i],
            decreases CANVAS_WIDTH * CANVAS_HEIGHT - marks,
        {
            checked.push(false);
            marks += 1;
        }
        let mut queue: Vec<(usize, usize)> = Vec::new();
        queue.push((start_x, start_y));
        proof {
            lemma_stand(before, start);
            assert(cell(queue@[0]) == start);
            assert(queued(queue@, start));
            assert(filling(before, canvas@, start, fill, checked@, queue@)) by {
                reveal(filling);
            }
        }

        while queue.len() > 0
            invariant
                filling(before, canvas@, start, fill, checked@, queue@),
                checked@.len() == CANVAS_WIDTH * CANVAS_HEIGHT,
                color == before[start],
            decreases pending(checked@).len(), queue@.len(),
        {
            let ghost waiting = queue@;
            let ghost marked = checked@;
            let (x, y) = queue.pop().unwrap();
            assert(queue@ =~= waiting.drop_last());
            match canvas.get_pixel(x, y) {
                Some(pixel) => {
                    let ix = (y - BORDER_WIDTH) * CANVAS_WIDTH + (x - BORDER_WIDTH);
                    assert(ix == slot(cell(waiting.last())));
                    let fresh = !checked[ix];
                    checked.set(ix, true);
                    if fresh && pixel == color {
                        let ghost unpainted = canvas@;
                        canvas.set_pixel(x, y, fill);
                        spread(&mut queue, &checked, x, y);
                        proof {
                            let q = cell(waiting.last());
                            assert forall|n: (int, int)| adjacent(q, n) implies seen(marked, n)
                                || #[trigger] queued(queue@, n) by {
                                if seen(checked@, n) {
                                    assert(n != q);
                                    assert(slot(n) != slot(q));
                                }
                            }
                            lemma_fill(before, unpainted, start, fill, marked, waiting, queue@);
                            lemma_pending_shrinks(marked, ix as int);
                        }
                    } else {
                        proof {
                            lemma_pass(before, canvas@, start, fill, marked, waiting);
                            if fresh {
                                lemma_pending_shrinks(marked, ix as int);
                            } else {
                                assert(checked@ =~= marked);
                            }
                        }
                    }
                },
                None => {
                    proof {
                        lemma_pass(before, canvas@, start, fill, marked, waiting);
                    }
                },
            }
        }
        proof {
            assert(queue@ =~= Seq::<(usize, usize)>::empty());
            lemma_flood_done(before, canvas@, start, fill, checked@);
        }
    }

    fn handle_hold(
        &mut self,
        prev_mouse: (isize, isize),
        curr_mouse: (isize, isize),
        canvas: &mut Canvas,
    ) {
    }

    fn handle_release(&mut self, mouse: (isize, isize), canvas: &mut Canvas) {
    }

    fn set_outline_color(&mut self, outline_color: Color) {
        self.outline_color = outline_color;
    }
}

} // verus!
