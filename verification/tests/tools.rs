use paint::buffer::Buffer;
use paint::canvas::Canvas;
use paint::color::Color;
use paint::tools::{ActiveTool, Circe, Linen, Penicilin, Phill, Rectangel, Tool};
use paint::widget::Widget;
use paint::{HEIGHT, WIDTH};

const WHITE: Color = Color { r: 0xff, g: 0xff, b: 0xff };
const BLACK: Color = Color { r: 0x00, g: 0x00, b: 0x00 };
const RED: Color = Color { r: 0xff, g: 0x00, b: 0x00 };
const BLUE: Color = Color { r: 0x00, g: 0x00, b: 0xff };
const YELLOW: Color = Color { r: 0xff, g: 0xff, b: 0x00 };

/// The positions of the canvas that have the colour.
fn cells_of(canvas: &Canvas, color: Color) -> Vec<(usize, usize)> {
    let mut cells = Vec::new();
    for y in 1..=100 {
        for x in 1..=200 {
            if canvas.get_pixel(x, y) == Some(color) {
                cells.push((x, y));
            }
        }
    }
    cells
}

/// The pixels that a widget draws into an empty frame, lent whole.
fn shown_by<W: Widget>(widget: &W) -> Vec<((usize, usize), [u8; 4])> {
    let mut frame = vec![0u8; WIDTH * HEIGHT * 4];
    {
        let mut buffer = Buffer::new(&mut frame);
        let mut lent = buffer.lend(((0usize, 0usize), (WIDTH, HEIGHT)));
        widget.display(&mut lent);
    }
    let mut pixels = Vec::new();
    for y in 0..HEIGHT {
        for x in 0..WIDTH {
            let ix = (x + y * WIDTH) * 4;
            let pixel = [frame[ix], frame[ix + 1], frame[ix + 2], frame[ix + 3]];
            if pixel != [0, 0, 0, 0] {
                pixels.push(((x, y), pixel));
            }
        }
    }
    pixels
}

/// The cells that the circle tool colours for a press at `origin` and a
/// release at `rim`.
fn circle(origin: (isize, isize), rim: (isize, isize)) -> Vec<(isize, isize)> {
    let mut canvas = Canvas::new();
    let mut tool = Circe::new();
    tool.handle_press(origin, &mut canvas);
    tool.handle_release(rim, &mut canvas);
    let mut cells: Vec<(isize, isize)> =
        cells_of(&canvas, BLACK).into_iter().map(|(x, y)| (x as isize, y as isize)).collect();
    cells.sort();
    cells
}

/// The cells that the rectangle tool colours for a press at `a` and a
/// release at `b`.
fn outline(a: (isize, isize), b: (isize, isize)) -> Vec<(isize, isize)> {
    let mut canvas = Canvas::new();
    let mut tool = Rectangel::new();
    tool.handle_press(a, &mut canvas);
    tool.handle_release(b, &mut canvas);
    let mut cells: Vec<(isize, isize)> =
        cells_of(&canvas, BLACK).into_iter().map(|(x, y)| (x as isize, y as isize)).collect();
    cells.sort();
    cells
}

fn box_edges(left: usize, top: usize, right: usize, bottom: usize) -> Vec<(usize, usize)> {
    let mut cells = Vec::new();
    for y in top..=bottom {
        for x in left..=right {
            if x == left || x == right || y == top || y == bottom {
                cells.push((x, y));
            }
        }
    }
    cells
}

#[test]
fn the_pencil_draws_nothing_on_a_press() {
    let mut canvas = Canvas::new();
    let mut pencil = Penicilin::new();
    pencil.handle_press((5, 5), &mut canvas);
    assert_eq!(cells_of(&canvas, WHITE).len(), 200 * 100);
}

#[test]
fn the_pencil_draws_a_black_line_on_a_hold() {
    let mut canvas = Canvas::new();
    let mut pencil = Penicilin::new();
    pencil.handle_hold((2, 2), (6, 4), &mut canvas);
    assert_eq!(cells_of(&canvas, BLACK), vec![(2, 2), (3, 3), (4, 3), (5, 4), (6, 4)]);
    assert_eq!(cells_of(&canvas, WHITE).len(), 200 * 100 - 5);
}

#[test]
fn the_pencil_draws_nothing_on_a_release() {
    let mut canvas = Canvas::new();
    let mut pencil = Penicilin::new();
    pencil.handle_release((5, 5), &mut canvas);
    assert_eq!(cells_of(&canvas, WHITE).len(), 200 * 100);
}

#[test]
fn the_pencil_keeps_its_color_when_one_is_picked() {
    let mut canvas = Canvas::new();
    let mut pencil = Penicilin::new();
    pencil.set_outline_color(RED);
    pencil.handle_hold((2, 2), (4, 2), &mut canvas);
    assert_eq!(cells_of(&canvas, BLACK), vec![(2, 2), (3, 2), (4, 2)]);
    assert!(cells_of(&canvas, RED).is_empty());
}

#[test]
fn the_pencil_shows_no_preview() {
    assert!(shown_by(&Penicilin::new()).is_empty());
}

#[test]
fn the_pencil_joins_up_successive_holds() {
    let mut canvas = Canvas::new();
    let mut pencil = Penicilin::new();
    pencil.handle_hold((1, 1), (3, 1), &mut canvas);
    pencil.handle_hold((3, 1), (3, 3), &mut canvas);
    assert_eq!(cells_of(&canvas, BLACK), vec![(1, 1), (2, 1), (3, 1), (3, 2), (3, 3)]);
}

#[test]
fn outline_lists_the_edges_of_the_box() {
    let mut points = outline((2, 3), (4, 5));
    points.sort();
    points.dedup();
    assert_eq!(
        points,
        vec![(2, 3), (2, 4), (2, 5), (3, 3), (3, 5), (4, 3), (4, 4), (4, 5)]
    );
}

#[test]
fn outline_takes_its_corners_in_any_order() {
    for (a, b) in [((4, 5), (2, 3)), ((2, 5), (4, 3)), ((4, 3), (2, 5))] {
        let mut points = outline(a, b);
        points.sort();
        points.dedup();
        assert_eq!(
            points,
            vec![(2, 3), (2, 4), (2, 5), (3, 3), (3, 5), (4, 3), (4, 4), (4, 5)]
        );
    }
}

#[test]
fn outline_of_a_single_position_is_that_position() {
    let mut points = outline((7, 9), (7, 9));
    points.dedup();
    assert_eq!(points, vec![(7, 9)]);
}

#[test]
fn a_box_off_the_canvas_leaves_no_trace() {
    assert!(outline((7, -7), (7, -7)).is_empty());
    assert!(outline((300, 5), (400, 8)).is_empty());
    assert_eq!(outline((-2, -3), (1, 1)), vec![(1, 1)]);
    assert_eq!(outline((199, 99), (201, 108)), vec![(199, 99), (199, 100), (200, 99)]);
}

#[test]
fn a_box_with_a_far_corner_is_drawn_where_it_crosses_the_canvas() {
    let cells = outline((5, 5), (5, 3_000_000));
    assert_eq!(cells.len(), 96);
    assert_eq!(cells[0], (5, 5));
    assert_eq!(cells[95], (5, 100));
    assert!(outline((-3_000_000, -3_000_000), (3_000_000, 3_000_000)).is_empty());
    let cells = outline((-3_000_000, 50), (3_000_000, 3_000_000));
    assert_eq!(cells.len(), 200);
    assert_eq!(cells[7], (8, 50));
}

#[test]
fn pressing_holding_and_releasing_commits_a_box() {
    let mut canvas = Canvas::new();
    let mut tool = Rectangel::new();
    tool.handle_press((10, 10), &mut canvas);
    tool.handle_hold((10, 10), (20, 15), &mut canvas);
    assert_eq!(cells_of(&canvas, WHITE).len(), 200 * 100);
    tool.handle_release((20, 15), &mut canvas);
    for x in 10..=20 {
        assert_eq!(canvas.get_pixel(x, 10), Some(BLACK));
        assert_eq!(canvas.get_pixel(x, 15), Some(BLACK));
    }
    for y in 10..=15 {
        assert_eq!(canvas.get_pixel(10, y), Some(BLACK));
        assert_eq!(canvas.get_pixel(20, y), Some(BLACK));
    }
    for y in 11..=14 {
        for x in 11..=19 {
            assert_eq!(canvas.get_pixel(x, y), Some(WHITE));
        }
    }
    assert_eq!(cells_of(&canvas, BLACK), box_edges(10, 10, 20, 15));
}

#[test]
fn a_box_is_committed_in_the_picked_color() {
    let mut canvas = Canvas::new();
    let mut tool = Rectangel::new();
    tool.set_outline_color(BLUE);
    tool.handle_press((3, 3), &mut canvas);
    tool.handle_release((5, 6), &mut canvas);
    assert_eq!(cells_of(&canvas, BLUE), box_edges(3, 3, 5, 6));
    assert!(cells_of(&canvas, BLACK).is_empty());
}

#[test]
fn a_box_dragged_up_and_left_is_the_same_box() {
    let mut canvas = Canvas::new();
    let mut tool = Rectangel::new();
    tool.handle_press((20, 15), &mut canvas);
    tool.handle_hold((20, 15), (12, 12), &mut canvas);
    tool.handle_release((10, 10), &mut canvas);
    assert_eq!(cells_of(&canvas, BLACK), box_edges(10, 10, 20, 15));
}

#[test]
fn a_box_is_committed_from_the_press_to_the_release_whatever_was_held() {
    let mut canvas = Canvas::new();
    let mut tool = Rectangel::new();
    tool.handle_press((10, 10), &mut canvas);
    tool.handle_hold((10, 10), (50, 50), &mut canvas);
    tool.handle_hold((50, 50), (90, 2), &mut canvas);
    tool.handle_release((12, 13), &mut canvas);
    assert_eq!(cells_of(&canvas, BLACK), box_edges(10, 10, 12, 13));
}

#[test]
fn a_box_that_leaves_the_canvas_is_cut_off_at_its_edge() {
    let mut canvas = Canvas::new();
    let mut tool = Rectangel::new();
    tool.handle_press((-5, -5), &mut canvas);
    tool.handle_release((3, 2), &mut canvas);
    assert_eq!(cells_of(&canvas, BLACK), vec![(3, 1), (1, 2), (2, 2), (3, 2)]);
}

#[test]
fn the_rectangle_tool_previews_while_the_pointer_is_down() {
    let mut canvas = Canvas::new();
    let mut tool = Rectangel::new();
    assert!(shown_by(&tool).is_empty());
    tool.handle_press((10, 10), &mut canvas);
    assert_eq!(shown_by(&tool), vec![((10, 10), [0, 0, 0, 0xff])]);
    tool.handle_hold((10, 10), (12, 12), &mut canvas);
    let expected: Vec<((usize, usize), [u8; 4])> =
        box_edges(10, 10, 12, 12).into_iter().map(|cell| (cell, [0, 0, 0, 0xff])).collect();
    assert_eq!(shown_by(&tool), expected);
    tool.handle_release((12, 12), &mut canvas);
    assert!(shown_by(&tool).is_empty());
}

#[test]
fn the_rectangle_tool_previews_in_the_picked_color() {
    let mut canvas = Canvas::new();
    let mut tool = Rectangel::new();
    tool.handle_press((10, 10), &mut canvas);
    tool.set_outline_color(RED);
    assert_eq!(shown_by(&tool), vec![((10, 10), [0xff, 0, 0, 0xff])]);
}

#[test]
fn the_line_tool_commits_a_yellow_line_on_release() {
    let mut canvas = Canvas::new();
    let mut tool = Linen::new();
    tool.handle_press((2, 2), &mut canvas);
    tool.handle_hold((2, 2), (9, 9), &mut canvas);
    assert_eq!(cells_of(&canvas, WHITE).len(), 200 * 100);
    tool.handle_release((6, 4), &mut canvas);
    assert_eq!(cells_of(&canvas, YELLOW), vec![(2, 2), (3, 3), (4, 3), (5, 4), (6, 4)]);
}

#[test]
fn the_line_tool_keeps_its_color_when_one_is_picked() {
    let mut canvas = Canvas::new();
    let mut tool = Linen::new();
    tool.set_outline_color(RED);
    tool.handle_press((2, 2), &mut canvas);
    tool.handle_release((4, 2), &mut canvas);
    assert_eq!(cells_of(&canvas, YELLOW), vec![(2, 2), (3, 2), (4, 2)]);
    assert!(cells_of(&canvas, RED).is_empty());
}

#[test]
fn the_line_tool_previews_while_the_pointer_is_down() {
    let mut canvas = Canvas::new();
    let mut tool = Linen::new();
    assert!(shown_by(&tool).is_empty());
    tool.handle_press((2, 2), &mut canvas);
    assert_eq!(shown_by(&tool), vec![((2, 2), [0xff, 0xff, 0, 0xff])]);
    tool.handle_hold((2, 2), (4, 2), &mut canvas);
    assert_eq!(
        shown_by(&tool),
        vec![
            ((2, 2), [0xff, 0xff, 0, 0xff]),
            ((3, 2), [0xff, 0xff, 0, 0xff]),
            ((4, 2), [0xff, 0xff, 0, 0xff])
        ]
    );
    tool.handle_release((4, 2), &mut canvas);
    assert!(shown_by(&tool).is_empty());
}

#[test]
fn a_release_without_a_press_draws_from_where_the_tool_was_left() {
    let mut canvas = Canvas::new();
    let mut tool = Linen::new();
    tool.handle_release((3, 0), &mut canvas);
    // from (0, 0) to (3, 0): nothing of it is on the canvas
    assert_eq!(cells_of(&canvas, WHITE).len(), 200 * 100);
    tool.handle_release((2, 2), &mut canvas);
    assert_eq!(cells_of(&canvas, YELLOW), vec![(1, 1), (2, 2)]);
}

#[test]
fn circle_of_radius_five() {
    let mut points = circle((50, 50), (55, 50));
    points.sort();
    points.dedup();
    let mut expected = Vec::new();
    for (a, b) in [(0, 5), (1, 5), (2, 5), (3, 4), (4, 3)] {
        for (s, t) in [(1, 1), (-1, 1), (1, -1), (-1, -1)] {
            expected.push((50 + s * a, 50 + t * b));
            expected.push((50 + s * b, 50 + t * a));
        }
    }
    expected.sort();
    expected.dedup();
    assert_eq!(points, expected);
}

#[test]
fn circle_of_radius_one() {
    let mut points = circle((50, 50), (51, 50));
    points.sort();
    points.dedup();
    // offset 0 gives 1, offset 1 gives 0
    assert_eq!(points, vec![(49, 50), (50, 49), (50, 51), (51, 50)]);
}

#[test]
fn a_circle_is_cut_off_at_the_edge_of_the_canvas() {
    assert_eq!(circle((1, 1), (2, 1)), vec![(1, 2), (2, 1)]);
    assert_eq!(circle((0, 0), (1, 1)), vec![(1, 1)]);
    assert!(circle((-50, -50), (-45, -50)).is_empty());
    assert_eq!(circle((200, 100), (201, 100)), vec![(199, 100), (200, 99)]);
}

#[test]
fn a_circle_with_a_far_rim_is_drawn_where_it_crosses_the_canvas() {
    assert!(circle((50, 50), (50, 3_000_050)).is_empty());
    // flat where it passes the canvas: row 1 all across
    let cells = circle((100, -2_999_999), (100, 1));
    assert_eq!(cells.len(), 200);
    assert_eq!(cells[0], (1, 1));
    assert_eq!(cells[199], (200, 1));
}

#[test]
fn circle_through_a_diagonal_neighbour() {
    let mut points = circle((50, 50), (51, 51));
    points.sort();
    points.dedup();
    // radius squared 2: offset 0 gives 1 (1.41 rounded), offset 1 gives 1
    assert_eq!(
        points,
        vec![(49, 49), (49, 50), (49, 51), (50, 49), (50, 51), (51, 49), (51, 50), (51, 51)]
    );
}

#[test]
fn circle_of_radius_zero_is_empty() {
    assert!(circle((5, 5), (5, 5)).is_empty());
}

#[test]
fn circle_of_radius_three() {
    // offsets 0, 1, 2, 3 give 3, 3 (2.83), 2 (2.24), 0; 3 is 3 / 1.41 rounded up
    let mut expected = Vec::new();
    for (a, b) in [(0, 3), (1, 3), (2, 2), (3, 0)] {
        for (s, t) in [(1, 1), (-1, 1), (1, -1), (-1, -1)] {
            expected.push((50 + s * a, 50 + t * b));
            expected.push((50 + s * b, 50 + t * a));
        }
    }
    expected.sort();
    expected.dedup();
    assert_eq!(circle((50, 50), (50, 53)), expected);
}

#[test]
fn circle_depends_on_the_distance_alone() {
    let mut one = circle((50, 50), (53, 54));
    let mut other = circle((50, 50), (45, 50));
    let mut third = circle((50, 50), (50, 55));
    one.sort();
    one.dedup();
    other.sort();
    other.dedup();
    third.sort();
    third.dedup();
    assert_eq!(one, other);
    assert_eq!(one, third);
}

#[test]
fn a_circle_is_its_own_mirror_image() {
    for rim in [(51, 50), (52, 51), (57, 50), (60, 63), (50, 89), (26, 18), (50, 95)] {
        let points = circle((50, 50), rim);
        assert!(!points.is_empty());
        for (x, y) in points.iter().copied() {
            assert!(points.contains(&(100 - x, y)));
            assert!(points.contains(&(x, 100 - y)));
            assert!(points.contains(&(100 - x, 100 - y)));
            assert!(points.contains(&(50 + (y - 50), 50 + (x - 50))));
        }
    }
}

#[test]
fn a_circle_lies_at_its_radius() {
    let points = circle((50, 50), (80, 50));
    for (x, y) in points {
        let square = (x - 50) * (x - 50) + (y - 50) * (y - 50);
        // within half a pixel along one axis of radius 30
        assert!(29 * 29 <= square && square <= 31 * 31);
    }
}

#[test]
fn the_circle_tool_commits_on_a_release_away_from_the_centre() {
    let mut canvas = Canvas::new();
    let mut tool = Circe::new();
    tool.handle_press((50, 50), &mut canvas);
    tool.handle_hold((50, 50), (52, 50), &mut canvas);
    assert_eq!(cells_of(&canvas, WHITE).len(), 200 * 100);
    tool.handle_release((51, 50), &mut canvas);
    assert_eq!(cells_of(&canvas, BLACK), vec![(50, 49), (49, 50), (51, 50), (50, 51)]);
    assert!(shown_by(&tool).is_empty());
}

#[test]
fn the_circle_tool_commits_in_the_picked_color() {
    let mut canvas = Canvas::new();
    let mut tool = Circe::new();
    tool.set_outline_color(BLUE);
    tool.handle_press((50, 50), &mut canvas);
    tool.handle_release((51, 50), &mut canvas);
    assert_eq!(cells_of(&canvas, BLUE), vec![(50, 49), (49, 50), (51, 50), (50, 51)]);
}

#[test]
fn the_circle_tool_stays_down_on_a_release_at_the_centre() {
    let mut canvas = Canvas::new();
    let mut tool = Circe::new();
    tool.handle_press((50, 50), &mut canvas);
    tool.handle_hold((50, 50), (51, 50), &mut canvas);
    tool.handle_release((50, 50), &mut canvas);
    assert_eq!(cells_of(&canvas, WHITE).len(), 200 * 100);
    // still down: a hold shows a preview again
    assert!(shown_by(&tool).is_empty());
    tool.handle_hold((50, 50), (51, 50), &mut canvas);
    assert_eq!(
        shown_by(&tool),
        vec![
            ((50, 49), [0, 0, 0, 0xff]),
            ((49, 50), [0, 0, 0, 0xff]),
            ((51, 50), [0, 0, 0, 0xff]),
            ((50, 51), [0, 0, 0, 0xff])
        ]
    );
    tool.handle_release((51, 50), &mut canvas);
    assert!(shown_by(&tool).is_empty());
    assert_eq!(cells_of(&canvas, BLACK).len(), 4);
}

#[test]
fn the_circle_tool_previews_nothing_at_radius_zero() {
    let mut canvas = Canvas::new();
    let mut tool = Circe::new();
    assert!(shown_by(&tool).is_empty());
    tool.handle_press((50, 50), &mut canvas);
    assert!(shown_by(&tool).is_empty());
}

#[test]
fn an_idle_circle_tool_stays_idle_on_a_release_at_its_centre() {
    let mut canvas = Canvas::new();
    let mut tool = Circe::new();
    tool.handle_release((0, 0), &mut canvas);
    tool.handle_hold((0, 0), (3, 0), &mut canvas);
    assert!(shown_by(&tool).is_empty());
}

#[test]
fn a_fill_floods_a_white_canvas() {
    let mut canvas = Canvas::new();
    let mut tool = Phill::new();
    tool.handle_press((100, 50), &mut canvas);
    assert_eq!(cells_of(&canvas, BLACK).len(), 200 * 100);
}

#[test]
fn a_fill_stops_at_another_color() {
    let mut canvas = Canvas::new();
    let mut pen = Rectangel::new();
    pen.set_outline_color(RED);
    pen.handle_press((10, 10), &mut canvas);
    pen.handle_release((20, 15), &mut canvas);
    let mut tool = Phill::new();
    tool.set_outline_color(BLUE);
    tool.handle_press((12, 12), &mut canvas);
    let mut inside = Vec::new();
    for y in 11..=14 {
        for x in 11..=19 {
            inside.push((x, y));
        }
    }
    assert_eq!(cells_of(&canvas, BLUE), inside);
    assert_eq!(cells_of(&canvas, RED), box_edges(10, 10, 20, 15));
    assert_eq!(cells_of(&canvas, WHITE).len(), 200 * 100 - 11 * 6);
}

#[test]
fn a_fill_does_not_pass_between_diagonal_neighbours() {
    let mut canvas = Canvas::new();
    // a red diamond round (50, 50): its cells touch at their corners only
    for (x, y) in [(50, 49), (49, 50), (51, 50), (50, 51)] {
        canvas.set_pixel(x, y, RED);
    }
    let mut tool = Phill::new();
    tool.set_outline_color(BLUE);
    tool.handle_press((50, 50), &mut canvas);
    assert_eq!(cells_of(&canvas, BLUE), vec![(50, 50)]);
    tool.handle_press((50, 49), &mut canvas);
    assert_eq!(cells_of(&canvas, BLUE), vec![(50, 49), (50, 50)]);
    assert_eq!(cells_of(&canvas, RED), vec![(49, 50), (51, 50), (50, 51)]);
}

#[test]
fn a_fill_follows_a_winding_patch() {
    let mut canvas = Canvas::new();
    for (x, y) in [(5, 5), (6, 5), (6, 6), (6, 7), (5, 7), (4, 7), (9, 9)] {
        canvas.set_pixel(x, y, RED);
    }
    let mut tool = Phill::new();
    tool.set_outline_color(BLUE);
    tool.handle_press((4, 7), &mut canvas);
    assert_eq!(
        cells_of(&canvas, BLUE),
        vec![(5, 5), (6, 5), (6, 6), (4, 7), (5, 7), (6, 7)]
    );
    assert_eq!(cells_of(&canvas, RED), vec![(9, 9)]);
}

#[test]
fn a_fill_with_the_color_already_there_changes_nothing() {
    let mut canvas = Canvas::new();
    canvas.set_pixel(7, 7, RED);
    let mut tool = Phill::new();
    tool.set_outline_color(WHITE);
    tool.handle_press((50, 50), &mut canvas);
    assert_eq!(cells_of(&canvas, WHITE).len(), 200 * 100 - 1);
    assert_eq!(cells_of(&canvas, RED), vec![(7, 7)]);
    tool.set_outline_color(RED);
    tool.handle_press((7, 7), &mut canvas);
    assert_eq!(cells_of(&canvas, RED), vec![(7, 7)]);
}

#[test]
fn a_fill_done_twice_is_a_fill_done_once() {
    let mut canvas = Canvas::new();
    canvas.set_pixel(7, 7, RED);
    let mut tool = Phill::new();
    tool.handle_press((1, 1), &mut canvas);
    let once = cells_of(&canvas, BLACK);
    tool.handle_press((1, 1), &mut canvas);
    assert_eq!(cells_of(&canvas, BLACK), once);
    assert_eq!(once.len(), 200 * 100 - 1);
    assert_eq!(cells_of(&canvas, RED), vec![(7, 7)]);
}

#[test]
fn a_fill_from_off_the_canvas_changes_nothing() {
    let mut canvas = Canvas::new();
    let mut tool = Phill::new();
    for start in [(0, 0), (-1, 5), (5, -1), (201, 5), (5, 101), (0, 50), (50, 0)] {
        tool.handle_press(start, &mut canvas);
    }
    assert_eq!(cells_of(&canvas, WHITE).len(), 200 * 100);
}

#[test]
fn a_fill_reaches_the_corners_of_the_canvas() {
    let mut canvas = Canvas::new();
    let mut tool = Phill::new();
    tool.set_outline_color(RED);
    tool.handle_press((200, 100), &mut canvas);
    for corner in [(1, 1), (200, 1), (1, 100), (200, 100)] {
        assert_eq!(canvas.get_pixel(corner.0, corner.1), Some(RED));
    }
}

#[test]
fn the_fill_tool_does_nothing_on_hold_and_release_and_shows_nothing() {
    let mut canvas = Canvas::new();
    let mut tool = Phill::new();
    tool.handle_hold((1, 1), (5, 5), &mut canvas);
    tool.handle_release((5, 5), &mut canvas);
    assert_eq!(cells_of(&canvas, WHITE).len(), 200 * 100);
    assert!(shown_by(&tool).is_empty());
}

#[test]
fn the_tool_in_use_does_what_its_variant_does() {
    let mut canvas = Canvas::new();
    let mut tool = ActiveTool::Rectangle(Rectangel::new());
    tool.handle_press((10, 10), &mut canvas);
    tool.handle_hold((10, 10), (11, 11), &mut canvas);
    assert_eq!(shown_by(&tool).len(), 4);
    tool.set_outline_color(RED);
    tool.handle_release((12, 12), &mut canvas);
    assert_eq!(cells_of(&canvas, RED), box_edges(10, 10, 12, 12));

    let mut tool = ActiveTool::Pencil(Penicilin::new());
    tool.handle_hold((1, 1), (3, 1), &mut canvas);
    assert_eq!(cells_of(&canvas, BLACK), vec![(1, 1), (2, 1), (3, 1)]);

    let mut tool = ActiveTool::Line(Linen::new());
    tool.handle_press((1, 3), &mut canvas);
    tool.handle_release((3, 3), &mut canvas);
    assert_eq!(cells_of(&canvas, YELLOW), vec![(1, 3), (2, 3), (3, 3)]);

    let mut tool = ActiveTool::Circle(Circe::new());
    tool.set_outline_color(BLUE);
    tool.handle_press((50, 50), &mut canvas);
    tool.handle_release((50, 51), &mut canvas);
    assert_eq!(cells_of(&canvas, BLUE), vec![(50, 49), (49, 50), (51, 50), (50, 51)]);

    let mut tool = ActiveTool::FloodFill(Phill::new());
    tool.set_outline_color(YELLOW);
    tool.handle_press((11, 11), &mut canvas);
    assert_eq!(canvas.get_pixel(11, 11), Some(YELLOW));
    assert_eq!(canvas.get_pixel(13, 13), Some(WHITE));
}

/// A small generator of numbers that look random and are the same at every run.
fn next(state: &mut u64) -> u64 {
    *state = state.wrapping_mul(6364136223846793005).wrapping_add(1442695040888963407);
    *state >> 33
}

/// The canvas with the patch of `start` filled, found by walking the patch
/// breadth first.
fn filled_by_hand(
    cells: &Vec<Vec<Color>>,
    start: (usize, usize),
    fill: Color,
) -> Vec<Vec<Color>> {
    let mut after = cells.clone();
    let patch = cells[start.1][start.0];
    let mut reached = vec![vec![false; 202]; 102];
    let mut frontier = std::collections::VecDeque::new();
    reached[start.1][start.0] = true;
    frontier.push_back(start);
    while let Some((x, y)) = frontier.pop_front() {
        after[y][x] = fill;
        for (n_x, n_y) in [(x + 1, y), (x - 1, y), (x, y + 1), (x, y - 1)] {
            let on_canvas = (1..=200).contains(&n_x) && (1..=100).contains(&n_y);
            if on_canvas && !reached[n_y][n_x] && cells[n_y][n_x] == patch {
                reached[n_y][n_x] = true;
                frontier.push_back((n_x, n_y));
            }
        }
    }
    after
}

#[test]
fn a_fill_of_a_speckled_canvas_is_the_patch_of_its_start() {
    let colors = [WHITE, RED, BLUE];
    let mut state = 11u64;
    for round in 0..6 {
        let mut canvas = Canvas::new();
        let mut cells = vec![vec![WHITE; 202]; 102];
        for y in 1..=100 {
            for x in 1..=200 {
                // more white as the rounds go on, so that patches grow
                let color = if next(&mut state) % (3 + round) < 2 {
                    colors[(next(&mut state) % 3) as usize]
                } else {
                    WHITE
                };
                cells[y][x] = color;
                canvas.set_pixel(x, y, color);
            }
        }
        let start = (1 + (next(&mut state) % 200) as usize, 1 + (next(&mut state) % 100) as usize);
        let fill = [YELLOW, WHITE, RED][(round % 3) as usize];
        let mut tool = Phill::new();
        tool.set_outline_color(fill);
        tool.handle_press((start.0 as isize, start.1 as isize), &mut canvas);
        let expected = filled_by_hand(&cells, start, fill);
        for y in 1..=100 {
            for x in 1..=200 {
                assert_eq!(canvas.get_pixel(x, y), Some(expected[y][x]));
            }
        }
    }
}
