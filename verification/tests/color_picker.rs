use paint::buffer::Buffer;
use paint::color::Color;
use paint::color_picker::{ColorButton, ColorPicker, BUTTON_SIZE, SWATCHES};
use paint::widget::Widget;
use paint::{HEIGHT, WIDTH};

const SWATCH_COLORS: [Color; 5] = [
    Color { r: 0xff, g: 0x00, b: 0x00 },
    Color { r: 0x00, g: 0x00, b: 0x00 },
    Color { r: 0x00, g: 0xff, b: 0x00 },
    Color { r: 0x00, g: 0x00, b: 0xff },
    Color { r: 0xff, g: 0xff, b: 0xff },
];

#[test]
fn there_are_five_swatches_of_five_pixels_across() {
    assert_eq!(BUTTON_SIZE, 5);
    assert_eq!(SWATCHES, 5);
}

#[test]
fn a_press_inside_a_swatch_picks_its_color() {
    let mut picker = ColorPicker::new();
    for (i, color) in SWATCH_COLORS.iter().enumerate() {
        let left = 6 * i as isize + 1;
        for y in 102..107 {
            for x in left..left + 5 {
                assert_eq!(picker.pick_color((x, y)), Some(*color));
            }
        }
    }
}

#[test]
fn a_press_in_the_gap_between_two_swatches_picks_nothing() {
    let mut picker = ColorPicker::new();
    for x in [6, 12, 18, 24] {
        for y in 102..107 {
            assert_eq!(picker.pick_color((x, y)), None);
        }
    }
}

#[test]
fn a_press_beside_the_row_picks_nothing() {
    let mut picker = ColorPicker::new();
    assert_eq!(picker.pick_color((0, 104)), None);
    assert_eq!(picker.pick_color((30, 104)), None);
    assert_eq!(picker.pick_color((31, 104)), None);
    assert_eq!(picker.pick_color((3, 101)), None);
    assert_eq!(picker.pick_color((3, 107)), None);
    assert_eq!(picker.pick_color((3, 3)), None);
    assert_eq!(picker.pick_color((-3, 104)), None);
}

#[test]
fn a_press_far_away_picks_nothing() {
    let mut picker = ColorPicker::new();
    assert_eq!(picker.pick_color((isize::MIN, isize::MIN)), None);
    assert_eq!(picker.pick_color((isize::MAX, isize::MAX)), None);
    assert_eq!(picker.pick_color((isize::MIN, 104)), None);
    assert_eq!(picker.pick_color((3, isize::MAX)), None);
}

#[test]
fn picking_does_not_wear_the_palette_out() {
    let mut picker = ColorPicker::new();
    assert_eq!(picker.pick_color((1, 102)), Some(SWATCH_COLORS[0]));
    assert_eq!(picker.pick_color((6, 102)), None);
    assert_eq!(picker.pick_color((1, 102)), Some(SWATCH_COLORS[0]));
    assert_eq!(picker.pick_color((29, 106)), Some(SWATCH_COLORS[4]));
}

#[test]
fn a_swatch_is_hit_on_its_square() {
    let button = ColorButton { color: Color::black(), x: 10, y: 20 };
    assert!(button.clicked((10, 20)));
    assert!(button.clicked((14, 24)));
    assert!(!button.clicked((15, 20)));
    assert!(!button.clicked((10, 25)));
    assert!(!button.clicked((9, 20)));
    assert!(!button.clicked((10, 19)));
}

#[test]
fn a_swatch_anywhere_is_hit_without_overflow() {
    let button = ColorButton { color: Color::black(), x: isize::MAX - 1, y: isize::MIN };
    assert!(button.clicked((isize::MAX, isize::MIN)));
    assert!(button.clicked((isize::MAX - 1, isize::MIN + 4)));
    assert!(!button.clicked((isize::MIN, isize::MIN)));
    assert!(!button.clicked((isize::MAX, isize::MAX)));
    assert!(!button.clicked((isize::MAX, isize::MIN + 5)));
}

#[test]
fn a_swatch_draws_its_square() {
    let button = ColorButton { color: Color::new(1, 2, 3), x: 10, y: 20 };
    let mut frame = vec![0u8; WIDTH * HEIGHT * 4];
    {
        let mut buffer = Buffer::new(&mut frame);
        let mut lent = buffer.lend(((0usize, 0usize), (WIDTH, HEIGHT)));
        button.display(&mut lent);
    }
    for y in 0..HEIGHT {
        for x in 0..WIDTH {
            let ix = (x + y * WIDTH) * 4;
            let inside = (10..15).contains(&x) && (20..25).contains(&y);
            let expected: [u8; 4] = if inside { [1, 2, 3, 0xff] } else { [0; 4] };
            assert_eq!(&frame[ix..ix + 4], &expected);
        }
    }
}

#[test]
fn a_swatch_half_off_the_screen_draws_the_half_that_is_on() {
    let button = ColorButton { color: Color::new(1, 2, 3), x: -3, y: -2 };
    let mut frame = vec![0u8; WIDTH * HEIGHT * 4];
    {
        let mut buffer = Buffer::new(&mut frame);
        let mut lent = buffer.lend(((0usize, 0usize), (WIDTH, HEIGHT)));
        button.display(&mut lent);
    }
    for y in 0..HEIGHT {
        for x in 0..WIDTH {
            let ix = (x + y * WIDTH) * 4;
            let inside = x < 2 && y < 3;
            let expected: [u8; 4] = if inside { [1, 2, 3, 0xff] } else { [0; 4] };
            assert_eq!(&frame[ix..ix + 4], &expected);
        }
    }
}

#[test]
fn a_swatch_at_the_far_corner_draws_nothing() {
    let button = ColorButton { color: Color::new(1, 2, 3), x: isize::MAX, y: isize::MAX };
    let mut frame = vec![0u8; WIDTH * HEIGHT * 4];
    {
        let mut buffer = Buffer::new(&mut frame);
        let mut lent = buffer.lend(((0usize, 0usize), (WIDTH, HEIGHT)));
        button.display(&mut lent);
    }
    assert!(frame.iter().all(|byte| *byte == 0));
}

#[test]
fn the_palette_draws_its_five_swatches() {
    let picker = ColorPicker::new();
    let mut frame = vec![0u8; WIDTH * HEIGHT * 4];
    {
        let mut buffer = Buffer::new(&mut frame);
        let mut lent = buffer.lend(((1usize, 102usize), (200usize, 5usize)));
        picker.display(&mut lent);
    }
    for y in 0..HEIGHT {
        for x in 0..WIDTH {
            let ix = (x + y * WIDTH) * 4;
            let swatch = if (102..107).contains(&y) && (1..30).contains(&x) && x % 6 != 0 {
                Some(SWATCH_COLORS[(x - 1) / 6])
            } else {
                None
            };
            let expected: [u8; 4] = match swatch {
                Some(color) => [color.r, color.g, color.b, 0xff],
                None => [0; 4],
            };
            assert_eq!(&frame[ix..ix + 4], &expected);
        }
    }
}
