use paint::color::Color;

#[test]
fn new_keeps_the_three_channels() {
    let color = Color::new(1, 2, 3);
    assert_eq!((color.r, color.g, color.b), (1, 2, 3));
}

#[test]
fn white_is_all_ones() {
    assert_eq!(Color::white(), Color::new(0xff, 0xff, 0xff));
}

#[test]
fn black_is_all_zeros() {
    assert_eq!(Color::black(), Color::new(0x00, 0x00, 0x00));
}

#[test]
fn from_a_triple_takes_red_green_blue_in_order() {
    let color = Color::from((10, 20, 30));
    assert_eq!(color, Color { r: 10, g: 20, b: 30 });
    let same: Color = (10, 20, 30).into();
    assert_eq!(same, color);
}

#[test]
fn colors_compare_by_channel() {
    assert_ne!(Color::new(1, 2, 3), Color::new(1, 2, 4));
    assert_ne!(Color::new(1, 2, 3), Color::new(3, 2, 1));
    let copy = Color::new(9, 8, 7);
    let other = copy;
    assert_eq!(copy, other);
}
