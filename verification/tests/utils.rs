use paint::utils::{range, range_inclusive};

#[test]
fn range_goes_from_the_lesser_to_the_greater() {
    assert_eq!(range(2, 5), 2..5);
    assert_eq!(range(5, 2), 2..5);
    assert_eq!(range(-3, 4), -3..4);
    assert_eq!(range(4, -3), -3..4);
}

#[test]
fn range_of_equal_bounds_is_empty() {
    assert_eq!(range(7, 7), 7..7);
    assert_eq!(range(7, 7).count(), 0);
}

#[test]
fn range_inclusive_goes_from_the_lesser_to_the_greater() {
    assert_eq!(range_inclusive(2, 5), 2..=5);
    assert_eq!(range_inclusive(5, 2), 2..=5);
    assert_eq!(range_inclusive(-3, 4), -3..=4);
    assert_eq!(range_inclusive(4, -3), -3..=4);
}

#[test]
fn range_inclusive_of_equal_bounds_holds_the_bound() {
    assert_eq!(range_inclusive(7, 7).collect::<Vec<isize>>(), vec![7]);
}

#[test]
fn range_inclusive_reports_its_bounds() {
    let span = range_inclusive(9, -9);
    assert_eq!(*span.start(), -9);
    assert_eq!(*span.end(), 9);
}

#[test]
fn ranges_take_the_extremes() {
    assert_eq!(range(isize::MAX, isize::MIN), isize::MIN..isize::MAX);
    assert_eq!(range_inclusive(isize::MAX, isize::MIN), isize::MIN..=isize::MAX);
}
