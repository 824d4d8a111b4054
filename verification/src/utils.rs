//! Ranges between two bounds given in either order.

use std::ops::{Range, RangeInclusive};
use vstd::prelude::*;

verus! {

/// The lesser of two integers.
pub open spec fn lesser(a: int, b: int) -> int {
    if a <= b {
        a
    } else {
        b
    }
}

/// The greater of two integers.
pub open spec fn greater(a: int, b: int) -> int {
    if a <= b {
        b
    } else {
        a
    }
}

/// The half-open range from the lesser of `a` and `b` to the greater.
pub fn range(a: isize, b: isize) -> (span: Range<isize>)
    ensures
        span.start == lesser(a as int, b as int),
        span.end == greater(a as int, b as int),
{
    if a <= b {
        a..b
    } else {
        b..a
    }
}

/// The closed range from the lesser of `a` and `b` to the greater.
pub fn range_inclusive(a: isize, b: isize) -> (span: RangeInclusive<isize>)
    ensures
        span@.start == lesser(a as int, b as int),
        span@.end == greater(a as int, b as int),
        !span@.exhausted,
{
    if a <= b {
        a..=b
    } else {
        b..=a
    }
}

/// `RangeInclusive::start` of the standard library gives the lower bound that
/// the range was made with, as long as the range has not been iterated to its end.
pub assume_specification<Idx>[ RangeInclusive::<Idx>::start ](span: &RangeInclusive<Idx>) -> (start: &Idx)
    ensures
        !span@.exhausted ==> *start == span@.start,
;

/// `RangeInclusive::end` of the standard library gives the upper bound that the
/// range was made with, as long as the range has not been iterated to its end.
pub assume_specification<Idx>[ RangeInclusive::<Idx>::end ](span: &RangeInclusive<Idx>) -> (end: &Idx)
    ensures
        !span@.exhausted ==> *end == span@.end,
;

} // verus!
