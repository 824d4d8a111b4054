//! What every part of the screen has in common: it can be drawn into a lent frame.

use crate::buffer::{clipped, overlay, Guard, GuardedBuffer};
use crate::color::PixelMap;
use vstd::prelude::*;

verus! {

/// Something that shows on the screen.
pub trait Widget {
    /// What the widget shows: the colour of each position it covers.
    spec fn layer(&self) -> PixelMap;

    /// Draws the widget into a lent frame: of what the widget shows, exactly
    /// the part that the lender's rule admits reaches the frame.
    fn display<G: Guard>(&self, buffer: &mut GuardedBuffer<'_, '_, G>)
        ensures
            final(buffer).guard == old(buffer).guard,
            final(buffer).frame() == overlay(
                old(buffer).frame(),
                clipped(self.layer(), old(buffer).guard),
            ),
            *final(final(buffer).buffer) == *final(old(buffer).buffer),
            final(final(buffer).buffer.pixels)@ == final(old(buffer).buffer.pixels)@,
    ;
}

} // verus!
