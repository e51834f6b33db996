//! Pixel positions.

use vstd::prelude::*;

verus! {

/// A position on the pixel grid: `x` counts columns from the left edge,
/// `y` counts rows from the top edge.
#[derive(Copy, Clone, Debug, PartialEq, Eq, Structural)]
pub struct Pixel {
    pub x: u32,
    pub y: u32,
}

impl Pixel {
    pub fn new(x: u32, y: u32) -> (px: Pixel)
        ensures
            px.x == x,
            px.y == y,
    {
        Pixel { x, y }
    }

    /// The position of `self` as seen from `center`, in whole pixels, with
    /// the vertical axis turned so that it points up.
    pub open spec fn offset(self, center: Pixel) -> (int, int) {
        (self.x - center.x, -(self.y - center.y))
    }

    /// Computes [`Pixel::offset`].  A pixel in the row of `center` lies on
    /// the horizontal axis, one in its column on the vertical axis.
    pub fn offset_from(&self, center: Pixel) -> (d: (i64, i64))
        ensures
            (d.0 as int, d.1 as int) == self.offset(center),
            self.y == center.y ==> d.1 == 0,
            self.x == center.x ==> d.0 == 0,
    {
        let dx: i64 = self.x as i64 - center.x as i64;
        let dy: i64 = center.y as i64 - self.y as i64;
        (dx, dy)
    }
}

} // verus!
