use vstd::prelude::*;

verus! {

/// An axis aligned rectangle in pixel coordinates (a detected face).
#[derive(Clone, Debug)]
pub struct Rectangle {
    pub x: i32,
    pub y: i32,
    pub width: u32,
    pub height: u32,
}

/// The extent a side keeps after it is cut at `limit`: the original keeps
/// `len` unless `start + len` passes the limit, and then keeps `limit - start`.
pub open spec fn fitted_extent(start: i32, len: u32, limit: u32) -> u32 {
    if (start as u32) + len > limit {
        (limit - (start as u32)) as u32
    } else {
        len
    }
}

/// The inputs on which cutting a side at `limit` neither overflows nor
/// underflows.
pub open spec fn can_fit_extent(start: i32, len: u32, limit: u32) -> bool {
    &&& (start as u32) + len <= u32::MAX
    &&& (start as u32) + len > limit ==> (start as u32) <= limit
}

/// Cutting keeps a side inside the image and never lengthens it: the cut
/// side ends at or before the edge, a side that passed the edge now ends
/// exactly on it, and a side that was inside stays as it was.
pub proof fn lemma_fitted_extent_inside(start: i32, len: u32, limit: u32)
    requires
        can_fit_extent(start, len, limit),
    ensures
        (start as u32) + fitted_extent(start, len, limit) <= limit,
        fitted_extent(start, len, limit) <= len,
        (start as u32) + len <= limit ==> fitted_extent(start, len, limit) == len,
        (start as u32) + len > limit ==> (start as u32) + fitted_extent(start, len, limit) == limit,
{
}

impl Rectangle {
    pub fn new(x: i32, y: i32, width: u32, height: u32) -> (r: Self)
        ensures
            r.x == x,
            r.y == y,
            r.width == width,
            r.height == height,
    {
        Rectangle { x, y, width, height }
    }

    /// Cuts the rectangle so that it does not reach past the right edge
    /// `max_width` nor the bottom edge `max_height` of the image.
    pub fn fit_within(&mut self, max_width: u32, max_height: u32)
        requires
            can_fit_extent(old(self).x, old(self).width, max_width),
            can_fit_extent(old(self).y, old(self).height, max_height),
        ensures
            final(self).x == old(self).x,
            final(self).y == old(self).y,
            final(self).width == fitted_extent(old(self).x, old(self).width, max_width),
            final(self).height == fitted_extent(old(self).y, old(self).height, max_height),
    {
        let x = self.x as u32;
        if x + self.width > max_width {
            self.width = max_width - x;
        }
        let y = self.y as u32;
        if y + self.height > max_height {
            self.height = max_height - y;
        }
    }
}

} // verus!
