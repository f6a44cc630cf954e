//! Straight lines on the tile grid, drawn by the `bresenham` crate.

use vstd::prelude::*;
use bresenham::Bresenham;
use crate::room::WORLD_LIMIT;

verus! {

/// The tiles that `bresenham::Bresenham` visits on the way from `(x0, y0)`
/// to `(x1, y1)`, in the order in which it visits them.
pub uninterp spec fn bresenham_line(x0: int, y0: int, x1: int, y1: int) -> Seq<(isize, isize)>;

/// The tile lies within `WORLD_LIMIT` of the origin on both axes.
pub open spec fn within_world(p: (i32, i32)) -> bool {
    -WORLD_LIMIT <= p.0 <= WORLD_LIMIT && -WORLD_LIMIT <= p.1 <= WORLD_LIMIT
}

/// `bresenham::Bresenham::new`, run to its end: the tiles of the line from
/// `start` to `end`, which are a function of the two ends alone. The crate
/// adds and subtracts the coordinates as machine-sized integers, so
/// `requires` keeps both ends inside the world, where the sums fit.
#[verifier::external_body]
pub(crate) fn bresenham_points(start: (i32, i32), end: (i32, i32)) -> (r: Vec<(isize, isize)>)
    requires
        within_world(start),
        within_world(end),
    ensures
        r@ == bresenham_line(start.0 as int, start.1 as int, end.0 as int, end.1 as int),
{
    Bresenham::new((start.0 as isize, start.1 as isize), (end.0 as isize, end.1 as isize)).collect()
}

} // verus!
