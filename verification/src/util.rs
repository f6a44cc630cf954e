//! Small geometric helpers shared by the stages that join rooms.

use vstd::prelude::*;
use crate::room::{DoorOrientation, RoomDimensions};

verus! {

/// Length of the stretch that the ranges `[a1, a2)` and `[b1, b2)` share:
/// positive when they overlap, zero when they touch, negative for a gap.
pub open spec fn line_overlap_spec(a1: int, a2: int, b1: int, b2: int) -> int {
    (if a2 <= b2 { a2 } else { b2 }) - (if a1 >= b1 { a1 } else { b1 })
}

/// The shared stretch of two rectangles on the x axis.
pub open spec fn overlap_x(a: RoomDimensions, b: RoomDimensions) -> int {
    line_overlap_spec(a.anchor.x as int, a.end_x(), b.anchor.x as int, b.end_x())
}

/// The shared stretch of two rectangles on the y axis.
pub open spec fn overlap_y(a: RoomDimensions, b: RoomDimensions) -> int {
    line_overlap_spec(a.anchor.y as int, a.end_y(), b.anchor.y as int, b.end_y())
}

/// Both far corners and both shared stretches can be written with 32 bits.
pub open spec fn edges_fit(a: RoomDimensions, b: RoomDimensions) -> bool {
    &&& a.fits()
    &&& b.fits()
    &&& i32::MIN <= overlap_x(a, b) <= i32::MAX
    &&& i32::MIN <= overlap_y(a, b) <= i32::MAX
}

/// The orientation of a door between rooms with the given overlaps: the axis
/// of the larger overlap decides, and x wins a tie.
pub open spec fn door_orientation_spec(overlap_x: int, overlap_y: int) -> DoorOrientation {
    if overlap_x >= overlap_y {
        DoorOrientation::Horziontal
    } else {
        DoorOrientation::Vertical
    }
}

/// Orders two rooms so that the first is the bottom or left one: hands them
/// back as given when `comparison` holds, swapped otherwise. The flag tells
/// whether they were swapped.
pub fn maybe_flip_bl_tr(comparison: bool, room1: RoomDimensions, room2: RoomDimensions) -> (r: (
    bool,
    RoomDimensions,
    RoomDimensions,
))
    ensures
        r == (if comparison {
            (false, room1, room2)
        } else {
            (true, room2, room1)
        }),
{
    if comparison {
        (false, room1, room2)
    } else {
        (true, room2, room1)
    }
}

pub fn find_out_door_orientation(overlap_x: i32, overlap_y: i32) -> (r: DoorOrientation)
    ensures
        r == door_orientation_spec(overlap_x as int, overlap_y as int),
{
    if overlap_x >= overlap_y {
        DoorOrientation::Horziontal
    } else {
        DoorOrientation::Vertical
    }
}

/// Given two rooms, finds out how much of an edge they share on each axis.
/// Rooms can be far apart and still share an edge: side by side they share
/// rows (y), one above the other they share columns (x), and diagonal
/// neighbours share neither, so both values are negative.
pub fn common_edge(room1: &RoomDimensions, room2: &RoomDimensions) -> (r: (i32, i32))
    requires
        edges_fit(*room1, *room2),
    ensures
        r.0 == overlap_x(*room1, *room2),
        r.1 == overlap_y(*room1, *room2),
{
    let a1 = room1.anchor_grid();
    let a2 = room1.anchor_grid_end();
    let b1 = room2.anchor_grid();
    let b2 = room2.anchor_grid_end();
    let overlap_x: i32 = line_overlap(a1.x, a2.x, b1.x, b2.x);
    let overlap_y: i32 = line_overlap(a1.y, a2.y, b1.y, b2.y);
    (overlap_x, overlap_y)
}

pub fn line_overlap(a1: i32, a2: i32, b1: i32, b2: i32) -> (r: i32)
    requires
        i32::MIN <= line_overlap_spec(a1 as int, a2 as int, b1 as int, b2 as int) <= i32::MAX,
    ensures
        r == line_overlap_spec(a1 as int, a2 as int, b1 as int, b2 as int),
{
    let start: i32 = if a1 >= b1 { a1 } else { b1 };
    let end: i32 = if a2 <= b2 { a2 } else { b2 };
    end - start
}

/// The shared stretch does not depend on the order of the two rooms.
pub proof fn lemma_common_edge_symmetric(a: RoomDimensions, b: RoomDimensions)
    ensures
        overlap_x(a, b) == overlap_x(b, a),
        overlap_y(a, b) == overlap_y(b, a),
{
}

/// Inside the world every shared stretch fits a 32-bit integer.
pub proof fn lemma_world_overlaps_fit(a: RoomDimensions, b: RoomDimensions)
    requires
        a.in_world(),
        b.in_world(),
    ensures
        edges_fit(a, b),
        -0x2000_0000 <= overlap_x(a, b) <= 0x2000_0000,
        -0x2000_0000 <= overlap_y(a, b) <= 0x2000_0000,
{
}

} // verus!
