//! Connections between rooms: how two rooms lie to each other, and the
//! hallways that join rooms which do not touch.

use vstd::prelude::*;
use crate::generation::{
    dims_of, ids_in_range, main_ids, lemma_room_at, room_at, rooms_ok, MapArea, WorldgenError, WorldgenSettings,
};
use crate::graph_store::{lists_edges, pair_of, Edge};
use crate::tile_grid::blank_tiles;
use crate::line::{bresenham_line, bresenham_points};
use crate::room::{
    is_overlapping, overlapping, truncated_half, DoorOrientation, IVec2, Room, RoomDimensions, UVec2,
    WORLD_LIMIT,
};
use crate::util::{
    common_edge, door_orientation_spec, edges_fit, find_out_door_orientation,
    lemma_world_overlaps_fit, maybe_flip_bl_tr, overlap_x, overlap_y,
};

verus! {

/// The tiles along the border between two neighbouring rooms: for each room
/// its id and its own tiles at the border, as room-local positions. The two
/// lists run in parallel: tiles at the same index face each other.
#[derive(Debug, PartialEq, Eq, Default)]
pub struct AdjacentTiles {
    pub room1: (usize, Vec<UVec2>),
    pub room2: (usize, Vec<UVec2>),
}

/// How two rooms lie to each other.
#[derive(Debug, PartialEq, Eq, Default)]
pub enum RoomConnectionType {
    /// The rooms touch along a border wide enough for a passage.
    Adjacent(AdjacentTiles),
    /// The rooms are apart with nothing between them: a hallway can join them.
    Separated,
    /// The rooms are apart and the named rooms lie between them, in the order
    /// in which the line from the first to the second room meets them.
    SeparatedRoomsInbetween(Vec<usize>),
    /// The rooms are apart and no hallway can join them.
    SeparatedNoSolution,
    /// Not looked at yet.
    #[default]
    Unknown,
}

/// A connection between two rooms of a map.
#[derive(Debug, PartialEq, Eq)]
pub struct RoomConnection {
    pub room1_id: usize,
    pub room2_id: usize,
    pub data: RoomConnectionType,
}

/// What `AdjacentTiles` holds, as mathematical sequences.
pub struct AdjacentTilesView {
    pub room1: (usize, Seq<UVec2>),
    pub room2: (usize, Seq<UVec2>),
}

/// What `RoomConnectionType` holds, as mathematical sequences.
pub enum ConnectionKind {
    Adjacent(AdjacentTilesView),
    Separated,
    SeparatedRoomsInbetween(Seq<usize>),
    SeparatedNoSolution,
    Unknown,
}

/// What `RoomConnection` holds, as mathematical sequences.
pub struct ConnectionView {
    pub room1_id: usize,
    pub room2_id: usize,
    pub data: ConnectionKind,
}

impl View for AdjacentTiles {
    type V = AdjacentTilesView;

    open spec fn view(&self) -> AdjacentTilesView {
        AdjacentTilesView {
            room1: (self.room1.0, self.room1.1@),
            room2: (self.room2.0, self.room2.1@),
        }
    }
}

impl View for RoomConnectionType {
    type V = ConnectionKind;

    open spec fn view(&self) -> ConnectionKind {
        match self {
            RoomConnectionType::Adjacent(t) => ConnectionKind::Adjacent(t@),
            RoomConnectionType::Separated => ConnectionKind::Separated,
            RoomConnectionType::SeparatedRoomsInbetween(ids) => ConnectionKind::SeparatedRoomsInbetween(
                ids@,
            ),
            RoomConnectionType::SeparatedNoSolution => ConnectionKind::SeparatedNoSolution,
            RoomConnectionType::Unknown => ConnectionKind::Unknown,
        }
    }
}

impl View for RoomConnection {
    type V = ConnectionView;

    open spec fn view(&self) -> ConnectionView {
        ConnectionView { room1_id: self.room1_id, room2_id: self.room2_id, data: self.data@ }
    }
}

impl Clone for AdjacentTiles {
    fn clone(&self) -> (r: Self)
        ensures
            r@ == self@,
    {
        AdjacentTiles {
            room1: (self.room1.0, self.room1.1.clone()),
            room2: (self.room2.0, self.room2.1.clone()),
        }
    }
}

impl Clone for RoomConnectionType {
    fn clone(&self) -> (r: Self)
        ensures
            r@ == self@,
    {
        match self {
            RoomConnectionType::Adjacent(t) => RoomConnectionType::Adjacent(t.clone()),
            RoomConnectionType::Separated => RoomConnectionType::Separated,
            RoomConnectionType::SeparatedRoomsInbetween(ids) => RoomConnectionType::SeparatedRoomsInbetween(
                ids.clone(),
            ),
            RoomConnectionType::SeparatedNoSolution => RoomConnectionType::SeparatedNoSolution,
            RoomConnectionType::Unknown => RoomConnectionType::Unknown,
        }
    }
}

impl Clone for RoomConnection {
    fn clone(&self) -> (r: Self)
        ensures
            r@ == self@,
    {
        RoomConnection {
            room1_id: self.room1_id,
            room2_id: self.room2_id,
            data: self.data.clone(),
        }
    }
}

/// The views of a list of connections.
pub open spec fn connection_views(list: Seq<RoomConnection>) -> Seq<ConnectionView> {
    list.map_values(|c: RoomConnection| c@)
}

impl ConnectionView {
    /// Both rooms, and every room named as lying between them, are among
    /// the first `n` rooms.
    pub open spec fn in_range(self, n: nat) -> bool {
        &&& self.room1_id < n
        &&& self.room2_id < n
        &&& match self.data {
            ConnectionKind::SeparatedRoomsInbetween(ids) => forall|i: int|
                0 <= i < ids.len() ==> #[trigger] ids[i] < n,
            _ => true,
        }
    }
}

impl RoomConnection {
    pub fn new(room1_id: usize, room2_id: usize, ctype: RoomConnectionType) -> (r: Self)
        ensures
            r.room1_id == room1_id,
            r.room2_id == room2_id,
            r.data == ctype,
    {
        RoomConnection { room1_id, room2_id, data: ctype }
    }

    pub fn is_adjacent(&self) -> (r: bool)
        ensures
            r == (self@.data is Adjacent),
    {
        match self.data {
            RoomConnectionType::Adjacent(_) => true,
            _ => false,
        }
    }
}

/// Policy: two rooms that are apart with no room between them always count
/// as joinable by a hallway; whether one can be built is found out only when
/// it is built.
pub const SEPARATED_ALWAYS_BUILDABLE: bool = true;

/// Policy: a straight hallway is as wide as the stretch that its two rooms
/// share, also where that is more than the largest passage width.
pub const CLAMP_HALLWAY_WIDTH: bool = false;

/// The larger of two numbers.
pub open spec fn larger(a: int, b: int) -> int {
    if a >= b {
        a
    } else {
        b
    }
}

/// The smaller of two numbers.
pub open spec fn smaller(a: int, b: int) -> int {
    if a <= b {
        a
    } else {
        b
    }
}

/// Whether two rooms are neighbours: they share at least `min_width` tiles of
/// border, and at least one, on one axis and have no gap on the other; rooms
/// that touch at a corner only share no border. If so, the larger shared
/// stretch and the orientation of a door between them.
pub open spec fn adjacency(a: RoomDimensions, b: RoomDimensions, min_width: u32) -> Option<
    (int, DoorOrientation),
> {
    let ox = overlap_x(a, b);
    let oy = overlap_y(a, b);
    if (ox >= min_width || oy >= min_width) && ox >= 0 && oy >= 0 && (ox > 0 || oy > 0) {
        Some((larger(ox, oy), door_orientation_spec(ox, oy)))
    } else {
        None
    }
}

/// Returns the larger shared stretch and the orientation of a door, or
/// `None` when the rooms are not neighbours.
pub fn are_two_rooms_adjacent(
    room1: &RoomDimensions,
    room2: &RoomDimensions,
    min_hallway_width: u32,
) -> (r: Option<(i32, DoorOrientation)>)
    requires
        edges_fit(*room1, *room2),
    ensures
        match r {
            Some((overlap, orientation)) => adjacency(*room1, *room2, min_hallway_width) == Some(
                (overlap as int, orientation),
            ),
            None => adjacency(*room1, *room2, min_hallway_width).is_none(),
        },
{
    let (overlap_x, overlap_y) = common_edge(room1, room2);
    if overlap_x as i64 >= min_hallway_width as i64 || overlap_y as i64 >= min_hallway_width as i64 {
        if overlap_x < 0 || overlap_y < 0 {
            return None;
        }
        let overlap: i32 = if overlap_x >= overlap_y { overlap_x } else { overlap_y };
        if overlap == 0 {
            return None;
        }
        let orientation = find_out_door_orientation(overlap_x, overlap_y);
        return Some((overlap, orientation));
    }
    None
}

/// Whether a hallway can join two rooms that are apart. By policy the answer
/// is always yes, and the rectangle handed back is empty.
pub fn can_rooms_be_connected(
    room1: &RoomDimensions,
    room2: &RoomDimensions,
    min_hallway_width: u32,
) -> (r: Option<RoomDimensions>)
    ensures
        r == (if SEPARATED_ALWAYS_BUILDABLE {
            Some(RoomDimensions { anchor: IVec2 { x: 0, y: 0 }, height: 0, length: 0 })
        } else {
            None
        }),
{
    if SEPARATED_ALWAYS_BUILDABLE {
        Some(RoomDimensions { anchor: IVec2 { x: 0, y: 0 }, height: 0, length: 0 })
    } else {
        None
    }
}

/// Why no hallway was made.
#[derive(Debug, Default, Clone, Copy)]
pub enum CreateHallwayError {
    /// No room can be made of the hallway: it would leave the world.
    #[default]
    Unknown,
    /// No corner could be placed: in either position a piece would leave the world.
    OverlapNotEnough,
    /// A room is in the way of the corner: the ids of the first room, of the
    /// room in the way, and of the second room.
    CouldNotMakeLShapedHallway((usize, usize, usize)),
}

/// The four ways to lay a hallway with one corner.
#[derive(Debug, Clone, Copy, PartialEq, Eq, Structural)]
pub enum LHallwayOrientation {
    RightUp,
    UpRight,
    LeftUp,
    UpLeft,
}

/// How wide a straight hallway is made over a shared stretch of `overlap` tiles.
pub open spec fn hallway_width(overlap: u32, max_hallway_width: u32) -> u32 {
    if CLAMP_HALLWAY_WIDTH && max_hallway_width < overlap {
        max_hallway_width
    } else {
        overlap
    }
}

/// The straight hallway between two rooms: it starts at the far edge of the
/// bottom or left room, spans the gap to the other room and is at least one
/// tile long; across, it starts where the shared stretch starts.
#[verifier::opaque]
pub open spec fn straight_hallway(
    room1: RoomDimensions,
    room2: RoomDimensions,
    overlap: u32,
    max_hallway_width: u32,
    orientation: DoorOrientation,
) -> RoomDimensions {
    match orientation {
        DoorOrientation::Vertical => {
            let bl = if room1.anchor.x < room2.anchor.x { room1 } else { room2 };
            let tr = if room1.anchor.x < room2.anchor.x { room2 } else { room1 };
            RoomDimensions {
                anchor: IVec2 {
                    x: bl.end_x() as i32,
                    y: larger(bl.anchor.y as int, tr.anchor.y as int) as i32,
                },
                height: hallway_width(overlap, max_hallway_width) as usize,
                length: larger(tr.anchor.x - bl.end_x(), 1) as usize,
            }
        },
        DoorOrientation::Horziontal => {
            let bl = if room1.anchor.y < room2.anchor.y { room1 } else { room2 };
            let tr = if room1.anchor.y < room2.anchor.y { room2 } else { room1 };
            RoomDimensions {
                anchor: IVec2 {
                    x: larger(bl.anchor.x as int, tr.anchor.x as int) as i32,
                    y: bl.end_y() as i32,
                },
                height: larger(tr.anchor.y - bl.end_y(), 1) as usize,
                length: hallway_width(overlap, max_hallway_width) as usize,
            }
        },
    }
}

/// Creates the dimensions of a new room that joins two rooms in a straight line.
pub fn generate_straight_hallway(
    room1: &RoomDimensions,
    room2: &RoomDimensions,
    overlap: u32,
    max_hallway_width: u32,
    orientation: &DoorOrientation,
    threshold: u32,
) -> (r: RoomDimensions)
    requires
        room1.fits(),
        room2.fits(),
    ensures
        r == straight_hallway(*room1, *room2, overlap, max_hallway_width, *orientation),
{
    proof {
        reveal(straight_hallway);
    }
    let hallway_width: u32 = if CLAMP_HALLWAY_WIDTH && max_hallway_width < overlap {
        max_hallway_width
    } else {
        overlap
    };
    match orientation {
        DoorOrientation::Vertical => {
            let (_, bl_room, tr_room) = maybe_flip_bl_tr(
                room1.anchor_grid().x < room2.anchor_grid().x,
                *room1,
                *room2,
            );
            let bl_end = bl_room.anchor_grid_end();
            let y: i32 = if bl_room.anchor.y >= tr_room.anchor.y {
                bl_room.anchor.y
            } else {
                tr_room.anchor.y
            };
            let gap: i64 = tr_room.anchor.x as i64 - bl_end.x as i64;
            let hallway_length: i64 = if gap >= 1 { gap } else { 1 };
            RoomDimensions {
                anchor: IVec2 { x: bl_end.x, y },
                height: hallway_width as usize,
                length: hallway_length as usize,
            }
        },
        DoorOrientation::Horziontal => {
            let (_, bl_room, tr_room) = maybe_flip_bl_tr(
                room1.anchor_grid().y < room2.anchor_grid().y,
                *room1,
                *room2,
            );
            let bl_end = bl_room.anchor_grid_end();
            let x: i32 = if bl_room.anchor.x >= tr_room.anchor.x {
                bl_room.anchor.x
            } else {
                tr_room.anchor.x
            };
            let gap: i64 = tr_room.anchor.y as i64 - bl_end.y as i64;
            let hallway_length: i64 = if gap >= 1 { gap } else { 1 };
            RoomDimensions {
                anchor: IVec2 { x, y: bl_end.y },
                height: hallway_length as usize,
                length: hallway_width as usize,
            }
        },
    }
}

/// The square corner room of a hallway with one corner: its side is
/// `hallway_width`, and it is centred on the column of one room and the row
/// of the other.
#[verifier::opaque]
pub open spec fn corner_room(
    left: RoomDimensions,
    right: RoomDimensions,
    hallway_width: u32,
    orientation: LHallwayOrientation,
) -> RoomDimensions {
    let anchor = match orientation {
        LHallwayOrientation::RightUp | LHallwayOrientation::UpLeft => IVec2 {
            x: truncated_half(right.center2_x() - hallway_width) as i32,
            y: truncated_half(left.center2_y() - hallway_width) as i32,
        },
        LHallwayOrientation::UpRight | LHallwayOrientation::LeftUp => IVec2 {
            x: truncated_half(left.center2_x() - hallway_width) as i32,
            y: truncated_half(right.center2_y() - hallway_width) as i32,
        },
    };
    RoomDimensions { anchor, height: hallway_width as usize, length: hallway_width as usize }
}

/// The orientation of the doors of the first leg of a hallway with one corner.
pub open spec fn first_leg(orientation: LHallwayOrientation) -> DoorOrientation {
    match orientation {
        LHallwayOrientation::RightUp | LHallwayOrientation::UpLeft => DoorOrientation::Vertical,
        LHallwayOrientation::UpRight | LHallwayOrientation::LeftUp => DoorOrientation::Horziontal,
    }
}

/// The orientation of the doors of the second leg of a hallway with one corner.
pub open spec fn second_leg(orientation: LHallwayOrientation) -> DoorOrientation {
    match orientation {
        LHallwayOrientation::RightUp | LHallwayOrientation::UpLeft => DoorOrientation::Horziontal,
        LHallwayOrientation::UpRight | LHallwayOrientation::LeftUp => DoorOrientation::Vertical,
    }
}

/// The three pieces of a hallway with one corner, from the left room to the
/// right one: a straight leg, the corner room, a straight leg.
pub open spec fn l_shaped_hallway(
    left: RoomDimensions,
    right: RoomDimensions,
    max_hallway_width: u32,
    orientation: LHallwayOrientation,
) -> Seq<RoomDimensions> {
    let middle = corner_room(left, right, max_hallway_width, orientation);
    seq![
        straight_hallway(left, middle, max_hallway_width, max_hallway_width, first_leg(orientation)),
        middle,
        straight_hallway(middle, right, max_hallway_width, max_hallway_width, second_leg(orientation)),
    ]
}

/// Half of `n`, rounded toward zero.
fn half_toward_zero(n: i64) -> (r: i64)
    ensures
        r == truncated_half(n as int),
{
    n / 2
}

/// Places the corner room of a hallway with one corner.
fn generate_corner_room(
    left_room: &RoomDimensions,
    right_room: &RoomDimensions,
    hallway_width: u32,
    orientation: &LHallwayOrientation,
) -> (r: RoomDimensions)
    requires
        left_room.in_world(),
        right_room.in_world(),
        hallway_width <= WORLD_LIMIT,
    ensures
        r == corner_room(*left_room, *right_room, hallway_width, *orientation),
        r.fits(),
{
    proof {
        reveal(corner_room);
    }
    let lc: (i64, i64) = left_room.center_doubled();
    let rc: (i64, i64) = right_room.center_doubled();
    let w: i64 = hallway_width as i64;
    let anchor = match orientation {
        LHallwayOrientation::RightUp | LHallwayOrientation::UpLeft => IVec2 {
            x: half_toward_zero(rc.0 - w) as i32,
            y: half_toward_zero(lc.1 - w) as i32,
        },
        LHallwayOrientation::UpRight | LHallwayOrientation::LeftUp => IVec2 {
            x: half_toward_zero(lc.0 - w) as i32,
            y: half_toward_zero(rc.1 - w) as i32,
        },
    };
    RoomDimensions { anchor, height: hallway_width as usize, length: hallway_width as usize }
}

/// Lays a hallway with one corner between the left and the right room, in
/// the given orientation.
pub fn generate_l_shaped_hallway(
    left_room: &RoomDimensions,
    right_room: &RoomDimensions,
    min_hallway_width: u32,
    max_hallway_width: u32,
    orientation: &LHallwayOrientation,
) -> (r: Vec<RoomDimensions>)
    requires
        left_room.in_world(),
        right_room.in_world(),
        max_hallway_width <= WORLD_LIMIT,
    ensures
        r@ == l_shaped_hallway(*left_room, *right_room, max_hallway_width, *orientation),
{
    let hallway_width: u32 = max_hallway_width;
    let middle_room = generate_corner_room(left_room, right_room, hallway_width, orientation);
    let (orientation1, orientation2) = match orientation {
        LHallwayOrientation::RightUp | LHallwayOrientation::UpLeft => (
            DoorOrientation::Vertical,
            DoorOrientation::Horziontal,
        ),
        LHallwayOrientation::UpRight | LHallwayOrientation::LeftUp => (
            DoorOrientation::Horziontal,
            DoorOrientation::Vertical,
        ),
    };
    let hallway_a = generate_straight_hallway(
        left_room,
        &middle_room,
        hallway_width,
        max_hallway_width,
        &orientation1,
        9999,
    );
    let hallway_b = generate_straight_hallway(
        &middle_room,
        right_room,
        hallway_width,
        max_hallway_width,
        &orientation2,
        9999,
    );
    let mut new_rooms: Vec<RoomDimensions> = Vec::new();
    new_rooms.push(hallway_a);
    new_rooms.push(middle_room);
    new_rooms.push(hallway_b);
    assert(new_rooms@ =~= l_shaped_hallway(
        *left_room,
        *right_room,
        max_hallway_width,
        *orientation,
    ));
    new_rooms
}

/// Rooms that share a border of at least the least passage width, with no
/// gap on the other axis, are neighbours, and a door between them lies on the
/// axis of the larger shared stretch.
pub proof fn lemma_shared_border_is_adjacent(a: RoomDimensions, b: RoomDimensions, min_width: u32)
    requires
        overlap_x(a, b) >= 0,
        overlap_y(a, b) >= 0,
        overlap_x(a, b) > 0 || overlap_y(a, b) > 0,
        overlap_x(a, b) >= min_width || overlap_y(a, b) >= min_width,
    ensures
        adjacency(a, b, min_width) == Some(
            (
                larger(overlap_x(a, b), overlap_y(a, b)),
                if overlap_x(a, b) >= overlap_y(a, b) {
                    DoorOrientation::Horziontal
                } else {
                    DoorOrientation::Vertical
                },
            ),
        ),
{
}

/// The rooms that a line passes through, each once, in the order in which
/// the line first meets them; the rooms `id1` and `id2` are left out.
pub open spec fn rooms_along(
    rooms: Seq<RoomDimensions>,
    line: Seq<(isize, isize)>,
    id1: usize,
    id2: usize,
) -> Seq<usize>
    decreases line.len(),
{
    if line.len() == 0 {
        Seq::empty()
    } else {
        let before = rooms_along(rooms, line.drop_last(), id1, id2);
        match room_at(rooms, rooms.len() as int, line.last().0 as int, line.last().1 as int) {
            Some(id) => if id == id1 || id == id2 || before.contains(id) {
                before
            } else {
                before.push(id)
            },
            None => before,
        }
    }
}

/// The line between the centre tiles of two rooms.
pub open spec fn center_line(a: RoomDimensions, b: RoomDimensions) -> Seq<(isize, isize)> {
    bresenham_line(
        a.center_tile_spec().0,
        a.center_tile_spec().1,
        b.center_tile_spec().0,
        b.center_tile_spec().1,
    )
}

/// No room of a map covers a tile that cannot be written with 32 bits.
proof fn lemma_far_tile_is_free(rooms: Seq<RoomDimensions>, n: int, x: int, y: int)
    requires
        0 <= n <= rooms.len(),
        forall|i: int| 0 <= i < rooms.len() ==> (#[trigger] rooms[i]).in_world(),
        !(i32::MIN <= x <= i32::MAX && i32::MIN <= y <= i32::MAX),
    ensures
        room_at(rooms, n, x, y) is None,
    decreases n,
{
    if n > 0 {
        lemma_far_tile_is_free(rooms, n - 1, x, y);
    }
}

/// The ids of the rooms that the tiles of `line` lie in, each once, in the
/// order in which the line meets them, without `id1` and `id2`.
pub fn rooms_along_line(map: &MapArea, line: &Vec<(isize, isize)>, id1: usize, id2: usize) -> (r:
    Vec<usize>)
    requires
        rooms_ok(map.rooms@),
    ensures
        r@ == rooms_along(dims_of(map.rooms@), line@, id1, id2),
        forall|i: int| 0 <= i < r@.len() ==> #[trigger] r@[i] < map.rooms@.len(),
{
    let mut ids: Vec<usize> = Vec::new();
    let mut k: usize = 0;
    let count: usize = map.rooms.len();
    while k < line.len()
        invariant
            rooms_ok(map.rooms@),
            count == map.rooms@.len(),
            k <= line@.len(),
            ids@ == rooms_along(dims_of(map.rooms@), line@.take(k as int), id1, id2),
            forall|i: int| 0 <= i < ids@.len() ==> #[trigger] ids@[i] < map.rooms@.len(),
        decreases line@.len() - k,
    {
        let point: (isize, isize) = line[k];
        assert(line@.take(k + 1).drop_last() =~= line@.take(k as int));
        assert(line@.take(k + 1).last() == point);
        proof {
            lemma_room_at(
                dims_of(map.rooms@),
                map.rooms@.len() as int,
                point.0 as int,
                point.1 as int,
            );
        }
        if point.0 >= i32::MIN as isize && point.0 <= i32::MAX as isize && point.1 >= i32::MIN as isize
            && point.1 <= i32::MAX as isize {
            match map.point_to_room((point.0 as i32, point.1 as i32)) {
                Some(found_room_id) => {
                    if !(found_room_id == id1 || found_room_id == id2 || contains_id(
                        &ids,
                        found_room_id,
                    )) {
                        ids.push(found_room_id);
                    }
                },
                None => {},
            }
        } else {
            proof {
                assert forall|i: int| 0 <= i < dims_of(map.rooms@).len() implies (
                #[trigger] dims_of(map.rooms@)[i]).in_world() by {
                    assert(map.rooms@[i].dims().in_world());
                }
                lemma_far_tile_is_free(
                    dims_of(map.rooms@),
                    map.rooms@.len() as int,
                    point.0 as int,
                    point.1 as int,
                );
            }
        }
        k += 1;
    }
    assert(line@.take(k as int) =~= line@);
    ids
}

/// Whether `id` occurs in `ids`.
pub fn contains_id(ids: &Vec<usize>, id: usize) -> (r: bool)
    ensures
        r == ids@.contains(id),
{
    let mut i: usize = 0;
    while i < ids.len()
        invariant
            i <= ids@.len(),
            forall|j: int| 0 <= j < i ==> ids@[j] != id,
        decreases ids@.len() - i,
    {
        if ids[i] == id {
            return true;
        }
        i += 1;
    }
    false
}

/// The rooms between two rooms: those that the line between the centre
/// tiles passes through, in the order in which it meets them. `None` when
/// there is none.
pub fn rooms_between(room1: &Room, room2: &Room, map: &MapArea) -> (r: Option<Vec<usize>>)
    requires
        rooms_ok(map.rooms@),
        room1.dims().in_world(),
        room2.dims().in_world(),
    ensures
        match r {
            Some(ids) => ids@.len() > 0 && ids@ == rooms_along(
                dims_of(map.rooms@),
                center_line(room1.dims(), room2.dims()),
                room1.room_id,
                room2.room_id,
            ),
            None => rooms_along(
                dims_of(map.rooms@),
                center_line(room1.dims(), room2.dims()),
                room1.room_id,
                room2.room_id,
            ).len() == 0,
        },
        r is Some ==> forall|i: int| 0 <= i < r.unwrap()@.len() ==> #[trigger] r.unwrap()@[i] < map.rooms@.len(),
{
    let c1 = room1.center_tile();
    let c2 = room2.center_tile();
    let list_of_points = bresenham_points((c1.x, c1.y), (c2.x, c2.y));
    let inbetween_room_ids = rooms_along_line(map, &list_of_points, room1.id(), room2.id());
    if inbetween_room_ids.len() > 0 {
        Some(inbetween_room_ids)
    } else {
        None
    }
}

/// The two tiles that face each other across a border at the place `i`
/// along it: the first in the bottom or left room, in its last column or row
/// `fixed`, the second beside it in the other room.
pub open spec fn facing_tiles(orientation: DoorOrientation, fixed: int, i: int) -> (
    (int, int),
    (int, int),
) {
    match orientation {
        DoorOrientation::Vertical => ((fixed, i), (fixed + 1, i)),
        DoorOrientation::Horziontal => ((i, fixed), (i, fixed + 1)),
    }
}

/// The room-local positions of the two tiles that face each other at the
/// place `i`, if both tiles lie in some room of the map and each in its own room.
pub open spec fn border_pair(
    bl: RoomDimensions,
    tr: RoomDimensions,
    rooms: Seq<RoomDimensions>,
    orientation: DoorOrientation,
    fixed: int,
    i: int,
) -> Option<(UVec2, UVec2)> {
    let (p1, p2) = facing_tiles(orientation, fixed, i);
    if room_at(rooms, rooms.len() as int, p1.0, p1.1) is Some && room_at(
        rooms,
        rooms.len() as int,
        p2.0,
        p2.1,
    ) is Some {
        match (bl.global_to_local_spec(p1.0, p1.1), tr.global_to_local_spec(p2.0, p2.1)) {
            (Some(a), Some(b)) => Some((a, b)),
            _ => None,
        }
    } else {
        None
    }
}

/// The pairs of facing tiles at the places from `start` up to, not
/// including, `end`.
pub open spec fn border_pairs(
    bl: RoomDimensions,
    tr: RoomDimensions,
    rooms: Seq<RoomDimensions>,
    orientation: DoorOrientation,
    fixed: int,
    start: int,
    end: int,
) -> Seq<(UVec2, UVec2)>
    decreases end - start,
{
    if end <= start {
        Seq::empty()
    } else {
        let before = border_pairs(bl, tr, rooms, orientation, fixed, start, end - 1);
        match border_pair(bl, tr, rooms, orientation, fixed, end - 1) {
            Some(p) => before.push(p),
            None => before,
        }
    }
}

/// The first tile of each pair.
pub open spec fn firsts(pairs: Seq<(UVec2, UVec2)>) -> Seq<UVec2> {
    Seq::new(pairs.len(), |i: int| pairs[i].0)
}

/// The second tile of each pair.
pub open spec fn seconds(pairs: Seq<(UVec2, UVec2)>) -> Seq<UVec2> {
    Seq::new(pairs.len(), |i: int| pairs[i].1)
}

/// Whether the first room is the bottom or left one of the two.
pub open spec fn first_is_bottom_left(
    d1: RoomDimensions,
    d2: RoomDimensions,
    orientation: DoorOrientation,
) -> bool {
    match orientation {
        DoorOrientation::Vertical => d1.anchor.x < d2.anchor.x,
        DoorOrientation::Horziontal => d1.anchor.y < d2.anchor.y,
    }
}

/// The pairs of facing tiles along the whole border between two rooms.
pub open spec fn border_of(
    d1: RoomDimensions,
    d2: RoomDimensions,
    rooms: Seq<RoomDimensions>,
    orientation: DoorOrientation,
) -> Seq<(UVec2, UVec2)> {
    let bl = if first_is_bottom_left(d1, d2, orientation) { d1 } else { d2 };
    let tr = if first_is_bottom_left(d1, d2, orientation) { d2 } else { d1 };
    match orientation {
        DoorOrientation::Vertical => border_pairs(
            bl,
            tr,
            rooms,
            orientation,
            bl.end_x() - 1,
            larger(bl.anchor.y as int, tr.anchor.y as int),
            smaller(tr.end_y(), bl.end_y()),
        ),
        DoorOrientation::Horziontal => border_pairs(
            bl,
            tr,
            rooms,
            orientation,
            bl.end_y() - 1,
            larger(bl.anchor.x as int, tr.anchor.x as int),
            smaller(tr.end_x(), bl.end_x()),
        ),
    }
}

/// The tiles along the border between two neighbouring rooms, for each room
/// its own, in the order of the border.
pub open spec fn adjacent_tiles(
    d1: RoomDimensions,
    id1: usize,
    d2: RoomDimensions,
    id2: usize,
    rooms: Seq<RoomDimensions>,
    orientation: DoorOrientation,
) -> AdjacentTilesView {
    let pairs = border_of(d1, d2, rooms, orientation);
    if first_is_bottom_left(d1, d2, orientation) {
        AdjacentTilesView { room1: (id1, firsts(pairs)), room2: (id2, seconds(pairs)) }
    } else {
        AdjacentTilesView { room1: (id1, seconds(pairs)), room2: (id2, firsts(pairs)) }
    }
}

/// Creates an `AdjacentTiles` object, which holds tile coordinates from both
/// rooms: the tiles of the first room that lie next to tiles of the second,
/// and those tiles of the second.
pub fn find_out_adjacent_tiles(
    room1: &Room,
    room2: &Room,
    map: &MapArea,
    orientation: DoorOrientation,
) -> (r: AdjacentTiles)
    requires
        rooms_ok(map.rooms@),
        room1.dims().in_world(),
        room2.dims().in_world(),
    ensures
        r@ == adjacent_tiles(
            room1.dims(),
            room1.room_id,
            room2.dims(),
            room2.room_id,
            dims_of(map.rooms@),
            orientation,
        ),
{
    let d1 = room1.dimensions();
    let d2 = room2.dimensions();
    let comparison: bool = match orientation {
        DoorOrientation::Vertical => d1.anchor.x < d2.anchor.x,
        DoorOrientation::Horziontal => d1.anchor.y < d2.anchor.y,
    };
    let (flipped, bl_room, tr_room) = maybe_flip_bl_tr(comparison, d1, d2);
    let bl_end = bl_room.anchor_grid_end();
    let tr_end = tr_room.anchor_grid_end();
    let fixed: i32;
    let start: i32;
    let end: i32;
    match orientation {
        DoorOrientation::Vertical => {
            fixed = bl_end.x - 1;
            start = if bl_room.anchor.y >= tr_room.anchor.y { bl_room.anchor.y } else { tr_room.anchor.y };
            end = if tr_end.y <= bl_end.y { tr_end.y } else { bl_end.y };
        },
        DoorOrientation::Horziontal => {
            fixed = bl_end.y - 1;
            start = if bl_room.anchor.x >= tr_room.anchor.x { bl_room.anchor.x } else { tr_room.anchor.x };
            end = if tr_end.x <= bl_end.x { tr_end.x } else { bl_end.x };
        },
    }
    let ghost rooms = dims_of(map.rooms@);
    let mut tiles_bl: Vec<UVec2> = Vec::new();
    let mut tiles_tr: Vec<UVec2> = Vec::new();
    let mut i: i32 = start;
    assert(firsts(Seq::<(UVec2, UVec2)>::empty()) =~= Seq::<UVec2>::empty());
    assert(seconds(Seq::<(UVec2, UVec2)>::empty()) =~= Seq::<UVec2>::empty());
    while i < end
        invariant
            rooms == dims_of(map.rooms@),
            rooms.len() == map.rooms@.len(),
            -WORLD_LIMIT - 1 <= fixed < WORLD_LIMIT,
            start <= i,
            i <= end || i == start,
            end <= WORLD_LIMIT,
            tiles_bl@ == firsts(
                border_pairs(bl_room, tr_room, rooms, orientation, fixed as int, start as int, i as int),
            ),
            tiles_tr@ == seconds(
                border_pairs(bl_room, tr_room, rooms, orientation, fixed as int, start as int, i as int),
            ),
        decreases end - i,
    {
        let ghost before = border_pairs(
            bl_room,
            tr_room,
            rooms,
            orientation,
            fixed as int,
            start as int,
            i as int,
        );
        let (point_r1, point_r2) = match orientation {
            DoorOrientation::Vertical => ((fixed, i), (fixed + 1, i)),
            DoorOrientation::Horziontal => ((i, fixed), (i, fixed + 1)),
        };
        let exists_r1 = map.point_to_room(point_r1);
        let exists_r2 = map.point_to_room(point_r2);
        assert(facing_tiles(orientation, fixed as int, i as int) == (
            (point_r1.0 as int, point_r1.1 as int),
            (point_r2.0 as int, point_r2.1 as int),
        ));
        assert(border_pairs(
            bl_room,
            tr_room,
            rooms,
            orientation,
            fixed as int,
            start as int,
            i as int + 1,
        ) == match border_pair(bl_room, tr_room, rooms, orientation, fixed as int, i as int) {
            Some(p) => before.push(p),
            None => before,
        });
        if exists_r1.is_some() && exists_r2.is_some() {
            let local_r1 = bl_room.global_to_local(IVec2 { x: point_r1.0, y: point_r1.1 });
            let local_r2 = tr_room.global_to_local(IVec2 { x: point_r2.0, y: point_r2.1 });
            match (local_r1, local_r2) {
                (Some(a), Some(b)) => {
                    tiles_bl.push(a);
                    tiles_tr.push(b);
                    assert(firsts(before.push((a, b))) =~= firsts(before).push(a));
                    assert(seconds(before.push((a, b))) =~= seconds(before).push(b));
                },
                _ => {},
            }
        }
        i += 1;
    }
    assert(border_pairs(bl_room, tr_room, rooms, orientation, fixed as int, start as int, i as int)
        == border_pairs(bl_room, tr_room, rooms, orientation, fixed as int, start as int, end as int));
    if !flipped {
        AdjacentTiles { room1: (room1.id(), tiles_bl), room2: (room2.id(), tiles_tr) }
    } else {
        AdjacentTiles { room1: (room1.id(), tiles_tr), room2: (room2.id(), tiles_bl) }
    }
}

/// How two rooms lie to each other in a map, given the line between their
/// centre tiles: neighbours, if they share enough border; else apart with
/// the rooms on the line between them; else apart and joinable.
#[verifier::opaque]
pub open spec fn connection_kind(
    d1: RoomDimensions,
    id1: usize,
    d2: RoomDimensions,
    id2: usize,
    rooms: Seq<RoomDimensions>,
    min_width: u32,
    line: Seq<(isize, isize)>,
) -> ConnectionKind {
    match adjacency(d1, d2, min_width) {
        Some((_, orientation)) => ConnectionKind::Adjacent(
            adjacent_tiles(d1, id1, d2, id2, rooms, orientation),
        ),
        None => {
            let between = rooms_along(rooms, line, id1, id2);
            if between.len() > 0 {
                ConnectionKind::SeparatedRoomsInbetween(between)
            } else if SEPARATED_ALWAYS_BUILDABLE {
                ConnectionKind::Separated
            } else {
                ConnectionKind::SeparatedNoSolution
            }
        },
    }
}

/// Looks at two rooms and determines how they lie to each other.
pub fn find_out_connection_type(
    room1: &Room,
    room2: &Room,
    map_area: &MapArea,
    worldgen: &WorldgenSettings,
) -> (r: RoomConnectionType)
    requires
        rooms_ok(map_area.rooms@),
        room1.dims().in_world(),
        room2.dims().in_world(),
    ensures
        r@ == connection_kind(
            room1.dims(),
            room1.room_id,
            room2.dims(),
            room2.room_id,
            dims_of(map_area.rooms@),
            worldgen.min_passage_width,
            center_line(room1.dims(), room2.dims()),
        ),
        match r {
            RoomConnectionType::SeparatedRoomsInbetween(ids) => forall|i: int|
                0 <= i < ids@.len() ==> #[trigger] ids@[i] < map_area.rooms@.len(),
            _ => true,
        },
{
    let d1 = room1.dimensions();
    let d2 = room2.dimensions();
    proof {
        reveal(connection_kind);
        lemma_world_overlaps_fit(d1, d2);
    }
    match are_two_rooms_adjacent(&d1, &d2, worldgen.min_passage_width) {
        Some(overlap) => {
            let adjacent_tiles = find_out_adjacent_tiles(room1, room2, map_area, overlap.1);
            return RoomConnectionType::Adjacent(adjacent_tiles);
        },
        None => {},
    }
    match rooms_between(room1, room2, map_area) {
        Some(ids) => {
            return RoomConnectionType::SeparatedRoomsInbetween(ids);
        },
        None => {},
    }
    match can_rooms_be_connected(&d1, &d2, worldgen.min_passage_width) {
        Some(_) => {
            return RoomConnectionType::Separated;
        },
        None => {},
    }
    RoomConnectionType::SeparatedNoSolution
}

/// Two rooms that share a border of at least the least passage width, with
/// no gap on the other axis, are found to be neighbours.
pub proof fn lemma_shared_border_classifies_adjacent(
    d1: RoomDimensions,
    id1: usize,
    d2: RoomDimensions,
    id2: usize,
    rooms: Seq<RoomDimensions>,
    min_width: u32,
    line: Seq<(isize, isize)>,
)
    requires
        overlap_x(d1, d2) >= 0,
        overlap_y(d1, d2) >= 0,
        overlap_x(d1, d2) > 0 || overlap_y(d1, d2) > 0,
        overlap_x(d1, d2) >= min_width || overlap_y(d1, d2) >= min_width,
    ensures
        connection_kind(d1, id1, d2, id2, rooms, min_width, line) == ConnectionKind::Adjacent(
            adjacent_tiles(
                d1,
                id1,
                d2,
                id2,
                rooms,
                door_orientation_spec(overlap_x(d1, d2), overlap_y(d1, d2)),
            ),
        ),
{
    reveal(connection_kind);
}

/// Two rooms that share less than the least passage width on both axes, with
/// no room on the line between them, are apart and joinable.
pub proof fn lemma_apart_with_nothing_between_is_separated(
    d1: RoomDimensions,
    id1: usize,
    d2: RoomDimensions,
    id2: usize,
    rooms: Seq<RoomDimensions>,
    min_width: u32,
    line: Seq<(isize, isize)>,
)
    requires
        overlap_x(d1, d2) < min_width,
        overlap_y(d1, d2) < min_width,
        rooms_along(rooms, line, id1, id2).len() == 0,
    ensures
        connection_kind(d1, id1, d2, id2, rooms, min_width, line) == ConnectionKind::Separated,
{
    reveal(connection_kind);
}

/// No pair of rooms is ever found to be beyond joining.
pub proof fn lemma_never_without_solution(
    d1: RoomDimensions,
    id1: usize,
    d2: RoomDimensions,
    id2: usize,
    rooms: Seq<RoomDimensions>,
    min_width: u32,
    line: Seq<(isize, isize)>,
)
    ensures
        !(connection_kind(d1, id1, d2, id2, rooms, min_width, line) is SeparatedNoSolution),
{
    reveal(connection_kind);
}

/// The first of the first `n` rooms that overlaps `piece`, the rooms `id1`
/// and `id2` left aside.
pub open spec fn blocker_of(
    piece: RoomDimensions,
    rooms: Seq<RoomDimensions>,
    n: int,
    id1: usize,
    id2: usize,
) -> Option<usize>
    decreases n,
{
    if n <= 0 {
        None
    } else {
        match blocker_of(piece, rooms, n - 1, id1, id2) {
            Some(b) => Some(b),
            None => if overlapping(piece, rooms[n - 1]) && n - 1 != id1 && n - 1 != id2 {
                Some((n - 1) as usize)
            } else {
                None
            },
        }
    }
}

/// The room that is in the way of the first `k` pieces: the blocker of the
/// first piece that has one.
pub open spec fn first_blocker(
    pieces: Seq<RoomDimensions>,
    k: int,
    rooms: Seq<RoomDimensions>,
    id1: usize,
    id2: usize,
) -> Option<usize>
    decreases k,
{
    if k <= 0 {
        None
    } else {
        match first_blocker(pieces, k - 1, rooms, id1, id2) {
            Some(b) => Some(b),
            None => blocker_of(pieces[k - 1], rooms, rooms.len() as int, id1, id2),
        }
    }
}

/// A room can be made of every piece.
pub open spec fn all_buildable(pieces: Seq<RoomDimensions>) -> bool {
    forall|i: int| 0 <= i < pieces.len() ==> (#[trigger] pieces[i]).buildable()
}

/// The two ways to lay a hallway with one corner between a left and a right
/// room, in the order in which they are tried: up and then sideways first
/// where the right room lies higher, sideways and then up first otherwise.
pub open spec fn l_candidates(left: RoomDimensions, right: RoomDimensions) -> (
    LHallwayOrientation,
    LHallwayOrientation,
) {
    if left.anchor.y < right.anchor.y {
        (LHallwayOrientation::UpRight, LHallwayOrientation::RightUp)
    } else {
        (LHallwayOrientation::UpLeft, LHallwayOrientation::LeftUp)
    }
}

/// What becomes of one way to lay the pieces: refused with the room that is
/// in the way, refused because no room can be made of a piece, or taken.
pub open spec fn candidate_plan(
    pieces: Seq<RoomDimensions>,
    rooms: Seq<RoomDimensions>,
    id1: usize,
    id2: usize,
) -> Result<Seq<RoomDimensions>, CreateHallwayError> {
    match first_blocker(pieces, pieces.len() as int, rooms, id1, id2) {
        Some(b) => Err(CreateHallwayError::CouldNotMakeLShapedHallway((id1, b, id2))),
        None => if all_buildable(pieces) {
            Ok(pieces)
        } else {
            Err(CreateHallwayError::OverlapNotEnough)
        },
    }
}

/// The pieces of the hallway with one corner from the first to the second
/// room, laid in the given orientation.
pub open spec fn l_pieces(
    d1: RoomDimensions,
    d2: RoomDimensions,
    max_width: u32,
    orientation: LHallwayOrientation,
) -> Seq<RoomDimensions> {
    if d1.anchor.x < d2.anchor.x {
        l_shaped_hallway(d1, d2, max_width, orientation)
    } else {
        l_shaped_hallway(d2, d1, max_width, orientation).reverse()
    }
}

/// The hallway between two rooms of a map, as the pieces from the first room
/// to the second, or why there is none.
///
/// Where the rooms share at least `min_width` tiles on one axis, one straight
/// piece spans the gap. Otherwise a hallway with one corner is laid, in the
/// first of its two orientations that no other room is in the way of.
#[verifier::opaque]
pub open spec fn hallway_plan(
    d1: RoomDimensions,
    id1: usize,
    d2: RoomDimensions,
    id2: usize,
    min_width: u32,
    max_width: u32,
    rooms: Seq<RoomDimensions>,
) -> Result<Seq<RoomDimensions>, CreateHallwayError> {
    let ox = overlap_x(d1, d2);
    let oy = overlap_y(d1, d2);
    if larger(ox, oy) >= min_width {
        let piece = straight_hallway(
            d1,
            d2,
            larger(ox, oy) as u32,
            max_width,
            door_orientation_spec(ox, oy),
        );
        if piece.buildable() {
            Ok(seq![piece])
        } else {
            Err(CreateHallwayError::Unknown)
        }
    } else {
        l_hallway_plan(d1, id1, d2, id2, max_width, rooms)
    }
}

/// The hallway with one corner between two rooms of a map, in the first of
/// its two orientations that no other room is in the way of and that stays
/// inside the world; or the room in the way of the first orientation that a
/// room is in the way of.
#[verifier::opaque]
pub open spec fn l_hallway_plan(
    d1: RoomDimensions,
    id1: usize,
    d2: RoomDimensions,
    id2: usize,
    max_width: u32,
    rooms: Seq<RoomDimensions>,
) -> Result<Seq<RoomDimensions>, CreateHallwayError> {
    if max_width > WORLD_LIMIT {
        Err(CreateHallwayError::OverlapNotEnough)
    } else {
        let left = if d1.anchor.x < d2.anchor.x { d1 } else { d2 };
        let right = if d1.anchor.x < d2.anchor.x { d2 } else { d1 };
        let first = candidate_plan(
            l_pieces(d1, d2, max_width, l_candidates(left, right).0),
            rooms,
            id1,
            id2,
        );
        let second = candidate_plan(
            l_pieces(d1, d2, max_width, l_candidates(left, right).1),
            rooms,
            id1,
            id2,
        );
        match first {
            Ok(pieces) => Ok(pieces),
            Err(e) => match second {
                Ok(pieces) => Ok(pieces),
                Err(e2) => if e is CouldNotMakeLShapedHallway {
                    Err(e)
                } else {
                    Err(e2)
                },
            },
        }
    }
}

/// The pieces in the opposite order.
fn reversed_pieces(pieces: &Vec<RoomDimensions>) -> (r: Vec<RoomDimensions>)
    ensures
        r@ == pieces@.reverse(),
{
    let mut out: Vec<RoomDimensions> = Vec::new();
    let n: usize = pieces.len();
    let mut i: usize = 0;
    while i < n
        invariant
            n == pieces@.len(),
            i <= n,
            out@.len() == i,
            forall|k: int| 0 <= k < i ==> out@[k] == pieces@[n - 1 - k],
        decreases n - i,
    {
        out.push(pieces[n - 1 - i]);
        i += 1;
    }
    assert(out@ =~= pieces@.reverse());
    out
}

/// Finds the room that is in the way of the pieces, if one is.
fn find_blocker(pieces: &Vec<RoomDimensions>, map: &MapArea, id1: usize, id2: usize) -> (r: Option<
    usize,
>)
    requires
        rooms_ok(map.rooms@),
    ensures
        r == first_blocker(pieces@, pieces@.len() as int, dims_of(map.rooms@), id1, id2),
        r is Some ==> r.unwrap() < map.rooms@.len(),
{
    let ghost rooms = dims_of(map.rooms@);
    let mut k: usize = 0;
    while k < pieces.len()
        invariant
            rooms_ok(map.rooms@),
            rooms == dims_of(map.rooms@),
            k <= pieces@.len(),
            first_blocker(pieces@, k as int, rooms, id1, id2) is None,
        decreases pieces@.len() - k,
    {
        let mut i: usize = 0;
        while i < map.rooms.len()
            invariant
                rooms_ok(map.rooms@),
                rooms == dims_of(map.rooms@),
                k < pieces@.len(),
                i <= map.rooms@.len(),
                first_blocker(pieces@, k as int, rooms, id1, id2) is None,
                blocker_of(pieces@[k as int], rooms, i as int, id1, id2) is None,
            decreases map.rooms@.len() - i,
        {
            let room = &map.rooms[i];
            assert(room.room_id == i);
            assert(rooms[i as int] == room.dims());
            if is_overlapping(&pieces[k], &room.dimensions()) {
                if room.id() != id1 && room.id() != id2 {
                    proof {
                        lemma_blocker_stays(
                            pieces@[k as int],
                            rooms,
                            i as int + 1,
                            rooms.len() as int,
                            id1,
                            id2,
                        );
                        lemma_first_blocker_stays(
                            pieces@,
                            k as int + 1,
                            pieces@.len() as int,
                            rooms,
                            id1,
                            id2,
                        );
                    }
                    return Some(i);
                }
            }
            i += 1;
        }
        k += 1;
    }
    None
}

/// A blocker found among the first `n` rooms is the one found among more.
proof fn lemma_blocker_stays(
    piece: RoomDimensions,
    rooms: Seq<RoomDimensions>,
    n: int,
    m: int,
    id1: usize,
    id2: usize,
)
    requires
        0 <= n <= m,
        blocker_of(piece, rooms, n, id1, id2) is Some,
    ensures
        blocker_of(piece, rooms, m, id1, id2) == blocker_of(piece, rooms, n, id1, id2),
    decreases m - n,
{
    if n < m {
        lemma_blocker_stays(piece, rooms, n, m - 1, id1, id2);
    }
}

/// A blocker found for the first `k` pieces is the one found for more.
proof fn lemma_first_blocker_stays(
    pieces: Seq<RoomDimensions>,
    k: int,
    m: int,
    rooms: Seq<RoomDimensions>,
    id1: usize,
    id2: usize,
)
    requires
        0 <= k <= m,
        first_blocker(pieces, k, rooms, id1, id2) is Some,
    ensures
        first_blocker(pieces, m, rooms, id1, id2) == first_blocker(pieces, k, rooms, id1, id2),
    decreases m - k,
{
    if k < m {
        lemma_first_blocker_stays(pieces, k, m - 1, rooms, id1, id2);
    }
}

/// Whether a room can be made of every piece.
fn pieces_buildable(pieces: &Vec<RoomDimensions>) -> (r: bool)
    ensures
        r == all_buildable(pieces@),
{
    let mut i: usize = 0;
    while i < pieces.len()
        invariant
            i <= pieces@.len(),
            forall|k: int| 0 <= k < i ==> (#[trigger] pieces@[k]).buildable(),
        decreases pieces@.len() - i,
    {
        if !pieces[i].is_buildable() {
            return false;
        }
        i += 1;
    }
    true
}

/// Lays a hallway with one corner in one orientation and checks it against
/// the rooms of the map.
fn try_l_shaped_hallway(
    d1: &RoomDimensions,
    id1: usize,
    d2: &RoomDimensions,
    id2: usize,
    min_hallway_width: u32,
    max_hallway_width: u32,
    orientation: &LHallwayOrientation,
    map: &MapArea,
) -> (r: Result<Vec<RoomDimensions>, CreateHallwayError>)
    requires
        rooms_ok(map.rooms@),
        d1.in_world(),
        d2.in_world(),
        max_hallway_width <= WORLD_LIMIT,
    ensures
        match r {
            Ok(pieces) => candidate_plan(
                l_pieces(*d1, *d2, max_hallway_width, *orientation),
                dims_of(map.rooms@),
                id1,
                id2,
            ) == Ok::<Seq<RoomDimensions>, CreateHallwayError>(pieces@),
            Err(e) => candidate_plan(
                l_pieces(*d1, *d2, max_hallway_width, *orientation),
                dims_of(map.rooms@),
                id1,
                id2,
            ) == Err::<Seq<RoomDimensions>, CreateHallwayError>(e),
        },
        r is Ok ==> all_buildable(r.unwrap()@),
        match r {
            Err(CreateHallwayError::CouldNotMakeLShapedHallway(ids)) => ids.0 == id1 && ids.1
                < map.rooms@.len() && ids.2 == id2,
            _ => true,
        },
{
    let (flipped, left_room, right_room) = maybe_flip_bl_tr(d1.anchor.x < d2.anchor.x, *d1, *d2);
    let mut new_hallways = generate_l_shaped_hallway(
        &left_room,
        &right_room,
        min_hallway_width,
        max_hallway_width,
        orientation,
    );
    if flipped {
        new_hallways = reversed_pieces(&new_hallways);
    }
    match find_blocker(&new_hallways, map, id1, id2) {
        Some(b) => Err(CreateHallwayError::CouldNotMakeLShapedHallway((id1, b, id2))),
        None => if pieces_buildable(&new_hallways) {
            Ok(new_hallways)
        } else {
            Err(CreateHallwayError::OverlapNotEnough)
        },
    }
}

/// Tries to create a hallway between two rooms. Returns the dimensions of
/// its pieces, from the first room to the second, or why no hallway can be made.
pub fn create_hallway_dimensions(
    room1: &Room,
    room2: &Room,
    min_hallway_width: u32,
    max_hallway_width: u32,
    map: &MapArea,
    worldgen: &WorldgenSettings,
) -> (r: Result<Vec<RoomDimensions>, CreateHallwayError>)
    requires
        rooms_ok(map.rooms@),
        room1.dims().in_world(),
        room2.dims().in_world(),
    ensures
        match r {
            Ok(pieces) => hallway_plan(
                room1.dims(),
                room1.room_id,
                room2.dims(),
                room2.room_id,
                min_hallway_width,
                max_hallway_width,
                dims_of(map.rooms@),
            ) == Ok::<Seq<RoomDimensions>, CreateHallwayError>(pieces@),
            Err(e) => hallway_plan(
                room1.dims(),
                room1.room_id,
                room2.dims(),
                room2.room_id,
                min_hallway_width,
                max_hallway_width,
                dims_of(map.rooms@),
            ) == Err::<Seq<RoomDimensions>, CreateHallwayError>(e),
        },
        r is Ok ==> all_buildable(r.unwrap()@),
        match r {
            Err(CreateHallwayError::CouldNotMakeLShapedHallway(ids)) => ids.0 == room1.room_id
                && ids.1 < map.rooms@.len() && ids.2 == room2.room_id,
            _ => true,
        },
{
    let d1 = room1.dimensions();
    let d2 = room2.dimensions();
    proof {
        reveal(hallway_plan);
        lemma_world_overlaps_fit(d1, d2);
    }
    let (overlap_x, overlap_y) = common_edge(&d1, &d2);
    let overlap: i32 = if overlap_x >= overlap_y { overlap_x } else { overlap_y };
    let orientation = find_out_door_orientation(overlap_x, overlap_y);
    if overlap as i64 >= min_hallway_width as i64 {
        let piece = generate_straight_hallway(
            &d1,
            &d2,
            overlap as u32,
            max_hallway_width,
            &orientation,
            worldgen.threshold,
        );
        if !piece.is_buildable() {
            return Err(CreateHallwayError::Unknown);
        }
        let mut new_hallways: Vec<RoomDimensions> = Vec::new();
        new_hallways.push(piece);
        assert(new_hallways@ =~= seq![piece]);
        return Ok(new_hallways);
    }
    create_l_shaped_hallway(&d1, room1.id(), &d2, room2.id(), min_hallway_width, max_hallway_width, map)
}

/// Tries the two ways to lay a hallway with one corner, in their order.
fn create_l_shaped_hallway(
    d1: &RoomDimensions,
    id1: usize,
    d2: &RoomDimensions,
    id2: usize,
    min_hallway_width: u32,
    max_hallway_width: u32,
    map: &MapArea,
) -> (r: Result<Vec<RoomDimensions>, CreateHallwayError>)
    requires
        rooms_ok(map.rooms@),
        d1.in_world(),
        d2.in_world(),
    ensures
        match r {
            Ok(pieces) => l_hallway_plan(*d1, id1, *d2, id2, max_hallway_width, dims_of(map.rooms@))
                == Ok::<Seq<RoomDimensions>, CreateHallwayError>(pieces@),
            Err(e) => l_hallway_plan(*d1, id1, *d2, id2, max_hallway_width, dims_of(map.rooms@))
                == Err::<Seq<RoomDimensions>, CreateHallwayError>(e),
        },
        r is Ok ==> all_buildable(r.unwrap()@),
        match r {
            Err(CreateHallwayError::CouldNotMakeLShapedHallway(ids)) => ids.0 == id1 && ids.1
                < map.rooms@.len() && ids.2 == id2,
            _ => true,
        },
{
    proof {
        reveal(l_hallway_plan);
    }
    if max_hallway_width > WORLD_LIMIT as u32 {
        return Err(CreateHallwayError::OverlapNotEnough);
    }
    let (_, left_room, right_room) = maybe_flip_bl_tr(d1.anchor.x < d2.anchor.x, *d1, *d2);
    let (first, second) = if left_room.anchor.y < right_room.anchor.y {
        (LHallwayOrientation::UpRight, LHallwayOrientation::RightUp)
    } else {
        (LHallwayOrientation::UpLeft, LHallwayOrientation::LeftUp)
    };
    match try_l_shaped_hallway(d1, id1, d2, id2, min_hallway_width, max_hallway_width, &first, map) {
        Ok(pieces) => Ok(pieces),
        Err(e) => match try_l_shaped_hallway(
            d1,
            id1,
            d2,
            id2,
            min_hallway_width,
            max_hallway_width,
            &second,
            map,
        ) {
            Ok(pieces) => Ok(pieces),
            Err(e2) => match e {
                CreateHallwayError::CouldNotMakeLShapedHallway(_) => Err(e),
                _ => Err(e2),
            },
        },
    }
}

/// How the rooms `i` and `j` of a map lie to each other.
pub open spec fn kind_between(rooms: Seq<RoomDimensions>, i: usize, j: usize, min_width: u32) -> ConnectionKind {
    connection_kind(
        rooms[i as int],
        i,
        rooms[j as int],
        j,
        rooms,
        min_width,
        center_line(rooms[i as int], rooms[j as int]),
    )
}

/// The connection between the rooms `i` and `j` of a map, as they lie now.
pub open spec fn link(rooms: Seq<RoomDimensions>, i: usize, j: usize, min_width: u32) -> ConnectionView {
    ConnectionView { room1_id: i, room2_id: j, data: kind_between(rooms, i, j, min_width) }
}

/// The connections along a chain of rooms: one from each room to the next.
pub open spec fn chain_connections(rooms: Seq<RoomDimensions>, chain: Seq<usize>, min_width: u32) -> Seq<
    ConnectionView,
> {
    Seq::new(
        if chain.len() == 0 {
            0
        } else {
            (chain.len() - 1) as nat
        },
        |k: int| link(rooms, chain[k], chain[k + 1], min_width),
    )
}

/// The rooms of a map after the pieces have become rooms of it.
pub open spec fn with_pieces(rooms: Seq<RoomDimensions>, pieces: Seq<RoomDimensions>) -> Seq<
    RoomDimensions,
> {
    rooms + pieces.map_values(|p: RoomDimensions| p.as_stored())
}

/// The chain from `id1` over `count` new rooms, which take the ids from `n`
/// on, to `id2`.
pub open spec fn chain_through(id1: usize, n: nat, count: nat, id2: usize) -> Seq<usize> {
    Seq::new(
        count + 2,
        |k: int|
            if k == 0 {
                id1
            } else if k == count + 1 {
                id2
            } else {
                (n + k - 1) as usize
            },
    )
}

/// The chain from `id1` over the rooms `ids` to `id2`.
pub open spec fn chain_over(id1: usize, ids: Seq<usize>, id2: usize) -> Seq<usize> {
    seq![id1] + ids + seq![id2]
}

/// The width that hallways are planned with: the largest passage width, or
/// the least one where that is larger.
pub open spec fn planning_width(worldgen: WorldgenSettings) -> u32 {
    if worldgen.max_passage_width >= worldgen.min_passage_width {
        worldgen.max_passage_width
    } else {
        worldgen.min_passage_width
    }
}

/// The rooms of a map after a hallway was laid between the rooms `id1` and
/// `id2`: the pieces of the hallway are new rooms at the end; without a
/// hallway the rooms stay.
pub open spec fn joined_rooms(
    rooms: Seq<RoomDimensions>,
    id1: usize,
    id2: usize,
    min_width: u32,
    max_width: u32,
) -> Seq<RoomDimensions> {
    match hallway_plan(rooms[id1 as int], id1, rooms[id2 as int], id2, min_width, max_width, rooms) {
        Ok(pieces) => with_pieces(rooms, pieces),
        Err(_) => rooms,
    }
}

/// The connections that a hallway between the rooms `id1` and `id2` brings:
/// along the chain from the first room through the pieces to the second.
/// Where a room is in the way of a hallway with a corner, the one
/// connection that names it as lying between the two rooms; none otherwise.
pub open spec fn joined_connections(
    rooms: Seq<RoomDimensions>,
    id1: usize,
    id2: usize,
    min_width: u32,
    max_width: u32,
) -> Seq<ConnectionView> {
    match hallway_plan(rooms[id1 as int], id1, rooms[id2 as int], id2, min_width, max_width, rooms) {
        Ok(pieces) => chain_connections(
            with_pieces(rooms, pieces),
            chain_through(id1, rooms.len(), pieces.len(), id2),
            min_width,
        ),
        Err(CreateHallwayError::CouldNotMakeLShapedHallway(ids)) => seq![
            ConnectionView {
                room1_id: ids.0,
                room2_id: ids.2,
                data: ConnectionKind::SeparatedRoomsInbetween(seq![ids.1]),
            },
        ],
        Err(_) => Seq::empty(),
    }
}

/// One step of the resolution: what becomes of the rooms and of the list of
/// connections made so far when the connection `c` is dealt with.
///
/// A connection of neighbours is kept. Rooms that are apart get a hallway.
/// Rooms with others between them are connected along the chain through
/// those. Anything else is dropped.
pub open spec fn reduce_step(
    state: (Seq<RoomDimensions>, Seq<ConnectionView>),
    c: ConnectionView,
    min_width: u32,
    max_width: u32,
) -> (Seq<RoomDimensions>, Seq<ConnectionView>) {
    match c.data {
        ConnectionKind::Adjacent(_) => (state.0, state.1.push(c)),
        ConnectionKind::Separated => (
            joined_rooms(state.0, c.room1_id, c.room2_id, min_width, max_width),
            state.1 + joined_connections(state.0, c.room1_id, c.room2_id, min_width, max_width),
        ),
        ConnectionKind::SeparatedRoomsInbetween(ids) => (
            state.0,
            state.1 + chain_connections(state.0, chain_over(c.room1_id, ids, c.room2_id), min_width),
        ),
        _ => state,
    }
}

/// The rooms and the new list of connections after the first `k`
/// connections of a list have been dealt with, one after the other.
pub open spec fn reduce_all(
    rooms: Seq<RoomDimensions>,
    connections: Seq<ConnectionView>,
    k: int,
    min_width: u32,
    max_width: u32,
) -> (Seq<RoomDimensions>, Seq<ConnectionView>)
    decreases k,
{
    if k <= 0 {
        (rooms, Seq::empty())
    } else {
        reduce_step(
            reduce_all(rooms, connections, k - 1, min_width, max_width),
            connections[k - 1],
            min_width,
            max_width,
        )
    }
}

/// Every connection of the list joins neighbours.
pub open spec fn all_adjacent(connections: Seq<ConnectionView>) -> bool {
    forall|i: int| 0 <= i < connections.len() ==> (#[trigger] connections[i]).data is Adjacent
}

/// The rooms and connections after at most `rounds` rounds of resolution:
/// a round deals with every connection once, and the rounds end as soon as
/// every connection joins neighbours.
pub open spec fn resolve(
    rooms: Seq<RoomDimensions>,
    connections: Seq<ConnectionView>,
    rounds: nat,
    min_width: u32,
    max_width: u32,
) -> (Seq<RoomDimensions>, Seq<ConnectionView>)
    decreases rounds,
{
    if rounds == 0 || all_adjacent(connections) {
        (rooms, connections)
    } else {
        let next = reduce_all(rooms, connections, connections.len() as int, min_width, max_width);
        resolve(next.0, next.1, (rounds - 1) as nat, min_width, max_width)
    }
}

/// The connections of neighbours among the first `k` of a list, in their order.
pub open spec fn only_adjacent(connections: Seq<ConnectionView>, k: int) -> Seq<ConnectionView>
    decreases k,
{
    if k <= 0 {
        Seq::empty()
    } else if connections[k - 1].data is Adjacent {
        only_adjacent(connections, k - 1).push(connections[k - 1])
    } else {
        only_adjacent(connections, k - 1)
    }
}

/// The first connections of a map: one for each edge, as its rooms lie.
pub open spec fn first_connections(rooms: Seq<RoomDimensions>, edges: Seq<Edge>, min_width: u32) -> Seq<
    ConnectionView,
> {
    Seq::new(edges.len(), |k: int| link(rooms, edges[k].0, edges[k].1, min_width))
}

/// How many rounds of resolution are made at most.
pub const RESOLUTION_ROUNDS: usize = 10;

/// Every connection of the list names rooms among the first `n`.
pub open spec fn connections_in_range(list: Seq<RoomConnection>, n: nat) -> bool {
    forall|i: int| 0 <= i < list.len() ==> (#[trigger] list[i])@.in_range(n)
}

/// A room as a hallway piece is made: all ground, not a main room, plain,
/// free to move and visible.
pub open spec fn is_fresh_hallway(room: Room) -> bool {
    &&& room.wf()
    &&& room.tiles() == blank_tiles(room.dims().height, room.dims().length)
    &&& !room.details.is_main
    &&& room.details.room_type is Normal
    &&& room.details.aesthetic_modifiers@.len() == 0
    &&& !room.is_position_fixed
    &&& room.is_visible
}

/// `after` holds the rooms of `before` unchanged, followed by new hallway rooms.
pub open spec fn rooms_extended(before: Seq<Room>, after: Seq<Room>) -> bool {
    &&& before.len() <= after.len()
    &&& forall|i: int| 0 <= i < before.len() ==> #[trigger] after[i] == before[i]
    &&& forall|i: int| before.len() <= i < after.len() ==> is_fresh_hallway(#[trigger] after[i])
}

/// Makes a room of the map from dimensions; it gets the next free id.
pub fn turn_dimensions_into_room(input: &RoomDimensions, map: &MapArea) -> (r: Room)
    requires
        input.buildable(),
    ensures
        r.room_id == map.rooms@.len(),
        r.dims() == input.as_stored(),
        r.dims().in_world(),
        is_fresh_hallway(r),
{
    Room::new(map.next_room_id(), input.length(), input.height(), input.anchor_grid(), false)
}

/// Adds to `new_connections` the connections along a chain of rooms, each
/// with the way its two rooms lie to each other.
fn connect_chain(
    chain: &Vec<usize>,
    new_connections: &mut Vec<RoomConnection>,
    map: &MapArea,
    worldgen: &WorldgenSettings,
)
    requires
        rooms_ok(map.rooms@),
        ids_in_range(chain@, map.rooms@.len()),
        connections_in_range(old(new_connections)@, map.rooms@.len()),
    ensures
        connection_views(final(new_connections)@) == connection_views(old(new_connections)@)
            + chain_connections(dims_of(map.rooms@), chain@, worldgen.min_passage_width),
        connections_in_range(final(new_connections)@, map.rooms@.len()),
{
    let ghost rooms = dims_of(map.rooms@);
    let ghost start = connection_views(new_connections@);
    let ghost target = chain_connections(rooms, chain@, worldgen.min_passage_width);
    if chain.len() < 2 {
        assert(connection_views(new_connections@) + target =~= connection_views(new_connections@));
        return ;
    }
    let mut k: usize = 0;
    let n: usize = chain.len();
    assert(start + target.take(0) =~= start);
    while k + 1 < n
        invariant
            n == chain@.len(),
            rooms_ok(map.rooms@),
            rooms == dims_of(map.rooms@),
            ids_in_range(chain@, map.rooms@.len()),
            chain@.len() >= 2,
            k + 1 <= chain@.len(),
            target == chain_connections(rooms, chain@, worldgen.min_passage_width),
            connection_views(new_connections@) == start + target.take(k as int),
            connections_in_range(new_connections@, map.rooms@.len()),
        decreases chain@.len() - k,
    {
        let room1_id: usize = chain[k];
        let room2_id: usize = chain[k + 1];
        let room1 = &map.rooms[room1_id];
        let room2 = &map.rooms[room2_id];
        assert(rooms[room1_id as int] == room1.dims());
        assert(rooms[room2_id as int] == room2.dims());
        let ctype = find_out_connection_type(room1, room2, map, worldgen);
        let ghost before = new_connections@;
        let connection = RoomConnection::new(room1_id, room2_id, ctype);
        assert(connection@ == target[k as int]);
        new_connections.push(connection);
        assert(connection_views(new_connections@) =~= connection_views(before).push(connection@));
        assert(start + target.take(k + 1) =~= (start + target.take(k as int)).push(target[k as int]));
        k += 1;
    }
    assert(target.take(k as int) =~= target);
}

/// Creates a hallway between the two rooms of a connection and connects its
/// pieces with the two rooms and with each other. Where a room is in the
/// way, hands back the connection that names it as lying between, and
/// changes nothing.
pub fn create_and_connect_hallways(
    connection: &RoomConnection,
    new_connections: &mut Vec<RoomConnection>,
    map: &mut MapArea,
    worldgen: &WorldgenSettings,
) -> (r: Result<(), RoomConnection>)
    requires
        rooms_ok(old(map).rooms@),
        connection.room1_id < old(map).rooms@.len(),
        connection.room2_id < old(map).rooms@.len(),
        connections_in_range(old(new_connections)@, old(map).rooms@.len()),
    ensures
        dims_of(final(map).rooms@) == joined_rooms(
            dims_of(old(map).rooms@),
            connection.room1_id,
            connection.room2_id,
            worldgen.min_passage_width,
            planning_width(*worldgen),
        ),
        match r {
            Ok(_) => connection_views(final(new_connections)@) == connection_views(
                old(new_connections)@,
            ) + joined_connections(
                dims_of(old(map).rooms@),
                connection.room1_id,
                connection.room2_id,
                worldgen.min_passage_width,
                planning_width(*worldgen),
            ),
            Err(c) => final(new_connections)@ == old(new_connections)@ && seq![c@]
                == joined_connections(
                dims_of(old(map).rooms@),
                connection.room1_id,
                connection.room2_id,
                worldgen.min_passage_width,
                planning_width(*worldgen),
            ) && c@.in_range(old(map).rooms@.len()),
        },
        rooms_ok(final(map).rooms@),
        rooms_extended(old(map).rooms@, final(map).rooms@),
        connections_in_range(final(new_connections)@, final(map).rooms@.len()),
        final(map).initial_connections == old(map).initial_connections,
        final(map).triangulation == old(map).triangulation,
        final(map).graph == old(map).graph,
        final(map).connections == old(map).connections,
{
    let max_hallway_width: u32 = if worldgen.max_passage_width >= worldgen.min_passage_width {
        worldgen.max_passage_width
    } else {
        worldgen.min_passage_width
    };
    let ghost rooms0 = dims_of(map.rooms@);
    let id1: usize = connection.room1_id;
    let id2: usize = connection.room2_id;
    let first_new: usize = map.rooms.len();
    let hallways = create_hallway_dimensions(
        &map.rooms[id1],
        &map.rooms[id2],
        worldgen.min_passage_width,
        max_hallway_width,
        map,
        worldgen,
    );
    assert(rooms0[id1 as int] == map.rooms@[id1 as int].dims());
    assert(rooms0[id2 as int] == map.rooms@[id2 as int].dims());
    match hallways {
        Ok(room_dimensions) => {
            let mut chain: Vec<usize> = Vec::new();
            chain.push(id1);
            let mut k: usize = 0;
            while k < room_dimensions.len()
                invariant
                    k <= room_dimensions@.len(),
                    first_new == old(map).rooms@.len(),
                    map.rooms@.len() == first_new + k,
                    all_buildable(room_dimensions@),
                    rooms_ok(map.rooms@),
                    rooms_extended(old(map).rooms@, map.rooms@),
                    dims_of(map.rooms@) == rooms0 + room_dimensions@.take(k as int).map_values(
                        |p: RoomDimensions| p.as_stored(),
                    ),
                    chain@.len() == k + 1,
                    chain@[0] == id1,
                    id1 < first_new,
                    id2 < first_new,
                    forall|j: int| 1 <= j <= k ==> chain@[j] == first_new + j - 1,
                    map.initial_connections == old(map).initial_connections,
                    map.triangulation == old(map).triangulation,
                    map.graph == old(map).graph,
                    map.connections == old(map).connections,
                decreases room_dimensions@.len() - k,
            {
                let ghost before = map.rooms@;
                let created_room = turn_dimensions_into_room(&room_dimensions[k], map);
                chain.push(created_room.id());
                map.rooms.push(created_room);
                assert(dims_of(map.rooms@) =~= dims_of(before).push(created_room.dims()));
                assert(room_dimensions@.take(k + 1).map_values(|p: RoomDimensions| p.as_stored())
                    =~= room_dimensions@.take(k as int).map_values(|p: RoomDimensions| p.as_stored()).push(
                    room_dimensions@[k as int].as_stored(),
                ));
                assert(dims_of(map.rooms@) =~= rooms0 + room_dimensions@.take(k + 1).map_values(
                    |p: RoomDimensions| p.as_stored(),
                ));
                k += 1;
            }
            chain.push(id2);
            assert(room_dimensions@.take(k as int) =~= room_dimensions@);
            assert(chain@ =~= chain_through(id1, first_new as nat, room_dimensions@.len(), id2));
            connect_chain(&chain, new_connections, map, worldgen);
            Ok(())
        },
        Err(e) => {
            match e {
                CreateHallwayError::Unknown => Ok(()),
                CreateHallwayError::OverlapNotEnough => Ok(()),
                CreateHallwayError::CouldNotMakeLShapedHallway(ids) => {
                    let mut between: Vec<usize> = Vec::new();
                    between.push(ids.1);
                    let rerouted = RoomConnection {
                        room1_id: ids.0,
                        room2_id: ids.2,
                        data: RoomConnectionType::SeparatedRoomsInbetween(between),
                    };
                    assert(between@ =~= seq![ids.1]);
                    Err(rerouted)
                },
            }
        },
    }
}

/// Connects two rooms that have others between them along the chain through
/// those: one connection from each room of the chain to the next, each with
/// the way its two rooms lie to each other. No hallway is made here; the
/// next round deals with the new connections.
pub fn connect_multiple_hallways(
    connection: &RoomConnection,
    inbetween_rooms: &Vec<usize>,
    new_connections: &mut Vec<RoomConnection>,
    map: &MapArea,
    worldgen: &WorldgenSettings,
)
    requires
        rooms_ok(map.rooms@),
        connection.room1_id < map.rooms@.len(),
        connection.room2_id < map.rooms@.len(),
        ids_in_range(inbetween_rooms@, map.rooms@.len()),
        connections_in_range(old(new_connections)@, map.rooms@.len()),
    ensures
        connection_views(final(new_connections)@) == connection_views(old(new_connections)@)
            + chain_connections(
            dims_of(map.rooms@),
            chain_over(connection.room1_id, inbetween_rooms@, connection.room2_id),
            worldgen.min_passage_width,
        ),
        connections_in_range(final(new_connections)@, map.rooms@.len()),
{
    let mut chain: Vec<usize> = Vec::new();
    chain.push(connection.room1_id);
    let mut k: usize = 0;
    while k < inbetween_rooms.len()
        invariant
            k <= inbetween_rooms@.len(),
            chain@ == seq![connection.room1_id] + inbetween_rooms@.take(k as int),
        decreases inbetween_rooms@.len() - k,
    {
        chain.push(inbetween_rooms[k]);
        assert(inbetween_rooms@.take(k + 1) =~= inbetween_rooms@.take(k as int).push(
            inbetween_rooms@[k as int],
        ));
        assert(seq![connection.room1_id] + inbetween_rooms@.take(k + 1) =~= (seq![
            connection.room1_id,
        ] + inbetween_rooms@.take(k as int)).push(inbetween_rooms@[k as int]));
        k += 1;
    }
    chain.push(connection.room2_id);
    assert(inbetween_rooms@.take(k as int) =~= inbetween_rooms@);
    assert(chain@ =~= chain_over(connection.room1_id, inbetween_rooms@, connection.room2_id));
    connect_chain(&chain, new_connections, map, worldgen);
}

/// One round of the resolution: deals with every connection of the list
/// once and hands back the new list. Connections of neighbours are kept,
/// rooms that are apart get a hallway, rooms with others between them are
/// connected through those, and the rest is dropped.
pub fn reduce_connections(
    connections: Vec<RoomConnection>,
    map: &mut MapArea,
    worldgen: &WorldgenSettings,
) -> (r: Vec<RoomConnection>)
    requires
        rooms_ok(old(map).rooms@),
        connections_in_range(connections@, old(map).rooms@.len()),
    ensures
        (dims_of(final(map).rooms@), connection_views(r@)) == reduce_all(
            dims_of(old(map).rooms@),
            connection_views(connections@),
            connections@.len() as int,
            worldgen.min_passage_width,
            planning_width(*worldgen),
        ),
        rooms_ok(final(map).rooms@),
        rooms_extended(old(map).rooms@, final(map).rooms@),
        connections_in_range(r@, final(map).rooms@.len()),
        final(map).initial_connections == old(map).initial_connections,
        final(map).triangulation == old(map).triangulation,
        final(map).graph == old(map).graph,
        final(map).connections == old(map).connections,
{
    let ghost rooms0 = dims_of(map.rooms@);
    let ghost input = connection_views(connections@);
    let ghost min_width = worldgen.min_passage_width;
    let ghost max_width = planning_width(*worldgen);
    let mut new_connections: Vec<RoomConnection> = Vec::new();
    let mut k: usize = 0;
    assert(connection_views(new_connections@) =~= Seq::<ConnectionView>::empty());
    while k < connections.len()
        invariant
            k <= connections@.len(),
            input == connection_views(connections@),
            min_width == worldgen.min_passage_width,
            max_width == planning_width(*worldgen),
            rooms_ok(map.rooms@),
            rooms_extended(old(map).rooms@, map.rooms@),
            connections_in_range(connections@, old(map).rooms@.len()),
            connections_in_range(new_connections@, map.rooms@.len()),
            (dims_of(map.rooms@), connection_views(new_connections@)) == reduce_all(
                rooms0,
                input,
                k as int,
                min_width,
                max_width,
            ),
            map.initial_connections == old(map).initial_connections,
            map.triangulation == old(map).triangulation,
            map.graph == old(map).graph,
            map.connections == old(map).connections,
        decreases connections@.len() - k,
    {
        let connection = &connections[k];
        let ghost rooms_before = map.rooms@;
        let ghost list_before = new_connections@;
        assert(input[k as int] == connection@);
        assert(connection@.in_range(old(map).rooms@.len()));
        match &connection.data {
            RoomConnectionType::Adjacent(_) => {
                let kept = connection.clone();
                new_connections.push(kept);
                assert(connection_views(new_connections@) =~= connection_views(list_before).push(
                    connection@,
                ));
            },
            RoomConnectionType::Separated => {
                let result = create_and_connect_hallways(
                    connection,
                    &mut new_connections,
                    map,
                    worldgen,
                );
                match result {
                    Ok(_) => {},
                    Err(rerouted) => {
                        new_connections.push(rerouted);
                        assert(connection_views(new_connections@) =~= connection_views(list_before)
                            + seq![rerouted@]);
                    },
                }
                proof {
                    lemma_rooms_extended_twice(old(map).rooms@, rooms_before, map.rooms@);
                }
            },
            RoomConnectionType::SeparatedRoomsInbetween(inbetween_rooms) => {
                assert(connection@.data == ConnectionKind::SeparatedRoomsInbetween(
                    inbetween_rooms@,
                ));
                assert(ids_in_range(inbetween_rooms@, map.rooms@.len())) by {
                    assert forall|i: int| 0 <= i < inbetween_rooms@.len() implies #[trigger] inbetween_rooms@[i]
                        < map.rooms@.len() by {
                        let v = connection@;
                        assert(v.in_range(old(map).rooms@.len()));
                        match v.data {
                            ConnectionKind::SeparatedRoomsInbetween(ids) => {
                                assert(ids == inbetween_rooms@);
                                assert(ids[i] < old(map).rooms@.len());
                            },
                            _ => {},
                        }
                        assert(old(map).rooms@.len() <= map.rooms@.len());
                    }
                }
                connect_multiple_hallways(
                    connection,
                    inbetween_rooms,
                    &mut new_connections,
                    map,
                    worldgen,
                );
            },
            RoomConnectionType::SeparatedNoSolution => {},
            RoomConnectionType::Unknown => {},
        }
        k += 1;
    }
    new_connections
}

/// Rooms that were extended twice were extended.
proof fn lemma_rooms_extended_twice(a: Seq<Room>, b: Seq<Room>, c: Seq<Room>)
    requires
        rooms_extended(a, b),
        rooms_extended(b, c),
    ensures
        rooms_extended(a, c),
{
    assert forall|i: int| a.len() <= i < c.len() implies is_fresh_hallway(#[trigger] c[i]) by {
        if i < b.len() {
            assert(c[i] == b[i]);
        }
    }
}

/// The rooms and the realised connections of a map after its edges have
/// been resolved: every edge becomes a connection, at most
/// `RESOLUTION_ROUNDS` rounds of resolution are made, and of what is left
/// the connections of neighbours are kept.
pub open spec fn connected(
    rooms: Seq<RoomDimensions>,
    edges: Seq<Edge>,
    min_width: u32,
    max_width: u32,
) -> (Seq<RoomDimensions>, Seq<ConnectionView>) {
    let resolved = resolve(
        rooms,
        first_connections(rooms, edges, min_width),
        RESOLUTION_ROUNDS as nat,
        min_width,
        max_width,
    );
    (resolved.0, only_adjacent(resolved.1, resolved.1.len() as int))
}

/// Every edge of the list joins two of the first `n` rooms.
pub open spec fn edge_list_in_range(edges: Seq<Edge>, n: nat) -> bool {
    forall|i: int| 0 <= i < edges.len() ==> (#[trigger] edges[i]).0 < n && edges[i].1 < n
}

/// Whether every connection of the list joins neighbours.
fn all_connections_adjacent(connections: &Vec<RoomConnection>) -> (r: bool)
    ensures
        r == all_adjacent(connection_views(connections@)),
{
    let mut i: usize = 0;
    while i < connections.len()
        invariant
            i <= connections@.len(),
            forall|j: int| 0 <= j < i ==> (#[trigger] connection_views(connections@)[j]).data is Adjacent,
        decreases connections@.len() - i,
    {
        assert(connection_views(connections@)[i as int] == connections@[i as int]@);
        if !connections[i].is_adjacent() {
            return false;
        }
        i += 1;
    }
    true
}

/// The connections of neighbours in the list, in their order.
fn keep_adjacent(connections: &Vec<RoomConnection>, n: Ghost<nat>) -> (r: Vec<RoomConnection>)
    requires
        connections_in_range(connections@, n@),
    ensures
        connection_views(r@) == only_adjacent(
            connection_views(connections@),
            connections@.len() as int,
        ),
        connections_in_range(r@, n@),
        all_adjacent(connection_views(r@)),
{
    let mut kept: Vec<RoomConnection> = Vec::new();
    let mut i: usize = 0;
    assert(connection_views(kept@) =~= Seq::<ConnectionView>::empty());
    while i < connections.len()
        invariant
            i <= connections@.len(),
            connections_in_range(connections@, n@),
            connection_views(kept@) == only_adjacent(connection_views(connections@), i as int),
            connections_in_range(kept@, n@),
            all_adjacent(connection_views(kept@)),
        decreases connections@.len() - i,
    {
        assert(connection_views(connections@)[i as int] == connections@[i as int]@);
        if connections[i].is_adjacent() {
            let ghost before = kept@;
            let c = connections[i].clone();
            kept.push(c);
            assert(connection_views(kept@) =~= connection_views(before).push(c@));
        }
        i += 1;
    }
    kept
}

/// New hallway rooms are no main rooms: the main rooms stay the same.
pub proof fn lemma_extended_keeps_main(before: Seq<Room>, after: Seq<Room>)
    requires
        rooms_extended(before, after),
    ensures
        main_ids(after) == main_ids(before),
    decreases after.len(),
{
    if after.len() > before.len() {
        let shorter = after.drop_last();
        assert(rooms_extended(before, shorter));
        lemma_extended_keeps_main(before, shorter);
        assert(is_fresh_hallway(after[after.len() - 1]));
    } else {
        assert(after =~= before);
    }
}

/// Resolves the given edges of a map into connections between neighbouring
/// rooms, laying hallways where rooms are apart, and stores the connections
/// in the map.
pub fn connect_edges(worldgen: &WorldgenSettings, map: &mut MapArea, edges: &Vec<Edge>)
    requires
        old(map).wf(),
        edge_list_in_range(edges@, old(map).rooms@.len()),
    ensures
        final(map).wf(),
        final(map).connections is Some,
        (dims_of(final(map).rooms@), connection_views(final(map).connections.unwrap()@)) == connected(
            dims_of(old(map).rooms@),
            edges@,
            worldgen.min_passage_width,
            planning_width(*worldgen),
        ),
        all_adjacent(connection_views(final(map).connections.unwrap()@)),
        rooms_extended(old(map).rooms@, final(map).rooms@),
        final(map).initial_connections == old(map).initial_connections,
        final(map).triangulation == old(map).triangulation,
        final(map).graph == old(map).graph,
{
    let ghost rooms0 = dims_of(map.rooms@);
    let ghost min_width = worldgen.min_passage_width;
    let ghost max_width = planning_width(*worldgen);
    let mut connections: Vec<RoomConnection> = Vec::new();
    let mut k: usize = 0;
    while k < edges.len()
        invariant
            k <= edges@.len(),
            map.wf(),
            *map == *old(map),
            rooms0 == dims_of(map.rooms@),
            min_width == worldgen.min_passage_width,
            edge_list_in_range(edges@, map.rooms@.len()),
            connections_in_range(connections@, map.rooms@.len()),
            connections@.len() == k,
            forall|j: int|
                0 <= j < k ==> (#[trigger] connections@[j])@ == link(
                    rooms0,
                    edges@[j].0,
                    edges@[j].1,
                    min_width,
                ),
        decreases edges@.len() - k,
    {
        let room1_id: usize = edges[k].0;
        let room2_id: usize = edges[k].1;
        let room1 = &map.rooms[room1_id];
        let room2 = &map.rooms[room2_id];
        assert(rooms0[room1_id as int] == room1.dims());
        assert(rooms0[room2_id as int] == room2.dims());
        let ctype = find_out_connection_type(room1, room2, map, worldgen);
        connections.push(RoomConnection::new(room1_id, room2_id, ctype));
        k += 1;
    }
    assert(connection_views(connections@) =~= first_connections(rooms0, edges@, min_width));
    let mut iteration_count: usize = 0;
    while iteration_count < RESOLUTION_ROUNDS && !all_connections_adjacent(&connections)
        invariant
            iteration_count <= RESOLUTION_ROUNDS,
            min_width == worldgen.min_passage_width,
            max_width == planning_width(*worldgen),
            rooms_ok(map.rooms@),
            rooms_extended(old(map).rooms@, map.rooms@),
            connections_in_range(connections@, map.rooms@.len()),
            resolve(
                rooms0,
                first_connections(rooms0, edges@, min_width),
                RESOLUTION_ROUNDS as nat,
                min_width,
                max_width,
            ) == resolve(
                dims_of(map.rooms@),
                connection_views(connections@),
                (RESOLUTION_ROUNDS - iteration_count) as nat,
                min_width,
                max_width,
            ),
            map.initial_connections == old(map).initial_connections,
            map.triangulation == old(map).triangulation,
            map.graph == old(map).graph,
            map.connections == old(map).connections,
        decreases RESOLUTION_ROUNDS - iteration_count,
    {
        let ghost rooms_before = map.rooms@;
        connections = reduce_connections(connections, map, worldgen);
        proof {
            lemma_rooms_extended_twice(old(map).rooms@, rooms_before, map.rooms@);
        }
        iteration_count += 1;
    }
    let realised = keep_adjacent(&connections, Ghost(map.rooms@.len()));
    proof {
        lemma_extended_keeps_main(old(map).rooms@, map.rooms@);
        let g = old(map).graph;
        assert(map.graph == g);
    }
    map.connections = Some(realised);
}

/// Resolves the edges of the map's graph into connections between
/// neighbouring rooms, laying hallways where rooms are apart, and stores
/// the connections in the map. Fails, and leaves the map as it is, where the
/// map has no graph.
pub fn connect_rooms(worldgen: &WorldgenSettings, map: &mut MapArea) -> (r: Result<(), WorldgenError>)
    requires
        old(map).wf(),
    ensures
        final(map).wf(),
        match r {
            Err(e) => e == WorldgenError::MissingGraph && old(map).graph is None && *final(map) == *old(
                map,
            ),
            Ok(_) => {
                &&& old(map).graph is Some
                &&& final(map).connections is Some
                &&& exists|edges: Seq<Edge>|
                    {
                        &&& lists_edges(edges, old(map).graph.unwrap().reassembled_graph@)
                        &&& (
                            dims_of(final(map).rooms@),
                            connection_views(final(map).connections.unwrap()@),
                        ) == #[trigger] connected(
                            dims_of(old(map).rooms@),
                            edges,
                            worldgen.min_passage_width,
                            planning_width(*worldgen),
                        )
                    }
                &&& all_adjacent(connection_views(final(map).connections.unwrap()@))
                &&& rooms_extended(old(map).rooms@, final(map).rooms@)
                &&& final(map).initial_connections == old(map).initial_connections
                &&& final(map).triangulation == old(map).triangulation
                &&& final(map).graph == old(map).graph
            },
        },
{
    let edges: Vec<Edge> = match &map.graph {
        Some(graph) => graph.reassembled_graph.all_edges(),
        None => {
            return Err(WorldgenError::MissingGraph);
        },
    };
    assert(edge_list_in_range(edges@, map.rooms@.len())) by {
        assert forall|i: int| 0 <= i < edges@.len() implies (#[trigger] edges@[i]).0 < map.rooms@.len()
            && edges@[i].1 < map.rooms@.len() by {
            assert(map.graph.unwrap().reassembled_graph@.contains_key(pair_of(edges@[i])));
        }
    }
    connect_edges(worldgen, map, &edges);
    Ok(())
}

} // verus!
