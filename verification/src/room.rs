//! Rooms and the axis-aligned rectangles they occupy.

use vstd::prelude::*;
use grid::Grid;
use crate::aesthetics::Aesthetics;
use crate::rng::thread_usize;
use crate::tile_grid::{
    blank_tiles, grid_cells, grid_clone, grid_cols, grid_get, grid_new, grid_rows, grid_set, grid_width,
};

verus! {

/// Farthest a room of a map may reach from the origin on either axis, in tiles.
pub const WORLD_LIMIT: i32 = 0x1000_0000;

/// A point or an offset on the tile grid.
#[derive(Clone, Copy, Debug, PartialEq, Eq, Hash, Structural)]
pub struct IVec2 {
    pub x: i32,
    pub y: i32,
}

impl IVec2 {
    pub fn new(x: i32, y: i32) -> (r: Self)
        ensures
            r.x == x,
            r.y == y,
    {
        IVec2 { x, y }
    }
}

/// A position inside a room, counted from the room's anchor.
#[derive(Clone, Copy, Debug, PartialEq, Eq, Hash, Structural)]
pub struct UVec2 {
    pub x: u32,
    pub y: u32,
}

impl UVec2 {
    pub fn new(x: u32, y: u32) -> (r: Self)
        ensures
            r.x == x,
            r.y == y,
    {
        UVec2 { x, y }
    }
}

/// What a position of a room holds.
#[derive(Clone, Copy, Debug, Default, PartialEq, Eq, Structural)]
pub enum Tile {
    #[default]
    Ground,
    Wall,
}

/// Which way the border between two neighbouring rooms runs.
#[derive(Clone, Copy, Debug, PartialEq, Eq, Structural)]
pub enum DoorOrientation {
    /// The rooms sit side by side; the border is a column.
    Vertical,
    /// The rooms sit one above the other; the border is a row.
    Horziontal,
}

/// An axis-aligned rectangle of tiles: the bottom-left corner and the size.
///
/// It covers the half-open ranges `[anchor.x, anchor.x + length)` and
/// `[anchor.y, anchor.y + height)`.
#[derive(Clone, Copy, Debug, PartialEq, Eq, Structural)]
pub struct RoomDimensions {
    pub anchor: IVec2,
    pub height: usize,
    pub length: usize,
}

impl RoomDimensions {
    /// First column to the right of the rectangle.
    pub open spec fn end_x(self) -> int {
        self.anchor.x + self.length
    }

    /// First row above the rectangle.
    pub open spec fn end_y(self) -> int {
        self.anchor.y + self.height
    }

    /// The far corner can be written with 32-bit coordinates.
    pub open spec fn fits(self) -> bool {
        self.end_x() <= i32::MAX && self.end_y() <= i32::MAX
    }

    /// The rectangle lies within `WORLD_LIMIT` of the origin.
    pub open spec fn in_world(self) -> bool {
        &&& -WORLD_LIMIT <= self.anchor.x
        &&& -WORLD_LIMIT <= self.anchor.y
        &&& self.end_x() <= WORLD_LIMIT
        &&& self.end_y() <= WORLD_LIMIT
    }

    /// A room can be made of the rectangle: it lies inside the world and
    /// its tiles can be counted.
    pub open spec fn buildable(self) -> bool {
        self.in_world() && self.length * self.height <= isize::MAX
    }

    /// The tile `(x, y)` belongs to the rectangle.
    pub open spec fn covers(self, x: int, y: int) -> bool {
        self.anchor.x <= x < self.end_x() && self.anchor.y <= y < self.end_y()
    }

    /// Twice the x coordinate of the centre, which is a whole number.
    pub open spec fn center2_x(self) -> int {
        2 * self.anchor.x + self.length
    }

    /// Twice the y coordinate of the centre, which is a whole number.
    pub open spec fn center2_y(self) -> int {
        2 * self.anchor.y + self.height
    }

    /// The centre with each coordinate rounded toward zero.
    pub open spec fn center_tile_spec(self) -> (int, int) {
        (truncated_half(self.center2_x()), truncated_half(self.center2_y()))
    }

    /// The rectangle moved by `(dx, dy)`.
    pub open spec fn moved(self, dx: int, dy: int) -> RoomDimensions
        recommends
            i32::MIN <= self.anchor.x + dx <= i32::MAX,
            i32::MIN <= self.anchor.y + dy <= i32::MAX,
    {
        RoomDimensions {
            anchor: IVec2 { x: (self.anchor.x + dx) as i32, y: (self.anchor.y + dy) as i32 },
            height: self.height,
            length: self.length,
        }
    }

    /// The rectangle that a room made with these dimensions occupies: a
    /// room without tiles has neither rows nor columns.
    pub open spec fn as_stored(self) -> RoomDimensions {
        if self.length == 0 || self.height == 0 {
            RoomDimensions { anchor: self.anchor, height: 0, length: 0 }
        } else {
            self
        }
    }

    /// Where the room-local position `local` lies on the grid.
    pub open spec fn local_to_global_spec(self, local: UVec2) -> (int, int) {
        (self.anchor.x + local.x, self.anchor.y + local.y)
    }

    /// The room-local position of the grid tile `(x, y)`, if the rectangle covers it.
    pub open spec fn global_to_local_spec(self, x: int, y: int) -> Option<UVec2> {
        if self.covers(x, y) {
            Some(UVec2 { x: (x - self.anchor.x) as u32, y: (y - self.anchor.y) as u32 })
        } else {
            None
        }
    }

    pub fn new(anchor: IVec2, length: usize, height: usize) -> (r: Self)
        ensures
            r == (RoomDimensions { anchor, height, length }),
    {
        RoomDimensions { anchor, height, length }
    }

    pub fn height(&self) -> (r: usize)
        ensures
            r == self.height,
    {
        self.height
    }

    pub fn length(&self) -> (r: usize)
        ensures
            r == self.length,
    {
        self.length
    }

    pub fn anchor_grid(&self) -> (r: IVec2)
        ensures
            r == self.anchor,
    {
        self.anchor
    }

    /// Moves the rectangle by `offset`; the size stays.
    pub fn offset_anchor_grid(&mut self, offset: IVec2)
        requires
            i32::MIN <= old(self).anchor.x + offset.x <= i32::MAX,
            i32::MIN <= old(self).anchor.y + offset.y <= i32::MAX,
        ensures
            *final(self) == old(self).moved(offset.x as int, offset.y as int),
    {
        self.anchor = IVec2 { x: self.anchor.x + offset.x, y: self.anchor.y + offset.y };
    }

    /// The anchor in world units, one tile being `tile_size` units large.
    pub fn anchor_world(&self, tile_size: UVec2) -> (r: IVec2)
        requires
            i32::MIN <= self.anchor.x * tile_size.x <= i32::MAX,
            i32::MIN <= self.anchor.y * tile_size.y <= i32::MAX,
        ensures
            r.x == self.anchor.x * tile_size.x,
            r.y == self.anchor.y * tile_size.y,
    {
        let x: i64 = (self.anchor.x as i64) * (tile_size.x as i64);
        let y: i64 = (self.anchor.y as i64) * (tile_size.y as i64);
        IVec2 { x: x as i32, y: y as i32 }
    }

    /// The corner opposite the anchor, just outside the rectangle.
    pub fn anchor_grid_end(&self) -> (r: IVec2)
        requires
            self.fits(),
        ensures
            r.x == self.end_x(),
            r.y == self.end_y(),
    {
        let x: i128 = self.anchor.x as i128 + self.length as i128;
        let y: i128 = self.anchor.y as i128 + self.height as i128;
        IVec2 { x: x as i32, y: y as i32 }
    }

    /// Twice the centre, so that half tiles stay whole numbers.
    pub fn center_doubled(&self) -> (r: (i64, i64))
        requires
            self.fits(),
        ensures
            r.0 == self.center2_x(),
            r.1 == self.center2_y(),
    {
        let x: i64 = 2 * (self.anchor.x as i64) + (self.length as i64);
        let y: i64 = 2 * (self.anchor.y as i64) + (self.height as i64);
        (x, y)
    }

    /// The tile at the centre, each coordinate rounded toward zero.
    pub fn center_tile(&self) -> (r: IVec2)
        requires
            self.fits(),
        ensures
            (r.x as int, r.y as int) == self.center_tile_spec(),
    {
        let c: (i64, i64) = self.center_doubled();
        IVec2 { x: (c.0 / 2) as i32, y: (c.1 / 2) as i32 }
    }

    /// Converts a position inside the room to a position on the grid.
    pub fn local_to_global(&self, local_coordinates: UVec2) -> (r: IVec2)
        requires
            self.anchor.x + local_coordinates.x <= i32::MAX,
            self.anchor.y + local_coordinates.y <= i32::MAX,
        ensures
            (r.x as int, r.y as int) == self.local_to_global_spec(local_coordinates),
    {
        let x: i64 = self.anchor.x as i64 + local_coordinates.x as i64;
        let y: i64 = self.anchor.y as i64 + local_coordinates.y as i64;
        IVec2 { x: x as i32, y: y as i32 }
    }

    /// Converts a position on the grid to a position inside the room, or
    /// `None` when the tile lies outside the rectangle.
    pub fn global_to_local(&self, global_coordinates: IVec2) -> (r: Option<UVec2>)
        ensures
            r == self.global_to_local_spec(global_coordinates.x as int, global_coordinates.y as int),
    {
        let dx: i64 = global_coordinates.x as i64 - self.anchor.x as i64;
        let dy: i64 = global_coordinates.y as i64 - self.anchor.y as i64;
        if dx < 0 || dy < 0 {
            return None;
        }
        if dx as u64 as u128 >= self.length as u128 || dy as u64 as u128 >= self.height as u128 {
            return None;
        }
        Some(UVec2 { x: dx as u32, y: dy as u32 })
    }

    /// Whether the tile `point` belongs to the rectangle.
    pub fn is_point_inside(&self, point: (i32, i32)) -> (r: bool)
        ensures
            r == self.covers(point.0 as int, point.1 as int),
    {
        let end_x: i128 = self.anchor.x as i128 + self.length as i128;
        let end_y: i128 = self.anchor.y as i128 + self.height as i128;
        let x: bool = point.0 >= self.anchor.x && (point.0 as i128) < end_x;
        let y: bool = point.1 >= self.anchor.y && (point.1 as i128) < end_y;
        x && y
    }

    /// Whether a room can be made of the rectangle.
    pub fn is_buildable(&self) -> (r: bool)
        ensures
            r == self.buildable(),
    {
        if !self.is_in_world() {
            return false;
        }
        assert(0 <= self.length * self.height <= 0x2000_0000 * 0x2000_0000) by (nonlinear_arith)
            requires
                0 <= self.length <= 0x2000_0000,
                0 <= self.height <= 0x2000_0000,
        ;
        (self.length as u128) * (self.height as u128) <= isize::MAX as u128
    }

    /// Whether the rectangle lies within `WORLD_LIMIT` of the origin.
    pub fn is_in_world(&self) -> (r: bool)
        ensures
            r == self.in_world(),
    {
        let end_x: i128 = self.anchor.x as i128 + self.length as i128;
        let end_y: i128 = self.anchor.y as i128 + self.height as i128;
        self.anchor.x >= -WORLD_LIMIT && self.anchor.y >= -WORLD_LIMIT
            && end_x <= WORLD_LIMIT as i128 && end_y <= WORLD_LIMIT as i128
    }
}

/// What a room is used for.
#[derive(Clone, Copy, Debug, PartialEq, Eq, Structural)]
pub enum RoomType {
    Normal,
    Shop,
    Boss,
}

/// What a room is, apart from where it lies.
#[derive(Debug)]
pub struct RoomDetails {
    pub is_main: bool,
    pub room_type: RoomType,
    pub aesthetic_modifiers: Vec<Aesthetics>,
}

/// A room of the map: a grid of tiles with an identity and a place.
///
/// The grid never changes its size once the room is made; only the anchor moves.
#[derive(Debug)]
pub struct Room {
    /// The identity of the room; in a map, the place of the room in the list of rooms.
    pub room_id: usize,
    /// The tiles, in rows from the bottom up.
    pub data: Grid<Tile>,
    /// The bottom-left corner.
    pub world_pos: IVec2,
    pub details: RoomDetails,
    /// A room with a fixed position is not moved by the separation.
    pub is_position_fixed: bool,
    /// A hidden room is part of the map and is not shown.
    pub is_visible: bool,
}

impl Clone for RoomDetails {
    fn clone(&self) -> (r: Self)
        ensures
            r.is_main == self.is_main,
            r.room_type == self.room_type,
            r.aesthetic_modifiers@ == self.aesthetic_modifiers@,
    {
        RoomDetails {
            is_main: self.is_main,
            room_type: self.room_type,
            aesthetic_modifiers: self.aesthetic_modifiers.clone(),
        }
    }
}

impl Clone for Room {
    /// A copy with the same identity, place, details, flags and tiles.
    fn clone(&self) -> (r: Self)
        ensures
            r.room_id == self.room_id,
            r.world_pos == self.world_pos,
            r.tiles() == self.tiles(),
            r.width() == self.width(),
            r.details.is_main == self.details.is_main,
            r.details.room_type == self.details.room_type,
            r.details.aesthetic_modifiers@ == self.details.aesthetic_modifiers@,
            r.is_position_fixed == self.is_position_fixed,
            r.is_visible == self.is_visible,
    {
        Room {
            room_id: self.room_id,
            data: grid_clone(&self.data),
            world_pos: self.world_pos,
            details: self.details.clone(),
            is_position_fixed: self.is_position_fixed,
            is_visible: self.is_visible,
        }
    }
}

/// A room that has no id yet: where it lies, and what it is.
#[derive(Debug)]
pub struct RoomWithDetailsNoId {
    pub dimensions: RoomDimensions,
    pub details: RoomDetails,
}

impl RoomWithDetailsNoId {
    pub fn height(&self) -> (r: usize)
        ensures
            r == self.dimensions.height,
    {
        self.dimensions.height()
    }

    pub fn length(&self) -> (r: usize)
        ensures
            r == self.dimensions.length,
    {
        self.dimensions.length()
    }

    pub fn anchor_grid(&self) -> (r: IVec2)
        ensures
            r == self.dimensions.anchor,
    {
        self.dimensions.anchor_grid()
    }

    /// Moves the room by `offset`; size and details stay.
    pub fn offset_anchor_grid(&mut self, offset: IVec2)
        requires
            i32::MIN <= old(self).dimensions.anchor.x + offset.x <= i32::MAX,
            i32::MIN <= old(self).dimensions.anchor.y + offset.y <= i32::MAX,
        ensures
            final(self).dimensions == old(self).dimensions.moved(offset.x as int, offset.y as int),
            final(self).details == old(self).details,
    {
        self.dimensions.offset_anchor_grid(offset)
    }
}

/// A group of rooms that are placed together.
#[derive(Debug)]
pub struct StructureCollection {
    pub structures: Vec<RoomWithDetailsNoId>,
}

/// The least of the first `n` anchors on the x axis.
pub open spec fn least_x(list: Seq<RoomWithDetailsNoId>, n: int) -> int
    decreases n,
{
    if n <= 1 {
        list[0].dimensions.anchor.x as int
    } else if list[n - 1].dimensions.anchor.x < least_x(list, n - 1) {
        list[n - 1].dimensions.anchor.x as int
    } else {
        least_x(list, n - 1)
    }
}

/// The least of the first `n` anchors on the y axis.
pub open spec fn least_y(list: Seq<RoomWithDetailsNoId>, n: int) -> int
    decreases n,
{
    if n <= 1 {
        list[0].dimensions.anchor.y as int
    } else if list[n - 1].dimensions.anchor.y < least_y(list, n - 1) {
        list[n - 1].dimensions.anchor.y as int
    } else {
        least_y(list, n - 1)
    }
}

/// The farthest of the first `n` far corners on the x axis.
pub open spec fn greatest_x(list: Seq<RoomWithDetailsNoId>, n: int) -> int
    decreases n,
{
    if n <= 1 {
        list[0].dimensions.end_x()
    } else if list[n - 1].dimensions.end_x() > greatest_x(list, n - 1) {
        list[n - 1].dimensions.end_x()
    } else {
        greatest_x(list, n - 1)
    }
}

/// The farthest of the first `n` far corners on the y axis.
pub open spec fn greatest_y(list: Seq<RoomWithDetailsNoId>, n: int) -> int
    decreases n,
{
    if n <= 1 {
        list[0].dimensions.end_y()
    } else if list[n - 1].dimensions.end_y() > greatest_y(list, n - 1) {
        list[n - 1].dimensions.end_y()
    } else {
        greatest_y(list, n - 1)
    }
}

/// How far two positions are apart.
pub open spec fn span(low: int, high: int) -> int {
    if high >= low {
        high - low
    } else {
        low - high
    }
}

impl StructureCollection {
    /// The group is not empty, and every far corner can be written with 32 bits.
    pub open spec fn measurable(&self) -> bool {
        &&& self.structures@.len() > 0
        &&& forall|i: int|
            0 <= i < self.structures@.len() ==> (#[trigger] self.structures@[i]).dimensions.fits()
    }

    pub fn new(room_dims: Vec<RoomWithDetailsNoId>) -> (r: Self)
        ensures
            r.structures == room_dims,
    {
        StructureCollection { structures: room_dims }
    }

    fn min_x(&self) -> (r: i32)
        requires
            self.measurable(),
        ensures
            r == least_x(self.structures@, self.structures@.len() as int),
    {
        let mut best: i32 = self.structures[0].dimensions.anchor.x;
        let mut i: usize = 1;
        while i < self.structures.len()
            invariant
                1 <= i <= self.structures@.len(),
                best == least_x(self.structures@, i as int),
            decreases self.structures@.len() - i,
        {
            let x: i32 = self.structures[i].dimensions.anchor.x;
            if x < best {
                best = x;
            }
            i += 1;
        }
        best
    }

    fn min_y(&self) -> (r: i32)
        requires
            self.measurable(),
        ensures
            r == least_y(self.structures@, self.structures@.len() as int),
    {
        let mut best: i32 = self.structures[0].dimensions.anchor.y;
        let mut i: usize = 1;
        while i < self.structures.len()
            invariant
                1 <= i <= self.structures@.len(),
                best == least_y(self.structures@, i as int),
            decreases self.structures@.len() - i,
        {
            let y: i32 = self.structures[i].dimensions.anchor.y;
            if y < best {
                best = y;
            }
            i += 1;
        }
        best
    }

    fn max_x(&self) -> (r: i32)
        requires
            self.measurable(),
        ensures
            r == greatest_x(self.structures@, self.structures@.len() as int),
    {
        let mut best: i32 = self.structures[0].dimensions.anchor_grid_end().x;
        let mut i: usize = 1;
        while i < self.structures.len()
            invariant
                self.measurable(),
                1 <= i <= self.structures@.len(),
                best == greatest_x(self.structures@, i as int),
            decreases self.structures@.len() - i,
        {
            let x: i32 = self.structures[i].dimensions.anchor_grid_end().x;
            if x > best {
                best = x;
            }
            i += 1;
        }
        best
    }

    fn max_y(&self) -> (r: i32)
        requires
            self.measurable(),
        ensures
            r == greatest_y(self.structures@, self.structures@.len() as int),
    {
        let mut best: i32 = self.structures[0].dimensions.anchor_grid_end().y;
        let mut i: usize = 1;
        while i < self.structures.len()
            invariant
                self.measurable(),
                1 <= i <= self.structures@.len(),
                best == greatest_y(self.structures@, i as int),
            decreases self.structures@.len() - i,
        {
            let y: i32 = self.structures[i].dimensions.anchor_grid_end().y;
            if y > best {
                best = y;
            }
            i += 1;
        }
        best
    }

    /// How far the group reaches on the y axis.
    pub fn height(&self) -> (r: usize)
        requires
            self.measurable(),
        ensures
            r == span(
                least_y(self.structures@, self.structures@.len() as int),
                greatest_y(self.structures@, self.structures@.len() as int),
            ),
    {
        let span: i64 = self.max_y() as i64 - self.min_y() as i64;
        if span >= 0 {
            span as usize
        } else {
            (-span) as usize
        }
    }

    /// How far the group reaches on the x axis.
    pub fn length(&self) -> (r: usize)
        requires
            self.measurable(),
        ensures
            r == span(
                least_x(self.structures@, self.structures@.len() as int),
                greatest_x(self.structures@, self.structures@.len() as int),
            ),
    {
        let span: i64 = self.max_x() as i64 - self.min_x() as i64;
        if span >= 0 {
            span as usize
        } else {
            (-span) as usize
        }
    }

    /// The bottom-left corner of the group.
    pub fn anchor_grid(&self) -> (r: IVec2)
        requires
            self.measurable(),
        ensures
            r.x == least_x(self.structures@, self.structures@.len() as int),
            r.y == least_y(self.structures@, self.structures@.len() as int),
    {
        IVec2 { x: self.min_x(), y: self.min_y() }
    }

    /// Moves every room of the group by `offset`.
    pub fn offset_anchor_grid(&mut self, offset: IVec2)
        requires
            forall|i: int|
                0 <= i < old(self).structures@.len() ==> {
                    &&& i32::MIN <= (#[trigger] old(self).structures@[i]).dimensions.anchor.x + offset.x
                        <= i32::MAX
                    &&& i32::MIN <= old(self).structures@[i].dimensions.anchor.y + offset.y <= i32::MAX
                },
        ensures
            final(self).structures@.len() == old(self).structures@.len(),
            forall|i: int|
                0 <= i < old(self).structures@.len() ==> {
                    &&& (#[trigger] final(self).structures@[i]).dimensions == old(
                        self,
                    ).structures@[i].dimensions.moved(offset.x as int, offset.y as int)
                    &&& final(self).structures@[i].details == old(self).structures@[i].details
                },
    {
        let n: usize = self.structures.len();
        let mut i: usize = 0;
        while i < n
            invariant
                n == old(self).structures@.len(),
                self.structures@.len() == n,
                i <= n,
                forall|k: int|
                    0 <= k < n ==> {
                        &&& i32::MIN <= (#[trigger] old(self).structures@[k]).dimensions.anchor.x
                            + offset.x <= i32::MAX
                        &&& i32::MIN <= old(self).structures@[k].dimensions.anchor.y + offset.y
                            <= i32::MAX
                    },
                forall|k: int|
                    0 <= k < i ==> {
                        &&& (#[trigger] self.structures@[k]).dimensions == old(
                            self,
                        ).structures@[k].dimensions.moved(offset.x as int, offset.y as int)
                        &&& self.structures@[k].details == old(self).structures@[k].details
                    },
                forall|k: int| i <= k < n ==> #[trigger] self.structures@[k] == old(self).structures@[k],
            decreases n - i,
        {
            self.structures[i].offset_anchor_grid(offset);
            i += 1;
        }
    }
}

/// Whether `(r, c)` lies on the outer ring of a grid of `rows` by `cols`.
pub open spec fn on_border(rows: int, cols: int, r: int, c: int) -> bool {
    r == 0 || c == 0 || r == rows - 1 || c == cols - 1
}

/// The tiles with the outer ring set to wall.
pub open spec fn walled(tiles: Seq<Seq<Tile>>) -> Seq<Seq<Tile>> {
    Seq::new(
        tiles.len(),
        |r: int|
            Seq::new(
                tiles[r].len(),
                |c: int|
                    if on_border(tiles.len() as int, tiles[r].len() as int, r, c) {
                        Tile::Wall
                    } else {
                        tiles[r][c]
                    },
            ),
    )
}

/// The tiles with those in the columns from `x_lo` up to, not including,
/// `x_end` and the rows from `y_lo` up to, not including, `y_end` set to `tile`.
pub open spec fn area_filled(
    tiles: Seq<Seq<Tile>>,
    x_lo: int,
    x_end: int,
    y_lo: int,
    y_end: int,
    tile: Tile,
) -> Seq<Seq<Tile>> {
    Seq::new(
        tiles.len(),
        |r: int|
            Seq::new(
                tiles[r].len(),
                |c: int|
                    if x_lo <= c < x_end && y_lo <= r < y_end {
                        tile
                    } else {
                        tiles[r][c]
                    },
            ),
    )
}

/// The tiles with the one at `(row, col)` replaced.
pub open spec fn with_tile(tiles: Seq<Seq<Tile>>, row: int, col: int, tile: Tile) -> Seq<
    Seq<Tile>,
> {
    tiles.update(row, tiles[row].update(col, tile))
}

impl Room {
    /// The room's identity.
    pub open spec fn spec_id(&self) -> usize {
        self.room_id
    }

    /// The tiles, row by row from the bottom.
    pub open spec fn tiles(&self) -> Seq<Seq<Tile>> {
        grid_cells(self.data)
    }

    /// The number of columns.
    pub open spec fn width(&self) -> nat {
        grid_width(self.data)
    }

    /// Where the bottom-left corner lies.
    pub open spec fn anchor(&self) -> IVec2 {
        self.world_pos
    }

    /// The rectangle that the room occupies.
    pub open spec fn dims(&self) -> RoomDimensions {
        RoomDimensions {
            anchor: self.anchor(),
            height: self.tiles().len() as usize,
            length: self.width() as usize,
        }
    }

    /// Every row is as long as the room is wide, and a room without rows has
    /// no columns either.
    pub open spec fn wf(&self) -> bool {
        &&& forall|r: int| 0 <= r < self.tiles().len() ==> (#[trigger] self.tiles()[r]).len() == self.width()
        &&& (self.tiles().len() == 0 <==> self.width() == 0)
        &&& self.tiles().len() <= isize::MAX
        &&& self.width() <= isize::MAX
        &&& self.tiles().len() * self.width() <= isize::MAX
    }

    /// The tile at a room-local position, if the room has one there.
    pub open spec fn tile_at(&self, position: UVec2) -> Option<Tile> {
        if position.y < self.tiles().len() && position.x < self.width() {
            Some(self.tiles()[position.y as int][position.x as int])
        } else {
            None
        }
    }

    /// `other` is this room with, at most, other tiles in a grid of the same size.
    pub open spec fn same_frame(&self, other: &Room) -> bool {
        &&& other.spec_id() == self.spec_id()
        &&& other.anchor() == self.anchor()
        &&& other.width() == self.width()
        &&& other.tiles().len() == self.tiles().len()
        &&& other.details == self.details
        &&& other.is_position_fixed == self.is_position_fixed
        &&& other.is_visible == self.is_visible
    }

    /// A room of `length` by `height` ground tiles, free to move and visible.
    pub fn new(room_id: usize, length: usize, height: usize, world_pos: IVec2, is_main: bool) -> (r:
        Self)
        requires
            length * height <= isize::MAX,
        ensures
            r.wf(),
            r.spec_id() == room_id,
            r.anchor() == world_pos,
            r.tiles() == blank_tiles(height, length),
            r.width() == (if length == 0 || height == 0 { 0 } else { length as nat }),
            r.details.is_main == is_main,
            r.details.room_type is Normal,
            r.details.aesthetic_modifiers@.len() == 0,
            !r.is_position_fixed,
            r.is_visible,
    {
        assert(height * length == length * height) by (nonlinear_arith);
        assert(length != 0 && height != 0 ==> length <= isize::MAX && height <= isize::MAX)
            by (nonlinear_arith)
            requires
                length * height <= isize::MAX,
        ;
        Room {
            room_id,
            data: grid_new(height, length),
            world_pos,
            details: RoomDetails {
                is_main,
                room_type: RoomType::Normal,
                aesthetic_modifiers: Vec::new(),
            },
            is_position_fixed: false,
            is_visible: true,
        }
    }

    /// A room for trials: as `new` makes it, a main room, with an id drawn
    /// at random from 0 to 10000.
    pub fn _new_only_spatial(length: usize, height: usize, world_pos: IVec2) -> (r: Self)
        requires
            length * height <= isize::MAX,
        ensures
            r.wf(),
            r.spec_id() <= 10000,
            r.anchor() == world_pos,
            r.tiles() == blank_tiles(height, length),
            r.width() == (if length == 0 || height == 0 { 0 } else { length as nat }),
            r.details.is_main,
            !r.is_position_fixed,
            r.is_visible,
    {
        Room::new(thread_usize(0, 10000), length, height, world_pos, true)
    }

    /// A room with the given rectangle and details.
    pub fn new2(room_id: usize, dimensions: RoomDimensions, details: RoomDetails) -> (r: Self)
        requires
            dimensions.length * dimensions.height <= isize::MAX,
        ensures
            r.wf(),
            r.spec_id() == room_id,
            r.anchor() == dimensions.anchor,
            r.tiles() == blank_tiles(dimensions.height, dimensions.length),
            r.width() == (if dimensions.length == 0 || dimensions.height == 0 {
                0
            } else {
                dimensions.length as nat
            }),
            r.details == details,
            !r.is_position_fixed,
            r.is_visible,
    {
        assert(dimensions.height * dimensions.length == dimensions.length * dimensions.height)
            by (nonlinear_arith);
        assert(dimensions.length != 0 && dimensions.height != 0 ==> dimensions.length <= isize::MAX
            && dimensions.height <= isize::MAX) by (nonlinear_arith)
            requires
                dimensions.length * dimensions.height <= isize::MAX,
        ;
        Room {
            room_id,
            data: grid_new(dimensions.height, dimensions.length),
            world_pos: dimensions.anchor,
            details,
            is_position_fixed: false,
            is_visible: true,
        }
    }

    pub fn id(&self) -> (r: usize)
        ensures
            r == self.spec_id(),
    {
        self.room_id
    }

    /// The rectangle that the room occupies.
    pub fn dimensions(&self) -> (r: RoomDimensions)
        ensures
            r == self.dims(),
    {
        RoomDimensions {
            anchor: self.world_pos,
            height: grid_rows(&self.data),
            length: grid_cols(&self.data),
        }
    }

    pub fn height(&self) -> (r: usize)
        ensures
            r == self.dims().height,
    {
        grid_rows(&self.data)
    }

    pub fn length(&self) -> (r: usize)
        ensures
            r == self.dims().length,
    {
        grid_cols(&self.data)
    }

    pub fn anchor_grid(&self) -> (r: IVec2)
        ensures
            r == self.anchor(),
    {
        self.world_pos
    }

    /// Moves the room by `offset`; tiles and size stay.
    pub fn offset_anchor_grid(&mut self, offset: IVec2)
        requires
            i32::MIN <= old(self).anchor().x + offset.x <= i32::MAX,
            i32::MIN <= old(self).anchor().y + offset.y <= i32::MAX,
        ensures
            final(self).anchor().x == old(self).anchor().x + offset.x,
            final(self).anchor().y == old(self).anchor().y + offset.y,
            final(self).tiles() == old(self).tiles(),
            final(self).width() == old(self).width(),
            final(self).spec_id() == old(self).spec_id(),
            final(self).details == old(self).details,
            final(self).is_position_fixed == old(self).is_position_fixed,
            final(self).is_visible == old(self).is_visible,
    {
        self.world_pos = IVec2 { x: self.world_pos.x + offset.x, y: self.world_pos.y + offset.y };
    }

    /// The tile at `position`, or `None` when the room has no such position.
    pub fn get_tile(&self, position: UVec2) -> (r: Option<&Tile>)
        ensures
            match r {
                Some(t) => self.tile_at(position) == Some(*t),
                None => self.tile_at(position).is_none(),
            },
    {
        grid_get(&self.data, position.y as usize, position.x as usize)
    }

    /// Sets the tile at `position`. Returns false, and changes nothing, when
    /// the room has no such position.
    pub fn set_tile(&mut self, position: UVec2, tile: Tile) -> (r: bool)
        requires
            old(self).wf(),
        ensures
            final(self).wf(),
            old(self).same_frame(final(self)),
            r == old(self).tile_at(position).is_some(),
            final(self).tiles() == (if r {
                with_tile(old(self).tiles(), position.y as int, position.x as int, tile)
            } else {
                old(self).tiles()
            }),
    {
        let row: usize = position.y as usize;
        let col: usize = position.x as usize;
        if row >= grid_rows(&self.data) || col >= grid_cols(&self.data) {
            return false;
        }
        grid_set(&mut self.data, row, col, tile);
        true
    }

    /// The number of tiles.
    pub fn get_area_grid(&self) -> (r: usize)
        requires
            self.wf(),
        ensures
            r == self.dims().length * self.dims().height,
    {
        let length: usize = self.length();
        let height: usize = self.height();
        assert(length * height == height * length) by (nonlinear_arith);
        length * height
    }

    /// The area in world units, one tile being `tile_size` units large.
    pub fn _get_area_world(&self, tile_size: UVec2) -> (r: usize)
        requires
            self.dims().length * tile_size.x * self.dims().height * tile_size.y <= usize::MAX,
            self.dims().length * tile_size.x <= usize::MAX,
            self.dims().length * tile_size.x * self.dims().height <= usize::MAX,
        ensures
            r == self.dims().length * tile_size.x * self.dims().height * tile_size.y,
    {
        self.length() * tile_size.x as usize * self.height() * tile_size.y as usize
    }

    /// Sets the outer ring of tiles to wall.
    pub fn fill_edges(&mut self)
        requires
            old(self).wf(),
        ensures
            final(self).wf(),
            old(self).same_frame(final(self)),
            final(self).tiles() == walled(old(self).tiles()),
    {
        fill_rect(self);
    }

    /// Sets every tile of the room in the columns from `x_lo` up to, not
    /// including, `x_end` and the rows from `y_lo` up to, not including,
    /// `y_end` to `tile`.
    pub fn fill_area(&mut self, x_lo: usize, x_end: usize, y_lo: usize, y_end: usize, tile: Tile)
        requires
            old(self).wf(),
        ensures
            final(self).wf(),
            old(self).same_frame(final(self)),
            final(self).tiles() == area_filled(
                old(self).tiles(),
                x_lo as int,
                x_end as int,
                y_lo as int,
                y_end as int,
                tile,
            ),
    {
        let rows: usize = self.height();
        let cols: usize = self.length();
        let x_stop: usize = if x_end < cols { x_end } else { cols };
        let y_stop: usize = if y_end < rows { y_end } else { rows };
        let ghost before = self.tiles();
        let mut y: usize = y_lo;
        while y < y_stop
            invariant
                self.wf(),
                old(self).same_frame(self),
                before == old(self).tiles(),
                rows == before.len(),
                cols == self.width(),
                x_stop <= cols,
                x_stop <= x_end,
                x_end < cols ==> x_stop == x_end,
                y_stop <= rows,
                y_end < rows ==> y_stop == y_end,
                y_end >= rows ==> y_stop == rows,
                x_end >= cols ==> x_stop == cols,
                y_lo <= y,
                y <= y_stop || y == y_lo,
                forall|r: int, c: int|
                    0 <= r < rows && 0 <= c < cols ==> (#[trigger] self.tiles()[r][c]) == (if x_lo <= c
                        < x_stop && y_lo <= r < y {
                        tile
                    } else {
                        before[r][c]
                    }),
            decreases y_stop - y,
        {
            let mut x: usize = x_lo;
            while x < x_stop
                invariant
                    self.wf(),
                    old(self).same_frame(self),
                    before == old(self).tiles(),
                    rows == before.len(),
                    cols == self.width(),
                    x_stop <= cols,
                    y < y_stop <= rows,
                    y_lo <= y,
                    x_lo <= x,
                    x <= x_stop || x == x_lo,
                    forall|r: int, c: int|
                        0 <= r < rows && 0 <= c < cols ==> (#[trigger] self.tiles()[r][c]) == (if (x_lo
                            <= c < x_stop && y_lo <= r < y) || (r == y && x_lo <= c < x) {
                            tile
                        } else {
                            before[r][c]
                        }),
                decreases x_stop - x,
            {
                grid_set(&mut self.data, y, x, tile);
                x += 1;
            }
            y += 1;
        }
        assert(self.tiles() =~= area_filled(
            before,
            x_lo as int,
            x_end as int,
            y_lo as int,
            y_end as int,
            tile,
        )) by {
            assert forall|r: int| 0 <= r < rows implies #[trigger] self.tiles()[r] =~= area_filled(
                before,
                x_lo as int,
                x_end as int,
                y_lo as int,
                y_end as int,
                tile,
            )[r] by {
                assert(self.tiles()[r].len() == cols);
                assert(before[r].len() == cols);
                assert forall|c: int| 0 <= c < cols implies self.tiles()[r][c] == area_filled(
                    before,
                    x_lo as int,
                    x_end as int,
                    y_lo as int,
                    y_end as int,
                    tile,
                )[r][c] by {
                    let t = self.tiles()[r][c];
                }
            }
        }
    }

    /// A copy of the tile grid.
    pub fn get_grid(&self) -> (r: Grid<Tile>)
        ensures
            grid_cells(r) == self.tiles(),
            grid_width(r) == self.width(),
    {
        grid_clone(&self.data)
    }

    /// The tiles as plain rows, from the bottom row up.
    pub fn rows_of_tiles(&self) -> (r: Vec<Vec<Tile>>)
        requires
            self.wf(),
        ensures
            r@.len() == self.tiles().len(),
            forall|y: int| 0 <= y < r@.len() ==> (#[trigger] r@[y])@ == self.tiles()[y],
    {
        let rows: usize = grid_rows(&self.data);
        let cols: usize = grid_cols(&self.data);
        let mut out: Vec<Vec<Tile>> = Vec::new();
        let mut y: usize = 0;
        while y < rows
            invariant
                self.wf(),
                rows == self.tiles().len(),
                cols == self.width(),
                y <= rows,
                out@.len() == y,
                forall|k: int| 0 <= k < y ==> (#[trigger] out@[k])@ == self.tiles()[k],
            decreases rows - y,
        {
            let mut row: Vec<Tile> = Vec::new();
            let mut x: usize = 0;
            while x < cols
                invariant
                    self.wf(),
                    rows == self.tiles().len(),
                    cols == self.width(),
                    y < rows,
                    x <= cols,
                    row@.len() == x,
                    forall|k: int| 0 <= k < x ==> row@[k] == self.tiles()[y as int][k],
                decreases cols - x,
            {
                match grid_get(&self.data, y, x) {
                    Some(t) => row.push(*t),
                    None => row.push(Tile::Ground),
                }
                x += 1;
            }
            assert(row@ =~= self.tiles()[y as int]);
            out.push(row);
            y += 1;
        }
        out
    }

    /// The centre tile of the room, each coordinate rounded toward zero.
    pub fn center_tile(&self) -> (r: IVec2)
        requires
            self.dims().fits(),
        ensures
            (r.x as int, r.y as int) == self.dims().center_tile_spec(),
    {
        self.dimensions().center_tile()
    }

    /// The corner opposite the anchor, just outside the room.
    pub fn anchor_grid_end(&self) -> (r: IVec2)
        requires
            self.dims().fits(),
        ensures
            r.x == self.dims().end_x(),
            r.y == self.dims().end_y(),
    {
        self.dimensions().anchor_grid_end()
    }

    /// Converts a position inside the room to a position on the grid.
    pub fn local_to_global(&self, local_coordinates: UVec2) -> (r: IVec2)
        requires
            self.anchor().x + local_coordinates.x <= i32::MAX,
            self.anchor().y + local_coordinates.y <= i32::MAX,
        ensures
            (r.x as int, r.y as int) == self.dims().local_to_global_spec(local_coordinates),
    {
        self.dimensions().local_to_global(local_coordinates)
    }

    /// Converts a position on the grid to a position inside the room, or
    /// `None` when the tile lies outside the room.
    pub fn global_to_local(&self, global_coordinates: IVec2) -> (r: Option<UVec2>)
        ensures
            r == self.dims().global_to_local_spec(
                global_coordinates.x as int,
                global_coordinates.y as int,
            ),
    {
        self.dimensions().global_to_local(global_coordinates)
    }

    /// Whether the tile `point` belongs to the room.
    pub fn is_point_inside(&self, point: (i32, i32)) -> (r: bool)
        ensures
            r == self.dims().covers(point.0 as int, point.1 as int),
    {
        self.dimensions().is_point_inside(point)
    }
}

/// Walls up the four sides of a rectangular room.
fn fill_rect(room: &mut Room)
    requires
        old(room).wf(),
    ensures
        final(room).wf(),
        old(room).same_frame(final(room)),
        final(room).tiles() == walled(old(room).tiles()),
{
    let rows: usize = room.height();
    let cols: usize = room.length();
    if rows == 0 || cols == 0 {
        assert(room.tiles() =~= walled(room.tiles()));
        return ;
    }
    let ghost before = room.tiles();
    let mut y: usize = 0;
    while y < rows
        invariant
            room.wf(),
            old(room).same_frame(room),
            rows == before.len(),
            cols == room.width(),
            cols > 0,
            y <= rows,
            before == old(room).tiles(),
            forall|r: int, c: int|
                0 <= r < rows && 0 <= c < cols ==> (#[trigger] room.tiles()[r][c]) == (if r < y && (c
                    == 0 || c == cols - 1) {
                    Tile::Wall
                } else {
                    before[r][c]
                }),
        decreases rows - y,
    {
        grid_set(&mut room.data, y, 0, Tile::Wall);
        grid_set(&mut room.data, y, cols - 1, Tile::Wall);
        y += 1;
    }
    let mut x: usize = 0;
    while x < cols
        invariant
            room.wf(),
            old(room).same_frame(room),
            rows == before.len(),
            cols == room.width(),
            rows > 0,
            x <= cols,
            before == old(room).tiles(),
            forall|r: int, c: int|
                0 <= r < rows && 0 <= c < cols ==> (#[trigger] room.tiles()[r][c]) == (if (c == 0
                    || c == cols - 1) || (c < x && (r == 0 || r == rows - 1)) {
                    Tile::Wall
                } else {
                    before[r][c]
                }),
        decreases cols - x,
    {
        grid_set(&mut room.data, 0, x, Tile::Wall);
        grid_set(&mut room.data, rows - 1, x, Tile::Wall);
        x += 1;
    }
    assert(room.tiles() =~= walled(before)) by {
        assert forall|r: int| 0 <= r < rows implies #[trigger] room.tiles()[r] =~= walled(before)[r] by {
            assert(room.tiles()[r].len() == cols);
            assert(before[r].len() == cols);
            assert forall|c: int| 0 <= c < cols implies room.tiles()[r][c] == walled(before)[r][c] by {
                let t = room.tiles()[r][c];
            }
        }
    }
}

/// Half of `n`, rounded toward zero.
pub open spec fn truncated_half(n: int) -> int {
    if n >= 0 {
        n / 2
    } else {
        -((-n) / 2)
    }
}

/// Both axes' ranges of the two rectangles cross; sharing a border is not enough.
pub open spec fn overlapping(a: RoomDimensions, b: RoomDimensions) -> bool {
    &&& a.anchor.x < b.end_x()
    &&& a.end_x() > b.anchor.x
    &&& a.anchor.y < b.end_y()
    &&& a.end_y() > b.anchor.y
}

/// Does this structure overlap the other one?
pub fn is_overlapping(a: &RoomDimensions, b: &RoomDimensions) -> (r: bool)
    ensures
        r == overlapping(*a, *b),
{
    let a_x1: i128 = a.anchor.x as i128;
    let a_x2: i128 = a.anchor.x as i128 + a.length as i128;
    let a_y1: i128 = a.anchor.y as i128;
    let a_y2: i128 = a.anchor.y as i128 + a.height as i128;
    let b_x1: i128 = b.anchor.x as i128;
    let b_x2: i128 = b.anchor.x as i128 + b.length as i128;
    let b_y1: i128 = b.anchor.y as i128;
    let b_y2: i128 = b.anchor.y as i128 + b.height as i128;
    a_x1 < b_x2 && a_x2 > b_x1 && a_y1 < b_y2 && a_y2 > b_y1
}

/// Four times the squared distance between the two centres.
pub open spec fn center_distance_sq(a: RoomDimensions, b: RoomDimensions) -> int {
    (a.center2_x() - b.center2_x()) * (a.center2_x() - b.center2_x())
        + (a.center2_y() - b.center2_y()) * (a.center2_y() - b.center2_y())
}

/// How far apart two structures are: four times the squared distance between
/// their centres, which orders pairs as the distance itself does.
pub fn squared_distance_between_structures(a: &RoomDimensions, b: &RoomDimensions) -> (r: u64)
    requires
        a.in_world(),
        b.in_world(),
    ensures
        r == center_distance_sq(*a, *b),
{
    let ca: (i64, i64) = a.center_doubled();
    let cb: (i64, i64) = b.center_doubled();
    let dx: i64 = ca.0 - cb.0;
    let dy: i64 = ca.1 - cb.1;
    assert(-0x4000_0000 <= dx <= 0x4000_0000);
    assert(-0x4000_0000 <= dy <= 0x4000_0000);
    assert(0 <= dx * dx <= 0x1000_0000_0000_0000) by (nonlinear_arith)
        requires
            -0x4000_0000 <= dx <= 0x4000_0000,
    ;
    assert(0 <= dy * dy <= 0x1000_0000_0000_0000) by (nonlinear_arith)
        requires
            -0x4000_0000 <= dy <= 0x4000_0000,
    ;
    (dx * dx + dy * dy) as u64
}

/// Overlap is symmetric.
pub proof fn lemma_overlapping_symmetric(a: RoomDimensions, b: RoomDimensions)
    ensures
        overlapping(a, b) == overlapping(b, a),
{
}

/// Rectangles that only touch along a border, on either axis, do not overlap.
pub proof fn lemma_touching_is_not_overlapping(a: RoomDimensions, b: RoomDimensions)
    requires
        a.end_x() == b.anchor.x || b.end_x() == a.anchor.x || a.end_y() == b.anchor.y
            || b.end_y() == a.anchor.y,
    ensures
        !overlapping(a, b),
{
}

/// A position inside the room maps to the grid and back to itself.
pub proof fn lemma_local_global_round_trip(d: RoomDimensions, p: UVec2)
    requires
        p.x < d.length,
        p.y < d.height,
    ensures
        ({
            let g = d.local_to_global_spec(p);
            d.global_to_local_spec(g.0, g.1) == Some(p)
        }),
{
}

/// A tile outside the rectangle has no room-local position.
pub proof fn lemma_outside_has_no_local(d: RoomDimensions, x: int, y: int)
    requires
        !d.covers(x, y),
    ensures
        d.global_to_local_spec(x, y).is_none(),
{
}

} // verus!
