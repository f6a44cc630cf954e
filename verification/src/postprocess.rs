//! The last stages of a run: hiding rooms without connections, walls,
//! decorations, and the carving of paths and doors.

use vstd::prelude::*;
use crate::aesthetics::{cave, is_noise, pillars_placed, Aesthetics};
use crate::connecting::{
    connection_views, connections_in_range, edge_list_in_range, ConnectionKind, ConnectionView,
    RoomConnection, RoomConnectionType,
};
use crate::generation::{
    dims_of, lemma_room_at, main_ids, room_at, rooms_ok, MapArea, WorldgenError, WorldgenSettings,
};
use crate::graph_store::{lists_edges, pair_of, Edge, EdgeMap};
use crate::path_search::{astar_route, cheapest_path, is_step, no_way, steps_through};
use crate::rng::WorldgenRng;
use crate::room::{area_filled, walled, with_tile, IVec2, Room, RoomDimensions, Tile, UVec2};

verus! {

/// `after` holds the rooms of `before`, each in its place and of its size,
/// with, at most, other tiles.
pub open spec fn same_frames(before: Seq<Room>, after: Seq<Room>) -> bool {
    &&& after.len() == before.len()
    &&& forall|i: int| 0 <= i < before.len() ==> (#[trigger] before[i]).same_frame(&after[i])
}

/// Sets the outer ring of every room to wall.
pub fn outer_walls(map: &mut MapArea)
    requires
        old(map).wf(),
    ensures
        final(map).wf(),
        same_frames(old(map).rooms@, final(map).rooms@),
        forall|i: int|
            0 <= i < old(map).rooms@.len() ==> (#[trigger] final(map).rooms@[i]).tiles() == walled(
                old(map).rooms@[i].tiles(),
            ),
        final(map).initial_connections == old(map).initial_connections,
        final(map).triangulation == old(map).triangulation,
        final(map).graph == old(map).graph,
        final(map).connections == old(map).connections,
{
    let n: usize = map.rooms.len();
    let mut i: usize = 0;
    while i < n
        invariant
            n == old(map).rooms@.len(),
            i <= n,
            same_frames(old(map).rooms@, map.rooms@),
            forall|k: int| 0 <= k < n ==> (#[trigger] map.rooms@[k]).wf(),
            forall|k: int|
                0 <= k < i ==> (#[trigger] map.rooms@[k]).tiles() == walled(old(map).rooms@[k].tiles()),
            forall|k: int| i <= k < n ==> #[trigger] map.rooms@[k] == old(map).rooms@[k],
            map.initial_connections == old(map).initial_connections,
            map.triangulation == old(map).triangulation,
            map.graph == old(map).graph,
            map.connections == old(map).connections,
        decreases n - i,
    {
        map.rooms[i].fill_edges();
        i += 1;
    }
    proof {
        lemma_same_frames_keep_wf(*old(map), *map);
    }
}

/// A map whose rooms keep their frames stays well formed.
pub proof fn lemma_same_frames_keep_wf(before: MapArea, after: MapArea)
    requires
        before.wf(),
        same_frames(before.rooms@, after.rooms@),
        forall|k: int| 0 <= k < after.rooms@.len() ==> (#[trigger] after.rooms@[k]).wf(),
        after.initial_connections == before.initial_connections,
        after.triangulation == before.triangulation,
        after.graph == before.graph,
        after.connections == before.connections,
    ensures
        after.wf(),
        dims_of(after.rooms@) == dims_of(before.rooms@),
        main_ids(after.rooms@) == main_ids(before.rooms@),
{
    assert(dims_of(after.rooms@) =~= dims_of(before.rooms@)) by {
        assert forall|i: int| 0 <= i < before.rooms@.len() implies dims_of(after.rooms@)[i]
            == dims_of(before.rooms@)[i] by {
            assert(before.rooms@[i].same_frame(&after.rooms@[i]));
        }
    }
    lemma_same_frames_same_main(before.rooms@, after.rooms@);
    assert forall|i: int| 0 <= i < after.rooms@.len() implies {
        &&& (#[trigger] after.rooms@[i]).wf()
        &&& after.rooms@[i].room_id == i
        &&& after.rooms@[i].dims().in_world()
    } by {
        assert(before.rooms@[i].same_frame(&after.rooms@[i]));
    }
}

/// Rooms that keep their frames keep their being main rooms.
pub proof fn lemma_same_frames_same_main(before: Seq<Room>, after: Seq<Room>)
    requires
        same_frames(before, after),
    ensures
        main_ids(after) == main_ids(before),
    decreases before.len(),
{
    if before.len() > 0 {
        assert(before[before.len() - 1].same_frame(&after[before.len() - 1]));
        assert(same_frames(before.drop_last(), after.drop_last())) by {
            assert forall|i: int| 0 <= i < before.drop_last().len() implies (
            #[trigger] before.drop_last()[i]).same_frame(&after.drop_last()[i]) by {
                assert(before[i].same_frame(&after[i]));
            }
        }
        lemma_same_frames_same_main(before.drop_last(), after.drop_last());
    }
}

/// The tiles of each room, in the order of the rooms.
pub open spec fn tiles_of(rooms: Seq<Room>) -> Seq<Seq<Seq<Tile>>> {
    rooms.map_values(|r: Room| r.tiles())
}

/// Some connection of the list has the room `id` at one end.
pub open spec fn is_connected(connections: Seq<RoomConnection>, id: usize) -> bool {
    exists|i: int|
        0 <= i < connections.len() && ((#[trigger] connections[i]).room1_id == id
            || connections[i].room2_id == id)
}

/// Hides the rooms that no connection leads to, where the settings ask for
/// it. Fails, and leaves the map as it is, where the settings ask for it and
/// the map has no connections.
pub fn strip_unconnected_rooms(map: &mut MapArea, worldgen: &WorldgenSettings) -> (r: Result<
    (),
    WorldgenError,
>)
    requires
        old(map).wf(),
    ensures
        final(map).wf(),
        match r {
            Err(e) => e == WorldgenError::MissingConnections && worldgen.clear_unconnected_rooms
                && old(map).connections is None && *final(map) == *old(map),
            Ok(_) => {
                &&& !worldgen.clear_unconnected_rooms ==> *final(map) == *old(map)
                &&& worldgen.clear_unconnected_rooms ==> {
                    &&& old(map).connections is Some
                    &&& final(map).rooms@.len() == old(map).rooms@.len()
                    &&& forall|i: int|
                        0 <= i < old(map).rooms@.len() ==> #[trigger] final(map).rooms@[i] == (Room {
                            is_visible: old(map).rooms@[i].is_visible && is_connected(
                                old(map).connections.unwrap()@,
                                i as usize,
                            ),
                            ..old(map).rooms@[i]
                        })
                }
                &&& final(map).initial_connections == old(map).initial_connections
                &&& final(map).triangulation == old(map).triangulation
                &&& final(map).graph == old(map).graph
                &&& final(map).connections == old(map).connections
            },
        },
{
    if !worldgen.clear_unconnected_rooms {
        return Ok(());
    }
    let n: usize = map.rooms.len();
    let marks: Vec<bool> = match &map.connections {
        None => {
            return Err(WorldgenError::MissingConnections);
        },
        Some(connections) => {
            let mut marks: Vec<bool> = Vec::new();
            let mut i: usize = 0;
            while i < n
                invariant
                    i <= n,
                    marks@.len() == i,
                    forall|k: int| 0 <= k < i ==> !(#[trigger] marks@[k]),
                decreases n - i,
            {
                marks.push(false);
                i += 1;
            }
            let mut k: usize = 0;
            assert(connections_in_range(connections@, map.rooms@.len()));
            while k < connections.len()
                invariant
                    n == map.rooms@.len(),
                    connections_in_range(connections@, map.rooms@.len()),
                    k <= connections@.len(),
                    marks@.len() == n,
                    forall|id: int|
                        0 <= id < n ==> (#[trigger] marks@[id]) == is_connected(
                            connections@.take(k as int),
                            id as usize,
                        ),
                decreases connections@.len() - k,
            {
                let a: usize = connections[k].room1_id;
                let b: usize = connections[k].room2_id;
                assert(connections@[k as int]@.in_range(n as nat));
                let ghost before = marks@;
                marks.set(a, true);
                marks.set(b, true);
                assert forall|id: int| 0 <= id < n implies (#[trigger] marks@[id]) == is_connected(
                    connections@.take(k + 1),
                    id as usize,
                ) by {
                    let shorter = connections@.take(k as int);
                    let longer = connections@.take(k + 1);
                    if is_connected(shorter, id as usize) {
                        let w = choose|w: int|
                            0 <= w < shorter.len() && ((#[trigger] shorter[w]).room1_id == id
                                || shorter[w].room2_id == id);
                        assert(longer[w] == shorter[w]);
                    }
                    if id == a || id == b {
                        assert(longer[k as int] == connections@[k as int]);
                    }
                    if is_connected(longer, id as usize) {
                        let w = choose|w: int|
                            0 <= w < longer.len() && ((#[trigger] longer[w]).room1_id == id
                                || longer[w].room2_id == id);
                        if w < k {
                            assert(shorter[w] == longer[w]);
                        }
                    }
                }
                k += 1;
            }
            assert(connections@.take(k as int) =~= connections@);
            marks
        },
    };
    let mut i: usize = 0;
    while i < n
        invariant
            n == old(map).rooms@.len(),
            map.rooms@.len() == n,
            marks@.len() == n,
            i <= n,
            old(map).connections is Some,
            forall|id: int|
                0 <= id < n ==> (#[trigger] marks@[id]) == is_connected(
                    old(map).connections.unwrap()@,
                    id as usize,
                ),
            forall|k: int|
                0 <= k < i ==> #[trigger] map.rooms@[k] == (Room {
                    is_visible: old(map).rooms@[k].is_visible && is_connected(
                        old(map).connections.unwrap()@,
                        k as usize,
                    ),
                    ..old(map).rooms@[k]
                }),
            forall|k: int| i <= k < n ==> #[trigger] map.rooms@[k] == old(map).rooms@[k],
            map.initial_connections == old(map).initial_connections,
            map.triangulation == old(map).triangulation,
            map.graph == old(map).graph,
            map.connections == old(map).connections,
        decreases n - i,
    {
        if !marks[i] {
            map.rooms[i].is_visible = false;
        }
        i += 1;
    }
    proof {
        assert forall|k: int| 0 <= k < n implies (#[trigger] old(map).rooms@[k]).dims()
            == map.rooms@[k].dims() && map.rooms@[k].wf() && map.rooms@[k].room_id == k
            && map.rooms@[k].details == old(map).rooms@[k].details by {
            assert(old(map).rooms@[k].wf());
        }
        lemma_same_details_same_main(old(map).rooms@, map.rooms@);
    }
    Ok(())
}

/// Rooms that keep their details keep their being main rooms.
pub proof fn lemma_same_details_same_main(before: Seq<Room>, after: Seq<Room>)
    requires
        before.len() == after.len(),
        forall|i: int| 0 <= i < before.len() ==> (#[trigger] after[i]).details == before[i].details,
    ensures
        main_ids(after) == main_ids(before),
    decreases before.len(),
{
    if before.len() > 0 {
        assert(after[before.len() - 1].details == before[before.len() - 1].details);
        assert forall|i: int| 0 <= i < before.drop_last().len() implies (
        #[trigger] after.drop_last()[i]).details == before.drop_last()[i].details by {
            assert(after[i].details == before[i].details);
        }
        lemma_same_details_same_main(before.drop_last(), after.drop_last());
    }
}

/// The tile beside `current` in the `k`-th of the four directions: right,
/// up, left, down.
pub open spec fn neighbour(current: IVec2, k: int) -> (int, int) {
    if k == 0 {
        (current.x + 1, current.y as int)
    } else if k == 1 {
        (current.x as int, current.y + 1)
    } else if k == 2 {
        (current.x - 1, current.y as int)
    } else {
        (current.x as int, current.y - 1)
    }
}

/// What it costs to step onto the tile `(x, y)` of the room `id`: 100
/// for a wall, 1 otherwise.
pub open spec fn step_cost(rooms: Seq<Room>, id: usize, x: int, y: int) -> u128 {
    if rooms[id as int].tiles()[y - rooms[id as int].anchor().y][x - rooms[id as int].anchor().x]
        == Tile::Wall {
        100
    } else {
        1
    }
}

/// The tiles that a path may go on to from `current`, among the first `k`
/// of the four beside it: those that lie inside a room, each with the cost
/// of the step.
pub open spec fn successors_upto(rooms: Seq<Room>, current: IVec2, k: int) -> Seq<(IVec2, u128)>
    decreases k,
{
    if k <= 0 {
        Seq::empty()
    } else {
        let before = successors_upto(rooms, current, k - 1);
        let (x, y) = neighbour(current, k - 1);
        match room_at(dims_of(rooms), rooms.len() as int, x, y) {
            Some(id) => before.push((IVec2 { x: x as i32, y: y as i32 }, step_cost(rooms, id, x, y))),
            None => before,
        }
    }
}

/// No room of a map covers a tile that cannot be written with 32 bits.
proof fn lemma_outside_tile_is_free(rooms: Seq<Room>, n: int, x: int, y: int)
    requires
        0 <= n <= rooms.len(),
        rooms_ok(rooms),
        !(i32::MIN <= x <= i32::MAX && i32::MIN <= y <= i32::MAX),
    ensures
        room_at(dims_of(rooms), n, x, y) is None,
    decreases n,
{
    if n > 0 {
        lemma_outside_tile_is_free(rooms, n - 1, x, y);
        assert(rooms[n - 1].dims().in_world());
    }
}

/// The tiles that a path may go on to from `current`: the tiles beside it
/// that lie inside a room, each with the cost of the step.
pub fn tile_successors(current: IVec2, map: &MapArea) -> (r: Vec<(IVec2, u128)>)
    requires
        rooms_ok(map.rooms@),
    ensures
        r@ == successors_upto(map.rooms@, current, 4),
        forall|i: int| 0 <= i < r@.len() ==> is_step(dims_of(map.rooms@), current, (#[trigger] r@[i]).0),
{
    let mut successors: Vec<(IVec2, u128)> = Vec::new();
    let n: usize = map.rooms.len();
    let mut k: usize = 0;
    while k < 4
        invariant
            rooms_ok(map.rooms@),
            n == map.rooms@.len(),
            k <= 4,
            successors@ == successors_upto(map.rooms@, current, k as int),
            forall|i: int|
                0 <= i < successors@.len() ==> is_step(
                    dims_of(map.rooms@),
                    current,
                    (#[trigger] successors@[i]).0,
                ),
        decreases 4 - k,
    {
        let x: i64 = current.x as i64 + (if k == 0 { 1i64 } else if k == 2 { -1i64 } else { 0i64 });
        let y: i64 = current.y as i64 + (if k == 1 { 1i64 } else if k == 3 { -1i64 } else { 0i64 });
        assert((x as int, y as int) == neighbour(current, k as int));
        if x >= i32::MIN as i64 && x <= i32::MAX as i64 && y >= i32::MIN as i64 && y <= i32::MAX as i64 {
            let e = IVec2 { x: x as i32, y: y as i32 };
            proof {
                lemma_room_at(dims_of(map.rooms@), n as int, x as int, y as int);
            }
            match map.point_to_room((e.x, e.y)) {
                Some(id) => {
                    let room = &map.rooms[id];
                    assert(dims_of(map.rooms@)[id as int] == room.dims());
                    assert(room.wf());
                    let cost: u128 = match room.global_to_local(e) {
                        Some(local_coordinates) => match room.get_tile(local_coordinates) {
                            Some(tile) => match tile {
                                Tile::Ground => 1,
                                Tile::Wall => 100,
                            },
                            None => 1,
                        },
                        None => 1,
                    };
                    successors.push((e, cost));
                },
                None => {},
            }
        } else {
            proof {
                lemma_outside_tile_is_free(map.rooms@, n as int, x as int, y as int);
            }
        }
        k += 1;
    }
    successors
}

/// The squared distance between two tiles.
pub fn squared_tile_distance(a: IVec2, b: IVec2) -> (r: u128)
    ensures
        r == (a.x - b.x) * (a.x - b.x) + (a.y - b.y) * (a.y - b.y),
{
    let dx: i64 = a.x as i64 - b.x as i64;
    let dy: i64 = a.y as i64 - b.y as i64;
    assert(0 <= dx * dx <= 0x1_0000_0000 * 0x1_0000_0000) by (nonlinear_arith)
        requires
            -0x1_0000_0000 <= dx <= 0x1_0000_0000,
    ;
    assert(0 <= dy * dy <= 0x1_0000_0000 * 0x1_0000_0000) by (nonlinear_arith)
        requires
            -0x1_0000_0000 <= dy <= 0x1_0000_0000,
    ;
    let sx: i128 = (dx as i128) * (dx as i128);
    let sy: i128 = (dy as i128) * (dy as i128);
    (sx + sy) as u128
}

/// Whether two tiles are the same.
pub fn same_tile(a: IVec2, b: IVec2) -> (r: bool)
    ensures
        r == (a == b),
{
    a.x == b.x && a.y == b.y
}

/// The tiles of a room with a square of ground around the room-local
/// position `local`: it reaches `half` tiles to every side.
pub open spec fn square_opened(tiles: Seq<Seq<Tile>>, local: UVec2, half: u32) -> Seq<Seq<Tile>> {
    area_filled(
        tiles,
        if local.x >= half {
            local.x - half
        } else {
            0
        },
        local.x + half + 1,
        if local.y >= half {
            local.y - half
        } else {
            0
        },
        local.y + half + 1,
        Tile::Ground,
    )
}

/// The tiles of the rooms with a square of ground around the tile `p`, in
/// the room that the tile lies in.
pub open spec fn tile_carved(
    state: Seq<Seq<Seq<Tile>>>,
    rooms: Seq<RoomDimensions>,
    p: IVec2,
    half: u32,
) -> Seq<Seq<Seq<Tile>>> {
    match room_at(rooms, rooms.len() as int, p.x as int, p.y as int) {
        Some(id) => match rooms[id as int].global_to_local_spec(p.x as int, p.y as int) {
            Some(local) => state.update(id as int, square_opened(state[id as int], local, half)),
            None => state,
        },
        None => state,
    }
}

/// The tiles of the rooms with a square of ground around each of the first
/// `k` tiles of a path.
pub open spec fn path_carved(
    state: Seq<Seq<Seq<Tile>>>,
    rooms: Seq<RoomDimensions>,
    path: Seq<IVec2>,
    half: u32,
    k: int,
) -> Seq<Seq<Seq<Tile>>>
    decreases k,
{
    if k <= 0 {
        state
    } else {
        tile_carved(path_carved(state, rooms, path, half, k - 1), rooms, path[k - 1], half)
    }
}

/// Every tile that is ground in `before` is ground in `after`.
pub open spec fn stays_open(before: Seq<Seq<Tile>>, after: Seq<Seq<Tile>>) -> bool {
    forall|r: int, c: int|
        0 <= r < before.len() && 0 <= c < before[r].len() && before[r][c] == Tile::Ground
            ==> #[trigger] after[r][c] == Tile::Ground
}

/// In every room, every tile that was ground still is.
pub open spec fn ground_kept(before: Seq<Room>, after: Seq<Room>) -> bool {
    forall|i: int|
        0 <= i < before.len() ==> stays_open((#[trigger] before[i]).tiles(), after[i].tiles())
}

/// Opens a square of ground around a position of the room.
pub fn open_square(room: &mut Room, local: UVec2, half: u32)
    requires
        old(room).wf(),
    ensures
        final(room).wf(),
        old(room).same_frame(final(room)),
        final(room).tiles() == square_opened(old(room).tiles(), local, half),
        stays_open(old(room).tiles(), final(room).tiles()),
{
    let x_lo: u32 = if local.x >= half { local.x - half } else { 0 };
    let y_lo: u32 = if local.y >= half { local.y - half } else { 0 };
    let x_end: u64 = local.x as u64 + half as u64 + 1;
    let y_end: u64 = local.y as u64 + half as u64 + 1;
    let x_stop: usize = if x_end <= usize::MAX as u64 { x_end as usize } else { usize::MAX };
    let y_stop: usize = if y_end <= usize::MAX as u64 { y_end as usize } else { usize::MAX };
    let ghost before = room.tiles();
    room.fill_area(x_lo as usize, x_stop, y_lo as usize, y_stop, Tile::Ground);
    assert(room.tiles() =~= square_opened(before, local, half)) by {
        assert forall|r: int| 0 <= r < before.len() implies #[trigger] room.tiles()[r]
            =~= square_opened(before, local, half)[r] by {
            assert(before[r].len() <= isize::MAX);
        }
    }
}

/// Carves a path into the rooms of the map: a square of ground, reaching
/// half the passage width to every side, around every tile of the path that
/// lies in a room.
pub fn carve_along_path(map: &mut MapArea, path: &Vec<IVec2>, passage_width: u32)
    requires
        old(map).wf(),
    ensures
        final(map).wf(),
        same_frames(old(map).rooms@, final(map).rooms@),
        tiles_of(final(map).rooms@) == path_carved(
            tiles_of(old(map).rooms@),
            dims_of(old(map).rooms@),
            path@,
            (passage_width / 2) as u32,
            path@.len() as int,
        ),
        ground_kept(old(map).rooms@, final(map).rooms@),
        final(map).initial_connections == old(map).initial_connections,
        final(map).triangulation == old(map).triangulation,
        final(map).graph == old(map).graph,
        final(map).connections == old(map).connections,
{
    let half: u32 = passage_width / 2;
    let ghost rooms = dims_of(map.rooms@);
    let ghost start = tiles_of(map.rooms@);
    let n: usize = map.rooms.len();
    let mut k: usize = 0;
    while k < path.len()
        invariant
            n == old(map).rooms@.len(),
            k <= path@.len(),
            half == passage_width / 2,
            rooms == dims_of(old(map).rooms@),
            start == tiles_of(old(map).rooms@),
            old(map).wf(),
            rooms_ok(map.rooms@),
            same_frames(old(map).rooms@, map.rooms@),
            dims_of(map.rooms@) == rooms,
            tiles_of(map.rooms@) == path_carved(start, rooms, path@, half, k as int),
            ground_kept(old(map).rooms@, map.rooms@),
            map.initial_connections == old(map).initial_connections,
            map.triangulation == old(map).triangulation,
            map.graph == old(map).graph,
            map.connections == old(map).connections,
        decreases path@.len() - k,
    {
        let tile_position: IVec2 = path[k];
        let ghost rooms_before = map.rooms@;
        proof {
            lemma_room_at(rooms, n as int, tile_position.x as int, tile_position.y as int);
        }
        match map.point_to_room((tile_position.x, tile_position.y)) {
            Some(id) => {
                assert(rooms[id as int] == map.rooms@[id as int].dims());
                match map.rooms[id].global_to_local(tile_position) {
                    Some(local_coordinates) => {
                        open_square(&mut map.rooms[id], local_coordinates, half);
                        proof {
                            assert(tiles_of(map.rooms@) =~= tiles_of(rooms_before).update(
                                id as int,
                                square_opened(rooms_before[id as int].tiles(), local_coordinates, half),
                            ));
                            assert(dims_of(map.rooms@) =~= rooms) by {
                                assert forall|i: int| 0 <= i < n implies dims_of(map.rooms@)[i]
                                    == rooms[i] by {
                                    assert(rooms_before[i].dims() == dims_of(rooms_before)[i]);
                                }
                            }
                            assert forall|i: int| 0 <= i < n implies (#[trigger] old(
                                map,
                            ).rooms@[i]).same_frame(&map.rooms@[i]) by {
                                assert(old(map).rooms@[i].same_frame(&rooms_before[i]));
                            }
                            assert forall|i: int| 0 <= i < n implies stays_open(
                                (#[trigger] old(map).rooms@[i]).tiles(),
                                map.rooms@[i].tiles(),
                            ) by {
                                assert(stays_open(old(map).rooms@[i].tiles(), rooms_before[i].tiles()));
                                assert(old(map).rooms@[i].same_frame(&rooms_before[i]));
                                assert(old(map).rooms@[i].wf());
                                assert(rooms_before[i].wf());
                                lemma_stays_open_twice(
                                    old(map).rooms@[i].tiles(),
                                    rooms_before[i].tiles(),
                                    map.rooms@[i].tiles(),
                                    rooms_before[i].width() as int,
                                );
                            }
                        }
                    },
                    None => {},
                }
            },
            None => {},
        }
        k += 1;
    }
    proof {
        assert forall|i: int| 0 <= i < map.rooms@.len() implies (#[trigger] map.rooms@[i]).wf() by {}
        lemma_same_frames_keep_wf(*old(map), *map);
    }
}

/// Ground that stays ground twice stays ground.
proof fn lemma_stays_open_twice(a: Seq<Seq<Tile>>, b: Seq<Seq<Tile>>, c: Seq<Seq<Tile>>, cols: int)
    requires
        stays_open(a, b),
        stays_open(b, c),
        a.len() == b.len(),
        forall|r: int| 0 <= r < a.len() ==> (#[trigger] a[r]).len() == cols,
        forall|r: int| 0 <= r < b.len() ==> (#[trigger] b[r]).len() == cols,
    ensures
        stays_open(a, c),
{
    assert forall|r: int, col: int|
        0 <= r < a.len() && 0 <= col < a[r].len() && a[r][col] == Tile::Ground implies #[trigger] c[r][col]
        == Tile::Ground by {
        assert(b[r][col] == Tile::Ground);
        assert(b[r].len() == cols);
    }
}

/// Ground that is kept twice is kept.
pub proof fn lemma_ground_kept_twice(a: Seq<Room>, b: Seq<Room>, c: Seq<Room>)
    requires
        same_frames(a, b),
        forall|i: int| 0 <= i < a.len() ==> (#[trigger] a[i]).wf(),
        forall|i: int| 0 <= i < b.len() ==> (#[trigger] b[i]).wf(),
        ground_kept(a, b),
        ground_kept(b, c),
    ensures
        ground_kept(a, c),
{
    assert forall|i: int| 0 <= i < a.len() implies stays_open((#[trigger] a[i]).tiles(), c[i].tiles()) by {
        assert(a[i].same_frame(&b[i]));
        assert(a[i].wf());
        assert(b[i].wf());
        assert(stays_open(a[i].tiles(), b[i].tiles()));
        assert(stays_open(b[i].tiles(), c[i].tiles()));
        lemma_stays_open_twice(a[i].tiles(), b[i].tiles(), c[i].tiles(), b[i].width() as int);
    }
}

/// Frames that are kept twice are kept.
pub proof fn lemma_same_frames_twice(a: Seq<Room>, b: Seq<Room>, c: Seq<Room>)
    requires
        same_frames(a, b),
        same_frames(b, c),
    ensures
        same_frames(a, c),
{
    assert forall|i: int| 0 <= i < a.len() implies (#[trigger] a[i]).same_frame(&c[i]) by {
        assert(a[i].same_frame(&b[i]));
        assert(b[i].same_frame(&c[i]));
    }
}

/// The centre tile of a rectangle, each coordinate rounded toward zero.
pub open spec fn center_of(d: RoomDimensions) -> IVec2 {
    IVec2 { x: d.center_tile_spec().0 as i32, y: d.center_tile_spec().1 as i32 }
}

/// `after` is `mid` with the path carved, and the path is the one that the
/// search finds from the centre of the one room of the edge to the centre of
/// the other: it leads there over tiles inside rooms.
pub open spec fn carves(
    rooms: Seq<RoomDimensions>,
    mid: Seq<Seq<Seq<Tile>>>,
    after: Seq<Seq<Seq<Tile>>>,
    edge: Edge,
    path: Seq<IVec2>,
    half: u32,
) -> bool {
    &&& astar_route(rooms, mid, center_of(rooms[edge.0 as int]), center_of(rooms[edge.1 as int]))
        == Some(path)
    &&& steps_through(rooms, path, center_of(rooms[edge.0 as int]), center_of(rooms[edge.1 as int]))
    &&& after == path_carved(mid, rooms, path, half, path.len() as int)
}

/// `after` holds the tiles `before` with a path carved for each of the
/// first `k` edges, one after the other.
pub open spec fn paths_carved(
    rooms: Seq<RoomDimensions>,
    before: Seq<Seq<Seq<Tile>>>,
    after: Seq<Seq<Seq<Tile>>>,
    edges: Seq<Edge>,
    half: u32,
    k: int,
) -> bool
    decreases k,
{
    if k <= 0 {
        after == before
    } else {
        exists|mid: Seq<Seq<Seq<Tile>>>, path: Seq<IVec2>|
            paths_carved(rooms, before, mid, edges, half, k - 1) && #[trigger] carves(
                rooms,
                mid,
                after,
                edges[k - 1],
                path,
                half,
            )
    }
}

/// What `carve_path` leaves, the edges of the graph taken in the order
/// `edges`: a path is carved for each of the first `done` edges, and the
/// carving ends there because the edges are used up or no path leads from the
/// one room of the next edge to the other.
pub open spec fn carved_until(
    graph: EdgeMap,
    rooms: Seq<RoomDimensions>,
    before: Seq<Seq<Seq<Tile>>>,
    after: Seq<Seq<Seq<Tile>>>,
    half: u32,
    edges: Seq<Edge>,
    done: int,
) -> bool {
    &&& lists_edges(edges, graph)
    &&& 0 <= done <= edges.len()
    &&& paths_carved(rooms, before, after, edges, half, done)
    &&& done < edges.len() ==> {
        &&& astar_route(
            rooms,
            after,
            center_of(rooms[edges[done].0 as int]),
            center_of(rooms[edges[done].1 as int]),
        ) is None
        &&& no_way(
            rooms,
            center_of(rooms[edges[done].0 as int]),
            center_of(rooms[edges[done].1 as int]),
        )
    }
}

/// Makes sure that every room can be entered: for every edge of the graph
/// a path is searched between the centres of its two rooms, through tiles
/// inside rooms, and carved as ground, as wide as the least passage width.
/// Where no path is found for an edge, the edges after it are left aside.
/// Fails, and leaves the map as it is, where the map has no graph.
pub fn carve_path(map: &mut MapArea, worldgen: &WorldgenSettings) -> (r: Result<(), WorldgenError>)
    requires
        old(map).wf(),
    ensures
        final(map).wf(),
        match r {
            Err(e) => e == WorldgenError::MissingGraph && old(map).graph is None && *final(map)
                == *old(map),
            Ok(_) => {
                &&& old(map).graph is Some
                &&& same_frames(old(map).rooms@, final(map).rooms@)
                &&& ground_kept(old(map).rooms@, final(map).rooms@)
                &&& exists|edges: Seq<Edge>, done: int| #[trigger]
                    carved_until(
                        old(map).graph.unwrap().reassembled_graph@,
                        dims_of(old(map).rooms@),
                        tiles_of(old(map).rooms@),
                        tiles_of(final(map).rooms@),
                        (worldgen.min_passage_width / 2) as u32,
                        edges,
                        done,
                    )
                &&& final(map).initial_connections == old(map).initial_connections
                &&& final(map).triangulation == old(map).triangulation
                &&& final(map).graph == old(map).graph
                &&& final(map).connections == old(map).connections
            },
        },
{
    let edges: Vec<Edge> = match &map.graph {
        Some(graph) => graph.reassembled_graph.all_edges(),
        None => {
            return Err(WorldgenError::MissingGraph);
        },
    };
    let n: usize = map.rooms.len();
    assert(edge_list_in_range(edges@, n as nat)) by {
        assert forall|i: int| 0 <= i < edges@.len() implies (#[trigger] edges@[i]).0 < n && edges@[i].1
            < n by {
            assert(map.graph.unwrap().reassembled_graph@.contains_key(
                pair_of(edges@[i]),
            ));
        }
    }
    assert(same_frames(old(map).rooms@, map.rooms@)) by {
        assert forall|i: int| 0 <= i < n implies (#[trigger] old(map).rooms@[i]).same_frame(
            &map.rooms@[i],
        ) by {}
    }
    assert(ground_kept(old(map).rooms@, map.rooms@)) by {
        assert forall|i: int| 0 <= i < n implies stays_open(
            (#[trigger] old(map).rooms@[i]).tiles(),
            map.rooms@[i].tiles(),
        ) by {}
    }
    let ghost rooms = dims_of(map.rooms@);
    let ghost start = tiles_of(map.rooms@);
    let ghost half = (worldgen.min_passage_width / 2) as u32;
    let ghost graph = map.graph.unwrap().reassembled_graph@;
    let mut k: usize = 0;
    while k < edges.len()
        invariant
            k <= edges@.len(),
            n == old(map).rooms@.len(),
            rooms == dims_of(old(map).rooms@),
            start == tiles_of(old(map).rooms@),
            half == (worldgen.min_passage_width / 2) as u32,
            graph == old(map).graph.unwrap().reassembled_graph@,
            lists_edges(edges@, graph),
            dims_of(map.rooms@) == rooms,
            paths_carved(rooms, start, tiles_of(map.rooms@), edges@, half, k as int),
            old(map).wf(),
            old(map).graph is Some,
            map.wf(),
            edge_list_in_range(edges@, n as nat),
            same_frames(old(map).rooms@, map.rooms@),
            ground_kept(old(map).rooms@, map.rooms@),
            map.initial_connections == old(map).initial_connections,
            map.triangulation == old(map).triangulation,
            map.graph == old(map).graph,
            map.connections == old(map).connections,
        decreases edges@.len() - k,
    {
        let room1 = &map.rooms[edges[k].0];
        let room2 = &map.rooms[edges[k].1];
        let from = room1.center_tile();
        let goal = room2.center_tile();
        assert(rooms[edges@[k as int].0 as int] == room1.dims());
        assert(rooms[edges@[k as int].1 as int] == room2.dims());
        assert(from == center_of(rooms[edges@[k as int].0 as int]));
        assert(goal == center_of(rooms[edges@[k as int].1 as int]));
        match cheapest_path(map, from, goal) {
            None => {
                assert(carved_until(
                    graph,
                    rooms,
                    start,
                    tiles_of(map.rooms@),
                    half,
                    edges@,
                    k as int,
                ));
                return Ok(());
            },
            Some(path) => {
                let ghost rooms_before = map.rooms@;
                let ghost mid = tiles_of(map.rooms@);
                carve_along_path(map, &path, worldgen.min_passage_width);
                proof {
                    lemma_same_frames_twice(old(map).rooms@, rooms_before, map.rooms@);
                    lemma_ground_kept_twice(old(map).rooms@, rooms_before, map.rooms@);
                    lemma_same_frames_keep_wf(*old(map), *map);
                    assert(carves(rooms, mid, tiles_of(map.rooms@), edges@[k as int], path@, half));
                    assert(paths_carved(rooms, start, mid, edges@, half, (k + 1) - 1));
                }
            },
        }
        k += 1;
    }
    assert(carved_until(graph, rooms, start, tiles_of(map.rooms@), half, edges@, k as int));
    Ok(())
}

/// The tiles of a border that become a door: the first and the last tile
/// are left out, to stay clear of corners, and of the rest at most
/// `max_width` tiles are taken, from the start.
pub open spec fn door_tiles(tiles: Seq<UVec2>, max_width: u32) -> Seq<UVec2> {
    let inner = if tiles.len() >= 2 {
        tiles.subrange(1, tiles.len() - 1)
    } else {
        Seq::empty()
    };
    if inner.len() > max_width {
        inner.take(max_width as int)
    } else {
        inner
    }
}

/// The tiles with the one at `p` set to ground, if there is one.
pub open spec fn tile_opened(tiles: Seq<Seq<Tile>>, p: UVec2) -> Seq<Seq<Tile>> {
    if p.y < tiles.len() && p.x < tiles[p.y as int].len() {
        with_tile(tiles, p.y as int, p.x as int, Tile::Ground)
    } else {
        tiles
    }
}

/// The tiles with those at the first `k` positions set to ground.
pub open spec fn tiles_opened(tiles: Seq<Seq<Tile>>, positions: Seq<UVec2>, k: int) -> Seq<Seq<Tile>>
    decreases k,
{
    if k <= 0 {
        tiles
    } else {
        tile_opened(tiles_opened(tiles, positions, k - 1), positions[k - 1])
    }
}

/// The tiles of the rooms with the doors of one connection carved: for a
/// connection of neighbours, the door tiles of each of the two rooms
/// become ground.
pub open spec fn door_carved(state: Seq<Seq<Seq<Tile>>>, c: ConnectionView, max_width: u32) -> Seq<
    Seq<Seq<Tile>>,
> {
    match c.data {
        ConnectionKind::Adjacent(t) => {
            let first = state.update(
                c.room1_id as int,
                tiles_opened(
                    state[c.room1_id as int],
                    door_tiles(t.room1.1, max_width),
                    door_tiles(t.room1.1, max_width).len() as int,
                ),
            );
            first.update(
                c.room2_id as int,
                tiles_opened(
                    first[c.room2_id as int],
                    door_tiles(t.room2.1, max_width),
                    door_tiles(t.room2.1, max_width).len() as int,
                ),
            )
        },
        _ => state,
    }
}

/// The tiles of the rooms with the doors of the first `k` connections carved.
pub open spec fn doors_carved(
    state: Seq<Seq<Seq<Tile>>>,
    connections: Seq<ConnectionView>,
    max_width: u32,
    k: int,
) -> Seq<Seq<Seq<Tile>>>
    decreases k,
{
    if k <= 0 {
        state
    } else {
        door_carved(doors_carved(state, connections, max_width, k - 1), connections[k - 1], max_width)
    }
}

/// Drops the first and the last tile of a border; nothing is left of a
/// border of fewer than two tiles.
fn remove_outer_tiles(tiles: &mut Vec<UVec2>)
    ensures
        final(tiles)@ == (if old(tiles)@.len() >= 2 {
            old(tiles)@.subrange(1, old(tiles)@.len() - 1)
        } else {
            Seq::empty()
        }),
{
    if tiles.len() >= 2 {
        tiles.remove(0);
        tiles.pop();
        assert(tiles@ =~= old(tiles)@.subrange(1, old(tiles)@.len() - 1));
    } else {
        tiles.clear();
    }
}

/// Cuts a list of tiles down to the largest passage width, from the end.
fn cut(tiles: &mut Vec<UVec2>, worldgen: &WorldgenSettings)
    ensures
        final(tiles)@ == (if old(tiles)@.len() > worldgen.max_passage_width {
            old(tiles)@.take(worldgen.max_passage_width as int)
        } else {
            old(tiles)@
        }),
{
    while tiles.len() as u128 > worldgen.max_passage_width as u128
        invariant
            tiles@.len() <= old(tiles)@.len(),
            tiles@ == old(tiles)@.take(tiles@.len() as int),
            old(tiles)@.len() <= worldgen.max_passage_width ==> tiles@.len() == old(tiles)@.len(),
            old(tiles)@.len() > worldgen.max_passage_width ==> tiles@.len()
                >= worldgen.max_passage_width,
        decreases tiles@.len(),
    {
        let ghost before = tiles@;
        tiles.pop();
        assert(tiles@ =~= old(tiles)@.take(tiles@.len() as int));
    }
    assert(old(tiles)@.take(old(tiles)@.len() as int) =~= old(tiles)@);
}

/// Sets the tiles of the room at the given positions to ground.
fn carve(room: &mut Room, tiles: &Vec<UVec2>)
    requires
        old(room).wf(),
    ensures
        final(room).wf(),
        old(room).same_frame(final(room)),
        final(room).tiles() == tiles_opened(old(room).tiles(), tiles@, tiles@.len() as int),
{
    let mut k: usize = 0;
    while k < tiles.len()
        invariant
            k <= tiles@.len(),
            room.wf(),
            old(room).same_frame(room),
            room.tiles() == tiles_opened(old(room).tiles(), tiles@, k as int),
        decreases tiles@.len() - k,
    {
        let ghost before = room.tiles();
        let position: UVec2 = tiles[k];
        assert(position.y < before.len() ==> before[position.y as int].len() == room.width());
        room.set_tile(position, Tile::Ground);
        k += 1;
    }
}

/// Carves the door of one room of a connection.
fn carve_door(room: &mut Room, border: &Vec<UVec2>, worldgen: &WorldgenSettings)
    requires
        old(room).wf(),
    ensures
        final(room).wf(),
        old(room).same_frame(final(room)),
        final(room).tiles() == tiles_opened(
            old(room).tiles(),
            door_tiles(border@, worldgen.max_passage_width),
            door_tiles(border@, worldgen.max_passage_width).len() as int,
        ),
{
    let mut tiles: Vec<UVec2> = border.clone();
    remove_outer_tiles(&mut tiles);
    cut(&mut tiles, worldgen);
    carve(room, &tiles);
}

/// Carves the doors: for every connection of neighbours, some of the tiles
/// along the border become ground in both rooms. Fails, and leaves the map
/// as it is, where the map has no connections.
pub fn carve_doors(map: &mut MapArea, worldgen: &WorldgenSettings) -> (r: Result<(), WorldgenError>)
    requires
        old(map).wf(),
    ensures
        final(map).wf(),
        match r {
            Err(e) => e == WorldgenError::MissingConnections && old(map).connections is None
                && *final(map) == *old(map),
            Ok(_) => {
                &&& old(map).connections is Some
                &&& same_frames(old(map).rooms@, final(map).rooms@)
                &&& tiles_of(final(map).rooms@) == doors_carved(
                    tiles_of(old(map).rooms@),
                    connection_views(old(map).connections.unwrap()@),
                    worldgen.max_passage_width,
                    old(map).connections.unwrap()@.len() as int,
                )
                &&& final(map).initial_connections == old(map).initial_connections
                &&& final(map).triangulation == old(map).triangulation
                &&& final(map).graph == old(map).graph
                &&& final(map).connections == old(map).connections
            },
        },
{
    let n: usize = map.rooms.len();
    let ghost start = tiles_of(map.rooms@);
    match &map.connections {
        None => {
            return Err(WorldgenError::MissingConnections);
        },
        Some(connections) => {
            let ghost views = connection_views(connections@);
            assert(connections_in_range(connections@, n as nat));
            assert(same_frames(old(map).rooms@, map.rooms@)) by {
                assert forall|i: int| 0 <= i < n implies (#[trigger] old(map).rooms@[i]).same_frame(
                    &map.rooms@[i],
                ) by {}
            }
            let mut k: usize = 0;
            while k < connections.len()
                invariant
                    n == old(map).rooms@.len(),
                    k <= connections@.len(),
                    old(map).wf(),
                    old(map).connections == Some(*connections),
                    views == connection_views(connections@),
                    start == tiles_of(old(map).rooms@),
                    connections_in_range(connections@, n as nat),
                    same_frames(old(map).rooms@, map.rooms@),
                    forall|i: int| 0 <= i < n ==> (#[trigger] map.rooms@[i]).wf(),
                    tiles_of(map.rooms@) == doors_carved(
                        start,
                        views,
                        worldgen.max_passage_width,
                        k as int,
                    ),
                    map.initial_connections == old(map).initial_connections,
                    map.triangulation == old(map).triangulation,
                    map.graph == old(map).graph,
                    map.connections == old(map).connections,
                decreases connections@.len() - k,
            {
                let c = &connections[k];
                assert(views[k as int] == c@);
                assert(c@.in_range(n as nat));
                match &c.data {
                    RoomConnectionType::Adjacent(adjacent_tiles) => {
                        let ghost rooms_before = map.rooms@;
                        carve_door(&mut map.rooms[c.room1_id], &adjacent_tiles.room1.1, worldgen);
                        let ghost rooms_between = map.rooms@;
                        carve_door(&mut map.rooms[c.room2_id], &adjacent_tiles.room2.1, worldgen);
                        proof {
                            let first = tiles_of(rooms_before).update(
                                c.room1_id as int,
                                rooms_between[c.room1_id as int].tiles(),
                            );
                            assert(tiles_of(rooms_between) =~= first);
                            assert(tiles_of(map.rooms@) =~= first.update(
                                c.room2_id as int,
                                map.rooms@[c.room2_id as int].tiles(),
                            ));
                            assert forall|i: int| 0 <= i < n implies (#[trigger] old(
                                map,
                            ).rooms@[i]).same_frame(&map.rooms@[i]) by {
                                assert(old(map).rooms@[i].same_frame(&rooms_before[i]));
                            }
                        }
                    },
                    _ => {},
                }
                k += 1;
            }
        },
    }
    proof {
        lemma_same_frames_keep_wf(*old(map), *map);
    }
    Ok(())
}

/// What a decoration makes of the tiles of a room of the given size,
/// whatever is drawn: pillars at anchors laid out as asked for, or a cave
/// grown from some noise upon the walls that are there. A decoration that
/// cannot be made leaves the tiles as they are.
pub open spec fn decorates(
    m: Aesthetics,
    before: Seq<Seq<Tile>>,
    after: Seq<Seq<Tile>>,
    length: usize,
    height: usize,
) -> bool {
    if !m.valid() {
        after == before
    } else {
        match m {
            Aesthetics::Pillars(x) => exists|anchors: Seq<(usize, usize)>| #[trigger]
                x.lays_out(anchors, length, height) && after == pillars_placed(
                    before,
                    anchors,
                    x.pillar_size,
                    anchors.len() as int,
                ),
            Aesthetics::CellularAutomata(x) => exists|noise: Seq<Seq<Tile>>| #[trigger]
                is_noise(noise, height as int, length as int, x.wall_percentage) && after == cave(
                    noise,
                    before,
                    x.iterations,
                    false,
                ),
        }
    }
}

/// `after` is what the first `k` decorations, one after the other, make of
/// the tiles `before`.
pub open spec fn decorated(
    modifiers: Seq<Aesthetics>,
    before: Seq<Seq<Tile>>,
    after: Seq<Seq<Tile>>,
    length: usize,
    height: usize,
    k: int,
) -> bool
    decreases k,
{
    if k <= 0 {
        after == before
    } else {
        exists|mid: Seq<Seq<Tile>>|
            decorated(modifiers, before, mid, length, height, k - 1) && #[trigger] decorates(
                modifiers[k - 1],
                mid,
                after,
                length,
                height,
            )
    }
}

/// One more decoration upon decorated tiles gives decorated tiles.
proof fn lemma_decorated_step(
    modifiers: Seq<Aesthetics>,
    before: Seq<Seq<Tile>>,
    mid: Seq<Seq<Tile>>,
    after: Seq<Seq<Tile>>,
    length: usize,
    height: usize,
    k: int,
)
    requires
        k >= 0,
        decorated(modifiers, before, mid, length, height, k),
        decorates(modifiers[k], mid, after, length, height),
    ensures
        decorated(modifiers, before, after, length, height, k + 1),
{
    let n = k + 1;
    assert(decorated(modifiers, before, mid, length, height, n - 1) && decorates(
        modifiers[n - 1],
        mid,
        after,
        length,
        height,
    ));
}

/// Decorates one room with each of its decorations, in their order.
pub fn decorate_room(room: &mut Room, rng: &mut WorldgenRng)
    requires
        old(room).wf(),
    ensures
        final(room).wf(),
        old(room).same_frame(final(room)),
        decorated(
            old(room).details.aesthetic_modifiers@,
            old(room).tiles(),
            final(room).tiles(),
            old(room).dims().length,
            old(room).dims().height,
            old(room).details.aesthetic_modifiers@.len() as int,
        ),
{
    let count: usize = room.details.aesthetic_modifiers.len();
    let ghost modifiers = room.details.aesthetic_modifiers@;
    let ghost length = room.dims().length;
    let ghost height = room.dims().height;
    let mut k: usize = 0;
    while k < count
        invariant
            k <= count,
            count == modifiers.len(),
            modifiers == old(room).details.aesthetic_modifiers@,
            length == old(room).dims().length,
            height == old(room).dims().height,
            room.wf(),
            old(room).same_frame(room),
            decorated(modifiers, old(room).tiles(), room.tiles(), length, height, k as int),
        decreases count - k,
    {
        let modifier: Aesthetics = room.details.aesthetic_modifiers[k];
        let ghost mid = room.tiles();
        if modifier.is_valid() {
            modifier.generate_features(room, false, rng);
        }
        assert(decorates(modifiers[k as int], mid, room.tiles(), length, height));
        proof {
            lemma_decorated_step(
                modifiers,
                old(room).tiles(),
                mid,
                room.tiles(),
                length,
                height,
                k as int,
            );
        }
        k += 1;
    }
}

/// Decorates every room with its decorations.
pub fn aesthetizise(map: &mut MapArea, rng: &mut WorldgenRng)
    requires
        old(map).wf(),
    ensures
        final(map).wf(),
        same_frames(old(map).rooms@, final(map).rooms@),
        forall|i: int|
            0 <= i < old(map).rooms@.len() ==> decorated(
                old(map).rooms@[i].details.aesthetic_modifiers@,
                old(map).rooms@[i].tiles(),
                (#[trigger] final(map).rooms@[i]).tiles(),
                old(map).rooms@[i].dims().length,
                old(map).rooms@[i].dims().height,
                old(map).rooms@[i].details.aesthetic_modifiers@.len() as int,
            ),
        final(map).initial_connections == old(map).initial_connections,
        final(map).triangulation == old(map).triangulation,
        final(map).graph == old(map).graph,
        final(map).connections == old(map).connections,
{
    let n: usize = map.rooms.len();
    let mut i: usize = 0;
    assert(same_frames(old(map).rooms@, map.rooms@)) by {
        assert forall|k: int| 0 <= k < n implies (#[trigger] old(map).rooms@[k]).same_frame(
            &map.rooms@[k],
        ) by {}
    }
    while i < n
        invariant
            n == old(map).rooms@.len(),
            i <= n,
            old(map).wf(),
            same_frames(old(map).rooms@, map.rooms@),
            forall|k: int| 0 <= k < n ==> (#[trigger] map.rooms@[k]).wf(),
            forall|k: int|
                0 <= k < i ==> decorated(
                    old(map).rooms@[k].details.aesthetic_modifiers@,
                    old(map).rooms@[k].tiles(),
                    (#[trigger] map.rooms@[k]).tiles(),
                    old(map).rooms@[k].dims().length,
                    old(map).rooms@[k].dims().height,
                    old(map).rooms@[k].details.aesthetic_modifiers@.len() as int,
                ),
            forall|k: int| i <= k < n ==> #[trigger] map.rooms@[k] == old(map).rooms@[k],
            map.initial_connections == old(map).initial_connections,
            map.triangulation == old(map).triangulation,
            map.graph == old(map).graph,
            map.connections == old(map).connections,
        decreases n - i,
    {
        decorate_room(&mut map.rooms[i], rng);
        i += 1;
    }
    proof {
        lemma_same_frames_keep_wf(*old(map), *map);
    }
}

} // verus!
