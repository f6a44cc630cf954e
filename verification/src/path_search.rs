//! Searches for paths, run by the `pathfinding` crate.

use vstd::prelude::*;
use crate::generation::{dims_of, room_at, rooms_ok, MapArea};
use crate::graph_store::{walks, EdgeMap};
use crate::graphing::{same_room, successors_by_weight, MyGraph};
use crate::postprocess::{same_tile, squared_tile_distance, tile_successors, tiles_of};
use crate::room::{IVec2, RoomDimensions, Tile};

verus! {

/// No path leads from `start` to `end` along edges.
pub open spec fn cut_off(edges: EdgeMap, start: usize, end: usize) -> bool {
    forall|path: Seq<usize>| !walks(edges, path, start, end)
}

/// `pathfinding::directed::dfs::dfs` over the rooms of a graph: a path from
/// `start` to `end` that holds no room twice, each room but the first being
/// one of those that `successors_by_weight` names for the room before it,
/// which are its neighbours in the graph; or `None` where there is no path.
#[verifier::external_body]
pub(crate) fn depth_first_path(graph: &MyGraph, start: usize, end: usize) -> (r: Option<Vec<usize>>)
    ensures
        r is Some ==> walks(graph@, r.unwrap()@, start, end),
        r is None ==> cut_off(graph@, start, end),
{
    pathfinding::directed::dfs::dfs(
        start,
        |current| successors_by_weight(graph, *current),
        |current| same_room(*current, end),
    )
}

/// The tile `b` lies beside the tile `a`, in one of the four directions,
/// and inside some room.
pub open spec fn is_step(rooms: Seq<RoomDimensions>, a: IVec2, b: IVec2) -> bool {
    &&& (a.x - b.x == 1 || b.x - a.x == 1) && a.y == b.y || (a.y - b.y == 1 || b.y - a.y == 1)
        && a.x == b.x
    &&& room_at(rooms, rooms.len() as int, b.x as int, b.y as int) is Some
}

/// `path` leads from `start` to `goal`, from each tile to one beside it
/// that lies inside a room.
pub open spec fn steps_through(rooms: Seq<RoomDimensions>, path: Seq<IVec2>, start: IVec2, goal: IVec2) -> bool {
    &&& path.len() >= 1
    &&& path[0] == start
    &&& path.last() == goal
    &&& forall|k: int| 0 <= k < path.len() - 1 ==> is_step(rooms, #[trigger] path[k], path[k + 1])
}

/// The path that `pathfinding::directed::astar::astar` finds from `start`
/// to `goal` over the tiles of rooms that lie as `rooms` and hold the tiles
/// `tiles`, where a step costs what `tile_successors` says and the search is
/// led by `squared_tile_distance`.
pub uninterp spec fn astar_route(
    rooms: Seq<RoomDimensions>,
    tiles: Seq<Seq<Seq<Tile>>>,
    start: IVec2,
    goal: IVec2,
) -> Option<Seq<IVec2>>;

/// The tiles of a path, if there is one.
pub open spec fn route_of(path: Option<Vec<IVec2>>) -> Option<Seq<IVec2>> {
    match path {
        Some(p) => Some(p@),
        None => None,
    }
}

/// No path leads from `start` to `goal` over tiles inside rooms.
pub open spec fn no_way(rooms: Seq<RoomDimensions>, start: IVec2, goal: IVec2) -> bool {
    forall|path: Seq<IVec2>| !steps_through(rooms, path, start, goal)
}

/// `pathfinding::directed::astar::astar` over the tiles of a map: the path
/// that the search finds, which is a function of where the rooms lie, of
/// their tiles and of the two ends. It leads from `start` to `goal`, each
/// tile but the first being one of those that `tile_successors` names for
/// the tile before it, which are the tiles beside it that lie inside a room;
/// it is `None` where there is no path.
#[verifier::external_body]
pub(crate) fn cheapest_path(map: &MapArea, start: IVec2, goal: IVec2) -> (r: Option<Vec<IVec2>>)
    requires
        rooms_ok(map.rooms@),
    ensures
        route_of(r) == astar_route(dims_of(map.rooms@), tiles_of(map.rooms@), start, goal),
        r is Some ==> steps_through(dims_of(map.rooms@), r.unwrap()@, start, goal),
        r is None ==> no_way(dims_of(map.rooms@), start, goal),
{
    pathfinding::directed::astar::astar(
        &start,
        |tile| tile_successors(*tile, map),
        |tile| squared_tile_distance(*tile, goal),
        |tile| same_tile(*tile, goal),
    ).map(|found| found.0)
}

} // verus!
