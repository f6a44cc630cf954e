//! The map under construction, the settings of a generation run, and the
//! placement of the first rooms.

use vstd::prelude::*;
use crate::connecting::{RoomConnection};
use crate::graph_store::EdgeMap;
use crate::graphing::{RoomGraph, Triangulation};
use crate::presets::{
    generate_rooms_from_preset, index_of_name, Preset, RoomPresetResource, PRESET_LIMIT,
};
use crate::rng::WorldgenRng;
use crate::room::{
    IVec2, Room, RoomDetails, RoomDimensions, RoomWithDetailsNoId, StructureCollection, UVec2,
};
use crate::tile_grid::blank_tiles;

verus! {

/// Farthest from the origin that a preset may be dropped on either axis.
pub const SPAWN_LIMIT: i32 = 0x0800_0000;

/// What went wrong in a stage of a generation run. The map is left as it was.
#[derive(Debug, Clone, Copy, PartialEq, Eq, Structural)]
pub enum WorldgenError {
    /// No preset of the kind asked for is at hand.
    MissingPreset,
    /// The stage needs a triangulation and the map has none.
    MissingTriangulation,
    /// The stage needs the graphs and the map has none.
    MissingGraph,
    /// The stage needs the connections and the map has none.
    MissingConnections,
}

/// The settings of a generation run.
#[derive(Debug, Clone)]
pub struct WorldgenSettings {
    /// The size of a tile in world units.
    pub tile_size: UVec2,
    /// The seed of the random number generator.
    pub global_seed: u64,
    /// How many presets are dropped into the world.
    pub presets_to_spawn: usize,
    /// Presets are dropped at most this far from the origin on either axis.
    pub spawn_range: i32,
    /// Without effect.
    pub snap_to: u32,
    /// In per cent. Without effect: every room counts as a main room.
    pub main_room_threshold_multiplier: i32,
    /// How many tiles an overlapping room is pushed along the line between
    /// the centres in one step of the separation.
    pub separation_factor: u32,
    /// The chance, in per cent, of an edge outside the spanning tree to be
    /// put back into the graph; taken as 100 when larger.
    pub graph_reassembly_percentage: u32,
    /// Whether rooms without a connection are hidden.
    pub clear_unconnected_rooms: bool,
    /// The least width of a door or hallway, in tiles.
    pub min_passage_width: u32,
    /// The largest width of a door, and the side of a hallway's corner, in tiles.
    pub max_passage_width: u32,
    /// Without effect.
    pub threshold: u32,
}

impl WorldgenSettings {
    /// The spawn range is not negative and not beyond `SPAWN_LIMIT`.
    pub open spec fn wf(&self) -> bool {
        0 <= self.spawn_range <= SPAWN_LIMIT
    }

    /// Whether the settings can be used for a run.
    pub fn is_valid(&self) -> (r: bool)
        ensures
            r == self.wf(),
    {
        0 <= self.spawn_range && self.spawn_range <= SPAWN_LIMIT
    }
}

impl Default for WorldgenSettings {
    fn default() -> (r: Self)
        ensures
            r.wf(),
            r.tile_size == (UVec2 { x: 8, y: 8 }),
            r.global_seed == 44,
            r.presets_to_spawn == 5,
            r.spawn_range == 100,
            r.snap_to == 1,
            r.main_room_threshold_multiplier == -100,
            r.separation_factor == 2,
            r.graph_reassembly_percentage == 30,
            r.clear_unconnected_rooms,
            r.min_passage_width == 6,
            r.max_passage_width == 12,
            r.threshold == 9999,
    {
        WorldgenSettings {
            tile_size: UVec2 { x: 8, y: 8 },
            global_seed: 44,
            presets_to_spawn: 5,
            spawn_range: 100,
            snap_to: 1,
            main_room_threshold_multiplier: -100,
            graph_reassembly_percentage: 30,
            min_passage_width: 6,
            max_passage_width: 12,
            threshold: 9999,
            clear_unconnected_rooms: true,
            separation_factor: 2,
        }
    }
}

/// Limits for rooms made at random, kept for tools that place single rooms.
#[derive(Debug, Clone, Copy)]
pub struct RoomGenerationSettings {
    pub rooms_amount: usize,
    pub spawn_range: i32,
    pub min_length: usize,
    pub max_length: usize,
    pub min_height: usize,
    pub max_height: usize,
    pub snap_to: u32,
}

/// A map under construction: the rooms and what the stages have found out
/// about them so far. Each run builds a new one.
#[derive(Debug)]
pub struct MapArea {
    /// The rooms; the room with id `i` stands at index `i`.
    pub rooms: Vec<Room>,
    /// Pairs of room ids that the presets ask to be connected.
    pub initial_connections: Vec<(usize, usize)>,
    pub triangulation: Option<Triangulation>,
    pub graph: Option<RoomGraph>,
    /// The connections that were realised: each joins two touching rooms.
    pub connections: Option<Vec<RoomConnection>>,
}

/// Every room is well formed, lies inside the world and stands at the index
/// that is its id.
pub open spec fn rooms_ok(rooms: Seq<Room>) -> bool {
    forall|i: int|
        0 <= i < rooms.len() ==> {
            &&& (#[trigger] rooms[i]).wf()
            &&& rooms[i].room_id == i
            &&& rooms[i].dims().in_world()
        }
}

/// Every edge joins two of the first `n` rooms.
pub open spec fn edges_in_range(edges: EdgeMap, n: nat) -> bool {
    forall|k: (usize, usize)| #[trigger] edges.contains_key(k) ==> k.0 < n && k.1 < n
}

/// Every pair names two of the first `n` rooms.
pub open spec fn pairs_in_range(pairs: Seq<(usize, usize)>, n: nat) -> bool {
    forall|i: int| 0 <= i < pairs.len() ==> (#[trigger] pairs[i]).0 < n && pairs[i].1 < n
}

/// Every id names one of the first `n` rooms.
pub open spec fn ids_in_range(ids: Seq<usize>, n: nat) -> bool {
    forall|i: int| 0 <= i < ids.len() ==> #[trigger] ids[i] < n
}

/// The ids of the main rooms among `rooms`, in ascending order.
pub open spec fn main_ids(rooms: Seq<Room>) -> Seq<usize>
    decreases rooms.len(),
{
    if rooms.len() == 0 {
        Seq::empty()
    } else if rooms.last().details.is_main {
        main_ids(rooms.drop_last()).push((rooms.len() - 1) as usize)
    } else {
        main_ids(rooms.drop_last())
    }
}

/// The rectangles of the rooms, in the order of the rooms.
pub open spec fn dims_of(rooms: Seq<Room>) -> Seq<RoomDimensions> {
    rooms.map_values(|r: Room| r.dims())
}

/// The index of the first of the first `n` rectangles that covers the tile `(x, y)`.
pub open spec fn room_at(rooms: Seq<RoomDimensions>, n: int, x: int, y: int) -> Option<usize>
    decreases n,
{
    if n <= 0 {
        None
    } else {
        match room_at(rooms, n - 1, x, y) {
            Some(id) => Some(id),
            None => if rooms[n - 1].covers(x, y) {
                Some((n - 1) as usize)
            } else {
                None
            },
        }
    }
}

/// What `room_at` finds: the covering room of least index, if any room covers the tile.
pub proof fn lemma_room_at(rooms: Seq<RoomDimensions>, n: int, x: int, y: int)
    requires
        0 <= n <= rooms.len() <= usize::MAX,
    ensures
        match room_at(rooms, n, x, y) {
            Some(id) => id < n && rooms[id as int].covers(x, y) && forall|j: int|
                0 <= j < id ==> !(#[trigger] rooms[j]).covers(x, y),
            None => forall|j: int| 0 <= j < n ==> !(#[trigger] rooms[j]).covers(x, y),
        },
    decreases n,
{
    if n > 0 {
        lemma_room_at(rooms, n - 1, x, y);
    }
}

impl MapArea {
    /// The rooms, the connections asked for and whatever the stages have
    /// added so far fit together: ids are indices, and every id that a graph,
    /// a path or a connection names is the id of a room.
    pub open spec fn wf(&self) -> bool {
        &&& rooms_ok(self.rooms@)
        &&& pairs_in_range(self.initial_connections@, self.rooms@.len())
        &&& match self.triangulation {
            Some(t) => t.wf(main_ids(self.rooms@).len()),
            None => true,
        }
        &&& match self.graph {
            Some(g) => {
                &&& edges_in_range(g.mst@, self.rooms@.len())
                &&& edges_in_range(g.reassembled_graph@, self.rooms@.len())
                &&& ids_in_range(g.main_path_rooms@, self.rooms@.len())
            },
            None => true,
        }
        &&& match self.connections {
            Some(c) => forall|i: int|
                0 <= i < c@.len() ==> (#[trigger] c@[i])@.in_range(self.rooms@.len()),
            None => true,
        }
    }

    /// A map without rooms.
    pub fn new() -> (r: Self)
        ensures
            r.wf(),
            r.rooms@.len() == 0,
            r.initial_connections@.len() == 0,
            r.triangulation is None,
            r.graph is None,
            r.connections is None,
    {
        MapArea {
            rooms: Vec::new(),
            initial_connections: Vec::new(),
            triangulation: None,
            graph: None,
            connections: None,
        }
    }

    /// The id that the next room gets.
    pub fn next_room_id(&self) -> (r: usize)
        ensures
            r == self.rooms@.len(),
    {
        self.rooms.len()
    }

    /// The ids of the main rooms, in ascending order.
    pub fn main_room_ids(&self) -> (r: Vec<usize>)
        ensures
            r@ == main_ids(self.rooms@),
    {
        let mut ids: Vec<usize> = Vec::new();
        let mut i: usize = 0;
        while i < self.rooms.len()
            invariant
                i <= self.rooms@.len(),
                ids@ == main_ids(self.rooms@.take(i as int)),
            decreases self.rooms@.len() - i,
        {
            assert(self.rooms@.take(i + 1).drop_last() =~= self.rooms@.take(i as int));
            if self.rooms[i].details.is_main {
                ids.push(i);
            }
            i += 1;
        }
        assert(self.rooms@.take(i as int) =~= self.rooms@);
        ids
    }

    /// The main rooms, ordered by id.
    pub fn get_main_rooms(&self) -> (r: Vec<&Room>)
        ensures
            r@.len() == main_ids(self.rooms@).len(),
            forall|k: int|
                0 <= k < r@.len() ==> main_ids(self.rooms@)[k] < self.rooms@.len() && *(#[trigger] r@[k])
                    == self.rooms@[main_ids(self.rooms@)[k] as int],
    {
        let ids: Vec<usize> = self.main_room_ids();
        proof {
            lemma_main_ids_in_range(self.rooms@);
        }
        let mut out: Vec<&Room> = Vec::new();
        let mut k: usize = 0;
        while k < ids.len()
            invariant
                k <= ids@.len(),
                ids@ == main_ids(self.rooms@),
                ids_in_range(ids@, self.rooms@.len()),
                out@.len() == k,
                forall|j: int| 0 <= j < k ==> *(#[trigger] out@[j]) == self.rooms@[ids@[j] as int],
            decreases ids@.len() - k,
        {
            out.push(&self.rooms[ids[k]]);
            k += 1;
        }
        out
    }

    /// The id of the room that covers the tile `point`: of the one with the
    /// least id, where rooms overlap.
    pub fn point_to_room(&self, point: (i32, i32)) -> (r: Option<usize>)
        ensures
            r == room_at(dims_of(self.rooms@), self.rooms@.len() as int, point.0 as int, point.1 as int),
    {
        let mut i: usize = 0;
        while i < self.rooms.len()
            invariant
                i <= self.rooms@.len(),
                room_at(dims_of(self.rooms@), i as int, point.0 as int, point.1 as int) is None,
            decreases self.rooms@.len() - i,
        {
            if self.rooms[i].is_point_inside(point) {
                proof {
                    lemma_room_at_stays(
                        dims_of(self.rooms@),
                        i as int + 1,
                        self.rooms@.len() as int,
                        point.0 as int,
                        point.1 as int,
                    );
                }
                return Some(i);
            }
            i += 1;
        }
        None
    }
}

/// Every main id names a room.
pub proof fn lemma_main_ids_in_range(rooms: Seq<Room>)
    ensures
        ids_in_range(main_ids(rooms), rooms.len()),
    decreases rooms.len(),
{
    if rooms.len() > 0 {
        lemma_main_ids_in_range(rooms.drop_last());
    }
}

/// Once a room is found among the first `n`, it is the one found among more.
pub proof fn lemma_room_at_stays(rooms: Seq<RoomDimensions>, n: int, m: int, x: int, y: int)
    requires
        0 <= n <= m,
        room_at(rooms, n, x, y) is Some,
    ensures
        room_at(rooms, m, x, y) == room_at(rooms, n, x, y),
    decreases m - n,
{
    if n < m {
        lemma_room_at_stays(rooms, n, m - 1, x, y);
    }
}

/// `room` is what a preset room becomes when it is placed with the given
/// id, moved by `offset`: all ground, free to move, visible, with the
/// details of the preset room.
pub open spec fn is_placed(room: Room, id: usize, from: RoomWithDetailsNoId, offset: IVec2) -> bool {
    &&& room.wf()
    &&& room.room_id == id
    &&& room.dims() == from.dimensions.moved(offset.x as int, offset.y as int).as_stored()
    &&& room.tiles() == blank_tiles(from.dimensions.height, from.dimensions.length)
    &&& room.details.is_main == from.details.is_main
    &&& room.details.room_type == from.details.room_type
    &&& room.details.aesthetic_modifiers@ == from.details.aesthetic_modifiers@
    &&& !room.is_position_fixed
    &&& room.is_visible
}

/// `after` is `before` with the rooms of a preset placed in it, moved by
/// `offset`: they stand at the end, under the next free ids, and the
/// connections between them are added to the connections asked for, under
/// the new ids. Everything else is as it was.
pub open spec fn placed(
    before: MapArea,
    after: MapArea,
    rooms: Seq<RoomWithDetailsNoId>,
    connections: Seq<(usize, usize)>,
    offset: IVec2,
) -> bool {
    &&& after.rooms@.len() == before.rooms@.len() + rooms.len()
    &&& forall|i: int| 0 <= i < before.rooms@.len() ==> #[trigger] after.rooms@[i] == before.rooms@[i]
    &&& forall|i: int|
        0 <= i < rooms.len() ==> is_placed(
            #[trigger] after.rooms@[before.rooms@.len() + i],
            (before.rooms@.len() + i) as usize,
            rooms[i],
            offset,
        )
    &&& after.initial_connections@ == before.initial_connections@ + shifted(
        connections,
        before.rooms@.len() as usize,
    )
    &&& after.triangulation == before.triangulation
    &&& after.graph == before.graph
    &&& after.connections == before.connections
}

/// The connections of a preset as pairs of places in its list of rooms.
pub open spec fn preset_pairs(preset: Preset) -> Seq<(usize, usize)> {
    Seq::new(
        preset.connections@.len(),
        |i: int|
            (
                index_of_name(
                    preset.rooms@,
                    preset.connections@[i].room1@,
                    preset.rooms@.len() as int,
                ).unwrap(),
                index_of_name(
                    preset.rooms@,
                    preset.connections@[i].room2@,
                    preset.rooms@.len() as int,
                ).unwrap(),
            ),
    )
}

/// `after` is `before` with the preset that the pick falls on dropped at
/// `offset`, the rooms being `rooms`: the preset is of the kind "normal",
/// the rooms are rooms that it allows, and the offset is within the range.
pub open spec fn drops(
    presets: RoomPresetResource,
    before: MapArea,
    after: MapArea,
    range: i32,
    pick: int,
    rooms: Seq<RoomWithDetailsNoId>,
    offset: IVec2,
) -> bool {
    &&& presets.picked("normal"@, pick) is Some
    &&& rooms.len() == presets.presets@[presets.picked("normal"@, pick).unwrap()].rooms@.len()
    &&& forall|i: int|
        0 <= i < rooms.len() ==> presets.presets@[presets.picked(
            "normal"@,
            pick,
        ).unwrap()].rooms@[i].room.allows(#[trigger] rooms[i])
    &&& -range <= offset.x <= range
    &&& -range <= offset.y <= range
    &&& placed(
        before,
        after,
        rooms,
        preset_pairs(presets.presets@[presets.picked("normal"@, pick).unwrap()]),
        offset,
    )
}

/// `after` is `before` with one preset of the kind "normal" dropped
/// somewhere within the range.
pub open spec fn spawns(presets: RoomPresetResource, before: MapArea, after: MapArea, range: i32) -> bool {
    exists|pick: int, rooms: Seq<RoomWithDetailsNoId>, offset: IVec2| #[trigger]
        drops(presets, before, after, range, pick, rooms, offset)
}

/// The map holds nothing.
pub open spec fn is_bare(map: MapArea) -> bool {
    &&& map.rooms@.len() == 0
    &&& map.initial_connections@.len() == 0
    &&& map.triangulation is None
    &&& map.graph is None
    &&& map.connections is None
}

/// The map is what `n` presets, dropped one after the other into a map that
/// holds nothing, leave.
pub open spec fn spawned(presets: RoomPresetResource, map: MapArea, range: i32, n: int) -> bool
    decreases n,
{
    if n <= 0 {
        is_bare(map)
    } else {
        exists|mid: MapArea| spawned(presets, mid, range, n - 1) && #[trigger] spawns(presets, mid, map, range)
    }
}

/// The pairs with `by` added to both numbers.
pub open spec fn shifted(pairs: Seq<(usize, usize)>, by: usize) -> Seq<(usize, usize)> {
    Seq::new(pairs.len(), |i: int| ((pairs[i].0 + by) as usize, (pairs[i].1 + by) as usize))
}

/// Places the rooms of a preset in a map, moved by `world_pos`: they get
/// the next free ids, in their order, and the connections between them are
/// added to the connections asked for, under the new ids.
pub fn place_preset(
    map: &mut MapArea,
    rooms: &StructureCollection,
    connections: &Vec<(usize, usize)>,
    world_pos: IVec2,
)
    requires
        old(map).wf(),
        forall|i: int|
            0 <= i < rooms.structures@.len() ==> {
                &&& i32::MIN <= (#[trigger] rooms.structures@[i]).dimensions.anchor.x + world_pos.x
                    <= i32::MAX
                &&& i32::MIN <= rooms.structures@[i].dimensions.anchor.y + world_pos.y <= i32::MAX
                &&& rooms.structures@[i].dimensions.moved(
                    world_pos.x as int,
                    world_pos.y as int,
                ).buildable()
            },
        pairs_in_range(connections@, rooms.structures@.len()),
    ensures
        final(map).wf(),
        placed(*old(map), *final(map), rooms.structures@, connections@, world_pos),
{
    let previous_max_id: usize = map.rooms.len();
    let count: usize = rooms.structures.len();
    let mut i: usize = 0;
    while i < count
        invariant
            i <= count,
            count == rooms.structures@.len(),
            previous_max_id == old(map).rooms@.len(),
            old(map).wf(),
            map.rooms@.len() == previous_max_id + i,
            rooms_ok(map.rooms@),
            forall|k: int|
                0 <= k < rooms.structures@.len() ==> {
                    &&& i32::MIN <= (#[trigger] rooms.structures@[k]).dimensions.anchor.x + world_pos.x
                        <= i32::MAX
                    &&& i32::MIN <= rooms.structures@[k].dimensions.anchor.y + world_pos.y <= i32::MAX
                    &&& rooms.structures@[k].dimensions.moved(
                        world_pos.x as int,
                        world_pos.y as int,
                    ).buildable()
                },
            forall|k: int| 0 <= k < previous_max_id ==> #[trigger] map.rooms@[k] == old(map).rooms@[k],
            forall|k: int|
                0 <= k < i ==> is_placed(
                    #[trigger] map.rooms@[previous_max_id + k],
                    (previous_max_id + k) as usize,
                    rooms.structures@[k],
                    world_pos,
                ),
            map.initial_connections == old(map).initial_connections,
            map.triangulation == old(map).triangulation,
            map.graph == old(map).graph,
            map.connections == old(map).connections,
        decreases count - i,
    {
        let from = &rooms.structures[i];
        let mut dim: RoomDimensions = from.dimensions;
        dim.offset_anchor_grid(world_pos);
        let room = Room::new2(map.rooms.len(), dim, from.details.clone());
        let ghost before = map.rooms@;
        map.rooms.push(room);
        assert forall|k: int| 0 <= k < i + 1 implies is_placed(
            #[trigger] map.rooms@[previous_max_id + k],
            (previous_max_id + k) as usize,
            rooms.structures@[k],
            world_pos,
        ) by {
            if k < i {
                assert(map.rooms@[previous_max_id + k] == before[previous_max_id + k]);
            }
        }
        i += 1;
    }
    let mut k: usize = 0;
    let ghost start = map.initial_connections@;
    let total: usize = map.rooms.len();
    assert(start + shifted(connections@, previous_max_id).take(0) =~= start);
    while k < connections.len()
        invariant
            k <= connections@.len(),
            count == rooms.structures@.len(),
            previous_max_id + count == total,
            previous_max_id == old(map).rooms@.len(),
            map.rooms@.len() == previous_max_id + count,
            pairs_in_range(connections@, count as nat),
            start == old(map).initial_connections@,
            pairs_in_range(start, previous_max_id as nat),
            map.initial_connections@ == start + shifted(connections@, previous_max_id).take(k as int),
            pairs_in_range(map.initial_connections@, map.rooms@.len()),
            rooms_ok(map.rooms@),
            forall|j: int| 0 <= j < previous_max_id ==> #[trigger] map.rooms@[j] == old(map).rooms@[j],
            forall|j: int|
                0 <= j < count ==> is_placed(
                    #[trigger] map.rooms@[previous_max_id + j],
                    (previous_max_id + j) as usize,
                    rooms.structures@[j],
                    world_pos,
                ),
            map.triangulation == old(map).triangulation,
            map.graph == old(map).graph,
            map.connections == old(map).connections,
        decreases connections@.len() - k,
    {
        let c: (usize, usize) = connections[k];
        let ghost before = map.initial_connections@;
        map.initial_connections.push((c.0 + previous_max_id, c.1 + previous_max_id));
        assert(start + shifted(connections@, previous_max_id).take(k + 1) =~= (start + shifted(
            connections@,
            previous_max_id,
        ).take(k as int)).push(shifted(connections@, previous_max_id)[k as int]));
        k += 1;
    }
    assert(shifted(connections@, previous_max_id).take(k as int) =~= shifted(
        connections@,
        previous_max_id,
    ));
    proof {
        lemma_more_rooms_keep_triangulation(*old(map), *map);
        lemma_more_rooms_keep_ranges(*old(map), *map);
    }
}

/// More rooms at the end leave the main rooms that were there where they were.
pub proof fn lemma_main_ids_grow(before: Seq<Room>, after: Seq<Room>)
    requires
        before.len() <= after.len(),
        forall|i: int| 0 <= i < before.len() ==> #[trigger] after[i] == before[i],
    ensures
        main_ids(before).len() <= main_ids(after).len(),
    decreases after.len(),
{
    if after.len() > before.len() {
        lemma_main_ids_grow(before, after.drop_last());
    } else {
        assert(after =~= before);
    }
}

/// More rooms at the end leave a triangulation in range.
pub proof fn lemma_more_rooms_keep_triangulation(before: MapArea, after: MapArea)
    requires
        before.wf(),
        before.rooms@.len() <= after.rooms@.len(),
        forall|i: int| 0 <= i < before.rooms@.len() ==> #[trigger] after.rooms@[i] == before.rooms@[i],
        after.triangulation == before.triangulation,
    ensures
        match after.triangulation {
            Some(t) => t.wf(main_ids(after.rooms@).len()),
            None => true,
        },
{
    lemma_main_ids_grow(before.rooms@, after.rooms@);
}

/// More rooms at the end leave what names rooms in range.
pub proof fn lemma_more_rooms_keep_ranges(before: MapArea, after: MapArea)
    requires
        before.wf(),
        before.rooms@.len() <= after.rooms@.len(),
        after.graph == before.graph,
        after.connections == before.connections,
    ensures
        match after.graph {
            Some(g) => {
                &&& edges_in_range(g.mst@, after.rooms@.len())
                &&& edges_in_range(g.reassembled_graph@, after.rooms@.len())
                &&& ids_in_range(g.main_path_rooms@, after.rooms@.len())
            },
            None => true,
        },
        match after.connections {
            Some(c) => forall|i: int|
                0 <= i < c@.len() ==> (#[trigger] c@[i])@.in_range(after.rooms@.len()),
            None => true,
        },
{
    match after.connections {
        Some(c) => {
            assert forall|i: int| 0 <= i < c@.len() implies (#[trigger] c@[i])@.in_range(
                after.rooms@.len(),
            ) by {
                assert(c@[i]@.in_range(before.rooms@.len()));
            }
        },
        None => {},
    }
}

impl RoomPresetResource {
    /// Every name of the kind "normal" is the name of a preset, and there is
    /// such a name.
    pub open spec fn has_normal_presets(&self) -> bool {
        &&& self.config.normal@.len() > 0
        &&& forall|pick: int|
            0 <= pick < self.config.normal@.len() ==> (#[trigger] self.picked("normal"@, pick)) is Some
    }
}

/// Places the first rooms of a map: as many presets of the kind "normal"
/// as the settings ask for are picked at random, each is dropped at a random
/// place within the spawn range, and its rooms get the next free ids. Fails
/// where a pick finds no preset.
pub fn generate_rooms(
    worldgen: &WorldgenSettings,
    rng: &mut WorldgenRng,
    presets: &RoomPresetResource,
) -> (r: Result<MapArea, WorldgenError>)
    requires
        worldgen.wf(),
        presets.wf(),
    ensures
        match r {
            Ok(map) => {
                &&& map.wf()
                &&& map.triangulation is None
                &&& map.graph is None
                &&& map.connections is None
                &&& forall|i: int|
                    0 <= i < map.rooms@.len() ==> {
                        &&& (#[trigger] map.rooms@[i]).tiles() == blank_tiles(
                            map.rooms@[i].dims().height,
                            map.rooms@[i].dims().length,
                        )
                        &&& !map.rooms@[i].details.is_main
                        &&& !map.rooms@[i].is_position_fixed
                        &&& map.rooms@[i].is_visible
                    }
                &&& spawned(*presets, map, worldgen.spawn_range, worldgen.presets_to_spawn as int)
            },
            Err(e) => e == WorldgenError::MissingPreset && worldgen.presets_to_spawn > 0
                && !presets.has_normal_presets(),
        },
{
    let mut map = MapArea::new();
    let mut count: usize = 0;
    while count < worldgen.presets_to_spawn
        invariant
            worldgen.wf(),
            presets.wf(),
            count <= worldgen.presets_to_spawn,
            map.wf(),
            map.triangulation is None,
            map.graph is None,
            map.connections is None,
            spawned(*presets, map, worldgen.spawn_range, count as int),
            forall|i: int|
                0 <= i < map.rooms@.len() ==> {
                    &&& (#[trigger] map.rooms@[i]).tiles() == blank_tiles(
                        map.rooms@[i].dims().height,
                        map.rooms@[i].dims().length,
                    )
                    &&& !map.rooms@[i].details.is_main
                    &&& !map.rooms@[i].is_position_fixed
                    &&& map.rooms@[i].is_visible
                },
        decreases worldgen.presets_to_spawn - count,
    {
        proof {
            reveal_strlit("normal");
            reveal_strlit("start");
            assert("normal"@.len() != "start"@.len());
            assert(presets.names_of("normal"@) == Some(presets.config.normal@));
        }
        let preset: &Preset = match presets.get_preset_by_type("normal", rng) {
            Some(p) => p,
            None => {
                return Err(WorldgenError::MissingPreset);
            },
        };
        let ghost pick = choose|pick: int| #[trigger]
            presets.picked("normal"@, pick) is Some && *preset == presets.presets@[presets.picked(
                "normal"@,
                pick,
            ).unwrap()];
        proof {
            crate::presets::lemma_preset_named_in_range(
                presets.presets@,
                presets.config.normal@[pick]@,
                presets.presets@.len() as int,
            );
        }
        let preset_rooms = generate_rooms_from_preset(preset, rng);
        let x: i32 = rng.i32(-worldgen.spawn_range, worldgen.spawn_range);
        let y: i32 = rng.i32(-worldgen.spawn_range, worldgen.spawn_range);
        let world_pos = IVec2 { x, y };
        assert forall|i: int| 0 <= i < preset_rooms.0.structures@.len() implies {
            &&& i32::MIN <= (#[trigger] preset_rooms.0.structures@[i]).dimensions.anchor.x + world_pos.x
                <= i32::MAX
            &&& i32::MIN <= preset_rooms.0.structures@[i].dimensions.anchor.y + world_pos.y
                <= i32::MAX
            &&& preset_rooms.0.structures@[i].dimensions.moved(
                world_pos.x as int,
                world_pos.y as int,
            ).buildable()
        } by {
            let from = preset_rooms.0.structures@[i];
            let asked = preset.rooms@[i].room;
            assert(asked.valid());
            assert(asked.allows(from));
            lemma_allowed_size_is_buildable(asked.size, from.dimensions.length, from.dimensions.height);
        }
        let ghost before = map.rooms@;
        let ghost map_before = map;
        place_preset(&mut map, &preset_rooms.0, &preset_rooms.1, world_pos);
        proof {
            assert(preset_rooms.1@ =~= preset_pairs(*preset));
            assert(drops(
                *presets,
                map_before,
                map,
                worldgen.spawn_range,
                pick,
                preset_rooms.0.structures@,
                world_pos,
            ));
            assert(spawns(*presets, map_before, map, worldgen.spawn_range));
            assert(spawned(*presets, map_before, worldgen.spawn_range, (count + 1) - 1));
        }
        assert forall|i: int| 0 <= i < map.rooms@.len() implies {
            &&& (#[trigger] map.rooms@[i]).tiles() == blank_tiles(
                map.rooms@[i].dims().height,
                map.rooms@[i].dims().length,
            )
            &&& !map.rooms@[i].details.is_main
            &&& !map.rooms@[i].is_position_fixed
            &&& map.rooms@[i].is_visible
        } by {
            if i < before.len() {
                assert(map.rooms@[i] == before[i]);
            } else {
                let k = i - before.len();
                assert(is_placed(
                    map.rooms@[before.len() + k],
                    (before.len() + k) as usize,
                    preset_rooms.0.structures@[k],
                    world_pos,
                ));
                assert(preset.rooms@[k].room.allows(preset_rooms.0.structures@[k]));
            }
        }
        count += 1;
    }
    Ok(map)
}

/// A size that a usable description allows has tiles that can be counted,
/// and no side beyond `PRESET_LIMIT`.
pub proof fn lemma_allowed_size_is_buildable(
    size: crate::presets::PresetRoomSize,
    length: usize,
    height: usize,
)
    requires
        size.valid(),
        length <= u32::MAX,
        height <= u32::MAX,
        size.allows(UVec2 { x: length as u32, y: height as u32 }),
    ensures
        length <= PRESET_LIMIT,
        height <= PRESET_LIMIT,
        length * height <= isize::MAX,
{
    match size {
        crate::presets::PresetRoomSize::Fixed(xy) => {
            assert(length * height == xy.x * xy.y) by (nonlinear_arith)
                requires
                    length == xy.x,
                    height == xy.y,
            ;
        },
        crate::presets::PresetRoomSize::Range(x, y) => {
            assert(length * height <= x.1 * y.1) by (nonlinear_arith)
                requires
                    0 <= length <= x.1,
                    0 <= height <= y.1,
            ;
        },
        crate::presets::PresetRoomSize::Dynamic => {
            assert(length * height == 100) by (nonlinear_arith)
                requires
                    length == 10,
                    height == 10,
            ;
        },
    }
}

/// Makes every room of the map a main room.
pub fn determine_main_rooms(map: &mut MapArea, _worldgen: &WorldgenSettings)
    requires
        old(map).wf(),
    ensures
        final(map).wf(),
        final(map).rooms@.len() == old(map).rooms@.len(),
        forall|i: int|
            0 <= i < old(map).rooms@.len() ==> #[trigger] final(map).rooms@[i] == (Room {
                details: RoomDetails { is_main: true, ..old(map).rooms@[i].details },
                ..old(map).rooms@[i]
            }),
        final(map).initial_connections == old(map).initial_connections,
        final(map).triangulation == old(map).triangulation,
        final(map).graph == old(map).graph,
        final(map).connections == old(map).connections,
{
    let n: usize = map.rooms.len();
    let mut i: usize = 0;
    while i < n
        invariant
            n == old(map).rooms@.len(),
            map.rooms@.len() == n,
            i <= n,
            forall|k: int|
                0 <= k < i ==> #[trigger] map.rooms@[k] == (Room {
                    details: RoomDetails { is_main: true, ..old(map).rooms@[k].details },
                    ..old(map).rooms@[k]
                }),
            forall|k: int| i <= k < n ==> #[trigger] map.rooms@[k] == old(map).rooms@[k],
            map.initial_connections == old(map).initial_connections,
            map.triangulation == old(map).triangulation,
            map.graph == old(map).graph,
            map.connections == old(map).connections,
        decreases n - i,
    {
        map.rooms[i].details.is_main = true;
        i += 1;
    }
    proof {
        assert forall|k: int| 0 <= k < n implies {
            &&& (#[trigger] map.rooms@[k]).wf()
            &&& map.rooms@[k].room_id == k
            &&& map.rooms@[k].dims().in_world()
            &&& map.rooms@[k].details.is_main
        } by {
            assert(old(map).rooms@[k].wf());
        }
        lemma_all_main(map.rooms@);
        lemma_main_ids_short(old(map).rooms@);
        lemma_more_rooms_keep_ranges(*old(map), *map);
    }
}

/// Where every room is a main room, there are as many main rooms as rooms.
pub proof fn lemma_all_main(rooms: Seq<Room>)
    requires
        forall|i: int| 0 <= i < rooms.len() ==> (#[trigger] rooms[i]).details.is_main,
    ensures
        main_ids(rooms).len() == rooms.len(),
    decreases rooms.len(),
{
    if rooms.len() > 0 {
        assert(rooms[rooms.len() - 1].details.is_main);
        assert forall|i: int| 0 <= i < rooms.drop_last().len() implies (#[trigger] rooms.drop_last()[i]).details.is_main by {
            assert(rooms[i].details.is_main);
        }
        lemma_all_main(rooms.drop_last());
    }
}

/// There are no more main rooms than rooms.
pub proof fn lemma_main_ids_short(rooms: Seq<Room>)
    ensures
        main_ids(rooms).len() <= rooms.len(),
    decreases rooms.len(),
{
    if rooms.len() > 0 {
        lemma_main_ids_short(rooms.drop_last());
    }
}

} // verus!
