//! A whole generation run, stage after stage.

use vstd::prelude::*;
use crate::connecting::{
    all_adjacent, connect_rooms, connected, connection_views, planning_width, rooms_extended,
};
use crate::generation::{
    determine_main_rooms, dims_of, generate_rooms, main_ids, spawned, MapArea, WorldgenError,
    WorldgenSettings,
};
use crate::graph_store::{lists_edges, no_edges, Edge};
use crate::graphing::{
    add_pairs, connection_pairs, get_triangulation, graphs_fit, main_centers, main_room_centers,
    make_graphs, remake_graphs, Triangulation,
};
use crate::postprocess::{
    aesthetizise, carve_doors, carve_path, carved_until, decorated, doors_carved, is_connected,
    outer_walls, same_frames, strip_unconnected_rooms, tiles_of,
};
use crate::presets::RoomPresetResource;
use crate::rng::WorldgenRng;
use crate::room::{walled, Room, RoomDetails};
use crate::separation::{fixed_of, only_moved, separate_rooms, separated, SEPARATION_ROUNDS};

verus! {

/// Nothing but the rooms differs between the two maps.
pub open spec fn rest_kept(before: MapArea, after: MapArea) -> bool {
    &&& after.initial_connections == before.initial_connections
    &&& after.triangulation == before.triangulation
    &&& after.graph == before.graph
    &&& after.connections == before.connections
}

/// `after` is `before` with every room made a main room.
pub open spec fn main_rooms_marked(before: MapArea, after: MapArea) -> bool {
    &&& after.rooms@.len() == before.rooms@.len()
    &&& forall|i: int|
        0 <= i < before.rooms@.len() ==> #[trigger] after.rooms@[i] == (Room {
            details: RoomDetails { is_main: true, ..before.rooms@[i].details },
            ..before.rooms@[i]
        })
    &&& rest_kept(before, after)
}

/// `after` is `before` with overlapping rooms pushed apart.
pub open spec fn rooms_separated(before: MapArea, after: MapArea, factor: u32) -> bool {
    &&& only_moved(before.rooms@, after.rooms@)
    &&& dims_of(after.rooms@) == separated(
        dims_of(before.rooms@),
        fixed_of(before.rooms@),
        factor,
        SEPARATION_ROUNDS as nat,
    )
    &&& rest_kept(before, after)
}

/// The states of a map through the first half of a run: after the presets
/// were dropped, after every room was made a main room, and after the
/// separation.
pub open spec fn is_placement(
    states: Seq<MapArea>,
    worldgen: WorldgenSettings,
    presets: RoomPresetResource,
) -> bool {
    &&& states.len() == 3
    &&& spawned(presets, states[0], worldgen.spawn_range, worldgen.presets_to_spawn as int)
    &&& main_rooms_marked(states[0], states[1])
    &&& rooms_separated(states[1], states[2], worldgen.separation_factor)
}

/// `after` is `before` with the triangulation taken in.
pub open spec fn triangulation_taken(
    before: MapArea,
    after: MapArea,
    triangles: Vec<usize>,
    hull: Vec<usize>,
) -> bool {
    &&& (Triangulation { triangles, hull }).wf(main_ids(before.rooms@).len())
    &&& after.triangulation == Some(Triangulation { triangles, hull })
    &&& after.rooms == before.rooms
    &&& after.initial_connections == before.initial_connections
    &&& after.graph == before.graph
    &&& after.connections == before.connections
}

/// `after` is `before` with the graphs made from the triangulation.
pub open spec fn graphs_made(before: MapArea, after: MapArea, percentage: u32) -> bool {
    &&& before.triangulation is Some
    &&& after.graph is Some
    &&& graphs_fit(
        after.graph.unwrap(),
        before.rooms@,
        before.triangulation.unwrap(),
        before.initial_connections@,
        percentage,
    )
    &&& after.rooms == before.rooms
    &&& after.initial_connections == before.initial_connections
    &&& after.triangulation == before.triangulation
    &&& after.connections == before.connections
}

/// `after` is `before` with the edges of the graph resolved into
/// connections of neighbours, and the hallways that this took.
pub open spec fn rooms_connected(before: MapArea, after: MapArea, worldgen: WorldgenSettings) -> bool {
    &&& before.graph is Some
    &&& after.connections is Some
    &&& exists|edges: Seq<Edge>|
        {
            &&& lists_edges(edges, before.graph.unwrap().reassembled_graph@)
            &&& (dims_of(after.rooms@), connection_views(after.connections.unwrap()@))
                == #[trigger] connected(
                dims_of(before.rooms@),
                edges,
                worldgen.min_passage_width,
                planning_width(worldgen),
            )
        }
    &&& rooms_extended(before.rooms@, after.rooms@)
    &&& after.initial_connections == before.initial_connections
    &&& after.triangulation == before.triangulation
    &&& after.graph == before.graph
}

/// `after` is `before` with the graph remade from the connections.
pub open spec fn graph_remade(before: MapArea, after: MapArea) -> bool {
    &&& before.connections is Some
    &&& before.graph is Some
    &&& after.graph is Some
    &&& after.graph.unwrap().reassembled_graph@ == add_pairs(
        no_edges(),
        dims_of(before.rooms@),
        connection_pairs(before.connections.unwrap()@),
        before.connections.unwrap()@.len() as int,
    )
    &&& after.graph.unwrap().mst@ == before.graph.unwrap().mst@
    &&& after.graph.unwrap().main_path_rooms@ == before.graph.unwrap().main_path_rooms@
    &&& after.rooms == before.rooms
    &&& after.initial_connections == before.initial_connections
    &&& after.triangulation == before.triangulation
    &&& after.connections == before.connections
}

/// `after` is `before` with the rooms without a connection hidden, where
/// the settings ask for it.
pub open spec fn unconnected_hidden(before: MapArea, after: MapArea, worldgen: WorldgenSettings) -> bool {
    if worldgen.clear_unconnected_rooms {
        &&& before.connections is Some
        &&& after.rooms@.len() == before.rooms@.len()
        &&& forall|i: int|
            0 <= i < before.rooms@.len() ==> #[trigger] after.rooms@[i] == (Room {
                is_visible: before.rooms@[i].is_visible && is_connected(
                    before.connections.unwrap()@,
                    i as usize,
                ),
                ..before.rooms@[i]
            })
        &&& rest_kept(before, after)
    } else {
        after == before
    }
}

/// `after` is `before` with the outer ring of every room set to wall.
pub open spec fn walls_raised(before: MapArea, after: MapArea) -> bool {
    &&& same_frames(before.rooms@, after.rooms@)
    &&& forall|i: int|
        0 <= i < before.rooms@.len() ==> (#[trigger] after.rooms@[i]).tiles() == walled(
            before.rooms@[i].tiles(),
        )
    &&& rest_kept(before, after)
}

/// `after` is `before` with every room decorated.
pub open spec fn rooms_decorated(before: MapArea, after: MapArea) -> bool {
    &&& same_frames(before.rooms@, after.rooms@)
    &&& forall|i: int|
        0 <= i < before.rooms@.len() ==> decorated(
            before.rooms@[i].details.aesthetic_modifiers@,
            before.rooms@[i].tiles(),
            (#[trigger] after.rooms@[i]).tiles(),
            before.rooms@[i].dims().length,
            before.rooms@[i].dims().height,
            before.rooms@[i].details.aesthetic_modifiers@.len() as int,
        )
    &&& rest_kept(before, after)
}

/// `after` is `before` with paths carved between the rooms of the edges.
pub open spec fn paths_opened(before: MapArea, after: MapArea, worldgen: WorldgenSettings) -> bool {
    &&& before.graph is Some
    &&& same_frames(before.rooms@, after.rooms@)
    &&& exists|edges: Seq<Edge>, done: int| #[trigger]
        carved_until(
            before.graph.unwrap().reassembled_graph@,
            dims_of(before.rooms@),
            tiles_of(before.rooms@),
            tiles_of(after.rooms@),
            (worldgen.min_passage_width / 2) as u32,
            edges,
            done,
        )
    &&& rest_kept(before, after)
}

/// `after` is `before` with the doors of the connections carved.
pub open spec fn doors_opened(before: MapArea, after: MapArea, worldgen: WorldgenSettings) -> bool {
    &&& before.connections is Some
    &&& same_frames(before.rooms@, after.rooms@)
    &&& tiles_of(after.rooms@) == doors_carved(
        tiles_of(before.rooms@),
        connection_views(before.connections.unwrap()@),
        worldgen.max_passage_width,
        before.connections.unwrap()@.len() as int,
    )
    &&& rest_kept(before, after)
}

/// The states of a map through the second half of a run, from the map
/// that waits for its triangulation to the finished level: after each of
/// the stages, in their order. Walls are raised twice, before the
/// decorations and again after the paths, so that they outlast the carving.
pub open spec fn is_build(
    states: Seq<MapArea>,
    triangles: Vec<usize>,
    hull: Vec<usize>,
    worldgen: WorldgenSettings,
) -> bool {
    &&& states.len() == 11
    &&& triangulation_taken(states[0], states[1], triangles, hull)
    &&& graphs_made(states[1], states[2], worldgen.graph_reassembly_percentage)
    &&& rooms_connected(states[2], states[3], worldgen)
    &&& graph_remade(states[3], states[4])
    &&& unconnected_hidden(states[4], states[5], worldgen)
    &&& walls_raised(states[5], states[6])
    &&& rooms_decorated(states[6], states[7])
    &&& paths_opened(states[7], states[8], worldgen)
    &&& walls_raised(states[8], states[9])
    &&& doors_opened(states[9], states[10], worldgen)
}


/// The first half of a run: places the rooms of the presets, makes every
/// room a main room and pushes overlapping rooms apart. The map that comes
/// out waits for a triangulation of `main_room_centers`.
pub fn place_rooms(worldgen: &WorldgenSettings, rng: &mut WorldgenRng, presets: &RoomPresetResource) -> (r:
    Result<MapArea, WorldgenError>)
    requires
        worldgen.wf(),
        presets.wf(),
    ensures
        match r {
            Ok(map) => {
                &&& map.wf()
                &&& map.triangulation is None
                &&& map.graph is None
                &&& map.connections is None
                &&& forall|i: int|
                    0 <= i < map.rooms@.len() ==> (#[trigger] map.rooms@[i]).details.is_main
                &&& main_ids(map.rooms@).len() == map.rooms@.len()
                &&& exists|states: Seq<MapArea>| #[trigger]
                    is_placement(states, *worldgen, *presets) && states[2] == map
            },
            Err(e) => e == WorldgenError::MissingPreset && worldgen.presets_to_spawn > 0
                && !presets.has_normal_presets(),
        },
{
    let mut map = match generate_rooms(worldgen, rng, presets) {
        Ok(map) => map,
        Err(e) => {
            return Err(e);
        },
    };
    let ghost dropped = map;
    determine_main_rooms(&mut map, worldgen);
    let ghost marked = map;
    separate_rooms(&mut map, worldgen);
    proof {
        assert forall|i: int| 0 <= i < map.rooms@.len() implies (#[trigger] map.rooms@[i]).details.is_main by {
            assert(marked.rooms@[i].details.is_main);
        }
        crate::generation::lemma_all_main(map.rooms@);
        let states = seq![dropped, marked, map];
        assert(is_placement(states, *worldgen, *presets));
    }
    Ok(map)
}

/// The second half of a run: takes the triangulation of the main rooms'
/// centres, builds the graphs, connects the rooms with hallways, and carves
/// walls, decorations, paths and doors. Fails, and leaves the map as it is,
/// where the triangulation does not fit the map.
pub fn build_level(
    map: &mut MapArea,
    triangles: Vec<usize>,
    hull: Vec<usize>,
    worldgen: &WorldgenSettings,
    rng: &mut WorldgenRng,
) -> (r: Result<(), WorldgenError>)
    requires
        old(map).wf(),
    ensures
        final(map).wf(),
        match r {
            Err(e) => e == WorldgenError::MissingTriangulation && !(Triangulation {
                triangles,
                hull,
            }).wf(main_ids(old(map).rooms@).len()) && *final(map) == *old(map),
            Ok(_) => {
                &&& (Triangulation { triangles, hull }).wf(main_ids(old(map).rooms@).len())
                &&& final(map).triangulation == Some(Triangulation { triangles, hull })
                &&& final(map).graph is Some
                &&& final(map).connections is Some
                &&& all_adjacent(connection_views(final(map).connections.unwrap()@))
                &&& final(map).graph.unwrap().reassembled_graph@ == add_pairs(
                    no_edges(),
                    dims_of(final(map).rooms@),
                    connection_pairs(final(map).connections.unwrap()@),
                    final(map).connections.unwrap()@.len() as int,
                )
                &&& old(map).rooms@.len() <= final(map).rooms@.len()
                &&& forall|i: int|
                    0 <= i < old(map).rooms@.len() ==> (#[trigger] final(map).rooms@[i]).dims() == old(
                        map,
                    ).rooms@[i].dims()
                &&& final(map).initial_connections == old(map).initial_connections
                &&& exists|states: Seq<MapArea>| #[trigger]
                    is_build(states, triangles, hull, *worldgen) && states[0] == *old(map)
                        && states[10] == *final(map)
            },
        },
{
    let ghost s0 = *map;
    if !get_triangulation(map, triangles, hull) {
        return Err(WorldgenError::MissingTriangulation);
    }
    let ghost s1 = *map;
    let made = make_graphs(map, worldgen, rng);
    assert(made is Ok);
    let ghost s2 = *map;
    let ghost before_connecting = map.rooms@;
    let connected = connect_rooms(worldgen, map);
    assert(connected is Ok);
    let ghost s3 = *map;
    let ghost realised = map.connections;
    let ghost all_rooms = map.rooms@;
    let remade = remake_graphs(map);
    assert(remade is Ok);
    let ghost s4 = *map;
    let ghost graph = map.graph;
    let stripped = strip_unconnected_rooms(map, worldgen);
    assert(stripped is Ok);
    let ghost s5 = *map;
    assert(dims_of(map.rooms@) =~= dims_of(all_rooms)) by {
        assert(map.rooms@.len() == all_rooms.len());
        assert forall|i: int| 0 <= i < all_rooms.len() implies dims_of(map.rooms@)[i] == dims_of(
            all_rooms,
        )[i] by {
            if worldgen.clear_unconnected_rooms {
                assert(map.rooms@[i].dims() == all_rooms[i].dims());
            }
        }
    }
    let ghost shown = map.rooms@;
    outer_walls(map);
    let ghost s6 = *map;
    let ghost with_walls = map.rooms@;
    aesthetizise(map, rng);
    let ghost s7 = *map;
    let ghost with_decor = map.rooms@;
    let carved = carve_path(map, worldgen);
    assert(carved is Ok);
    let ghost s8 = *map;
    let ghost pathed = map.rooms@;
    outer_walls(map);
    let ghost s9 = *map;
    let ghost rewalled = map.rooms@;
    let doors = carve_doors(map, worldgen);
    assert(doors is Ok);
    proof {
        let states = seq![s0, s1, s2, s3, s4, s5, s6, s7, s8, s9, *map];
        assert(triangulation_taken(s0, s1, triangles, hull));
        assert(graphs_made(s1, s2, worldgen.graph_reassembly_percentage));
        assert(rooms_connected(s2, s3, *worldgen));
        assert(graph_remade(s3, s4));
        assert(unconnected_hidden(s4, s5, *worldgen));
        assert(walls_raised(s5, s6));
        assert(rooms_decorated(s6, s7));
        assert(paths_opened(s7, s8, *worldgen));
        assert(walls_raised(s8, s9));
        assert(doors_opened(s9, *map, *worldgen));
        assert(is_build(states, triangles, hull, *worldgen));
        crate::postprocess::lemma_same_frames_twice(shown, with_walls, with_decor);
        crate::postprocess::lemma_same_frames_twice(shown, with_decor, pathed);
        crate::postprocess::lemma_same_frames_twice(shown, pathed, rewalled);
        crate::postprocess::lemma_same_frames_twice(shown, rewalled, map.rooms@);
        assert(dims_of(map.rooms@) =~= dims_of(shown)) by {
            assert forall|i: int| 0 <= i < shown.len() implies dims_of(map.rooms@)[i] == dims_of(
                shown,
            )[i] by {
                assert(shown[i].same_frame(&map.rooms@[i]));
            }
        }
        assert forall|i: int| 0 <= i < old(map).rooms@.len() implies (#[trigger] map.rooms@[i]).dims()
            == old(map).rooms@[i].dims() by {
            assert(all_rooms[i] == before_connecting[i]);
            assert(dims_of(map.rooms@)[i] == dims_of(all_rooms)[i]);
        }
    }
    Ok(())
}

/// A whole run: builds a new level from the settings and the presets,
/// starting the random number generator from the seed of the settings.
/// `triangulate` is asked once, for the triangulation of the centres of the
/// main rooms: it is handed twice the centres, in the order of the rooms'
/// ids, and hands back the corners of the triangles and the outline, as
/// positions in that list. Fails where no preset is found or the
/// triangulation does not fit the centres, and only there: with presets at
/// hand and a `triangulate` whose every answer fits what it was asked, a
/// level is built.
pub fn regenerate<F: Fn(&Vec<(i64, i64)>) -> (Vec<usize>, Vec<usize>)>(
    worldgen: &WorldgenSettings,
    presets: &RoomPresetResource,
    triangulate: F,
) -> (r: Result<MapArea, WorldgenError>)
    requires
        worldgen.wf(),
        presets.wf(),
        forall|points: &Vec<(i64, i64)>| triangulate.requires((points,)),
    ensures
        match r {
            Ok(map) => {
                &&& map.wf()
                &&& map.triangulation is Some
                &&& map.graph is Some
                &&& map.connections is Some
                &&& all_adjacent(connection_views(map.connections.unwrap()@))
                &&& map.graph.unwrap().reassembled_graph@ == add_pairs(
                    no_edges(),
                    dims_of(map.rooms@),
                    connection_pairs(map.connections.unwrap()@),
                    map.connections.unwrap()@.len() as int,
                )
                &&& exists|placing: Seq<MapArea>, building: Seq<MapArea>, centers: Vec<(i64, i64)>, found: (
                    Vec<usize>,
                    Vec<usize>,
                )| #[trigger]
                    is_run(*worldgen, *presets, placing, building, centers, found)
                        && triangulate.ensures((&centers,), found) && building[10] == map
            },
            Err(e) => {
                ||| e == WorldgenError::MissingPreset && worldgen.presets_to_spawn > 0
                    && !presets.has_normal_presets()
                ||| e == WorldgenError::MissingTriangulation && exists|
                    placing: Seq<MapArea>,
                    centers: Vec<(i64, i64)>,
                    found: (Vec<usize>, Vec<usize>),
                | #[trigger]
                    is_misfit(*worldgen, *presets, placing, centers, found) && triangulate.ensures(
                        (&centers,),
                        found,
                    )
            },
        },
        (worldgen.presets_to_spawn == 0 || presets.has_normal_presets()) && (forall|
            centers: Vec<(i64, i64)>,
            found: (Vec<usize>, Vec<usize>),
        | #[trigger]
            triangulate.ensures((&centers,), found) ==> (Triangulation {
                triangles: found.0,
                hull: found.1,
            }).wf(centers@.len())) ==> r is Ok,
{
    let mut rng = WorldgenRng::new(worldgen.global_seed);
    let mut map = match place_rooms(worldgen, &mut rng, presets) {
        Ok(map) => map,
        Err(e) => {
            return Err(e);
        },
    };
    let ghost placing = choose|states: Seq<MapArea>| #[trigger]
        is_placement(states, *worldgen, *presets) && states[2] == map;
    let centers = main_room_centers(&map);
    let found = triangulate(&centers);
    let ghost asked = centers;
    let ghost answer = found;
    let ghost waiting = map;
    match build_level(&mut map, found.0, found.1, worldgen, &mut rng) {
        Ok(_) => {
            proof {
                let building = choose|states: Seq<MapArea>| #[trigger]
                    is_build(states, answer.0, answer.1, *worldgen) && states[0] == waiting
                        && states[10] == map;
                assert(is_run(*worldgen, *presets, placing, building, asked, answer));
            }
            Ok(map)
        },
        Err(e) => {
            proof {
                assert(asked@.len() == main_ids(waiting.rooms@).len());
                assert(is_misfit(*worldgen, *presets, placing, asked, answer));
            }
            Err(e)
        },
    }
}

/// The first half of a run went through the states `placing`, and the
/// triangulation `found` does not fit the centres `centers` of the main
/// rooms that it left: the corners do not come in threes, or a number names
/// no centre.
pub open spec fn is_misfit(
    worldgen: WorldgenSettings,
    presets: RoomPresetResource,
    placing: Seq<MapArea>,
    centers: Vec<(i64, i64)>,
    found: (Vec<usize>, Vec<usize>),
) -> bool {
    &&& is_placement(placing, worldgen, presets)
    &&& centers@ == main_centers(placing[2].rooms@)
    &&& !(Triangulation { triangles: found.0, hull: found.1 }).wf(
        main_ids(placing[2].rooms@).len(),
    )
}

/// The states of a map through a whole run: through the first half, and
/// from where that ends through the second half, with the triangulation
/// `found` for the centres `centers` of the main rooms.
pub open spec fn is_run(
    worldgen: WorldgenSettings,
    presets: RoomPresetResource,
    placing: Seq<MapArea>,
    building: Seq<MapArea>,
    centers: Vec<(i64, i64)>,
    found: (Vec<usize>, Vec<usize>),
) -> bool {
    &&& is_placement(placing, worldgen, presets)
    &&& centers@ == main_centers(placing[2].rooms@)
    &&& is_build(building, found.0, found.1, worldgen)
    &&& building[0] == placing[2]
}

} // verus!
