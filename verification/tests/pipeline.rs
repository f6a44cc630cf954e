use room_generator::connecting::RoomConnectionType;
use room_generator::generation::{MapArea, WorldgenError, WorldgenSettings};
use room_generator::graphing::main_room_centers;
use room_generator::pipeline::{build_level, place_rooms, regenerate};
use room_generator::presets::{
    NamedPresetRoom, Preset, PresetRoom, PresetRoomPosition, PresetRoomSize, PresetsConfig,
    RoomPresetResource,
};
use room_generator::rng::WorldgenRng;
use room_generator::room::{IVec2, Room, RoomDimensions, Tile, UVec2};
use room_generator::separation::rooms_overlap_exists;

fn square(name: &str, x: i32, y: i32) -> NamedPresetRoom {
    NamedPresetRoom {
        name: name.to_string(),
        room: PresetRoom {
            size: PresetRoomSize::Fixed(UVec2::new(10, 10)),
            position: PresetRoomPosition::Fixed(x, y),
            aesthetics: Vec::new(),
        },
    }
}

fn presets_with(rooms: Vec<NamedPresetRoom>) -> RoomPresetResource {
    RoomPresetResource::new(
        PresetsConfig { start: Vec::new(), normal: vec!["only".to_string()], boss: Vec::new() },
        vec![Preset {
            name: "only".to_string(),
            rooms,
            connections: Vec::new(),
            modifiers: Vec::new(),
        }],
    )
}

fn triangulate(map: &MapArea) -> (Vec<usize>, Vec<usize>) {
    let points: Vec<delaunator::Point> = main_room_centers(map)
        .iter()
        .map(|p| delaunator::Point { x: p.0 as f64 / 2.0, y: p.1 as f64 / 2.0 })
        .collect();
    let found = delaunator::triangulate(&points);
    (found.triangles, found.hull)
}

fn ground(room: &Room, x: u32, y: u32) -> bool {
    room.get_tile(UVec2::new(x, y)) == Some(&Tile::Ground)
}

#[test]
fn two_rooms_twenty_tiles_apart_are_joined_by_one_hallway() {
    let mut settings = WorldgenSettings::default();
    settings.presets_to_spawn = 1;
    settings.spawn_range = 0;
    let presets = presets_with(vec![square("west", 0, 0), square("east", 20, 0)]);
    let mut rng = WorldgenRng::new(settings.global_seed);
    let mut map = place_rooms(&settings, &mut rng, &presets).unwrap();
    assert_eq!(map.rooms.len(), 2);
    assert_eq!(main_room_centers(&map), vec![(10, 10), (50, 10)]);
    let (triangles, hull) = triangulate(&map);
    assert_eq!(build_level(&mut map, triangles, hull, &settings, &mut rng), Ok(()));

    // one straight hallway between the two rooms
    assert_eq!(map.rooms.len(), 3);
    assert_eq!(map.rooms[2].dimensions(), RoomDimensions::new(IVec2::new(10, 0), 10, 10));
    assert!(!map.rooms[2].details.is_main);
    let connections = map.connections.as_ref().unwrap();
    assert_eq!(connections.len(), 2);
    assert_eq!((connections[0].room1_id, connections[0].room2_id), (0, 2));
    assert_eq!((connections[1].room1_id, connections[1].room2_id), (2, 1));
    assert!(connections.iter().all(|c| matches!(c.data, RoomConnectionType::Adjacent(_))));

    // doors at both junctions, and walls at the corners
    for y in 1..9 {
        assert!(ground(&map.rooms[0], 9, y));
        assert!(ground(&map.rooms[2], 0, y));
        assert!(ground(&map.rooms[2], 9, y));
        assert!(ground(&map.rooms[1], 0, y));
    }
    for y in [0, 9] {
        assert!(!ground(&map.rooms[0], 9, y));
        assert!(!ground(&map.rooms[2], 0, y));
        assert!(!ground(&map.rooms[1], 0, y));
    }
    assert!(!ground(&map.rooms[0], 0, 5));
    assert!(!ground(&map.rooms[1], 9, 5));

    // the graph holds the realised connections and nothing else
    let graph = map.graph.as_ref().unwrap();
    let mut edges = graph.reassembled_graph.all_edges();
    edges.sort();
    assert_eq!(edges, vec![(0, 2, 400), (1, 2, 400)]);
    assert_eq!(graph.main_path_rooms, vec![0, 1]);
    assert!(map.rooms.iter().all(|r| r.is_visible));
}

#[test]
fn the_same_seed_builds_the_same_level() {
    let mut settings = WorldgenSettings::default();
    settings.presets_to_spawn = 6;
    settings.spawn_range = 30;
    settings.graph_reassembly_percentage = 50;
    let presets = presets_with(vec![square("a", 0, 0), square("b", 14, 3)]);
    let mut pictures = Vec::new();
    for _ in 0..2 {
        let mut rng = WorldgenRng::new(settings.global_seed);
        let mut map = place_rooms(&settings, &mut rng, &presets).unwrap();
        assert_eq!(map.rooms.len(), 12);
        assert!(map.rooms.iter().all(|r| r.details.is_main));
        let (triangles, hull) = triangulate(&map);
        assert_eq!(build_level(&mut map, triangles, hull, &settings, &mut rng), Ok(()));
        assert!(map.rooms.len() >= 12);
        let connections = map.connections.as_ref().unwrap();
        assert!(connections.iter().all(|c| c.is_adjacent()));
        assert!(connections.iter().all(|c| c.room1_id < map.rooms.len()));
        let picture: Vec<(RoomDimensions, Vec<Vec<Tile>>, bool)> = map
            .rooms
            .iter()
            .map(|r| (r.dimensions(), r.rows_of_tiles(), r.is_visible))
            .collect();
        pictures.push(picture);
    }
    assert_eq!(pictures[0], pictures[1]);
}

#[test]
fn rooms_dropped_on_each_other_are_pushed_apart() {
    let mut settings = WorldgenSettings::default();
    settings.presets_to_spawn = 4;
    settings.spawn_range = 5;
    let presets = presets_with(vec![square("a", 0, 0)]);
    let mut rng = WorldgenRng::new(12);
    let map = place_rooms(&settings, &mut rng, &presets).unwrap();
    assert_eq!(map.rooms.len(), 4);
    assert!(!rooms_overlap_exists(&map.rooms));
    // before the separation they did overlap: no room lies where it was dropped
    assert!(map.rooms.iter().any(|r| r.anchor_grid().x.abs() > 5 || r.anchor_grid().y.abs() > 5));
}

#[test]
fn a_triangulation_that_does_not_fit_stops_the_run() {
    let settings = WorldgenSettings::default();
    let mut map = MapArea::new();
    map.rooms.push(Room::new(0, 10, 10, IVec2::new(0, 0), true));
    map.rooms.push(Room::new(1, 10, 10, IVec2::new(20, 0), true));
    let mut rng = WorldgenRng::new(1);
    assert_eq!(
        build_level(&mut map, vec![], vec![0, 2], &settings, &mut rng),
        Err(WorldgenError::MissingTriangulation)
    );
    assert_eq!(map.rooms.len(), 2);
    assert!(map.triangulation.is_none() && map.graph.is_none() && map.connections.is_none());
    assert_eq!(
        place_rooms(&settings, &mut rng, &RoomPresetResource::default()).err(),
        Some(WorldgenError::MissingPreset)
    );
}

#[test]
fn a_level_without_rooms_is_empty() {
    let settings = WorldgenSettings::default();
    let mut map = MapArea::new();
    let mut rng = WorldgenRng::new(1);
    assert_eq!(build_level(&mut map, vec![], vec![], &settings, &mut rng), Ok(()));
    assert!(map.rooms.is_empty());
    assert!(map.connections.as_ref().unwrap().is_empty());
    assert!(map.graph.as_ref().unwrap().main_path_rooms.is_empty());
}

fn delaunay(centers: &Vec<(i64, i64)>) -> (Vec<usize>, Vec<usize>) {
    let points: Vec<delaunator::Point> = centers
        .iter()
        .map(|p| delaunator::Point { x: p.0 as f64 / 2.0, y: p.1 as f64 / 2.0 })
        .collect();
    let found = delaunator::triangulate(&points);
    (found.triangles, found.hull)
}

#[test]
fn a_whole_run_is_one_call() {
    let mut settings = WorldgenSettings::default();
    settings.presets_to_spawn = 1;
    settings.spawn_range = 0;
    let presets = presets_with(vec![square("west", 0, 0), square("east", 0, 25)]);
    let map = regenerate(&settings, &presets, delaunay).unwrap();
    assert_eq!(map.rooms.len(), 3);
    assert_eq!(map.rooms[2].dimensions(), RoomDimensions::new(IVec2::new(0, 10), 10, 15));
    assert_eq!(map.connections.as_ref().unwrap().len(), 2);
    for x in 1..9 {
        assert!(ground(&map.rooms[0], x, 9));
        assert!(ground(&map.rooms[2], x, 0));
        assert!(ground(&map.rooms[2], x, 14));
        assert!(ground(&map.rooms[1], x, 0));
    }
    // the same settings build the same level
    let again = regenerate(&settings, &presets, delaunay).unwrap();
    for k in 0..3 {
        assert_eq!(again.rooms[k].rows_of_tiles(), map.rooms[k].rows_of_tiles());
    }
    // a triangulation that names a room that is not there stops the run
    let broken = regenerate(&settings, &presets, |_| (vec![0, 1, 2], vec![]));
    assert_eq!(broken.err(), Some(WorldgenError::MissingTriangulation));
    let none = regenerate(&settings, &RoomPresetResource::default(), delaunay);
    assert_eq!(none.err(), Some(WorldgenError::MissingPreset));
}
