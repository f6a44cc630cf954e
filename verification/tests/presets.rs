use room_generator::aesthetics::{Aesthetics, CellularAutomata};
use room_generator::generation::{
    determine_main_rooms, generate_rooms, place_preset, MapArea, WorldgenError, WorldgenSettings,
    SPAWN_LIMIT,
};
use room_generator::presets::{
    generate_rooms_from_preset, same_text, NamedPresetRoom, PositionalModifier, Preset, PresetRoom,
    PresetRoomConnection, PresetRoomPosition, PresetRoomSize, PresetsConfig, RoomPresetResource,
    PRESET_LIMIT,
};
use room_generator::rng::WorldgenRng;
use room_generator::room::{
    IVec2, Room, RoomDetails, RoomDimensions, RoomType, RoomWithDetailsNoId, StructureCollection,
    Tile, UVec2,
};

fn room(name: &str, size: PresetRoomSize, position: PresetRoomPosition) -> NamedPresetRoom {
    NamedPresetRoom {
        name: name.to_string(),
        room: PresetRoom { size, position, aesthetics: Vec::new() },
    }
}

fn link(a: &str, b: &str) -> PresetRoomConnection {
    PresetRoomConnection { room1: a.to_string(), room2: b.to_string() }
}

fn pair_preset(name: &str) -> Preset {
    Preset {
        name: name.to_string(),
        rooms: vec![
            room("left", PresetRoomSize::Fixed(UVec2::new(10, 10)), PresetRoomPosition::Fixed(0, 0)),
            room("right", PresetRoomSize::Fixed(UVec2::new(8, 6)), PresetRoomPosition::Fixed(20, 1)),
        ],
        connections: vec![link("right", "left")],
        modifiers: vec![PositionalModifier::NextTo("left".to_string(), "right".to_string())],
    }
}

fn presets_of(normal: &[&str], presets: Vec<Preset>) -> RoomPresetResource {
    RoomPresetResource::new(
        PresetsConfig {
            start: vec!["entry".to_string()],
            normal: normal.iter().map(|n| n.to_string()).collect(),
            boss: Vec::new(),
        },
        presets,
    )
}

#[test]
fn texts_are_compared_letter_by_letter() {
    assert!(same_text("normal", "normal"));
    assert!(!same_text("normal", "Normal"));
    assert!(!same_text("normal", "normal "));
    assert!(same_text("", ""));
}

#[test]
fn sizes_and_places_have_limits() {
    assert_eq!(PRESET_LIMIT, 1 << 26);
    assert!(PresetRoomSize::Fixed(UVec2::new(10, 10)).is_valid());
    assert!(PresetRoomSize::Fixed(UVec2::new(PRESET_LIMIT, 1)).is_valid());
    assert!(!PresetRoomSize::Fixed(UVec2::new(PRESET_LIMIT + 1, 1)).is_valid());
    assert!(PresetRoomSize::Range((3, 5), (2, 2)).is_valid());
    assert!(!PresetRoomSize::Range((5, 3), (2, 2)).is_valid());
    assert!(!PresetRoomSize::Range((3, 5), (2, PRESET_LIMIT + 1)).is_valid());
    assert!(PresetRoomSize::Dynamic.is_valid());
    assert!(PresetRoomPosition::Fixed(-(PRESET_LIMIT as i32), PRESET_LIMIT as i32).is_valid());
    assert!(!PresetRoomPosition::Fixed(0, PRESET_LIMIT as i32 + 1).is_valid());
    assert!(!PresetRoomPosition::Fixed(-(PRESET_LIMIT as i32) - 1, 0).is_valid());
    assert!(PresetRoomPosition::Dynamic.is_valid());
}

#[test]
fn size_and_place_are_given_drawn_or_left_open() {
    let mut rng = WorldgenRng::new(9);
    assert_eq!(PresetRoomSize::Fixed(UVec2::new(3, 4)).get(&mut rng), Some(UVec2::new(3, 4)));
    assert_eq!(PresetRoomSize::Dynamic.get(&mut rng), None);
    let mut seen = Vec::new();
    for _ in 0..200 {
        let size = PresetRoomSize::Range((3, 5), (7, 7)).get(&mut rng).unwrap();
        assert!(3 <= size.x && size.x <= 5);
        assert_eq!(size.y, 7);
        if !seen.contains(&size.x) {
            seen.push(size.x);
        }
    }
    seen.sort();
    assert_eq!(seen, vec![3, 4, 5]);
    assert_eq!(PresetRoomPosition::Fixed(-3, 4).get(&mut rng), Some(IVec2::new(-3, 4)));
    assert_eq!(PresetRoomPosition::Dynamic.get(&mut rng), None);
}

#[test]
fn a_preset_has_to_name_its_own_rooms() {
    let mut preset = pair_preset("pair");
    assert!(preset.is_valid());
    assert_eq!(preset.room_index(&"left".to_string()), Some(0));
    assert_eq!(preset.room_index(&"right".to_string()), Some(1));
    assert_eq!(preset.room_index(&"middle".to_string()), None);
    preset.connections.push(link("left", "middle"));
    assert!(!preset.is_valid());
    let mut preset = pair_preset("pair");
    preset.rooms[1].room.size = PresetRoomSize::Range((9, 2), (1, 1));
    assert!(!preset.is_valid());
    let mut preset = pair_preset("pair");
    preset.rooms[0].room.position = PresetRoomPosition::Fixed(i32::MAX, 0);
    assert!(!preset.is_valid());
    // a name that comes twice means the first room of that name
    let mut preset = pair_preset("pair");
    preset.rooms.push(room("left", PresetRoomSize::Dynamic, PresetRoomPosition::Dynamic));
    assert_eq!(preset.room_index(&"left".to_string()), Some(0));
}

#[test]
fn rooms_are_made_as_the_preset_asks() {
    let mut preset = pair_preset("pair");
    preset.rooms.push(room("open", PresetRoomSize::Dynamic, PresetRoomPosition::Dynamic));
    preset.rooms.push(room(
        "drawn",
        PresetRoomSize::Range((3, 5), (20, 30)),
        PresetRoomPosition::Fixed(-7, -8),
    ));
    preset.rooms[1].room.aesthetics =
        vec![Aesthetics::CellularAutomata(CellularAutomata { iterations: 3, wall_percentage: 45 })];
    preset.connections.push(link("open", "drawn"));
    let mut rng = WorldgenRng::new(4);
    let (rooms, connections) = generate_rooms_from_preset(&preset, &mut rng);
    assert_eq!(rooms.structures.len(), 4);
    assert_eq!(rooms.structures[0].dimensions, RoomDimensions::new(IVec2::new(0, 0), 10, 10));
    assert_eq!(rooms.structures[1].dimensions, RoomDimensions::new(IVec2::new(20, 1), 8, 6));
    assert_eq!(rooms.structures[2].dimensions, RoomDimensions::new(IVec2::new(0, 0), 10, 10));
    let drawn = rooms.structures[3].dimensions;
    assert_eq!(drawn.anchor, IVec2::new(-7, -8));
    assert!(3 <= drawn.length && drawn.length <= 5);
    assert!(20 <= drawn.height && drawn.height <= 30);
    assert!(rooms.structures.iter().all(|r| !r.details.is_main));
    assert!(rooms.structures.iter().all(|r| r.details.room_type == RoomType::Normal));
    assert_eq!(rooms.structures[1].details.aesthetic_modifiers.len(), 1);
    assert!(rooms.structures[0].details.aesthetic_modifiers.is_empty());
    assert_eq!(connections, vec![(1, 0), (2, 3)]);
}

#[test]
fn presets_are_found_by_name_and_by_kind() {
    let presets = presets_of(&["pair", "single"], vec![pair_preset("single"), pair_preset("pair")]);
    assert_eq!(presets.get_preset_by_name("pair").unwrap().name, "pair");
    assert_eq!(presets.get_preset_by_name("single").unwrap().name, "single");
    assert!(presets.get_preset_by_name("entry").is_none());
    let mut rng = WorldgenRng::new(3);
    let mut seen = Vec::new();
    for _ in 0..100 {
        let name = presets.get_preset_by_type("normal", &mut rng).unwrap().name.clone();
        assert!(name == "pair" || name == "single");
        if !seen.contains(&name) {
            seen.push(name);
        }
    }
    assert_eq!(seen.len(), 2);
    // a name without a preset, a kind without names, a kind that is not known
    assert!(presets.get_preset_by_type("start", &mut rng).is_none());
    assert!(presets.get_preset_by_type("boss", &mut rng).is_none());
    assert!(presets.get_preset_by_type("shop", &mut rng).is_none());
}

#[test]
fn the_settings_start_with_the_usual_values() {
    let s = WorldgenSettings::default();
    assert_eq!(s.tile_size, UVec2::new(8, 8));
    assert_eq!(s.global_seed, 44);
    assert_eq!(s.presets_to_spawn, 5);
    assert_eq!(s.spawn_range, 100);
    assert_eq!(s.separation_factor, 2);
    assert_eq!(s.graph_reassembly_percentage, 30);
    assert!(s.clear_unconnected_rooms);
    assert_eq!(s.min_passage_width, 6);
    assert_eq!(s.max_passage_width, 12);
    assert_eq!(s.threshold, 9999);
    assert!(s.is_valid());
    let mut s = WorldgenSettings::default();
    s.spawn_range = -1;
    assert!(!s.is_valid());
    s.spawn_range = SPAWN_LIMIT;
    assert!(s.is_valid());
    s.spawn_range = SPAWN_LIMIT + 1;
    assert!(!s.is_valid());
    assert_eq!(SPAWN_LIMIT, 1 << 27);
}

#[test]
fn a_preset_is_placed_under_the_next_ids() {
    let mut map = MapArea::new();
    map.rooms.push(Room::new(0, 4, 4, IVec2::new(-50, -50), true));
    map.initial_connections = vec![(0, 0)];
    let mut decorated =
        RoomDetails { is_main: false, room_type: RoomType::Shop, aesthetic_modifiers: Vec::new() };
    decorated.aesthetic_modifiers.push(Aesthetics::CellularAutomata(CellularAutomata {
        iterations: 1,
        wall_percentage: 2,
    }));
    let rooms = StructureCollection::new(vec![
        RoomWithDetailsNoId {
            dimensions: RoomDimensions::new(IVec2::new(0, 0), 10, 10),
            details: decorated,
        },
        RoomWithDetailsNoId {
            dimensions: RoomDimensions::new(IVec2::new(20, 1), 8, 6),
            details: RoomDetails {
                is_main: true,
                room_type: RoomType::Normal,
                aesthetic_modifiers: Vec::new(),
            },
        },
    ]);
    place_preset(&mut map, &rooms, &vec![(1, 0)], IVec2::new(-3, 7));
    assert_eq!(map.rooms.len(), 3);
    assert_eq!(map.rooms[0].dimensions(), RoomDimensions::new(IVec2::new(-50, -50), 4, 4));
    assert_eq!(map.rooms[1].id(), 1);
    assert_eq!(map.rooms[1].dimensions(), RoomDimensions::new(IVec2::new(-3, 7), 10, 10));
    assert_eq!(map.rooms[1].details.room_type, RoomType::Shop);
    assert_eq!(map.rooms[1].details.aesthetic_modifiers.len(), 1);
    assert!(!map.rooms[1].details.is_main);
    assert_eq!(map.rooms[2].id(), 2);
    assert_eq!(map.rooms[2].dimensions(), RoomDimensions::new(IVec2::new(17, 8), 8, 6));
    assert!(map.rooms[2].details.is_main);
    assert_eq!(map.rooms[2].get_tile(UVec2::new(7, 5)), Some(&Tile::Ground));
    assert_eq!(map.initial_connections, vec![(0, 0), (2, 1)]);
}

#[test]
fn rooms_are_generated_from_presets() {
    let presets = presets_of(&["pair"], vec![pair_preset("pair")]);
    let mut settings = WorldgenSettings::default();
    settings.presets_to_spawn = 3;
    settings.spawn_range = 40;
    let mut rng = WorldgenRng::new(44);
    let map = generate_rooms(&settings, &mut rng, &presets).unwrap();
    assert_eq!(map.rooms.len(), 6);
    assert_eq!(map.initial_connections, vec![(1, 0), (3, 2), (5, 4)]);
    assert!(map.triangulation.is_none() && map.graph.is_none() && map.connections.is_none());
    for k in 0..3 {
        let left = &map.rooms[2 * k];
        let right = &map.rooms[2 * k + 1];
        assert_eq!(left.id(), 2 * k);
        assert_eq!(right.id(), 2 * k + 1);
        assert_eq!((left.length(), left.height()), (10, 10));
        assert_eq!((right.length(), right.height()), (8, 6));
        let offset = left.anchor_grid();
        assert!(-40 <= offset.x && offset.x <= 40 && -40 <= offset.y && offset.y <= 40);
        assert_eq!(right.anchor_grid(), IVec2::new(offset.x + 20, offset.y + 1));
        assert!(!left.details.is_main);
    }
    // the same seed places the same rooms
    let mut again = WorldgenRng::new(44);
    let second = generate_rooms(&settings, &mut again, &presets).unwrap();
    for k in 0..6 {
        assert_eq!(second.rooms[k].dimensions(), map.rooms[k].dimensions());
    }
    settings.presets_to_spawn = 0;
    assert!(generate_rooms(&settings, &mut rng, &presets).unwrap().rooms.is_empty());
}

#[test]
fn without_a_preset_no_rooms_are_generated() {
    let settings = WorldgenSettings::default();
    let mut rng = WorldgenRng::new(44);
    let none = presets_of(&[], vec![pair_preset("pair")]);
    assert_eq!(generate_rooms(&settings, &mut rng, &none).err(), Some(WorldgenError::MissingPreset));
    let unnamed = presets_of(&["other"], vec![pair_preset("pair")]);
    assert_eq!(
        generate_rooms(&settings, &mut rng, &unnamed).err(),
        Some(WorldgenError::MissingPreset)
    );
    let empty = RoomPresetResource::default();
    assert_eq!(generate_rooms(&settings, &mut rng, &empty).err(), Some(WorldgenError::MissingPreset));
}

#[test]
fn every_room_becomes_a_main_room() {
    let presets = presets_of(&["pair"], vec![pair_preset("pair")]);
    let mut settings = WorldgenSettings::default();
    settings.presets_to_spawn = 2;
    let mut rng = WorldgenRng::new(1);
    let mut map = generate_rooms(&settings, &mut rng, &presets).unwrap();
    assert!(map.get_main_rooms().is_empty());
    assert!(map.main_room_ids().is_empty());
    let before: Vec<RoomDimensions> = map.rooms.iter().map(|r| r.dimensions()).collect();
    determine_main_rooms(&mut map, &settings);
    assert!(map.rooms.iter().all(|r| r.details.is_main));
    assert_eq!(map.main_room_ids(), vec![0, 1, 2, 3]);
    let main: Vec<usize> = map.get_main_rooms().iter().map(|r| r.id()).collect();
    assert_eq!(main, vec![0, 1, 2, 3]);
    let after: Vec<RoomDimensions> = map.rooms.iter().map(|r| r.dimensions()).collect();
    assert_eq!(before, after);
    assert_eq!(map.next_room_id(), 4);
}

#[test]
fn a_point_belongs_to_the_room_with_the_least_id() {
    let mut map = MapArea::new();
    map.rooms.push(Room::new(0, 10, 10, IVec2::new(0, 0), true));
    map.rooms.push(Room::new(1, 10, 10, IVec2::new(5, 5), false));
    map.rooms.push(Room::new(2, 10, 10, IVec2::new(-20, 0), true));
    assert_eq!(map.point_to_room((7, 7)), Some(0));
    assert_eq!(map.point_to_room((12, 7)), Some(1));
    assert_eq!(map.point_to_room((-11, 9)), Some(2));
    assert_eq!(map.point_to_room((-10, 9)), None);
    assert_eq!(map.point_to_room((15, 15)), None);
    assert_eq!(map.main_room_ids(), vec![0, 2]);
}
