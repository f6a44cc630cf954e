use room_generator::aesthetics::{
    noise_is_wall, place_pillars, Aesthetics, Axis, CellularAutomata, PillarGenerationType, Pillars,
};
use room_generator::connecting::{
    find_out_connection_type, AdjacentTiles, RoomConnection, RoomConnectionType,
};
use room_generator::generation::{MapArea, WorldgenError, WorldgenSettings};
use room_generator::graphing::{MyGraph, RoomGraph};
use room_generator::postprocess::{
    aesthetizise, carve_along_path, carve_doors, carve_path, decorate_room, open_square,
    outer_walls, same_tile, squared_tile_distance, strip_unconnected_rooms, tile_successors,
};
use room_generator::rng::WorldgenRng;
use room_generator::room::{IVec2, Room, Tile, UVec2};

const W: Tile = Tile::Wall;
const G: Tile = Tile::Ground;

fn map_of(rooms: &[(i32, i32, usize, usize)]) -> MapArea {
    let mut map = MapArea::new();
    for (id, r) in rooms.iter().enumerate() {
        map.rooms.push(Room::new(id, r.2, r.3, IVec2::new(r.0, r.1), true));
    }
    map
}

fn adjacent(a: usize, b: usize) -> RoomConnection {
    RoomConnection::new(a, b, RoomConnectionType::Adjacent(AdjacentTiles::default()))
}

fn walls(room: &Room) -> Vec<(usize, usize)> {
    let mut out = Vec::new();
    for (y, row) in room.rows_of_tiles().iter().enumerate() {
        for (x, t) in row.iter().enumerate() {
            if *t == W {
                out.push((x, y));
            }
        }
    }
    out
}

fn graph_with(edges: &[(usize, usize)]) -> RoomGraph {
    let mut g = MyGraph::new();
    for e in edges {
        g.add_edge(e.0, e.1, 1);
    }
    RoomGraph { mst: g.clone(), reassembled_graph: g, main_path_rooms: Vec::new() }
}

#[test]
fn rooms_without_a_connection_are_hidden() {
    let mut settings = WorldgenSettings::default();
    let mut map = map_of(&[(0, 0, 5, 5), (5, 0, 5, 5), (40, 0, 5, 5), (10, 0, 5, 5)]);
    assert_eq!(
        strip_unconnected_rooms(&mut map, &settings),
        Err(WorldgenError::MissingConnections)
    );
    map.connections = Some(vec![adjacent(0, 1), adjacent(3, 1)]);
    map.rooms[1].is_visible = false;
    assert_eq!(strip_unconnected_rooms(&mut map, &settings), Ok(()));
    let shown: Vec<bool> = map.rooms.iter().map(|r| r.is_visible).collect();
    assert_eq!(shown, vec![true, false, false, true]);
    assert_eq!(map.rooms.len(), 4);
    // switched off, nothing is hidden, and no connections are needed
    settings.clear_unconnected_rooms = false;
    let mut map = map_of(&[(0, 0, 5, 5), (5, 0, 5, 5)]);
    assert_eq!(strip_unconnected_rooms(&mut map, &settings), Ok(()));
    assert!(map.rooms.iter().all(|r| r.is_visible));
}

#[test]
fn every_room_gets_outer_walls() {
    let mut map = map_of(&[(0, 0, 3, 3), (5, 0, 2, 4)]);
    outer_walls(&mut map);
    assert_eq!(map.rooms[0].rows_of_tiles(), vec![vec![W, W, W], vec![W, G, W], vec![W, W, W]]);
    assert_eq!(map.rooms[1].rows_of_tiles(), vec![vec![W, W]; 4]);
}

#[test]
fn doors_are_carved_into_both_rooms_of_a_connection() {
    let mut settings = WorldgenSettings::default();
    settings.min_passage_width = 3;
    settings.max_passage_width = 12;
    let mut map = map_of(&[(0, 0, 5, 5), (5, 0, 5, 5), (20, 0, 5, 5)]);
    assert_eq!(carve_doors(&mut map, &settings), Err(WorldgenError::MissingConnections));
    let kind = find_out_connection_type(&map.rooms[0], &map.rooms[1], &map, &settings);
    map.connections = Some(vec![
        RoomConnection::new(0, 1, kind),
        RoomConnection::new(1, 2, RoomConnectionType::Separated),
    ]);
    outer_walls(&mut map);
    assert_eq!(carve_doors(&mut map, &settings), Ok(()));
    // the border has five tiles; the first and the last stay wall
    for y in 1..4 {
        assert_eq!(map.rooms[0].get_tile(UVec2::new(4, y)), Some(&G));
        assert_eq!(map.rooms[1].get_tile(UVec2::new(0, y)), Some(&G));
    }
    for y in [0, 4] {
        assert_eq!(map.rooms[0].get_tile(UVec2::new(4, y)), Some(&W));
        assert_eq!(map.rooms[1].get_tile(UVec2::new(0, y)), Some(&W));
    }
    assert_eq!(walls(&map.rooms[0]).len(), 16 - 3);
    assert_eq!(walls(&map.rooms[1]).len(), 16 - 3);
    assert_eq!(walls(&map.rooms[2]).len(), 16);
}

#[test]
fn a_door_is_no_wider_than_the_largest_passage() {
    let mut settings = WorldgenSettings::default();
    settings.min_passage_width = 3;
    settings.max_passage_width = 2;
    let mut map = map_of(&[(0, 0, 5, 7), (0, 7, 5, 5)]);
    let kind = find_out_connection_type(&map.rooms[0], &map.rooms[1], &map, &settings);
    map.connections = Some(vec![RoomConnection::new(0, 1, kind)]);
    outer_walls(&mut map);
    assert_eq!(carve_doors(&mut map, &settings), Ok(()));
    let top: Vec<Tile> = (0..5).map(|x| *map.rooms[0].get_tile(UVec2::new(x, 6)).unwrap()).collect();
    assert_eq!(top, vec![W, G, G, W, W]);
    let bottom: Vec<Tile> =
        (0..5).map(|x| *map.rooms[1].get_tile(UVec2::new(x, 0)).unwrap()).collect();
    assert_eq!(bottom, vec![W, G, G, W, W]);
    // a border of two tiles or fewer leaves no door
    let mut map = map_of(&[(0, 0, 5, 5), (3, 5, 5, 5)]);
    settings.min_passage_width = 2;
    let kind = find_out_connection_type(&map.rooms[0], &map.rooms[1], &map, &settings);
    assert!(matches!(kind, RoomConnectionType::Adjacent(_)));
    map.connections = Some(vec![RoomConnection::new(0, 1, kind)]);
    outer_walls(&mut map);
    assert_eq!(carve_doors(&mut map, &settings), Ok(()));
    assert_eq!(walls(&map.rooms[0]).len(), 16);
    assert_eq!(walls(&map.rooms[1]).len(), 16);
}

#[test]
fn steps_lead_to_tiles_inside_rooms() {
    let mut map = map_of(&[(0, 0, 3, 3), (3, 0, 3, 3)]);
    map.rooms[1].set_tile(UVec2::new(0, 1), W);
    assert_eq!(
        tile_successors(IVec2::new(2, 1), &map),
        vec![(IVec2::new(3, 1), 100), (IVec2::new(2, 2), 1), (IVec2::new(1, 1), 1), (IVec2::new(2, 0), 1)]
    );
    assert_eq!(
        tile_successors(IVec2::new(0, 0), &map),
        vec![(IVec2::new(1, 0), 1), (IVec2::new(0, 1), 1)]
    );
    assert_eq!(tile_successors(IVec2::new(-1, 1), &map), vec![(IVec2::new(0, 1), 1)]);
    assert!(tile_successors(IVec2::new(50, 50), &map).is_empty());
    assert!(tile_successors(IVec2::new(i32::MAX, i32::MIN), &map).is_empty());
    assert_eq!(squared_tile_distance(IVec2::new(1, 2), IVec2::new(4, -2)), 25);
    assert_eq!(
        squared_tile_distance(IVec2::new(i32::MIN, i32::MIN), IVec2::new(i32::MAX, i32::MAX)),
        2 * (u32::MAX as u128) * (u32::MAX as u128)
    );
    assert!(same_tile(IVec2::new(1, 2), IVec2::new(1, 2)));
    assert!(!same_tile(IVec2::new(1, 2), IVec2::new(2, 1)));
}

#[test]
fn a_square_of_ground_is_opened_around_a_position() {
    let mut room = Room::new(0, 5, 4, IVec2::new(0, 0), true);
    room.fill_area(0, 5, 0, 4, W);
    open_square(&mut room, UVec2::new(1, 2), 1);
    assert_eq!(
        room.rows_of_tiles(),
        vec![
            vec![W, W, W, W, W],
            vec![G, G, G, W, W],
            vec![G, G, G, W, W],
            vec![G, G, G, W, W],
        ]
    );
    open_square(&mut room, UVec2::new(4, 0), 0);
    assert_eq!(room.rows_of_tiles()[0], vec![W, W, W, W, G]);
    open_square(&mut room, UVec2::new(0, 0), u32::MAX);
    assert!(walls(&room).is_empty());
}

#[test]
fn a_path_is_carved_as_wide_as_the_passage() {
    let mut map = map_of(&[(0, 0, 5, 5), (5, 0, 5, 5)]);
    outer_walls(&mut map);
    let path = vec![IVec2::new(3, 2), IVec2::new(4, 2), IVec2::new(5, 2), IVec2::new(99, 2)];
    carve_along_path(&mut map, &path, 2);
    // half the width is one tile: rows 1 to 3, from column 2 on, and into the next room
    for y in 1..4 {
        assert_eq!(map.rooms[0].get_tile(UVec2::new(4, y)), Some(&G));
        assert_eq!(map.rooms[1].get_tile(UVec2::new(0, y)), Some(&G));
        assert_eq!(map.rooms[1].get_tile(UVec2::new(1, y)), Some(&G));
        assert_eq!(map.rooms[0].get_tile(UVec2::new(0, y)), Some(&W));
    }
    assert_eq!(map.rooms[0].get_tile(UVec2::new(4, 0)), Some(&W));
    assert_eq!(map.rooms[0].get_tile(UVec2::new(4, 4)), Some(&W));
    assert_eq!(walls(&map.rooms[0]).len(), 16 - 3);
    assert_eq!(walls(&map.rooms[1]).len(), 16 - 3);
}

#[test]
fn paths_are_carved_between_connected_rooms() {
    let mut settings = WorldgenSettings::default();
    settings.min_passage_width = 2;
    let mut map = map_of(&[(0, 0, 5, 5), (5, 0, 5, 5), (50, 50, 5, 5)]);
    outer_walls(&mut map);
    assert_eq!(carve_path(&mut map, &settings), Err(WorldgenError::MissingGraph));
    assert_eq!(walls(&map.rooms[0]).len(), 16);
    map.graph = Some(graph_with(&[(0, 1)]));
    assert_eq!(carve_path(&mut map, &settings), Ok(()));
    // the walls between the two centres are opened
    assert!((0..5).any(|y| map.rooms[0].get_tile(UVec2::new(4, y)) == Some(&G)));
    assert!((0..5).any(|y| map.rooms[1].get_tile(UVec2::new(0, y)) == Some(&G)));
    assert_eq!(map.rooms[0].get_tile(UVec2::new(0, 0)), Some(&W));
    assert_eq!(walls(&map.rooms[2]).len(), 16);
    assert_eq!(map.rooms[0].length(), 5);
}

#[test]
fn no_path_leads_to_a_room_that_stands_alone() {
    let mut settings = WorldgenSettings::default();
    settings.min_passage_width = 2;
    let mut map = map_of(&[(0, 0, 5, 5), (50, 50, 5, 5)]);
    outer_walls(&mut map);
    map.graph = Some(graph_with(&[(0, 1)]));
    assert_eq!(carve_path(&mut map, &settings), Ok(()));
    assert_eq!(walls(&map.rooms[0]).len(), 16);
    assert_eq!(walls(&map.rooms[1]).len(), 16);
}

#[test]
fn pillars_stand_on_a_grid() {
    let mut room = Room::new(0, 10, 10, IVec2::new(0, 0), true);
    let pillars = Pillars {
        amount: 1,
        pillar_size: 2,
        generation_type: PillarGenerationType::BothAxes,
    };
    let mut rng = WorldgenRng::new(3);
    assert_eq!(pillars.pillar_anchors(10, 10, &mut rng), vec![(5, 5)]);
    pillars.generate_features(&mut room, false, &mut rng);
    assert_eq!(walls(&room), vec![(4, 4), (5, 4), (4, 5), (5, 5)]);

    let mut room = Room::new(0, 9, 10, IVec2::new(0, 0), true);
    let pillars = Pillars {
        amount: 2,
        pillar_size: 1,
        generation_type: PillarGenerationType::BothAxes,
    };
    assert_eq!(pillars.pillar_anchors(9, 10, &mut rng), vec![(3, 3), (3, 6), (6, 3), (6, 6)]);
    pillars.generate_features(&mut room, false, &mut rng);
    assert_eq!(walls(&room), vec![(3, 3), (6, 3), (3, 6), (6, 6)]);
}

#[test]
fn pillars_along_one_axis_are_placed_at_random_on_the_other() {
    let mut rng = WorldgenRng::new(11);
    for _ in 0..20 {
        let along_x = Pillars {
            amount: 2,
            pillar_size: 1,
            generation_type: PillarGenerationType::Axis(Axis::X),
        };
        let anchors = along_x.pillar_anchors(9, 12, &mut rng);
        assert_eq!(anchors.len(), 2);
        assert_eq!((anchors[0].0, anchors[1].0), (3, 6));
        assert!(anchors.iter().all(|a| [0, 4, 8].contains(&a.1)));
        let along_y = Pillars {
            amount: 3,
            pillar_size: 1,
            generation_type: PillarGenerationType::Axis(Axis::Y),
        };
        let anchors = along_y.pillar_anchors(9, 12, &mut rng);
        assert_eq!(anchors.iter().map(|a| a.1).collect::<Vec<usize>>(), vec![3, 6, 9]);
        assert!(anchors.iter().all(|a| [0, 2, 4, 6].contains(&a.0)));
    }
}

#[test]
fn a_pillar_is_cut_off_at_the_edge_of_the_room() {
    let mut room = Room::new(0, 4, 4, IVec2::new(0, 0), true);
    place_pillars(&mut room, &vec![(0, 3), (9, 9)], 3);
    // around (0, 3): columns 0 to 1, rows 2 to 4, of which row 4 is no row of the room
    assert_eq!(walls(&room), vec![(0, 2), (1, 2), (0, 3), (1, 3)]);
    let mut room = Room::new(0, 4, 4, IVec2::new(0, 0), true);
    place_pillars(&mut room, &vec![(2, 2)], 0);
    assert!(walls(&room).is_empty());
    place_pillars(&mut room, &vec![(2, 2)], usize::MAX);
    assert_eq!(walls(&room).len(), 16);
}

#[test]
fn noise_is_a_wall_when_the_draw_is_below_the_chance() {
    assert!(noise_is_wall(44, 45));
    assert!(!noise_is_wall(45, 45));
    assert!(!noise_is_wall(0, 0));
    assert!(noise_is_wall(99, 100));
}

#[test]
fn a_cave_without_smoothing_is_the_noise_within_walls() {
    let cave = CellularAutomata { iterations: 0, wall_percentage: 0 };
    let mut room = Room::new(0, 6, 5, IVec2::new(0, 0), true);
    room.set_tile(UVec2::new(2, 2), W);
    let mut rng = WorldgenRng::new(5);
    // no noise at all: the outer ring, and the wall that was there
    cave.generate_features(&mut room, false, &mut rng);
    let mut expected = Room::new(0, 6, 5, IVec2::new(0, 0), true);
    expected.fill_edges();
    expected.set_tile(UVec2::new(2, 2), W);
    assert_eq!(room.rows_of_tiles(), expected.rows_of_tiles());
    // overwriting the room, the wall that was there is gone
    let mut room = Room::new(0, 6, 5, IVec2::new(0, 0), true);
    room.set_tile(UVec2::new(2, 2), W);
    cave.generate_features(&mut room, true, &mut rng);
    let mut expected = Room::new(0, 6, 5, IVec2::new(0, 0), true);
    expected.fill_edges();
    assert_eq!(room.rows_of_tiles(), expected.rows_of_tiles());
}

#[test]
fn the_noise_leaves_one_column_free() {
    let cave = CellularAutomata { iterations: 0, wall_percentage: 100 };
    for seed in 0..20 {
        let mut room = Room::new(0, 12, 6, IVec2::new(0, 0), true);
        let mut rng = WorldgenRng::new(seed);
        cave.generate_features(&mut room, true, &mut rng);
        let rows = room.rows_of_tiles();
        let free: Vec<usize> = (0..12).filter(|x| rows[1][*x] == G).collect();
        assert_eq!(free.len(), 1);
        assert!(4 <= free[0] && free[0] <= 7);
        for y in 1..5 {
            assert_eq!(rows[y][free[0]], G);
        }
        assert_eq!(walls(&room).len(), 12 * 6 - 4);
    }
    // a narrow room leaves its middle column free
    let mut room = Room::new(0, 7, 4, IVec2::new(0, 0), true);
    let mut rng = WorldgenRng::new(1);
    cave.generate_features(&mut room, true, &mut rng);
    let rows = room.rows_of_tiles();
    assert_eq!(rows[1], vec![W, W, W, G, W, W, W]);
    assert_eq!(rows[2], vec![W, W, W, G, W, W, W]);
    assert_eq!(rows[0], vec![W; 7]);
}

#[test]
fn the_same_seed_grows_the_same_cave() {
    let cave = CellularAutomata { iterations: 0, wall_percentage: 45 };
    let mut first = Room::new(0, 20, 15, IVec2::new(0, 0), true);
    let mut second = Room::new(0, 20, 15, IVec2::new(0, 0), true);
    cave.generate_features(&mut first, true, &mut WorldgenRng::new(44));
    cave.generate_features(&mut second, true, &mut WorldgenRng::new(44));
    assert_eq!(first.rows_of_tiles(), second.rows_of_tiles());
    let inner_walls = walls(&first).len() - (2 * 20 + 2 * 13);
    assert!(inner_walls > 0 && inner_walls < 18 * 13);
    let smooth = CellularAutomata { iterations: 4, wall_percentage: 45 };
    let mut third = Room::new(0, 20, 15, IVec2::new(0, 0), true);
    let mut fourth = Room::new(0, 20, 15, IVec2::new(0, 0), true);
    smooth.generate_features(&mut third, true, &mut WorldgenRng::new(44));
    smooth.generate_features(&mut fourth, true, &mut WorldgenRng::new(44));
    assert_eq!(third.rows_of_tiles(), fourth.rows_of_tiles());
    assert_eq!(third.rows_of_tiles()[0], vec![W; 20]);
}

fn noise_from(rows: &[&str]) -> grid::Grid<Tile> {
    let mut cells = Vec::new();
    for row in rows {
        for c in row.chars() {
            cells.push(if c == '#' { W } else { G });
        }
    }
    grid::Grid::from_vec(cells, rows[0].len())
}

fn picture(room: &Room) -> Vec<String> {
    room.rows_of_tiles()
        .iter()
        .map(|row| row.iter().map(|t| if *t == W { '#' } else { '.' }).collect())
        .collect()
}

#[test]
fn the_smoothing_rule_counts_walls_around_a_tile() {
    let once = CellularAutomata { iterations: 1, wall_percentage: 0 };
    // five walls around the middle tile make it a wall; of the walls only the one
    // above it has five walls around and at itself and stays
    let mut room = Room::new(0, 7, 7, IVec2::new(0, 0), true);
    let noise = noise_from(&[
        ".......",
        ".......",
        "..###..",
        "..#.#..",
        ".......",
        ".......",
        ".......",
    ]);
    once.grow(&mut room, noise, true);
    assert_eq!(
        picture(&room),
        vec!["#######", "#.....#", "#..#..#", "#..#..#", "#.....#", "#.....#", "#######"]
    );
    // four walls around it do not
    let mut room = Room::new(0, 7, 7, IVec2::new(0, 0), true);
    let noise = noise_from(&[
        ".......",
        ".......",
        "..##...",
        "..#.#..",
        ".......",
        ".......",
        ".......",
    ]);
    once.grow(&mut room, noise, true);
    assert_eq!(
        picture(&room),
        vec!["#######", "#.....#", "#.....#", "#.....#", "#.....#", "#.....#", "#######"]
    );
}

#[test]
fn the_smoothing_rule_fills_tiles_with_hardly_any_open_tile_near() {
    let once = CellularAutomata { iterations: 1, wall_percentage: 0 };
    // all walls but the middle and its right neighbour: two open tiles near, a wall
    let mut room = Room::new(0, 7, 7, IVec2::new(0, 0), true);
    let noise = noise_from(&[
        "#######",
        "#######",
        "#######",
        "###..##",
        "#######",
        "#######",
        "#######",
    ]);
    once.grow(&mut room, noise, true);
    assert_eq!(picture(&room), vec!["#######"; 7]);
    // with no walls at all the first round makes the outer ring, and the second one
    // fills the corners, which have five walls of the ring around them
    let mut room = Room::new(0, 7, 7, IVec2::new(0, 0), true);
    once.grow(&mut room, noise_from(&["......."; 7]), true);
    assert_eq!(
        picture(&room),
        vec!["#######", "#.....#", "#.....#", "#.....#", "#.....#", "#.....#", "#######"]
    );
    let mut room = Room::new(0, 7, 7, IVec2::new(0, 0), true);
    let twice = CellularAutomata { iterations: 2, wall_percentage: 0 };
    twice.grow(&mut room, noise_from(&["......."; 7]), true);
    assert_eq!(
        picture(&room),
        vec!["#######", "##...##", "#.....#", "#.....#", "#.....#", "##...##", "#######"]
    );
}

#[test]
fn walls_of_the_room_are_put_into_the_noise() {
    let none = CellularAutomata { iterations: 0, wall_percentage: 0 };
    let mut room = Room::new(0, 3, 3, IVec2::new(0, 0), true);
    room.set_tile(UVec2::new(0, 0), W);
    room.set_tile(UVec2::new(1, 1), W);
    none.grow(&mut room, noise_from(&[".#.", "...", "..#"]), false);
    assert_eq!(picture(&room), vec!["##.", ".#.", "..#"]);
    none.grow(&mut room, noise_from(&[".#.", "...", "..#"]), true);
    assert_eq!(picture(&room), vec![".#.", "...", "..#"]);
}

#[test]
fn rooms_are_decorated_with_their_decorations() {
    let mut map = map_of(&[(0, 0, 10, 10), (20, 0, 10, 10), (40, 0, 6, 5)]);
    map.rooms[0].details.aesthetic_modifiers = vec![
        Aesthetics::Pillars(Pillars {
            amount: 1,
            pillar_size: 2,
            generation_type: PillarGenerationType::BothAxes,
        }),
        Aesthetics::Pillars(Pillars {
            amount: usize::MAX,
            pillar_size: 2,
            generation_type: PillarGenerationType::BothAxes,
        }),
    ];
    map.rooms[2].details.aesthetic_modifiers =
        vec![Aesthetics::CellularAutomata(CellularAutomata { iterations: 0, wall_percentage: 0 })];
    assert!(map.rooms[0].details.aesthetic_modifiers[0].is_valid());
    assert!(!map.rooms[0].details.aesthetic_modifiers[1].is_valid());
    let mut rng = WorldgenRng::new(2);
    aesthetizise(&mut map, &mut rng);
    assert_eq!(walls(&map.rooms[0]), vec![(4, 4), (5, 4), (4, 5), (5, 5)]);
    assert!(walls(&map.rooms[1]).is_empty());
    assert_eq!(walls(&map.rooms[2]).len(), 2 * 6 + 2 * 3);
    let mut room = Room::new(0, 10, 10, IVec2::new(0, 0), true);
    room.details.aesthetic_modifiers = map.rooms[0].details.aesthetic_modifiers.clone();
    decorate_room(&mut room, &mut rng);
    assert_eq!(walls(&room), vec![(4, 4), (5, 4), (4, 5), (5, 5)]);
    let mut other = Room::new(0, 10, 10, IVec2::new(0, 0), true);
    map.rooms[0].details.aesthetic_modifiers[0].generate_features(&mut other, false, &mut rng);
    assert_eq!(walls(&other), vec![(4, 4), (5, 4), (4, 5), (5, 5)]);
}
