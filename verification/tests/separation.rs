use room_generator::generation::{MapArea, WorldgenSettings};
use room_generator::room::{IVec2, Room, Tile, UVec2, WORLD_LIMIT};
use room_generator::separation::{
    compute_push, integer_root, move_room, rooms_overlap_exists, separate_rooms, SEPARATION_ROUNDS,
};

fn map_of(rooms: &[(i32, i32, usize, usize)]) -> MapArea {
    let mut map = MapArea::new();
    for (id, r) in rooms.iter().enumerate() {
        map.rooms.push(Room::new(id, r.2, r.3, IVec2::new(r.0, r.1), true));
    }
    map
}

fn factor(f: u32) -> WorldgenSettings {
    let mut s = WorldgenSettings::default();
    s.separation_factor = f;
    s
}

fn anchors(map: &MapArea) -> Vec<(i32, i32)> {
    map.rooms.iter().map(|r| (r.anchor_grid().x, r.anchor_grid().y)).collect()
}

#[test]
fn the_root_is_rounded_down() {
    assert_eq!(integer_root(0), 0);
    assert_eq!(integer_root(1), 1);
    assert_eq!(integer_root(3), 1);
    assert_eq!(integer_root(4), 2);
    assert_eq!(integer_root(15), 3);
    assert_eq!(integer_root(16), 4);
    assert_eq!(integer_root(17), 4);
    assert_eq!(integer_root(1 << 100), 1 << 50);
    assert_eq!(integer_root((1 << 100) - 1), (1 << 50) - 1);
    assert_eq!(integer_root(u128::MAX), u64::MAX);
}

#[test]
fn a_push_is_the_share_of_the_factor_on_an_axis() {
    assert_eq!(compute_push(10, 0, 2), 2);
    assert_eq!(compute_push(-10, 0, 2), -2);
    assert_eq!(compute_push(0, 10, 2), 0);
    assert_eq!(compute_push(0, 0, 2), 0);
    // along the diagonal: 2 / sqrt(2) = 1.41
    assert_eq!(compute_push(10, 10, 2), 1);
    assert_eq!(compute_push(-10, 10, 2), -1);
    assert_eq!(compute_push(1, 1, 1), 0);
    // a 3-4-5 triangle is exact
    assert_eq!(compute_push(3, 4, 5), 3);
    assert_eq!(compute_push(4, 3, 5), 4);
    assert_eq!(compute_push(-8, 6, 5), -4);
    assert_eq!(compute_push(1, 100, 50), 0);
    assert_eq!(compute_push(2, 100, 50), 0);
    assert_eq!(compute_push(3, 100, 50), 1);
    assert_eq!(compute_push(7, 0, 0), 0);
    assert_eq!(compute_push(1 << 30, 0, u32::MAX), u32::MAX as i64);
    assert_eq!(compute_push(-(1 << 30), 1 << 30, 1000), -707);
}

#[test]
fn a_room_is_not_moved_out_of_the_world() {
    let mut room = Room::new(0, 10, 10, IVec2::new(0, 0), true);
    room.set_tile(UVec2::new(1, 1), Tile::Wall);
    move_room(&mut room, -3, 4);
    assert_eq!(room.anchor_grid(), IVec2::new(-3, 4));
    assert_eq!(room.get_tile(UVec2::new(1, 1)), Some(&Tile::Wall));
    let mut edge = Room::new(0, 10, 10, IVec2::new(WORLD_LIMIT - 11, 0), true);
    move_room(&mut edge, 1, 0);
    assert_eq!(edge.anchor_grid(), IVec2::new(WORLD_LIMIT - 10, 0));
    move_room(&mut edge, 1, 5);
    assert_eq!(edge.anchor_grid(), IVec2::new(WORLD_LIMIT - 10, 0));
    move_room(&mut edge, 0, 5);
    assert_eq!(edge.anchor_grid(), IVec2::new(WORLD_LIMIT - 10, 5));
}

#[test]
fn overlap_between_any_two_rooms_is_found() {
    let map = map_of(&[(0, 0, 10, 10), (10, 0, 10, 10), (20, 5, 10, 10)]);
    assert!(!rooms_overlap_exists(&map.rooms));
    let map = map_of(&[(0, 0, 10, 10), (30, 0, 10, 10), (39, 9, 10, 10)]);
    assert!(rooms_overlap_exists(&map.rooms));
    assert!(!rooms_overlap_exists(&MapArea::new().rooms));
}

#[test]
fn overlapping_rooms_are_pushed_apart() {
    let mut map = map_of(&[(0, 0, 10, 10), (4, 0, 10, 10)]);
    let rounds = separate_rooms(&mut map, &factor(2));
    // each round moves both rooms two tiles apart: overlap 6, 2, none
    assert_eq!(rounds, 2);
    assert_eq!(anchors(&map), vec![(-4, 0), (8, 0)]);
    assert!(!rooms_overlap_exists(&map.rooms));
    assert_eq!(map.rooms[0].length(), 10);
    assert_eq!(map.rooms[1].id(), 1);
}

#[test]
fn rooms_that_do_not_overlap_stay() {
    let mut map = map_of(&[(0, 0, 10, 10), (10, 0, 10, 10), (-30, 7, 10, 10)]);
    assert_eq!(separate_rooms(&mut map, &factor(2)), 0);
    assert_eq!(anchors(&map), vec![(0, 0), (10, 0), (-30, 7)]);
}

#[test]
fn a_fixed_room_stays_and_the_other_one_gives_way() {
    let mut map = map_of(&[(0, 0, 10, 10), (4, 0, 10, 10)]);
    map.rooms[0].is_position_fixed = true;
    let rounds = separate_rooms(&mut map, &factor(2));
    assert_eq!(rounds, 3);
    assert_eq!(anchors(&map), vec![(0, 0), (10, 0)]);
    // rounds grow with the overlap and shrink with the factor
    let mut map = map_of(&[(0, 0, 10, 10), (4, 0, 10, 10)]);
    map.rooms[0].is_position_fixed = true;
    assert_eq!(separate_rooms(&mut map, &factor(1)), 6);
    assert_eq!(anchors(&map), vec![(0, 0), (10, 0)]);
    let mut map = map_of(&[(0, 0, 20, 20), (4, 0, 20, 20)]);
    map.rooms[0].is_position_fixed = true;
    assert_eq!(separate_rooms(&mut map, &factor(2)), 8);
    assert_eq!(anchors(&map), vec![(0, 0), (20, 0)]);
}

#[test]
fn a_fixed_overlapping_pair_ends_at_the_cap() {
    let mut map = map_of(&[(0, 0, 10, 10), (4, 3, 10, 10)]);
    map.rooms[0].is_position_fixed = true;
    map.rooms[1].is_position_fixed = true;
    let rounds = separate_rooms(&mut map, &factor(2));
    assert_eq!(rounds, SEPARATION_ROUNDS);
    assert_eq!(rounds, 5000);
    assert_eq!(anchors(&map), vec![(0, 0), (4, 3)]);
    assert!(rooms_overlap_exists(&map.rooms));
}

#[test]
fn rooms_with_the_same_centre_are_not_pushed() {
    let mut map = map_of(&[(0, 0, 10, 10), (2, 2, 6, 6)]);
    assert_eq!(separate_rooms(&mut map, &factor(2)), 5000);
    assert_eq!(anchors(&map), vec![(0, 0), (2, 2)]);
}

#[test]
fn rooms_are_pushed_along_the_line_between_the_centres() {
    let mut map = map_of(&[(0, 0, 10, 10), (6, 8, 10, 10)]);
    // centres 6 and 8 apart: a push of 5 is 3 and 4 on the axes
    let rounds = separate_rooms(&mut map, &factor(5));
    assert_eq!(rounds, 1);
    assert_eq!(anchors(&map), vec![(-3, -4), (9, 12)]);
}

#[test]
fn every_pair_is_dealt_with_in_order() {
    let mut map = map_of(&[(0, 0, 10, 10), (4, 0, 10, 10), (8, 0, 10, 10)]);
    let rounds = separate_rooms(&mut map, &factor(2));
    // round 1: rooms 0 and 1 give way to -2 and 6; rooms 0 and 2 then only touch;
    // rooms 1 and 2 give way to 4 and 10. Rounds 2 and 3 go the same way.
    assert_eq!(rounds, 3);
    assert!(!rooms_overlap_exists(&map.rooms));
    assert_eq!(anchors(&map), vec![(-6, 0), (4, 0), (14, 0)]);
}
