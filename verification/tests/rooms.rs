use room_generator::room::{
    is_overlapping, squared_distance_between_structures, IVec2, Room, RoomDetails, RoomDimensions,
    RoomType, RoomWithDetailsNoId, StructureCollection, Tile, UVec2,
};
use room_generator::util::{common_edge, find_out_door_orientation, maybe_flip_bl_tr};
use room_generator::room::DoorOrientation;

fn plain_details() -> RoomDetails {
    RoomDetails { is_main: false, room_type: RoomType::Normal, aesthetic_modifiers: Vec::new() }
}

#[test]
fn new_room_is_all_ground() {
    let room = Room::new(7, 3, 2, IVec2::new(-4, 9), true);
    assert_eq!(room.id(), 7);
    assert_eq!(room.length(), 3);
    assert_eq!(room.height(), 2);
    assert_eq!(room.anchor_grid(), IVec2::new(-4, 9));
    assert!(room.details.is_main);
    assert!(!room.is_position_fixed);
    assert!(room.is_visible);
    assert_eq!(room.get_area_grid(), 6);
    for y in 0..2 {
        for x in 0..3 {
            assert_eq!(room.get_tile(UVec2::new(x, y)), Some(&Tile::Ground));
        }
    }
    assert_eq!(room.rows_of_tiles(), vec![vec![Tile::Ground; 3]; 2]);
}

#[test]
fn get_tile_beyond_the_room_is_none() {
    let room = Room::new(0, 3, 2, IVec2::new(0, 0), false);
    assert_eq!(room.get_tile(UVec2::new(3, 0)), None);
    assert_eq!(room.get_tile(UVec2::new(0, 2)), None);
    assert_eq!(room.get_tile(UVec2::new(2, 1)), Some(&Tile::Ground));
}

#[test]
fn set_tile_changes_one_tile_only() {
    let mut room = Room::new(0, 3, 2, IVec2::new(0, 0), false);
    assert!(room.set_tile(UVec2::new(2, 1), Tile::Wall));
    assert!(!room.set_tile(UVec2::new(3, 1), Tile::Wall));
    assert!(!room.set_tile(UVec2::new(0, 2), Tile::Wall));
    assert_eq!(
        room.rows_of_tiles(),
        vec![
            vec![Tile::Ground, Tile::Ground, Tile::Ground],
            vec![Tile::Ground, Tile::Ground, Tile::Wall],
        ]
    );
    assert_eq!(room.length(), 3);
    assert_eq!(room.height(), 2);
}

#[test]
fn a_room_without_tiles_has_no_size() {
    let room = Room::new(0, 5, 0, IVec2::new(1, 2), false);
    assert_eq!(room.length(), 0);
    assert_eq!(room.height(), 0);
    assert_eq!(room.get_area_grid(), 0);
    assert_eq!(room.get_tile(UVec2::new(0, 0)), None);
    let mut room = Room::new(0, 0, 5, IVec2::new(1, 2), false);
    assert_eq!(room.dimensions(), RoomDimensions::new(IVec2::new(1, 2), 0, 0));
    room.fill_edges();
    assert_eq!(room.rows_of_tiles(), Vec::<Vec<Tile>>::new());
}

#[test]
fn fill_edges_walls_the_outer_ring() {
    let mut room = Room::new(0, 4, 3, IVec2::new(0, 0), false);
    room.fill_edges();
    let w = Tile::Wall;
    let g = Tile::Ground;
    assert_eq!(
        room.rows_of_tiles(),
        vec![vec![w, w, w, w], vec![w, g, g, w], vec![w, w, w, w]]
    );
    let mut single = Room::new(0, 1, 1, IVec2::new(0, 0), false);
    single.fill_edges();
    assert_eq!(single.rows_of_tiles(), vec![vec![w]]);
}

#[test]
fn fill_area_sets_a_rectangle_cut_at_the_room() {
    let mut room = Room::new(0, 4, 3, IVec2::new(0, 0), false);
    room.fill_area(2, 9, 1, 2, Tile::Wall);
    let w = Tile::Wall;
    let g = Tile::Ground;
    assert_eq!(
        room.rows_of_tiles(),
        vec![vec![g, g, g, g], vec![g, g, w, w], vec![g, g, g, g]]
    );
    room.fill_area(3, 2, 0, 3, Tile::Wall);
    assert_eq!(
        room.rows_of_tiles(),
        vec![vec![g, g, g, g], vec![g, g, w, w], vec![g, g, g, g]]
    );
}

#[test]
fn get_grid_hands_out_a_copy() {
    let mut room = Room::new(0, 2, 2, IVec2::new(0, 0), false);
    room.set_tile(UVec2::new(1, 0), Tile::Wall);
    let copy = room.get_grid();
    room.set_tile(UVec2::new(0, 1), Tile::Wall);
    assert_eq!(copy.rows(), 2);
    assert_eq!(copy.cols(), 2);
    assert_eq!(copy.get(0, 1), Some(&Tile::Wall));
    assert_eq!(copy.get(1, 0), Some(&Tile::Ground));
    assert_eq!(room.get_tile(UVec2::new(0, 1)), Some(&Tile::Wall));
}

#[test]
fn a_cloned_room_is_its_own_room() {
    let mut room = Room::new(3, 2, 2, IVec2::new(5, 6), true);
    room.set_tile(UVec2::new(0, 0), Tile::Wall);
    room.is_position_fixed = true;
    let mut copy = room.clone();
    copy.set_tile(UVec2::new(1, 1), Tile::Wall);
    assert_eq!(copy.id(), 3);
    assert_eq!(copy.anchor_grid(), IVec2::new(5, 6));
    assert!(copy.is_position_fixed);
    assert_eq!(copy.get_tile(UVec2::new(0, 0)), Some(&Tile::Wall));
    assert_eq!(room.get_tile(UVec2::new(1, 1)), Some(&Tile::Ground));
}

#[test]
fn new2_takes_dimensions_and_details() {
    let dims = RoomDimensions::new(IVec2::new(2, 3), 4, 5);
    let mut details = plain_details();
    details.room_type = RoomType::Boss;
    let room = Room::new2(11, dims, details);
    assert_eq!(room.id(), 11);
    assert_eq!(room.dimensions(), dims);
    assert_eq!(room.length(), 4);
    assert_eq!(room.height(), 5);
    assert_eq!(room.details.room_type, RoomType::Boss);
    assert!(room.is_visible);
}

#[test]
fn trial_rooms_get_an_id_up_to_ten_thousand() {
    for _ in 0..50 {
        let room = Room::_new_only_spatial(2, 3, IVec2::new(1, 1));
        assert!(room.id() <= 10000);
        assert!(room.details.is_main);
        assert_eq!(room.length(), 2);
        assert_eq!(room.height(), 3);
    }
}

#[test]
fn area_in_world_units() {
    let room = Room::new(0, 3, 2, IVec2::new(0, 0), false);
    assert_eq!(room._get_area_world(UVec2::new(8, 8)), 3 * 8 * 2 * 8);
}

#[test]
fn offsetting_moves_the_anchor_only() {
    let mut room = Room::new(0, 3, 2, IVec2::new(1, 1), false);
    room.set_tile(UVec2::new(1, 1), Tile::Wall);
    room.offset_anchor_grid(IVec2::new(-5, 7));
    assert_eq!(room.anchor_grid(), IVec2::new(-4, 8));
    assert_eq!(room.length(), 3);
    assert_eq!(room.get_tile(UVec2::new(1, 1)), Some(&Tile::Wall));
    let mut dims = RoomDimensions::new(IVec2::new(1, 1), 3, 2);
    dims.offset_anchor_grid(IVec2::new(2, -2));
    assert_eq!(dims, RoomDimensions::new(IVec2::new(3, -1), 3, 2));
}

#[test]
fn corners_centres_and_world_anchor() {
    let dims = RoomDimensions::new(IVec2::new(-3, 4), 5, 2);
    assert_eq!(dims.anchor_grid_end(), IVec2::new(2, 6));
    assert_eq!(dims.center_doubled(), (-1, 10));
    // -0.5 rounds toward zero
    assert_eq!(dims.center_tile(), IVec2::new(0, 5));
    assert_eq!(dims.anchor_world(UVec2::new(8, 16)), IVec2::new(-24, 64));
    let low = RoomDimensions::new(IVec2::new(-3, -3), 1, 1);
    assert_eq!(low.center_doubled(), (-5, -5));
    assert_eq!(low.center_tile(), IVec2::new(-2, -2));
    let room = Room::new(0, 10, 10, IVec2::new(20, 0), false);
    assert_eq!(room.center_tile(), IVec2::new(25, 5));
    assert_eq!(room.anchor_grid_end(), IVec2::new(30, 10));
}

#[test]
fn local_and_global_positions_round_trip() {
    let room = Room::new(0, 4, 3, IVec2::new(-7, 2), false);
    for y in 0..3 {
        for x in 0..4 {
            let local = UVec2::new(x, y);
            let global = room.local_to_global(local);
            assert_eq!(global, IVec2::new(-7 + x as i32, 2 + y as i32));
            assert_eq!(room.global_to_local(global), Some(local));
        }
    }
    assert_eq!(room.global_to_local(IVec2::new(-8, 2)), None);
    assert_eq!(room.global_to_local(IVec2::new(-3, 2)), None);
    assert_eq!(room.global_to_local(IVec2::new(-7, 1)), None);
    assert_eq!(room.global_to_local(IVec2::new(-7, 5)), None);
    assert_eq!(room.dimensions().global_to_local(IVec2::new(-4, 4)), Some(UVec2::new(3, 2)));
}

#[test]
fn overlap_is_symmetric_and_touching_is_none() {
    let a = RoomDimensions::new(IVec2::new(0, 0), 10, 10);
    let b = RoomDimensions::new(IVec2::new(6, 6), 10, 10);
    assert!(is_overlapping(&a, &b));
    assert!(is_overlapping(&b, &a));
    let right = RoomDimensions::new(IVec2::new(10, 0), 10, 10);
    assert!(!is_overlapping(&a, &right));
    assert!(!is_overlapping(&right, &a));
    let above = RoomDimensions::new(IVec2::new(3, 10), 10, 10);
    assert!(!is_overlapping(&a, &above));
    assert!(!is_overlapping(&above, &a));
    let inside = RoomDimensions::new(IVec2::new(9, 9), 1, 1);
    assert!(is_overlapping(&a, &inside));
}

#[test]
fn common_edge_does_not_depend_on_the_order() {
    let a = RoomDimensions::new(IVec2::new(0, 0), 5, 5);
    let b = RoomDimensions::new(IVec2::new(-5, 3), 7, 4);
    assert_eq!(common_edge(&a, &b), (2, 2));
    assert_eq!(common_edge(&b, &a), (2, 2));
    let c = RoomDimensions::new(IVec2::new(20, -30), 5, 5);
    assert_eq!(common_edge(&a, &c), (-15, -25));
    assert_eq!(common_edge(&c, &a), (-15, -25));
}

#[test]
fn door_orientation_follows_the_larger_overlap() {
    assert_eq!(find_out_door_orientation(5, 0), DoorOrientation::Horziontal);
    assert_eq!(find_out_door_orientation(0, 5), DoorOrientation::Vertical);
    assert_eq!(find_out_door_orientation(3, 3), DoorOrientation::Horziontal);
    assert_eq!(find_out_door_orientation(-4, -2), DoorOrientation::Vertical);
}

#[test]
fn flipping_orders_the_rooms() {
    let a = RoomDimensions::new(IVec2::new(0, 0), 1, 1);
    let b = RoomDimensions::new(IVec2::new(9, 9), 2, 2);
    assert_eq!(maybe_flip_bl_tr(true, a, b), (false, a, b));
    assert_eq!(maybe_flip_bl_tr(false, a, b), (true, b, a));
}

#[test]
fn distance_is_four_times_the_squared_distance_of_the_centres() {
    let a = RoomDimensions::new(IVec2::new(0, 0), 10, 10);
    let b = RoomDimensions::new(IVec2::new(20, 0), 10, 10);
    assert_eq!(squared_distance_between_structures(&a, &b), 1600);
    assert_eq!(squared_distance_between_structures(&b, &a), 1600);
    let c = RoomDimensions::new(IVec2::new(3, 4), 5, 3);
    // centres (5, 5) and (5.5, 5.5): twice the difference is (1, 1)
    assert_eq!(squared_distance_between_structures(&a, &c), 2);
    assert_eq!(squared_distance_between_structures(&a, &a), 0);
}

#[test]
fn world_and_buildable_checks() {
    let limit = room_generator::room::WORLD_LIMIT;
    assert_eq!(limit, 1 << 28);
    let inside = RoomDimensions::new(IVec2::new(limit - 10, -limit), 10, 3);
    assert!(inside.is_in_world());
    assert!(inside.is_buildable());
    let beyond = RoomDimensions::new(IVec2::new(limit - 10, 0), 11, 3);
    assert!(!beyond.is_in_world());
    assert!(!beyond.is_buildable());
    let below = RoomDimensions::new(IVec2::new(0, -limit - 1), 1, 1);
    assert!(!below.is_in_world());
}

#[test]
fn a_group_of_rooms_is_measured_by_its_bounding_box() {
    let rooms = vec![
        RoomWithDetailsNoId {
            dimensions: RoomDimensions::new(IVec2::new(2, -3), 4, 5),
            details: plain_details(),
        },
        RoomWithDetailsNoId {
            dimensions: RoomDimensions::new(IVec2::new(-6, 1), 3, 9),
            details: plain_details(),
        },
    ];
    assert_eq!(rooms[0].length(), 4);
    assert_eq!(rooms[0].height(), 5);
    assert_eq!(rooms[0].anchor_grid(), IVec2::new(2, -3));
    let mut group = StructureCollection::new(rooms);
    assert_eq!(group.anchor_grid(), IVec2::new(-6, -3));
    assert_eq!(group.length(), 12);
    assert_eq!(group.height(), 13);
    group.offset_anchor_grid(IVec2::new(10, 20));
    assert_eq!(group.anchor_grid(), IVec2::new(4, 17));
    assert_eq!(group.structures[0].dimensions, RoomDimensions::new(IVec2::new(12, 17), 4, 5));
    assert_eq!(group.structures[1].dimensions, RoomDimensions::new(IVec2::new(4, 21), 3, 9));
    assert_eq!(group.length(), 12);
}
