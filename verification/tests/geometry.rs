use room_generator::connecting::are_two_rooms_adjacent;
use room_generator::room::{is_overlapping, DoorOrientation, IVec2, Room, UVec2};
use room_generator::util::{common_edge, line_overlap};

#[test]
fn test_adjacent() {
    // 1|2 x
    let room1 = Room::_new_only_spatial(5, 5, IVec2::new(0, 0));
    let room2 = Room::_new_only_spatial(5, 5, IVec2::new(5, 0));
    let result = are_two_rooms_adjacent(&room1.dimensions(), &room2.dimensions(), 0);
    assert!(result.is_some());
    assert!(result.unwrap().0 == 5);
    assert!(result.unwrap().1 == DoorOrientation::Vertical);

    // 2
    // 1 y
    let room1 = Room::_new_only_spatial(5, 5, IVec2::new(0, 0));
    let room2 = Room::_new_only_spatial(5, 5, IVec2::new(0, 5));
    let result = are_two_rooms_adjacent(&room1.dimensions(), &room2.dimensions(), 0);
    assert!(result.is_some());
    assert!(result.unwrap().0 == 5);
    assert!(result.unwrap().1 == DoorOrientation::Horziontal);

    // 2|1 x
    let room1 = Room::_new_only_spatial(5, 5, IVec2::new(-5, 0));
    let room2 = Room::_new_only_spatial(5, 5, IVec2::new(0, 0));
    let result = are_two_rooms_adjacent(&room1.dimensions(), &room2.dimensions(), 0);
    assert!(result.is_some());
    assert!(result.unwrap().0 == 5);
    assert!(result.unwrap().1 == DoorOrientation::Vertical);

    // 1
    // 2 y
    let room1 = Room::_new_only_spatial(2, 2, IVec2::new(2, 0));
    let room2 = Room::_new_only_spatial(2, 2, IVec2::new(0, 0));
    let result = are_two_rooms_adjacent(&room1.dimensions(), &room2.dimensions(), 0);
    assert!(result.is_some());
    assert!(result.unwrap().0 == 2);
    assert!(result.unwrap().1 == DoorOrientation::Vertical);
}

#[test]
fn test_not_adjacent() {
    let room1 = Room::_new_only_spatial(5, 5, IVec2::new(0, 0));
    let room2 = Room::_new_only_spatial(5, 5, IVec2::new(6, 0));
    assert!(are_two_rooms_adjacent(&room1.dimensions(), &room2.dimensions(), 0).is_none());
    let room1 = Room::_new_only_spatial(5, 5, IVec2::new(0, 3));
    let room2 = Room::_new_only_spatial(5, 5, IVec2::new(6, 0));
    assert!(are_two_rooms_adjacent(&room1.dimensions(), &room2.dimensions(), 0).is_none());
    let room1 = Room::_new_only_spatial(5, 5, IVec2::new(0, 0));
    let room2 = Room::_new_only_spatial(5, 5, IVec2::new(-5, -5));
    assert!(are_two_rooms_adjacent(&room1.dimensions(), &room2.dimensions(), 0).is_none());
    let room1 = Room::_new_only_spatial(5, 5, IVec2::new(6, 0));
    let room2 = Room::_new_only_spatial(5, 5, IVec2::new(0, 0));
    assert!(are_two_rooms_adjacent(&room1.dimensions(), &room2.dimensions(), 0).is_none());
    let room1 = Room::_new_only_spatial(2, 2, IVec2::new(0, 0));
    let room2 = Room::_new_only_spatial(2, 2, IVec2::new(2, 2));
    assert!(are_two_rooms_adjacent(&room1.dimensions(), &room2.dimensions(), 0).is_none());
    let room1 = Room::_new_only_spatial(2, 2, IVec2::new(0, 0));
    let room2 = Room::_new_only_spatial(2, 2, IVec2::new(-2, -2));
    assert!(are_two_rooms_adjacent(&room1.dimensions(), &room2.dimensions(), 0).is_none());
    let room1 = Room::_new_only_spatial(2, 2, IVec2::new(0, 0));
    let room2 = Room::_new_only_spatial(2, 2, IVec2::new(-2, 2));
    assert!(are_two_rooms_adjacent(&room1.dimensions(), &room2.dimensions(), 0).is_none());
    let room1 = Room::_new_only_spatial(2, 2, IVec2::new(0, 0));
    let room2 = Room::_new_only_spatial(2, 2, IVec2::new(-2, 2));
    assert!(are_two_rooms_adjacent(&room1.dimensions(), &room2.dimensions(), 0).is_none());
}

#[test]
fn test_line_overlap() {
    // success cases
    let a1 = 0;
    let a2 = 10;
    let b1 = 5;
    let b2 = 15;
    assert!(line_overlap(a1, a2, b1, b2) == 5);
    let a1 = 0;
    let a2 = 10;
    let b1 = -10;
    let b2 = 5;
    assert!(line_overlap(a1, a2, b1, b2) == 5);

    let a1 = 10;
    let a2 = 20;
    let b1 = -10;
    let b2 = 13;
    assert!(line_overlap(a1, a2, b1, b2) == 3);
    let a1 = 10;
    let a2 = 20;
    let b1 = 3;
    let b2 = 23;
    let x = line_overlap(a1, a2, b1, b2);
    assert!(x == 10);

    // fail cases
    let a1 = 0;
    let a2 = 10;
    let b1 = 15;
    let b2 = 25;
    assert!(line_overlap(a1, a2, b1, b2) == -5);
    let a1 = 10;
    let a2 = 20;
    let b1 = -5;
    let b2 = 5;
    assert!(line_overlap(a1, a2, b1, b2) == -5);
}

#[test]
fn test_common_edge() {
    let room1 = Room::_new_only_spatial(5, 5, IVec2::new(0, 0));
    let room2 = Room::_new_only_spatial(5, 5, IVec2::new(5, 0));
    let (x, y) = common_edge(&room1.dimensions(), &room2.dimensions());
    assert!(x == 0);
    assert!(y == 5);

    let room1 = Room::_new_only_spatial(5, 5, IVec2::new(0, 0));
    let room2 = Room::_new_only_spatial(5, 5, IVec2::new(10, 0));
    let (x, y) = common_edge(&room1.dimensions(), &room2.dimensions());
    assert!(x == -5);
    assert!(y == 5);

    let room1 = Room::_new_only_spatial(5, 5, IVec2::new(0, 0));
    let room2 = Room::_new_only_spatial(5, 5, IVec2::new(-5, 3));
    let (x, y) = common_edge(&room1.dimensions(), &room2.dimensions());
    assert!(x == 0);
    assert!(y == 2);

    let room1 = Room::_new_only_spatial(10, 10, IVec2::new(-25, 0));
    let room2 = Room::_new_only_spatial(10, 10, IVec2::new(-36, 3));
    let (x, y) = common_edge(&room1.dimensions(), &room2.dimensions());
    println!("{x}, {y}");
    assert!(x == -1);
    assert!(y == 7);
}

#[test]
fn rooms_are_overlapping() {
    let room1 = Room::_new_only_spatial(10, 10, IVec2::new(0, 0));
    let room2 = Room::_new_only_spatial(10, 10, IVec2::new(6, 6));
    assert!(is_overlapping(&room1.dimensions(), &room2.dimensions()));

    let room1 = Room::_new_only_spatial(10, 10, IVec2::new(0, 0));
    let room2 = Room::_new_only_spatial(10, 10, IVec2::new(-8, -8));
    assert!(is_overlapping(&room1.dimensions(), &room2.dimensions()));

    let room1 = Room::_new_only_spatial(10, 10, IVec2::new(0, 0));
    let room2 = Room::_new_only_spatial(10, 10, IVec2::new(12, 12));
    assert!(!is_overlapping(&room1.dimensions(), &room2.dimensions()));
}

#[test]
fn test_is_point_inside() {
    let room1 = Room::_new_only_spatial(10, 10, IVec2::new(0, 0));
    let point = (1, 1);
    assert!(room1.is_point_inside(point));

    let room1 = Room::_new_only_spatial(10, 10, IVec2::new(0, 0));
    let point = (9, 9);
    assert!(room1.is_point_inside(point));

    let room1 = Room::_new_only_spatial(20, 20, IVec2::new(0, 0));
    let point = (16, 16);
    assert!(room1.is_point_inside(point));

    let room1 = Room::_new_only_spatial(10, 10, IVec2::new(-10, -10));
    let point = (-10, -1);
    assert!(room1.is_point_inside(point));

    let room1 = Room::_new_only_spatial(8, 8, IVec2::new(-10, -10));
    let point = (-7, -10);
    assert!(room1.is_point_inside(point));

    // fail cases

    let room1 = Room::_new_only_spatial(10, 10, IVec2::new(0, 0));
    let point = (25, 0);
    assert!(!room1.is_point_inside(point));

    let room1 = Room::_new_only_spatial(26, 26, IVec2::new(-2, -1));
    let point = (25, 25);
    assert!(!room1.is_point_inside(point));

    let room1 = Room::_new_only_spatial(10, 10, IVec2::new(0, 0));
    let point = (-10, 25);
    assert!(!room1.is_point_inside(point));

    let room1 = Room::_new_only_spatial(10, 10, IVec2::new(0, -9));
    let point = (0, -10);
    assert!(!room1.is_point_inside(point));

    let room1 = Room::_new_only_spatial(10, 10, IVec2::new(0, 0));
    let point = (10, 0);
    assert!(!room1.is_point_inside(point));
}

#[test]
fn door_validation() {}

#[test]
fn test_global_to_local() {
    let room = Room::_new_only_spatial(10, 10, IVec2::new(0, 0));
    let global_coordinates = IVec2::new(0, 0);
    assert!(room.global_to_local(global_coordinates).unwrap() == UVec2::new(0, 0));

    let room = Room::_new_only_spatial(10, 10, IVec2::new(0, 0));
    let global_coordinates = IVec2::new(9, 9);
    assert!(room.global_to_local(global_coordinates).unwrap() == UVec2::new(9, 9));

    let room = Room::_new_only_spatial(10, 10, IVec2::new(0, 0));
    let global_coordinates = IVec2::new(15, 15);
    assert!(room.global_to_local(global_coordinates).is_none());

    let room = Room::_new_only_spatial(10, 10, IVec2::new(-5, -5));
    let global_coordinates = IVec2::new(2, 3);
    assert!(room.global_to_local(global_coordinates).unwrap() == UVec2::new(7, 8));

    let room = Room::_new_only_spatial(10, 10, IVec2::new(-5, -5));
    let global_coordinates = IVec2::new(2, 5);
    assert!(room.global_to_local(global_coordinates).is_none());

    // with negative room position

    let room = Room::_new_only_spatial(10, 10, IVec2::new(-13, -13));
    let global_coordinates = IVec2::new(-10, -10);
    assert!(room.global_to_local(global_coordinates).unwrap() == UVec2::new(3, 3));

    let room = Room::_new_only_spatial(10, 10, IVec2::new(-5, -5));
    let global_coordinates = IVec2::new(-6, -5);
    assert!(room.global_to_local(global_coordinates).is_none());

    let room = Room::_new_only_spatial(10, 10, IVec2::new(-5, -5));
    let global_coordinates = IVec2::new(2, 5);
    assert!(room.global_to_local(global_coordinates).is_none());
}
