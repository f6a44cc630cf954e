use room_generator::generation::{MapArea, WorldgenError, WorldgenSettings};
use room_generator::graphing::{
    accepts, create_path_between_two_rooms, farthest_pair, find_main_path, get_triangulation,
    graph_of_pairs, leaf_rooms, list_candidate_pairs, list_hull_pairs, list_outline_pairs,
    main_room_centers,
    make_graphs, put_edges_back, reassemble_graph, remake_graphs, rooms_with_longest_distance_between_them,
    same_room, sort_by_weight, successors_by_weight, MyGraph, RoomGraph, Triangulation,
};
use room_generator::connecting::{AdjacentTiles, RoomConnection, RoomConnectionType};
use room_generator::rng::WorldgenRng;
use room_generator::room::{IVec2, Room};

fn map_of(rooms: &[(i32, i32, usize, usize)]) -> MapArea {
    let mut map = MapArea::new();
    for (id, r) in rooms.iter().enumerate() {
        map.rooms.push(Room::new(id, r.2, r.3, IVec2::new(r.0, r.1), true));
    }
    map
}

fn sorted(mut edges: Vec<(usize, usize, u64)>) -> Vec<(usize, usize, u64)> {
    edges.sort();
    edges
}

fn triangulate(map: &MapArea) -> (Vec<usize>, Vec<usize>) {
    let points: Vec<delaunator::Point> = main_room_centers(map)
        .iter()
        .map(|p| delaunator::Point { x: p.0 as f64 / 2.0, y: p.1 as f64 / 2.0 })
        .collect();
    let found = delaunator::triangulate(&points);
    (found.triangles, found.hull)
}

#[test]
fn a_graph_files_an_edge_under_its_pair() {
    let mut g = MyGraph::new();
    assert!(g.all_edges().is_empty());
    g.add_edge(3, 1, 10);
    g.add_edge(1, 2, 20);
    assert_eq!(sorted(g.all_edges()), vec![(1, 2, 20), (1, 3, 10)]);
    // the same pair again, either way round, gives the edge a new weight
    g.add_edge(1, 3, 11);
    assert_eq!(sorted(g.all_edges()), vec![(1, 2, 20), (1, 3, 11)]);
    g.add_edge(2, 2, 5);
    assert_eq!(sorted(g.all_edges()), vec![(1, 2, 20), (1, 3, 11), (2, 2, 5)]);
    assert_eq!(sorted(g.edges(1)), vec![(1, 2, 20), (1, 3, 11)]);
    assert_eq!(sorted(g.edges(2)), vec![(2, 1, 20), (2, 2, 5)]);
    assert!(g.edges(9).is_empty());
    assert!(MyGraph::default().all_edges().is_empty());
}

#[test]
fn edges_and_rooms_can_be_taken_out_of_a_graph() {
    let mut g = MyGraph::new();
    g.add_edge(0, 1, 1);
    g.add_edge(1, 2, 2);
    g.add_edge(2, 3, 3);
    g.add_edge(3, 0, 4);
    let copy = g.clone();
    g.remove_edge(1, 0);
    assert_eq!(sorted(g.all_edges()), vec![(0, 3, 4), (1, 2, 2), (2, 3, 3)]);
    g.remove_edge(0, 2);
    assert_eq!(sorted(g.all_edges()), vec![(0, 3, 4), (1, 2, 2), (2, 3, 3)]);
    g.remove_node(2);
    assert_eq!(sorted(g.all_edges()), vec![(0, 3, 4)]);
    g.remove_node(7);
    assert_eq!(sorted(g.all_edges()), vec![(0, 3, 4)]);
    assert_eq!(sorted(copy.all_edges()), vec![(0, 1, 1), (0, 3, 4), (1, 2, 2), (2, 3, 3)]);
}

#[test]
fn a_triangulation_has_to_fit_its_points() {
    let t = Triangulation::new(vec![0, 1, 2, 2, 1, 3], vec![0, 1, 3, 2], 4).unwrap();
    assert_eq!(t.len(), 2);
    assert!(!t.is_empty());
    assert!(Triangulation::new(vec![0, 1, 2], vec![], 2).is_none());
    assert!(Triangulation::new(vec![0, 1], vec![], 4).is_none());
    assert!(Triangulation::new(vec![], vec![0, 4], 4).is_none());
    let empty = Triangulation::new(vec![], vec![1, 0], 2).unwrap();
    assert_eq!(empty.len(), 0);
    assert!(empty.is_empty());
}

#[test]
fn three_centres_that_are_not_on_a_line_give_one_triangle() {
    let mut map = map_of(&[(0, 0, 10, 10), (40, 0, 10, 10), (20, 30, 10, 10)]);
    assert_eq!(main_room_centers(&map), vec![(10, 10), (90, 10), (50, 70)]);
    let (triangles, hull) = triangulate(&map);
    assert_eq!(triangles.len(), 3);
    assert_eq!(hull.len(), 3);
    assert!(get_triangulation(&mut map, triangles, hull));
    assert_eq!(map.triangulation.as_ref().unwrap().len(), 1);
}

#[test]
fn two_centres_give_no_triangle_and_a_hull_of_two() {
    let mut map = map_of(&[(0, 0, 10, 10), (40, 0, 10, 10)]);
    let (triangles, hull) = triangulate(&map);
    assert_eq!(triangles.len(), 0);
    assert_eq!(hull.len(), 2);
    assert!(get_triangulation(&mut map, triangles, hull));
    assert!(map.triangulation.as_ref().unwrap().is_empty());
    assert_eq!(map.triangulation.as_ref().unwrap().hull.len(), 2);
}

#[test]
fn centres_on_a_line_give_the_hull_along_the_line() {
    let map = map_of(&[(40, 0, 10, 10), (0, 0, 10, 10), (20, 0, 10, 10)]);
    let (triangles, hull) = triangulate(&map);
    assert_eq!(triangles.len(), 0);
    assert!(hull == vec![1, 2, 0] || hull == vec![0, 2, 1]);
}

#[test]
fn a_triangulation_that_names_no_main_room_is_refused() {
    let mut map = map_of(&[(0, 0, 10, 10), (40, 0, 10, 10)]);
    map.rooms[1].details.is_main = false;
    assert_eq!(main_room_centers(&map), vec![(10, 10)]);
    assert!(!get_triangulation(&mut map, vec![], vec![0, 1]));
    assert!(map.triangulation.is_none());
    assert!(get_triangulation(&mut map, vec![], vec![0]));
    assert!(map.triangulation.is_some());
}

#[test]
fn candidate_pairs_come_from_triangles_or_hull_and_presets() {
    let t = Triangulation::new(vec![0, 1, 2, 2, 1, 3], vec![0, 1, 3, 2], 4).unwrap();
    let ids = vec![10, 11, 12, 13];
    assert_eq!(
        list_candidate_pairs(&t, &ids, &vec![(10, 13)]),
        vec![(10, 11), (11, 12), (10, 12), (12, 11), (11, 13), (12, 13), (10, 13)]
    );
    assert_eq!(list_hull_pairs(&t, &ids), vec![(10, 11), (11, 13), (13, 12)]);
    let line = Triangulation::new(vec![], vec![2, 0, 1], 3).unwrap();
    assert_eq!(
        list_candidate_pairs(&line, &vec![5, 6, 7], &vec![]),
        vec![(7, 5), (5, 6)]
    );
    let none = Triangulation::new(vec![], vec![], 3).unwrap();
    assert!(list_candidate_pairs(&none, &vec![5, 6, 7], &vec![]).is_empty());
    assert!(list_hull_pairs(&none, &vec![5, 6, 7]).is_empty());
}

#[test]
fn edges_weigh_four_times_the_squared_distance() {
    let map = map_of(&[(0, 0, 10, 10), (20, 0, 10, 10), (0, 30, 10, 10)]);
    let g = graph_of_pairs(&vec![(1, 0), (0, 2), (2, 1), (0, 1)], &map);
    assert_eq!(sorted(g.all_edges()), vec![(0, 1, 1600), (0, 2, 3600), (1, 2, 5200)]);
}

#[test]
fn edges_are_sorted_by_weight_and_keep_their_order_otherwise() {
    let list = vec![(0, 5, 30), (0, 1, 10), (0, 4, 30), (0, 2, 20), (0, 3, 10)];
    assert_eq!(
        sort_by_weight(&list),
        vec![(0, 1, 10), (0, 3, 10), (0, 2, 20), (0, 5, 30), (0, 4, 30)]
    );
    assert!(sort_by_weight(&vec![]).is_empty());
    let mut g = MyGraph::new();
    g.add_edge(0, 3, 7);
    g.add_edge(0, 1, 9);
    g.add_edge(2, 0, 1);
    g.add_edge(1, 2, 4);
    assert_eq!(successors_by_weight(&g, 0), vec![2, 3, 1]);
    assert_eq!(successors_by_weight(&g, 1), vec![2, 0]);
    assert!(successors_by_weight(&g, 8).is_empty());
    assert!(same_room(3, 3));
    assert!(!same_room(3, 4));
}

#[test]
fn the_farthest_pair_is_the_first_one_found() {
    let map = map_of(&[(0, 0, 10, 10), (30, 0, 10, 10), (0, 30, 10, 10), (30, 30, 10, 10)]);
    // both diagonals are equally long; the first pair in order wins
    assert_eq!(farthest_pair(&vec![0, 1, 2, 3], &map), Some((0, 3)));
    assert_eq!(farthest_pair(&vec![1, 0, 3, 2], &map), Some((1, 2)));
    assert_eq!(farthest_pair(&vec![0, 1, 2], &map), Some((1, 2)));
    assert_eq!(farthest_pair(&vec![2, 2], &map), Some((2, 2)));
    assert_eq!(farthest_pair(&vec![2], &map), None);
    assert_eq!(farthest_pair(&vec![], &map), None);
}

#[test]
fn leaves_are_the_main_rooms_with_one_edge() {
    let mut map = map_of(&[
        (0, 0, 10, 10),
        (20, 0, 10, 10),
        (40, 0, 10, 10),
        (60, 0, 10, 10),
        (20, 30, 10, 10),
    ]);
    let mut tree = MyGraph::new();
    tree.add_edge(0, 1, 1600);
    tree.add_edge(1, 2, 1600);
    tree.add_edge(2, 3, 1600);
    tree.add_edge(1, 4, 3600);
    assert_eq!(leaf_rooms(&tree, &map), vec![0, 3, 4]);
    assert_eq!(rooms_with_longest_distance_between_them(&tree, &map), Some((0, 3)));
    assert_eq!(find_main_path(&tree, &map), vec![0, 1, 2, 3]);
    map.rooms[3].details.is_main = false;
    assert_eq!(leaf_rooms(&tree, &map), vec![0, 4]);
    assert_eq!(rooms_with_longest_distance_between_them(&tree, &map), Some((0, 4)));
    assert_eq!(find_main_path(&tree, &map), vec![0, 1, 4]);
    let bare = MyGraph::new();
    assert_eq!(rooms_with_longest_distance_between_them(&bare, &map), None);
    assert!(find_main_path(&bare, &map).is_empty());
}

#[test]
fn a_path_is_searched_nearest_neighbour_first() {
    let mut g = MyGraph::new();
    g.add_edge(0, 1, 5);
    g.add_edge(0, 2, 1);
    g.add_edge(2, 3, 2);
    g.add_edge(1, 3, 1);
    g.add_edge(4, 5, 1);
    // from 0 the nearer room 2 is tried first
    assert_eq!(create_path_between_two_rooms(&g, 0, 3), Some(vec![0, 2, 3]));
    assert_eq!(create_path_between_two_rooms(&g, 3, 0), Some(vec![3, 1, 0]));
    assert_eq!(create_path_between_two_rooms(&g, 2, 2), Some(vec![2]));
    assert_eq!(create_path_between_two_rooms(&g, 0, 5), None);
    assert_eq!(create_path_between_two_rooms(&g, 9, 9), Some(vec![9]));
}

#[test]
fn an_edge_is_put_back_when_the_draw_is_below_the_chance() {
    assert!(!accepts(0, 0));
    assert!(!accepts(99, 0));
    assert!(accepts(29, 30));
    assert!(!accepts(30, 30));
    assert!(accepts(99, 100));
    assert!(accepts(99, 250));
    assert!(accepts(0, 1));
}

fn square_graphs() -> (MyGraph, MyGraph, Triangulation, MapArea) {
    let map = map_of(&[
        (0, 0, 10, 10),
        (20, 0, 10, 10),
        (40, 0, 10, 10),
        (60, 0, 10, 10),
        (0, 40, 10, 10),
        (60, 40, 10, 10),
    ]);
    let mut tree = MyGraph::new();
    tree.add_edge(0, 1, 1);
    tree.add_edge(1, 2, 1);
    tree.add_edge(2, 3, 1);
    tree.add_edge(0, 4, 4);
    tree.add_edge(3, 5, 4);
    let mut all = tree.clone();
    all.add_edge(4, 5, 9);
    all.add_edge(1, 4, 5);
    all.add_edge(2, 5, 5);
    all.add_edge(4, 2, 7);
    all.add_edge(1, 5, 7);
    let hull = Triangulation::new(vec![], vec![4, 5], 6).unwrap();
    (tree, all, hull, map)
}

#[test]
fn with_no_chance_the_tree_stays_as_it_is() {
    let (tree, all, hull, map) = square_graphs();
    let mut rng = WorldgenRng::new(7);
    let out = reassemble_graph(&tree, &all, &hull, None, 0, &mut rng, &map);
    assert_eq!(sorted(out.all_edges()), sorted(tree.all_edges()));
}

#[test]
fn with_full_chance_the_whole_pool_is_put_back() {
    let (tree, all, hull, mut map) = square_graphs();
    let mut rng = WorldgenRng::new(7);
    // the pool: all edges but those of the tree and the one along the outline
    let out = reassemble_graph(&tree, &all, &hull, None, 100, &mut rng, &map);
    let mut expected = tree.all_edges();
    expected.extend(vec![(1, 4, 5), (2, 5, 5), (2, 4, 7), (1, 5, 7)]);
    assert_eq!(sorted(out.all_edges()), sorted(expected));
    // edges at a room of the main path leave the pool
    let path = vec![1];
    let out = reassemble_graph(&tree, &all, &hull, Some(&path), 200, &mut rng, &map);
    let mut expected = tree.all_edges();
    expected.extend(vec![(2, 5, 5), (2, 4, 7)]);
    assert_eq!(sorted(out.all_edges()), sorted(expected));
    // and so do the connections that the presets ask for
    map.initial_connections = vec![(5, 2)];
    let out = reassemble_graph(&tree, &all, &hull, Some(&path), 100, &mut rng, &map);
    let mut expected = tree.all_edges();
    expected.extend(vec![(2, 4, 7)]);
    assert_eq!(sorted(out.all_edges()), sorted(expected));
}

#[test]
fn the_same_seed_puts_the_same_edges_back() {
    let (tree, all, hull, map) = square_graphs();
    let mut seen_some = false;
    let mut seen_not_all = false;
    for seed in 0..40 {
        let mut first = WorldgenRng::new(seed);
        let mut second = WorldgenRng::new(seed);
        let a = reassemble_graph(&tree, &all, &hull, None, 50, &mut first, &map);
        let b = reassemble_graph(&tree, &all, &hull, None, 50, &mut second, &map);
        assert_eq!(sorted(a.all_edges()), sorted(b.all_edges()));
        let extra = a.all_edges().len() - 5;
        assert!(extra <= 4);
        seen_some = seen_some || extra > 0;
        seen_not_all = seen_not_all || extra < 4;
        for e in tree.all_edges() {
            assert!(a.all_edges().contains(&e));
        }
    }
    assert!(seen_some && seen_not_all);
}

#[test]
fn graphs_are_made_from_the_triangulation() {
    let mut map = map_of(&[(0, 0, 10, 10), (40, 0, 10, 10), (20, 30, 10, 10)]);
    let worldgen = WorldgenSettings::default();
    let mut rng = WorldgenRng::new(1);
    assert_eq!(make_graphs(&mut map, &worldgen, &mut rng), Err(WorldgenError::MissingTriangulation));
    assert!(map.graph.is_none());
    let (triangles, hull) = triangulate(&map);
    assert!(get_triangulation(&mut map, triangles, hull));
    assert_eq!(make_graphs(&mut map, &worldgen, &mut rng), Ok(()));
    let graph = map.graph.as_ref().unwrap();
    // the sides weigh 6400 (0-1), 5200 (0-2) and 5200 (1-2): the tree takes the two light ones
    assert_eq!(sorted(graph.mst.all_edges()), vec![(0, 2, 5200), (1, 2, 5200)]);
    assert_eq!(graph.main_path_rooms, vec![0, 2, 1]);
    // nothing is left to put back: every edge lies on the outline
    assert_eq!(sorted(graph.reassembled_graph.all_edges()), vec![(0, 2, 5200), (1, 2, 5200)]);
}

#[test]
fn connections_of_presets_are_always_candidates() {
    let mut map = map_of(&[(0, 0, 10, 10), (40, 0, 10, 10), (20, 0, 10, 10)]);
    map.initial_connections = vec![(0, 1)];
    let worldgen = WorldgenSettings::default();
    let mut rng = WorldgenRng::new(1);
    let (triangles, hull) = triangulate(&map);
    assert!(get_triangulation(&mut map, triangles, hull));
    assert_eq!(make_graphs(&mut map, &worldgen, &mut rng), Ok(()));
    let graph = map.graph.as_ref().unwrap();
    // candidates: 0-2 and 2-1 along the line, and 0-1 from the preset; the tree drops 0-1
    assert_eq!(sorted(graph.mst.all_edges()), vec![(0, 2, 1600), (1, 2, 1600)]);
    assert_eq!(graph.main_path_rooms, vec![0, 2, 1]);
}

#[test]
fn the_graph_is_remade_from_the_connections() {
    let mut map = map_of(&[(0, 0, 10, 10), (20, 0, 10, 10), (10, 0, 10, 10)]);
    assert_eq!(remake_graphs(&mut map), Err(WorldgenError::MissingConnections));
    map.connections = Some(vec![
        RoomConnection::new(0, 2, RoomConnectionType::Adjacent(AdjacentTiles::default())),
        RoomConnection::new(2, 1, RoomConnectionType::Adjacent(AdjacentTiles::default())),
    ]);
    assert_eq!(remake_graphs(&mut map), Err(WorldgenError::MissingGraph));
    let mut tree = MyGraph::new();
    tree.add_edge(0, 1, 1600);
    map.graph = Some(RoomGraph {
        mst: tree.clone(),
        reassembled_graph: tree,
        main_path_rooms: vec![0, 1],
    });
    assert_eq!(remake_graphs(&mut map), Ok(()));
    let graph = map.graph.as_ref().unwrap();
    assert_eq!(sorted(graph.reassembled_graph.all_edges()), vec![(0, 2, 400), (1, 2, 400)]);
    assert_eq!(sorted(graph.mst.all_edges()), vec![(0, 1, 1600)]);
    assert_eq!(graph.main_path_rooms, vec![0, 1]);
}

#[test]
fn edges_are_put_back_by_their_draws() {
    let (tree, _, _, _) = square_graphs();
    let pool = vec![(1, 4, 5), (2, 5, 5), (2, 4, 7), (1, 5, 7)];
    // a chance of 30: the draws 29 and 0 are below it, 30 and 99 are not
    let out = put_edges_back(&tree, &pool, &vec![29, 30, 99, 0], 30);
    let mut expected = tree.all_edges();
    expected.extend(vec![(1, 4, 5), (1, 5, 7)]);
    assert_eq!(sorted(out.all_edges()), sorted(expected));
    // the same draws give the same graph
    let again = put_edges_back(&tree, &pool, &vec![29, 30, 99, 0], 30);
    assert_eq!(sorted(again.all_edges()), sorted(out.all_edges()));
    // an edge without a draw is not put back; a chance above 100 counts as 100
    let out = put_edges_back(&tree, &pool, &vec![99, 99], 250);
    let mut expected = tree.all_edges();
    expected.extend(vec![(1, 4, 5), (2, 5, 5)]);
    assert_eq!(sorted(out.all_edges()), sorted(expected));
    let out = put_edges_back(&tree, &pool, &vec![0, 0, 0, 0], 0);
    assert_eq!(sorted(out.all_edges()), sorted(tree.all_edges()));
    // an edge given the other way round is filed under its pair
    let out = put_edges_back(&tree, &vec![(5, 1, 7)], &vec![0], 1);
    assert!(out.all_edges().contains(&(1, 5, 7)));
}

#[test]
fn the_outline_is_closed() {
    let t = Triangulation::new(vec![0, 1, 2, 2, 1, 3], vec![0, 1, 3, 2], 4).unwrap();
    let ids = vec![10, 11, 12, 13];
    assert_eq!(list_outline_pairs(&t, &ids), vec![(10, 11), (11, 13), (13, 12), (12, 10)]);
    // two points on a line have one pair and nothing to close
    let line = Triangulation::new(vec![], vec![1, 0], 2).unwrap();
    assert_eq!(list_outline_pairs(&line, &vec![5, 6]), vec![(6, 5)]);
    let none = Triangulation::new(vec![], vec![], 2).unwrap();
    assert!(list_outline_pairs(&none, &vec![5, 6]).is_empty());
}

#[test]
fn no_edge_of_the_outline_is_put_back() {
    let (tree, mut all, _, map) = square_graphs();
    // the outline runs 3, 5, 4, 0 and closes from 0 back to 3
    all.add_edge(0, 3, 36);
    let hull = Triangulation::new(vec![0, 3, 5, 0, 5, 4], vec![3, 5, 4, 0], 6).unwrap();
    let mut rng = WorldgenRng::new(7);
    let out = reassemble_graph(&tree, &all, &hull, None, 100, &mut rng, &map);
    let mut expected = tree.all_edges();
    expected.extend(vec![(1, 4, 5), (2, 5, 5), (2, 4, 7), (1, 5, 7)]);
    assert_eq!(sorted(out.all_edges()), sorted(expected));
    assert!(!out.all_edges().contains(&(0, 3, 36)));
    assert!(!out.all_edges().contains(&(4, 5, 9)));
}
