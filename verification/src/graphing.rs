//! The graph over the rooms: triangulation of the room centres, the spanning
//! tree, the main path and the edges put back to close cycles.

use vstd::prelude::*;
use crate::generation::{
    dims_of, edges_in_range, ids_in_range, lemma_main_ids_in_range, main_ids, pairs_in_range,
    rooms_ok, MapArea, WorldgenError, WorldgenSettings,
};
use crate::graph_store::{
    edge_key, graph_add_edge, graph_all_edges, graph_clone, graph_edges, graph_edges_at,
    graph_min_spanning_tree, graph_new, graph_remove_edge, graph_remove_node, incident, lists_edges,
    is_min_spanning_forest, lists_edges_at, no_edges, pair_of, walks, without_node, Edge,
    EdgeMap, UnGraph,
};
use crate::path_search::{depth_first_path, cut_off};
use crate::rng::WorldgenRng;
use crate::connecting::{connections_in_range, RoomConnection};
use crate::room::{center_distance_sq, squared_distance_between_structures, Room, RoomDimensions};

verus! {

/// An undirected graph over room ids; an edge weighs four times the squared
/// distance between the centres of its rooms.
#[derive(Debug)]
pub struct MyGraph {
    pub inner: UnGraph,
}

impl View for MyGraph {
    type V = EdgeMap;

    /// The edges: each unordered pair of room ids, smaller id first, with its weight.
    open spec fn view(&self) -> EdgeMap {
        graph_edges(self.inner)
    }
}

impl Clone for MyGraph {
    fn clone(&self) -> (r: Self)
        ensures
            r@ == self@,
    {
        MyGraph { inner: graph_clone(&self.inner) }
    }
}

impl Default for MyGraph {
    fn default() -> (r: Self)
        ensures
            r@ == no_edges(),
    {
        MyGraph { inner: graph_new() }
    }
}

impl MyGraph {
    /// A graph without edges.
    pub fn new() -> (r: Self)
        ensures
            r@ == no_edges(),
    {
        MyGraph { inner: graph_new() }
    }

    /// Adds the edge between `a` and `b`, or gives it a new weight.
    pub fn add_edge(&mut self, a: usize, b: usize, weight: u64)
        ensures
            final(self)@ == old(self)@.insert(edge_key(a, b), weight),
    {
        graph_add_edge(&mut self.inner, a, b, weight);
    }

    /// Removes the edge between `a` and `b`, if there is one.
    pub fn remove_edge(&mut self, a: usize, b: usize)
        ensures
            final(self)@ == old(self)@.remove(edge_key(a, b)),
    {
        graph_remove_edge(&mut self.inner, a, b);
    }

    /// Removes every edge at `n`.
    pub fn remove_node(&mut self, n: usize)
        ensures
            final(self)@ == without_node(old(self)@, n),
    {
        graph_remove_node(&mut self.inner, n);
    }

    /// Every edge once, as `(smaller id, larger id, weight)`.
    pub fn all_edges(&self) -> (r: Vec<Edge>)
        ensures
            lists_edges(r@, self@),
    {
        graph_all_edges(&self.inner)
    }

    /// Every edge at `n` once, as `(n, neighbour, weight)`.
    pub fn edges(&self, n: usize) -> (r: Vec<Edge>)
        ensures
            lists_edges_at(r@, self@, n),
    {
        graph_edges_at(&self.inner, n)
    }
}

/// The graphs of a map.
#[derive(Debug, Clone)]
pub struct RoomGraph {
    /// A spanning tree of least weight over the candidate edges.
    pub mst: MyGraph,
    /// The spanning tree with some more edges put back.
    pub reassembled_graph: MyGraph,
    /// The ids of the rooms on the main path, from one end to the other.
    pub main_path_rooms: Vec<usize>,
}

/// A triangulation of the centres of the main rooms. The numbers are
/// positions in the list of main rooms, ordered by id.
#[derive(Debug, Clone)]
pub struct Triangulation {
    /// The corners of the triangles, three numbers for each.
    pub triangles: Vec<usize>,
    /// The points on the outline. Where no triangle exists, because there
    /// are too few points or all lie on one line, these are all points in
    /// their order along the line.
    pub hull: Vec<usize>,
}

impl Triangulation {
    /// The corners come in threes, and every number names one of `n` points.
    pub open spec fn wf(&self, n: nat) -> bool {
        &&& self.triangles@.len() % 3 == 0
        &&& forall|i: int| 0 <= i < self.triangles@.len() ==> #[trigger] self.triangles@[i] < n
        &&& forall|i: int| 0 <= i < self.hull@.len() ==> #[trigger] self.hull@[i] < n
    }

    /// A triangulation of `points` points from the corners of its triangles
    /// and its outline; `None` where the corners do not come in threes or a
    /// number names no point.
    pub fn new(triangles: Vec<usize>, hull: Vec<usize>, points: usize) -> (r: Option<Triangulation>)
        ensures
            match r {
                Some(t) => t.triangles == triangles && t.hull == hull && t.wf(points as nat),
                None => !(Triangulation { triangles, hull }).wf(points as nat),
            },
    {
        if triangles.len() % 3 != 0 {
            return None;
        }
        let mut i: usize = 0;
        while i < triangles.len()
            invariant
                i <= triangles@.len(),
                forall|k: int| 0 <= k < i ==> #[trigger] triangles@[k] < points,
            decreases triangles@.len() - i,
        {
            if triangles[i] >= points {
                assert(!((Triangulation { triangles, hull }).triangles@[i as int] < points));
                return None;
            }
            i += 1;
        }
        let mut j: usize = 0;
        while j < hull.len()
            invariant
                j <= hull@.len(),
                forall|k: int| 0 <= k < j ==> #[trigger] hull@[k] < points,
            decreases hull@.len() - j,
        {
            if hull[j] >= points {
                assert(!((Triangulation { triangles, hull }).hull@[j as int] < points));
                return None;
            }
            j += 1;
        }
        Some(Triangulation { triangles, hull })
    }

    /// The number of triangles.
    pub fn len(&self) -> (r: usize)
        ensures
            r == self.triangles@.len() / 3,
    {
        self.triangles.len() / 3
    }

    pub fn is_empty(&self) -> (r: bool)
        ensures
            r == (self.triangles@.len() == 0),
    {
        self.triangles.len() == 0
    }
}

/// Twice the centres of the main rooms, in the order of their ids.
pub open spec fn main_centers(rooms: Seq<crate::room::Room>) -> Seq<(i64, i64)> {
    Seq::new(
        main_ids(rooms).len(),
        |k: int|
            (
                rooms[main_ids(rooms)[k] as int].dims().center2_x() as i64,
                rooms[main_ids(rooms)[k] as int].dims().center2_y() as i64,
            ),
    )
}

/// The points to triangulate: twice the centre of each main room, so that
/// half tiles stay whole numbers, in the order of the rooms' ids.
pub fn main_room_centers(map: &MapArea) -> (r: Vec<(i64, i64)>)
    requires
        map.wf(),
    ensures
        r@ == main_centers(map.rooms@),
{
    let ids: Vec<usize> = map.main_room_ids();
    proof {
        lemma_main_ids_in_range(map.rooms@);
    }
    let mut points: Vec<(i64, i64)> = Vec::new();
    let mut k: usize = 0;
    while k < ids.len()
        invariant
            map.wf(),
            ids@ == main_ids(map.rooms@),
            ids_in_range(ids@, map.rooms@.len()),
            k <= ids@.len(),
            points@.len() == k,
            forall|j: int| 0 <= j < k ==> #[trigger] points@[j] == main_centers(map.rooms@)[j],
        decreases ids@.len() - k,
    {
        let coords: (i64, i64) = map.rooms[ids[k]].dimensions().center_doubled();
        points.push(coords);
        k += 1;
    }
    assert(points@ =~= main_centers(map.rooms@));
    points
}

/// Takes a triangulation of the main rooms' centres into the map. The
/// numbers in it are positions in the list that `main_room_centers` gives.
/// Returns false, and leaves the map as it is, where the corners do not come
/// in threes or a number names no main room.
pub fn get_triangulation(map: &mut MapArea, triangles: Vec<usize>, hull: Vec<usize>) -> (r: bool)
    requires
        old(map).wf(),
    ensures
        final(map).wf(),
        r == (Triangulation { triangles, hull }).wf(main_ids(old(map).rooms@).len()),
        r ==> final(map).triangulation == Some(Triangulation { triangles, hull }),
        !r ==> final(map).triangulation == old(map).triangulation,
        final(map).rooms == old(map).rooms,
        final(map).initial_connections == old(map).initial_connections,
        final(map).graph == old(map).graph,
        final(map).connections == old(map).connections,
{
    let count: usize = map.main_room_ids().len();
    match Triangulation::new(triangles, hull, count) {
        Some(t) => {
            map.triangulation = Some(t);
            true
        },
        None => false,
    }
}

/// The weight of an edge between the rooms `a` and `b`: four times the
/// squared distance between their centres.
pub open spec fn weight_between(rooms: Seq<RoomDimensions>, a: usize, b: usize) -> u64 {
    center_distance_sq(rooms[a as int], rooms[b as int]) as u64
}

/// The edges with the first `k` pairs added, one after the other, each
/// with the weight that the distance between its rooms gives.
pub open spec fn add_pairs(
    edges: EdgeMap,
    rooms: Seq<RoomDimensions>,
    pairs: Seq<(usize, usize)>,
    k: int,
) -> EdgeMap
    decreases k,
{
    if k <= 0 {
        edges
    } else {
        add_pairs(edges, rooms, pairs, k - 1).insert(
            edge_key(pairs[k - 1].0, pairs[k - 1].1),
            weight_between(rooms, pairs[k - 1].0, pairs[k - 1].1),
        )
    }
}

/// The pairs of rooms that follow each other on the outline.
pub open spec fn hull_pairs(hull: Seq<usize>, ids: Seq<usize>) -> Seq<(usize, usize)> {
    Seq::new(
        if hull.len() == 0 {
            0
        } else {
            (hull.len() - 1) as nat
        },
        |i: int| (ids[hull[i] as int], ids[hull[i + 1] as int]),
    )
}

/// The pairs of rooms along the closed outline: each point with the next
/// and, for three or more points, the last with the first.
pub open spec fn outline_pairs(hull: Seq<usize>, ids: Seq<usize>) -> Seq<(usize, usize)> {
    if hull.len() >= 3 {
        hull_pairs(hull, ids).push((ids[hull.last() as int], ids[hull[0] as int]))
    } else {
        hull_pairs(hull, ids)
    }
}

/// The three sides of every triangle, as pairs of rooms: first to second
/// corner, second to third, first to third.
pub open spec fn triangle_pairs(triangles: Seq<usize>, ids: Seq<usize>) -> Seq<(usize, usize)> {
    Seq::new(
        (triangles.len() / 3 * 3) as nat,
        |i: int|
            if i % 3 == 0 {
                (ids[triangles[i] as int], ids[triangles[i + 1] as int])
            } else if i % 3 == 1 {
                (ids[triangles[i] as int], ids[triangles[i + 1] as int])
            } else {
                (ids[triangles[i - 2] as int], ids[triangles[i] as int])
            },
    )
}

/// The pairs of rooms that may become edges: the sides of the triangles,
/// or, where there is no triangle, the pairs along the outline; and after
/// them every connection that the presets ask for.
pub open spec fn candidate_pairs(
    triangles: Seq<usize>,
    hull: Seq<usize>,
    ids: Seq<usize>,
    initial: Seq<(usize, usize)>,
) -> Seq<(usize, usize)> {
    (if triangles.len() == 0 {
        hull_pairs(hull, ids)
    } else {
        Seq::empty()
    }) + triangle_pairs(triangles, ids) + initial
}

/// The candidate edges of a map: the candidate pairs with their weights.
pub open spec fn candidate_edges(
    rooms: Seq<RoomDimensions>,
    triangles: Seq<usize>,
    hull: Seq<usize>,
    ids: Seq<usize>,
    initial: Seq<(usize, usize)>,
) -> EdgeMap {
    add_pairs(
        no_edges(),
        rooms,
        candidate_pairs(triangles, hull, ids, initial),
        candidate_pairs(triangles, hull, ids, initial).len() as int,
    )
}

/// Lists the pairs of rooms that may become edges.
pub fn list_candidate_pairs(
    triangulation: &Triangulation,
    ids: &Vec<usize>,
    initial: &Vec<(usize, usize)>,
) -> (r: Vec<(usize, usize)>)
    requires
        triangulation.wf(ids@.len()),
    ensures
        r@ == candidate_pairs(triangulation.triangles@, triangulation.hull@, ids@, initial@),
{
    let triangles = &triangulation.triangles;
    let hull = &triangulation.hull;
    let mut pairs: Vec<(usize, usize)> = Vec::new();
    if triangles.len() == 0 && hull.len() > 0 {
        let mut i: usize = 0;
        let n: usize = hull.len();
        while i + 1 < n
            invariant
                n == hull@.len(),
                n > 0,
                i + 1 <= n,
                triangulation.wf(ids@.len()),
                hull == &triangulation.hull,
                pairs@ == hull_pairs(hull@, ids@).take(i as int),
            decreases n - i,
        {
            pairs.push((ids[hull[i]], ids[hull[i + 1]]));
            assert(hull_pairs(hull@, ids@).take(i + 1) =~= hull_pairs(hull@, ids@).take(
                i as int,
            ).push((ids@[hull@[i as int] as int], ids@[hull@[i + 1] as int])));
            i += 1;
        }
        assert(hull_pairs(hull@, ids@).take(i as int) =~= hull_pairs(hull@, ids@));
    }
    let ghost from_hull = pairs@;
    assert(from_hull =~= (if triangles@.len() == 0 {
        hull_pairs(hull@, ids@)
    } else {
        Seq::empty()
    }));
    let mut t: usize = 0;
    let m: usize = triangles.len();
    assert(from_hull + triangle_pairs(triangles@, ids@).take(0) =~= from_hull);
    while t < m
        invariant
            m == triangles@.len(),
            m % 3 == 0,
            t % 3 == 0,
            t <= m,
            triangulation.wf(ids@.len()),
            triangles == &triangulation.triangles,
            pairs@ == from_hull + triangle_pairs(triangles@, ids@).take(t as int),
        decreases m - t,
    {
        let a: usize = ids[triangles[t]];
        let b: usize = ids[triangles[t + 1]];
        let c: usize = ids[triangles[t + 2]];
        pairs.push((a, b));
        pairs.push((b, c));
        pairs.push((a, c));
        assert(from_hull + triangle_pairs(triangles@, ids@).take(t + 3) =~= (from_hull
            + triangle_pairs(triangles@, ids@).take(t as int)).push((a, b)).push((b, c)).push((a, c)));
        t += 3;
    }
    assert(triangle_pairs(triangles@, ids@).take(t as int) =~= triangle_pairs(triangles@, ids@));
    let ghost from_triangles = pairs@;
    let mut k: usize = 0;
    assert(from_triangles + initial@.take(0) =~= from_triangles);
    while k < initial.len()
        invariant
            k <= initial@.len(),
            pairs@ == from_triangles + initial@.take(k as int),
        decreases initial@.len() - k,
    {
        pairs.push(initial[k]);
        assert(from_triangles + initial@.take(k + 1) =~= (from_triangles + initial@.take(
            k as int,
        )).push(initial@[k as int]));
        k += 1;
    }
    assert(initial@.take(k as int) =~= initial@);
    pairs
}

/// The graph with an edge for each pair, weighted by the distance between
/// the centres of its rooms; a pair that comes again overwrites the edge.
pub fn graph_of_pairs(pairs: &Vec<(usize, usize)>, map: &MapArea) -> (r: MyGraph)
    requires
        rooms_ok(map.rooms@),
        pairs_in_range(pairs@, map.rooms@.len()),
    ensures
        r@ == add_pairs(no_edges(), dims_of(map.rooms@), pairs@, pairs@.len() as int),
        edges_in_range(r@, map.rooms@.len()),
{
    let mut graph = MyGraph::new();
    let mut k: usize = 0;
    while k < pairs.len()
        invariant
            rooms_ok(map.rooms@),
            pairs_in_range(pairs@, map.rooms@.len()),
            k <= pairs@.len(),
            graph@ == add_pairs(no_edges(), dims_of(map.rooms@), pairs@, k as int),
            edges_in_range(graph@, map.rooms@.len()),
        decreases pairs@.len() - k,
    {
        let a: usize = pairs[k].0;
        let b: usize = pairs[k].1;
        let distance: u64 = squared_distance_between_structures(
            &map.rooms[a].dimensions(),
            &map.rooms[b].dimensions(),
        );
        assert(dims_of(map.rooms@)[a as int] == map.rooms@[a as int].dims());
        assert(dims_of(map.rooms@)[b as int] == map.rooms@[b as int].dims());
        graph.add_edge(a, b, distance);
        k += 1;
    }
    graph
}

/// The list with one more edge, put behind every edge that is not heavier.
pub open spec fn sorted_insert(sorted: Seq<Edge>, e: Edge) -> Seq<Edge>
    decreases sorted.len(),
{
    if sorted.len() == 0 {
        seq![e]
    } else if sorted.last().2 <= e.2 {
        sorted.push(e)
    } else {
        sorted_insert(sorted.drop_last(), e).push(sorted.last())
    }
}

/// The edges in ascending order of weight; edges of the same weight keep
/// their order.
pub open spec fn by_weight(list: Seq<Edge>) -> Seq<Edge>
    decreases list.len(),
{
    if list.len() == 0 {
        Seq::empty()
    } else {
        sorted_insert(by_weight(list.drop_last()), list.last())
    }
}

/// The far ends of the edges.
pub open spec fn far_ends(list: Seq<Edge>) -> Seq<usize> {
    Seq::new(list.len(), |i: int| list[i].1)
}

/// Sorts edges by weight, ascending; edges of the same weight keep their order.
pub fn sort_by_weight(list: &Vec<Edge>) -> (r: Vec<Edge>)
    ensures
        r@ == by_weight(list@),
{
    let mut sorted: Vec<Edge> = Vec::new();
    let mut k: usize = 0;
    while k < list.len()
        invariant
            k <= list@.len(),
            sorted@ == by_weight(list@.take(k as int)),
        decreases list@.len() - k,
    {
        let e: Edge = list[k];
        let ghost before = sorted@;
        let mut p: usize = sorted.len();
        assert(before.take(p as int) =~= before);
        assert(sorted_insert(before.take(p as int), e) + before.skip(p as int) =~= sorted_insert(
            before,
            e,
        ));
        while p > 0 && sorted[p - 1].2 > e.2
            invariant
                sorted@ == before,
                p <= before.len(),
                sorted_insert(before, e) == sorted_insert(before.take(p as int), e) + before.skip(
                    p as int,
                ),
            decreases p,
        {
            assert(before.take(p as int).drop_last() =~= before.take(p - 1));
            assert(sorted_insert(before.take(p - 1), e).push(before[p - 1]) + before.skip(p as int)
                =~= sorted_insert(before.take(p - 1), e) + before.skip(p - 1));
            p -= 1;
        }
        sorted.insert(p, e);
        assert(sorted@ =~= sorted_insert(before, e)) by {
            if p == 0 {
                assert(before.take(0) =~= Seq::<Edge>::empty());
            }
            assert(before.insert(p as int, e) =~= before.take(p as int).push(e) + before.skip(
                p as int,
            ));
        }
        assert(list@.take(k + 1).drop_last() =~= list@.take(k as int));
        k += 1;
    }
    assert(list@.take(k as int) =~= list@);
    sorted
}

/// Every edge of a list sorted by weight is an edge of the list.
pub proof fn lemma_sorted_keeps_edges(list: Seq<Edge>)
    ensures
        by_weight(list).len() == list.len(),
        forall|i: int| 0 <= i < list.len() ==> list.contains(#[trigger] by_weight(list)[i]),
    decreases list.len(),
{
    if list.len() > 0 {
        let shorter = list.drop_last();
        lemma_sorted_keeps_edges(shorter);
        lemma_insert_keeps_edges(by_weight(shorter), list.last());
        assert forall|i: int| 0 <= i < list.len() implies list.contains(
            #[trigger] by_weight(list)[i],
        ) by {
            let x = by_weight(list)[i];
            if x == list.last() {
                assert(list[list.len() - 1] == x);
            } else {
                assert(by_weight(shorter).contains(x));
                let j = choose|j: int| 0 <= j < shorter.len() && by_weight(shorter)[j] == x;
                assert(shorter.contains(by_weight(shorter)[j]));
                let m = choose|m: int| 0 <= m < shorter.len() && shorter[m] == x;
                assert(list[m] == x);
            }
        }
    }
}

/// Every edge of a list with one more edge is that edge or one of the list.
proof fn lemma_insert_keeps_edges(sorted: Seq<Edge>, e: Edge)
    ensures
        sorted_insert(sorted, e).len() == sorted.len() + 1,
        forall|i: int|
            0 <= i <= sorted.len() ==> (#[trigger] sorted_insert(sorted, e)[i]) == e || sorted.contains(
                sorted_insert(sorted, e)[i],
            ),
    decreases sorted.len(),
{
    if sorted.len() == 0 {
    } else if sorted.last().2 <= e.2 {
        assert forall|i: int| 0 <= i <= sorted.len() implies (#[trigger] sorted_insert(sorted, e)[i])
            == e || sorted.contains(sorted_insert(sorted, e)[i]) by {
            if i < sorted.len() {
                assert(sorted[i] == sorted_insert(sorted, e)[i]);
            }
        }
    } else {
        let shorter = sorted.drop_last();
        lemma_insert_keeps_edges(shorter, e);
        assert forall|i: int| 0 <= i <= sorted.len() implies (#[trigger] sorted_insert(sorted, e)[i])
            == e || sorted.contains(sorted_insert(sorted, e)[i]) by {
            let x = sorted_insert(sorted, e)[i];
            if i == sorted.len() {
                assert(sorted[sorted.len() - 1] == x);
            } else {
                assert(x == sorted_insert(shorter, e)[i]);
                if x != e {
                    let m = choose|m: int| 0 <= m < shorter.len() && shorter[m] == x;
                    assert(sorted[m] == x);
                }
            }
        }
    }
}

/// Whether two room ids are the same.
pub fn same_room(a: usize, b: usize) -> (r: bool)
    ensures
        r == (a == b),
{
    a == b
}

/// The neighbours of a room in a graph, nearest first: the edges at the
/// room are sorted by weight, and each gives its far end.
pub fn successors_by_weight(graph: &MyGraph, current: usize) -> (r: Vec<usize>)
    ensures
        exists|list: Seq<Edge>| #[trigger]
            lists_edges_at(list, graph@, current) && r@ == far_ends(by_weight(list)),
        forall|i: int| 0 <= i < r@.len() ==> graph@.contains_key(edge_key(current, #[trigger] r@[i])),
        r@.len() == incident(graph@, current).len(),
{
    let edges: Vec<Edge> = graph.edges(current);
    let sorted: Vec<Edge> = sort_by_weight(&edges);
    proof {
        lemma_sorted_keeps_edges(edges@);
    }
    let mut successors: Vec<usize> = Vec::new();
    let mut i: usize = 0;
    while i < sorted.len()
        invariant
            i <= sorted@.len(),
            successors@.len() == i,
            forall|j: int| 0 <= j < i ==> #[trigger] successors@[j] == sorted@[j].1,
        decreases sorted@.len() - i,
    {
        successors.push(sorted[i].1);
        i += 1;
    }
    assert(successors@ =~= far_ends(by_weight(edges@)));
    assert forall|i: int| 0 <= i < successors@.len() implies graph@.contains_key(
        edge_key(current, #[trigger] successors@[i]),
    ) by {
        let x = by_weight(edges@)[i];
        assert(edges@.contains(x));
        let m = choose|m: int| 0 <= m < edges@.len() && edges@[m] == x;
        assert(edges@[m].1 == successors@[i]);
    }
    successors
}

/// The rooms among `ids` that exactly one edge ends at, in the order of `ids`.
pub open spec fn leaf_ids(edges: EdgeMap, ids: Seq<usize>) -> Seq<usize>
    decreases ids.len(),
{
    if ids.len() == 0 {
        Seq::empty()
    } else if incident(edges, ids.last()).len() == 1 {
        leaf_ids(edges, ids.drop_last()).push(ids.last())
    } else {
        leaf_ids(edges, ids.drop_last())
    }
}

/// The weight that an edge between the rooms at the places `i` and `j` of
/// a list would have.
pub open spec fn pair_distance(rooms: Seq<RoomDimensions>, list: Seq<usize>, i: int, j: int) -> int {
    center_distance_sq(rooms[list[i] as int], rooms[list[j] as int])
}

/// The pair of places `(i2, j2)` comes before `(i, j)` when all pairs
/// are gone through in order.
pub open spec fn comes_before(i2: int, j2: int, i: int, j: int) -> bool {
    i2 < i || (i2 == i && j2 < j)
}

/// The rooms at the places `i` and `j` of the list are farther apart than
/// any pair that comes before them, and no pair is farther apart than they.
pub open spec fn is_farthest_pair(rooms: Seq<RoomDimensions>, list: Seq<usize>, i: int, j: int) -> bool {
    &&& 0 <= i < j < list.len()
    &&& forall|i2: int, j2: int|
        0 <= i2 < j2 < list.len() ==> #[trigger] pair_distance(rooms, list, i2, j2) <= pair_distance(
            rooms,
            list,
            i,
            j,
        )
    &&& forall|i2: int, j2: int|
        0 <= i2 < j2 < list.len() && comes_before(i2, j2, i, j) ==> #[trigger] pair_distance(
            rooms,
            list,
            i2,
            j2,
        ) < pair_distance(rooms, list, i, j)
}

/// The main rooms that are leaves of the graph, in the order of their ids.
pub fn leaf_rooms(graph: &MyGraph, map: &MapArea) -> (r: Vec<usize>)
    ensures
        r@ == leaf_ids(graph@, main_ids(map.rooms@)),
        ids_in_range(r@, map.rooms@.len()),
{
    let ids: Vec<usize> = map.main_room_ids();
    proof {
        lemma_main_ids_in_range(map.rooms@);
    }
    let mut leaves: Vec<usize> = Vec::new();
    let mut k: usize = 0;
    while k < ids.len()
        invariant
            k <= ids@.len(),
            ids_in_range(ids@, map.rooms@.len()),
            leaves@ == leaf_ids(graph@, ids@.take(k as int)),
            ids_in_range(leaves@, map.rooms@.len()),
        decreases ids@.len() - k,
    {
        assert(ids@.take(k + 1).drop_last() =~= ids@.take(k as int));
        if graph.edges(ids[k]).len() == 1 {
            leaves.push(ids[k]);
        }
        k += 1;
    }
    assert(ids@.take(k as int) =~= ids@);
    leaves
}

/// The two rooms among `list` that are farthest apart: the first such pair
/// when all pairs are gone through in order. `None` for fewer than two rooms.
pub fn farthest_pair(list: &Vec<usize>, map: &MapArea) -> (r: Option<(usize, usize)>)
    requires
        rooms_ok(map.rooms@),
        ids_in_range(list@, map.rooms@.len()),
    ensures
        match r {
            Some((a, b)) => exists|i: int, j: int| #[trigger]
                is_farthest_pair(dims_of(map.rooms@), list@, i, j) && a == list@[i] && b == list@[j],
            None => list@.len() < 2,
        },
{
    let n: usize = list.len();
    if n < 2 {
        return None;
    }
    let ghost rooms = dims_of(map.rooms@);
    let mut best: (usize, usize) = (0, 1);
    let mut best_distance: u64 = squared_distance_between_structures(
        &map.rooms[list[0]].dimensions(),
        &map.rooms[list[1]].dimensions(),
    );
    assert(rooms[list@[0] as int] == map.rooms@[list@[0] as int].dims());
    assert(rooms[list@[1] as int] == map.rooms@[list@[1] as int].dims());
    let mut i: usize = 0;
    while i < n
        invariant
            n == list@.len(),
            n >= 2,
            i <= n,
            rooms == dims_of(map.rooms@),
            rooms_ok(map.rooms@),
            ids_in_range(list@, map.rooms@.len()),
            best.0 < best.1 < n,
            best_distance == pair_distance(rooms, list@, best.0 as int, best.1 as int),
            i == 0 ==> best == (0usize, 1usize),
            i > 0 ==> best.0 < i,
            forall|i2: int, j2: int|
                0 <= i2 < j2 < n && i2 < i ==> #[trigger] pair_distance(rooms, list@, i2, j2)
                    <= best_distance,
            forall|i2: int, j2: int|
                0 <= i2 < j2 < n && comes_before(i2, j2, best.0 as int, best.1 as int)
                    ==> #[trigger] pair_distance(rooms, list@, i2, j2) < best_distance,
        decreases n - i,
    {
        let mut j: usize = i + 1;
        while j < n
            invariant
                n == list@.len(),
                n >= 2,
                i < n,
                i < j <= n,
                rooms == dims_of(map.rooms@),
                rooms_ok(map.rooms@),
                ids_in_range(list@, map.rooms@.len()),
                best.0 < best.1 < n,
                best_distance == pair_distance(rooms, list@, best.0 as int, best.1 as int),
                (i == 0 && j == 1) ==> best == (0usize, 1usize),
                comes_before(best.0 as int, best.1 as int, i as int, j as int) || (i == 0 && j == 1),
                forall|i2: int, j2: int|
                    0 <= i2 < j2 < n && comes_before(i2, j2, i as int, j as int)
                        ==> #[trigger] pair_distance(rooms, list@, i2, j2) <= best_distance,
                forall|i2: int, j2: int|
                    0 <= i2 < j2 < n && comes_before(i2, j2, best.0 as int, best.1 as int)
                        ==> #[trigger] pair_distance(rooms, list@, i2, j2) < best_distance,
            decreases n - j,
        {
            let distance: u64 = squared_distance_between_structures(
                &map.rooms[list[i]].dimensions(),
                &map.rooms[list[j]].dimensions(),
            );
            assert(rooms[list@[i as int] as int] == map.rooms@[list@[i as int] as int].dims());
            assert(rooms[list@[j as int] as int] == map.rooms@[list@[j as int] as int].dims());
            assert(distance == pair_distance(rooms, list@, i as int, j as int));
            if distance > best_distance {
                best = (i, j);
                best_distance = distance;
            }
            j += 1;
        }
        i += 1;
    }
    assert(is_farthest_pair(rooms, list@, best.0 as int, best.1 as int));
    Some((list[best.0], list[best.1]))
}

/// Looks at the main rooms that are leaves of the tree, which have exactly
/// one connection, and finds the two that are the longest distance apart.
pub fn rooms_with_longest_distance_between_them(mst: &MyGraph, map: &MapArea) -> (r: Option<
    (usize, usize),
>)
    requires
        rooms_ok(map.rooms@),
    ensures
        match r {
            Some((a, b)) => exists|i: int, j: int| #[trigger]
                is_farthest_pair(
                    dims_of(map.rooms@),
                    leaf_ids(mst@, main_ids(map.rooms@)),
                    i,
                    j,
                ) && a == leaf_ids(mst@, main_ids(map.rooms@))[i] && b == leaf_ids(
                    mst@,
                    main_ids(map.rooms@),
                )[j],
            None => leaf_ids(mst@, main_ids(map.rooms@)).len() < 2,
        },
        r is Some ==> r.unwrap().0 < map.rooms@.len() && r.unwrap().1 < map.rooms@.len(),
{
    let edge_rooms: Vec<usize> = leaf_rooms(mst, map);
    farthest_pair(&edge_rooms, map)
}

/// Finds a path between two rooms of a graph: a depth-first search that
/// tries the neighbours of a room nearest first. `None` where the rooms
/// are not connected.
pub fn create_path_between_two_rooms(graph: &MyGraph, start: usize, end: usize) -> (r: Option<
    Vec<usize>,
>)
    ensures
        r is Some ==> walks(graph@, r.unwrap()@, start, end),
        r is None ==> cut_off(graph@, start, end),
        start == end ==> r is Some && r.unwrap()@ == seq![start],
{
    if start == end {
        let mut path: Vec<usize> = Vec::new();
        path.push(start);
        assert(path@ =~= seq![start]);
        return Some(path);
    }
    depth_first_path(graph, start, end)
}

/// The edges without the first `k` pairs.
pub open spec fn remove_pairs(edges: EdgeMap, pairs: Seq<(usize, usize)>, k: int) -> EdgeMap
    decreases k,
{
    if k <= 0 {
        edges
    } else {
        remove_pairs(edges, pairs, k - 1).remove(edge_key(pairs[k - 1].0, pairs[k - 1].1))
    }
}

/// The edges without those at any of the first `k` rooms.
pub open spec fn remove_nodes(edges: EdgeMap, nodes: Seq<usize>, k: int) -> EdgeMap
    decreases k,
{
    if k <= 0 {
        edges
    } else {
        without_node(remove_nodes(edges, nodes, k - 1), nodes[k - 1])
    }
}

/// The edges that may be put back into the tree: the candidate edges
/// without those of the tree, those between the pairs `hull`, which are the
/// pairs along the closed outline, those at a room of the main path, and
/// those that the presets ask for.
pub open spec fn pool_edges(
    all: EdgeMap,
    mst: EdgeMap,
    hull: Seq<(usize, usize)>,
    path: Seq<usize>,
    initial: Seq<(usize, usize)>,
) -> EdgeMap {
    remove_pairs(
        remove_nodes(
            remove_pairs(all.remove_keys(mst.dom()), hull, hull.len() as int),
            path,
            path.len() as int,
        ),
        initial,
        initial.len() as int,
    )
}

/// The chance of an edge to be put back, in per cent: the setting, or 100
/// where that is more.
pub open spec fn clamped_percentage(percentage: u32) -> u32 {
    if percentage > 100 {
        100
    } else {
        percentage
    }
}

/// Whether an edge is put back, given a draw from 0 to 99: the draw has to
/// be below the chance.
pub fn accepts(draw: u32, percentage: u32) -> (r: bool)
    ensures
        r == (draw < clamped_percentage(percentage)),
{
    let chance: u32 = if percentage > 100 { 100 } else { percentage };
    draw < chance
}

/// Removing pairs only takes edges away.
proof fn lemma_remove_pairs_shrinks(edges: EdgeMap, pairs: Seq<(usize, usize)>, k: int)
    ensures
        remove_pairs(edges, pairs, k).submap_of(edges),
    decreases k,
{
    if k > 0 {
        lemma_remove_pairs_shrinks(edges, pairs, k - 1);
    }
}

/// Removing rooms only takes edges away.
proof fn lemma_remove_nodes_shrinks(edges: EdgeMap, nodes: Seq<usize>, k: int)
    ensures
        remove_nodes(edges, nodes, k).submap_of(edges),
    decreases k,
{
    if k > 0 {
        lemma_remove_nodes_shrinks(edges, nodes, k - 1);
    }
}

/// The pool holds candidate edges only, and none of the tree.
pub proof fn lemma_pool_is_apart(
    all: EdgeMap,
    mst: EdgeMap,
    hull: Seq<(usize, usize)>,
    path: Seq<usize>,
    initial: Seq<(usize, usize)>,
)
    ensures
        pool_edges(all, mst, hull, path, initial).submap_of(all),
        forall|k: (usize, usize)| #[trigger]
            pool_edges(all, mst, hull, path, initial).contains_key(k) ==> !mst.contains_key(k),
{
    let a = all.remove_keys(mst.dom());
    let b = remove_pairs(a, hull, hull.len() as int);
    let c = remove_nodes(b, path, path.len() as int);
    let p = pool_edges(all, mst, hull, path, initial);
    lemma_remove_pairs_shrinks(a, hull, hull.len() as int);
    lemma_remove_nodes_shrinks(b, path, path.len() as int);
    lemma_remove_pairs_shrinks(c, initial, initial.len() as int);
    vstd::map_lib::lemma_submap_of_trans(p, c, b);
    vstd::map_lib::lemma_submap_of_trans(p, b, a);
    assert(a.submap_of(all));
    vstd::map_lib::lemma_submap_of_trans(p, a, all);
    assert forall|k: (usize, usize)| #[trigger] p.contains_key(k) implies !mst.contains_key(k) by {
        assert(p.dom().contains(k) ==> a.dom().contains(k));
    }
}

/// The pairs of the first `k` edges of a list.
pub open spec fn listed_pairs(list: Seq<Edge>, k: int) -> Set<(usize, usize)> {
    Set::new(|key: (usize, usize)| exists|i: int| 0 <= i < k && #[trigger] pair_of(list[i]) == key)
}

/// Takes the edges of `other` out of `pool`.
fn remove_edges_of(pool: &mut MyGraph, other: &MyGraph)
    ensures
        final(pool)@ == old(pool)@.remove_keys(other@.dom()),
{
    let list: Vec<Edge> = other.all_edges();
    let mut k: usize = 0;
    assert(pool@ =~= old(pool)@.remove_keys(listed_pairs(list@, 0)));
    while k < list.len()
        invariant
            k <= list@.len(),
            lists_edges(list@, other@),
            pool@ == old(pool)@.remove_keys(listed_pairs(list@, k as int)),
        decreases list@.len() - k,
    {
        let ghost before = pool@;
        pool.remove_edge(list[k].0, list[k].1);
        assert(edge_key(list@[k as int].0, list@[k as int].1) == pair_of(list@[k as int]));
        assert(pool@ =~= old(pool)@.remove_keys(listed_pairs(list@, k + 1))) by {
            assert forall|key: (usize, usize)| listed_pairs(list@, k + 1).contains(key) <==> (
            listed_pairs(list@, k as int).contains(key) || key == pair_of(list@[k as int])) by {
                if listed_pairs(list@, k + 1).contains(key) {
                    let i = choose|i: int| 0 <= i < k + 1 && #[trigger] pair_of(list@[i]) == key;
                    if i < k {
                        assert(listed_pairs(list@, k as int).contains(key));
                    }
                }
                if listed_pairs(list@, k as int).contains(key) {
                    let i = choose|i: int| 0 <= i < k && #[trigger] pair_of(list@[i]) == key;
                    assert(0 <= i < k + 1 && pair_of(list@[i]) == key);
                }
                if key == pair_of(list@[k as int]) {
                    assert(0 <= k < k + 1 && pair_of(list@[k as int]) == key);
                }
            }
        }
        k += 1;
    }
    assert(listed_pairs(list@, k as int) =~= other@.dom()) by {
        assert forall|key: (usize, usize)| listed_pairs(list@, k as int).contains(key)
            <==> other@.dom().contains(key) by {
            if listed_pairs(list@, k as int).contains(key) {
                let i = choose|i: int| 0 <= i < k && #[trigger] pair_of(list@[i]) == key;
                assert(other@.contains_key(pair_of(list@[i])));
            }
            if other@.contains_key(key) {
                let i = choose|i: int| 0 <= i < list@.len() && #[trigger] pair_of(list@[i]) == key;
                assert(0 <= i < k && pair_of(list@[i]) == key);
            }
        }
    }
}

/// Takes the edges between the given pairs out of `pool`.
fn remove_edges_between(pool: &mut MyGraph, pairs: &Vec<(usize, usize)>)
    ensures
        final(pool)@ == remove_pairs(old(pool)@, pairs@, pairs@.len() as int),
{
    let mut k: usize = 0;
    while k < pairs.len()
        invariant
            k <= pairs@.len(),
            pool@ == remove_pairs(old(pool)@, pairs@, k as int),
        decreases pairs@.len() - k,
    {
        pool.remove_edge(pairs[k].0, pairs[k].1);
        k += 1;
    }
}

/// Takes every edge at one of the given rooms out of `pool`.
fn remove_edges_at(pool: &mut MyGraph, nodes: &Vec<usize>)
    ensures
        final(pool)@ == remove_nodes(old(pool)@, nodes@, nodes@.len() as int),
{
    let mut k: usize = 0;
    while k < nodes.len()
        invariant
            k <= nodes@.len(),
            pool@ == remove_nodes(old(pool)@, nodes@, k as int),
        decreases nodes@.len() - k,
    {
        pool.remove_node(nodes[k]);
        k += 1;
    }
}

/// The pairs of rooms along the outline of a triangulation.
pub fn list_hull_pairs(triangulation: &Triangulation, ids: &Vec<usize>) -> (r: Vec<(usize, usize)>)
    requires
        triangulation.wf(ids@.len()),
    ensures
        r@ == hull_pairs(triangulation.hull@, ids@),
{
    let hull = &triangulation.hull;
    let mut pairs: Vec<(usize, usize)> = Vec::new();
    if hull.len() > 0 {
        let mut i: usize = 0;
        let n: usize = hull.len();
        while i + 1 < n
            invariant
                n == hull@.len(),
                n > 0,
                i + 1 <= n,
                triangulation.wf(ids@.len()),
                hull == &triangulation.hull,
                pairs@ == hull_pairs(hull@, ids@).take(i as int),
            decreases n - i,
        {
            pairs.push((ids[hull[i]], ids[hull[i + 1]]));
            assert(hull_pairs(hull@, ids@).take(i + 1) =~= hull_pairs(hull@, ids@).take(
                i as int,
            ).push((ids@[hull@[i as int] as int], ids@[hull@[i + 1] as int])));
            i += 1;
        }
        assert(hull_pairs(hull@, ids@).take(i as int) =~= hull_pairs(hull@, ids@));
    }
    assert(pairs@ =~= hull_pairs(hull@, ids@));
    pairs
}

/// The tree with the first `k` edges of a list dealt with, one draw for
/// each: an edge is put back where its draw is below the chance. An edge
/// without a draw is not put back.
pub open spec fn put_back(
    mst: EdgeMap,
    list: Seq<Edge>,
    draws: Seq<u32>,
    percentage: u32,
    k: int,
) -> EdgeMap
    decreases k,
{
    if k <= 0 {
        mst
    } else if k - 1 < draws.len() && draws[k - 1] < clamped_percentage(percentage) {
        put_back(mst, list, draws, percentage, k - 1).insert(
            edge_key(list[k - 1].0, list[k - 1].1),
            list[k - 1].2,
        )
    } else {
        put_back(mst, list, draws, percentage, k - 1)
    }
}

/// `result` is the tree with edges of the pool put back by the draws
/// `draws`: the pool was gone through in the order `list`, one draw from 0
/// to 99 was made for each of its edges, whatever the chance, and an edge was
/// put back where its draw was below the chance.
pub open spec fn drawn_back(
    result: EdgeMap,
    mst: EdgeMap,
    pool: EdgeMap,
    percentage: u32,
    list: Seq<Edge>,
    draws: Seq<u32>,
) -> bool {
    &&& lists_edges(list, pool)
    &&& draws.len() == list.len()
    &&& forall|i: int| 0 <= i < draws.len() ==> #[trigger] draws[i] < 100
    &&& result == put_back(mst, list, draws, percentage, list.len() as int)
}

/// An edge is in a tree with edges put back exactly where it is an edge of
/// the tree or one of the edges dealt with whose draw was below the chance.
pub proof fn lemma_put_back_holds(
    mst: EdgeMap,
    list: Seq<Edge>,
    draws: Seq<u32>,
    percentage: u32,
    k: int,
    key: (usize, usize),
)
    requires
        0 <= k <= list.len(),
        k <= draws.len(),
    ensures
        put_back(mst, list, draws, percentage, k).contains_key(key) <==> (mst.contains_key(key)
            || exists|i: int|
            0 <= i < k && #[trigger] edge_key(list[i].0, list[i].1) == key && draws[i]
                < clamped_percentage(percentage)),
    decreases k,
{
    if k > 0 {
        lemma_put_back_holds(mst, list, draws, percentage, k - 1, key);
        let before = put_back(mst, list, draws, percentage, k - 1);
        let chance = clamped_percentage(percentage);
        if exists|i: int|
            0 <= i < k && #[trigger] edge_key(list[i].0, list[i].1) == key && draws[i] < chance {
            let i = choose|i: int|
                0 <= i < k && #[trigger] edge_key(list[i].0, list[i].1) == key && draws[i] < chance;
            if i < k - 1 {
                assert(0 <= i < k - 1 && edge_key(list[i].0, list[i].1) == key && draws[i] < chance);
            }
        }
        if before.contains_key(key) && !mst.contains_key(key) {
            let i = choose|i: int|
                0 <= i < k - 1 && #[trigger] edge_key(list[i].0, list[i].1) == key && draws[i]
                    < chance;
            assert(0 <= i < k && edge_key(list[i].0, list[i].1) == key && draws[i] < chance);
        }
        if draws[k - 1] < chance && key == edge_key(list[k - 1].0, list[k - 1].1) {
            assert(0 <= k - 1 < k && edge_key(list[k - 1].0, list[k - 1].1) == key && draws[k - 1]
                < chance);
        }
    }
}

/// What the tree with the first `k` edges of the pool put back holds under
/// a pair: what the tree holds there, or else what the pool holds there.
proof fn lemma_put_back_value(
    mst: EdgeMap,
    pool: EdgeMap,
    list: Seq<Edge>,
    draws: Seq<u32>,
    percentage: u32,
    k: int,
    key: (usize, usize),
)
    requires
        0 <= k <= list.len(),
        lists_edges(list, pool),
        forall|other: (usize, usize)| #[trigger] pool.contains_key(other) ==> !mst.contains_key(other),
    ensures
        mst.contains_key(key) ==> put_back(mst, list, draws, percentage, k).contains_key(key)
            && put_back(mst, list, draws, percentage, k)[key] == mst[key],
        put_back(mst, list, draws, percentage, k).contains_key(key) && !mst.contains_key(key)
            ==> pool.contains_key(key) && put_back(mst, list, draws, percentage, k)[key] == pool[key],
    decreases k,
{
    if k > 0 {
        lemma_put_back_value(mst, pool, list, draws, percentage, k - 1, key);
        let edge = list[k - 1];
        assert(pool.contains_key(pair_of(list[k - 1])));
        assert(pool[pair_of(list[k - 1])] == edge.2);
        assert(edge_key(edge.0, edge.1) == pair_of(edge));
    }
}

/// The first `k` edges of the pool, put back by draws, leave the tree
/// inside the result and the result inside the tree with the pool; with a
/// chance of 0 the tree stays, and with a chance of 100 or more every one of
/// these edges is put back.
proof fn lemma_put_back_upto(
    mst: EdgeMap,
    pool: EdgeMap,
    list: Seq<Edge>,
    draws: Seq<u32>,
    percentage: u32,
    k: int,
)
    requires
        0 <= k <= list.len(),
        lists_edges(list, pool),
        draws.len() == list.len(),
        forall|i: int| 0 <= i < draws.len() ==> #[trigger] draws[i] < 100,
        forall|key: (usize, usize)| #[trigger] pool.contains_key(key) ==> !mst.contains_key(key),
    ensures
        mst.submap_of(put_back(mst, list, draws, percentage, k)),
        put_back(mst, list, draws, percentage, k).submap_of(mst.union_prefer_right(pool)),
        percentage == 0 ==> put_back(mst, list, draws, percentage, k) == mst,
        percentage >= 100 ==> put_back(mst, list, draws, percentage, k) == mst.union_prefer_right(
            pool.restrict(listed_pairs(list, k)),
        ),
    decreases k,
{
    if k <= 0 {
        assert(mst =~= mst.union_prefer_right(pool.restrict(listed_pairs(list, 0))));
    } else {
        lemma_put_back_upto(mst, pool, list, draws, percentage, k - 1);
        let before = put_back(mst, list, draws, percentage, k - 1);
        let after = put_back(mst, list, draws, percentage, k);
        let edge = list[k - 1];
        assert(pool.contains_key(pair_of(list[k - 1])));
        assert(edge_key(edge.0, edge.1) == pair_of(edge));
        assert(draws[k - 1] < 100);
        assert forall|key: (usize, usize)| #[trigger] mst.dom().contains(key) implies after.dom().contains(
            key,
        ) && mst[key] == after[key] by {
            lemma_put_back_value(mst, pool, list, draws, percentage, k, key);
        }
        assert(mst.submap_of(after));
        let whole = mst.union_prefer_right(pool);
        assert forall|key: (usize, usize)| #[trigger] after.dom().contains(key) implies whole.dom().contains(
            key,
        ) && after[key] == whole[key] by {
            lemma_put_back_value(mst, pool, list, draws, percentage, k, key);
        }
        assert(after.submap_of(whole));
        if percentage >= 100 {
            assert(after =~= mst.union_prefer_right(pool.restrict(listed_pairs(list, k)))) by {
                assert forall|key: (usize, usize)| listed_pairs(list, k).contains(key) <==> (
                listed_pairs(list, k - 1).contains(key) || key == pair_of(edge)) by {
                    if listed_pairs(list, k).contains(key) {
                        let i = choose|i: int| 0 <= i < k && #[trigger] pair_of(list[i]) == key;
                        if i < k - 1 {
                            assert(listed_pairs(list, k - 1).contains(key));
                        }
                    }
                    if listed_pairs(list, k - 1).contains(key) {
                        let i = choose|i: int| 0 <= i < k - 1 && #[trigger] pair_of(list[i]) == key;
                        assert(0 <= i < k && pair_of(list[i]) == key);
                    }
                    if key == pair_of(edge) {
                        assert(0 <= k - 1 < k && pair_of(list[k - 1]) == key);
                    }
                }
            }
        }
    }
}

/// The tree with the edges of the pool put back by draws, one draw from 0
/// to 99 for each edge, is a reassembled tree.
pub proof fn lemma_put_back_reassembles(
    mst: EdgeMap,
    pool: EdgeMap,
    list: Seq<Edge>,
    draws: Seq<u32>,
    percentage: u32,
)
    requires
        lists_edges(list, pool),
        draws.len() == list.len(),
        forall|i: int| 0 <= i < draws.len() ==> #[trigger] draws[i] < 100,
        forall|key: (usize, usize)| #[trigger] pool.contains_key(key) ==> !mst.contains_key(key),
    ensures
        reassembled(put_back(mst, list, draws, percentage, list.len() as int), mst, pool, percentage),
{
    lemma_put_back_upto(mst, pool, list, draws, percentage, list.len() as int);
    assert(pool.restrict(listed_pairs(list, list.len() as int)) =~= pool) by {
        assert forall|key: (usize, usize)| pool.contains_key(key) implies listed_pairs(
            list,
            list.len() as int,
        ).contains(key) by {
            let i = choose|i: int| 0 <= i < list.len() && #[trigger] pair_of(list[i]) == key;
            assert(0 <= i < list.len() && pair_of(list[i]) == key);
        }
    }
    assert(drawn_back(
        put_back(mst, list, draws, percentage, list.len() as int),
        mst,
        pool,
        percentage,
        list,
        draws,
    ));
}

/// Puts edges back into a tree by the draws given: the edges are gone
/// through in their order, each with the draw at its place, and an edge is
/// put back where its draw is below the chance. The same tree, edges and
/// draws give the same graph.
pub fn put_edges_back(mst: &MyGraph, list: &Vec<Edge>, draws: &Vec<u32>, percentage: u32) -> (r:
    MyGraph)
    ensures
        r@ == put_back(mst@, list@, draws@, percentage, list@.len() as int),
{
    let mut output = mst.clone();
    let mut k: usize = 0;
    while k < list.len()
        invariant
            k <= list@.len(),
            output@ == put_back(mst@, list@, draws@, percentage, k as int),
        decreases list@.len() - k,
    {
        if k < draws.len() && accepts(draws[k], percentage) {
            let edge: Edge = list[k];
            output.add_edge(edge.0, edge.1, edge.2);
        }
        k += 1;
    }
    output
}

/// The pairs of rooms along the closed outline of a triangulation.
pub fn list_outline_pairs(triangulation: &Triangulation, ids: &Vec<usize>) -> (r: Vec<(usize, usize)>)
    requires
        triangulation.wf(ids@.len()),
    ensures
        r@ == outline_pairs(triangulation.hull@, ids@),
{
    let mut pairs: Vec<(usize, usize)> = list_hull_pairs(triangulation, ids);
    let hull = &triangulation.hull;
    let n: usize = hull.len();
    if n >= 3 {
        pairs.push((ids[hull[n - 1]], ids[hull[0]]));
    }
    pairs
}

/// What holds of a tree with edges put back, whatever was drawn: it holds
/// the tree, and beyond it edges of the pool only. With a chance of 0 it is
/// the tree; with a chance of 100 or more it is the tree with the whole pool.
/// In between, one draw was made for each edge of the pool, and the edge
/// was put back where the draw was below the chance.
pub open spec fn reassembled(result: EdgeMap, mst: EdgeMap, pool: EdgeMap, percentage: u32) -> bool {
    &&& mst.submap_of(result)
    &&& result.submap_of(mst.union_prefer_right(pool))
    &&& percentage == 0 ==> result == mst
    &&& percentage >= 100 ==> result == mst.union_prefer_right(pool)
    &&& exists|list: Seq<Edge>, draws: Seq<u32>| #[trigger]
        drawn_back(result, mst, pool, percentage, list, draws)
}

/// Adds more edges to the spanning tree, to create cycles within the
/// graph: each edge of the pool is put back with the given chance, one draw
/// for each.
pub fn reassemble_graph(
    mst: &MyGraph,
    all_connections: &MyGraph,
    triangulation: &Triangulation,
    main_path: Option<&Vec<usize>>,
    percentage: u32,
    rng: &mut WorldgenRng,
    map_area: &MapArea,
) -> (r: MyGraph)
    requires
        triangulation.wf(main_ids(map_area.rooms@).len()),
    ensures
        reassembled(
            r@,
            mst@,
            pool_edges(
                all_connections@,
                mst@,
                outline_pairs(triangulation.hull@, main_ids(map_area.rooms@)),
                match main_path {
                    Some(p) => p@,
                    None => Seq::empty(),
                },
                map_area.initial_connections@,
            ),
            percentage,
        ),
{
    let ids: Vec<usize> = map_area.main_room_ids();
    let hull: Vec<(usize, usize)> = list_outline_pairs(triangulation, &ids);
    let ghost path = match main_path {
        Some(p) => p@,
        None => Seq::empty(),
    };
    let ghost pool = pool_edges(
        all_connections@,
        mst@,
        hull@,
        path,
        map_area.initial_connections@,
    );
    let mut available_connections = all_connections.clone();
    remove_edges_of(&mut available_connections, mst);
    remove_edges_between(&mut available_connections, &hull);
    match main_path {
        Some(p) => {
            remove_edges_at(&mut available_connections, p);
        },
        None => {},
    }
    remove_edges_between(&mut available_connections, &map_area.initial_connections);
    assert(available_connections@ == pool);
    let list: Vec<Edge> = available_connections.all_edges();
    let mut draws: Vec<u32> = Vec::new();
    let mut k: usize = 0;
    while k < list.len()
        invariant
            k <= list@.len(),
            draws@.len() == k,
            forall|i: int| 0 <= i < draws@.len() ==> #[trigger] draws@[i] < 100,
        decreases list@.len() - k,
    {
        let draw: u32 = rng.percent();
        draws.push(draw);
        k += 1;
    }
    proof {
        lemma_pool_is_apart(all_connections@, mst@, hull@, path, map_area.initial_connections@);
        lemma_put_back_reassembles(mst@, pool, list@, draws@, percentage);
    }
    put_edges_back(mst, &list, &draws, percentage)
}

/// Every candidate pair names two rooms.
pub proof fn lemma_candidate_pairs_in_range(
    triangles: Seq<usize>,
    hull: Seq<usize>,
    ids: Seq<usize>,
    initial: Seq<(usize, usize)>,
    n: nat,
)
    requires
        triangles.len() % 3 == 0,
        forall|i: int| 0 <= i < triangles.len() ==> #[trigger] triangles[i] < ids.len(),
        forall|i: int| 0 <= i < hull.len() ==> #[trigger] hull[i] < ids.len(),
        ids_in_range(ids, n),
        pairs_in_range(initial, n),
    ensures
        pairs_in_range(candidate_pairs(triangles, hull, ids, initial), n),
        pairs_in_range(hull_pairs(hull, ids), n),
{
    let from_hull = if triangles.len() == 0 {
        hull_pairs(hull, ids)
    } else {
        Seq::empty()
    };
    let from_triangles = triangle_pairs(triangles, ids);
    let all = candidate_pairs(triangles, hull, ids, initial);
    assert forall|i: int| 0 <= i < hull_pairs(hull, ids).len() implies (#[trigger] hull_pairs(
        hull,
        ids,
    )[i]).0 < n && hull_pairs(hull, ids)[i].1 < n by {
        assert(hull[i] < ids.len());
        assert(hull[i + 1] < ids.len());
    }
    assert forall|i: int| 0 <= i < from_triangles.len() implies (#[trigger] from_triangles[i]).0 < n
        && from_triangles[i].1 < n by {
        if i % 3 == 0 {
            assert(triangles[i] < ids.len());
            assert(triangles[i + 1] < ids.len());
        } else if i % 3 == 1 {
            assert(triangles[i] < ids.len());
            assert(triangles[i + 1] < ids.len());
        } else {
            assert(triangles[i - 2] < ids.len());
            assert(triangles[i] < ids.len());
        }
    }
    assert forall|i: int| 0 <= i < all.len() implies (#[trigger] all[i]).0 < n && all[i].1 < n by {
        if i < from_hull.len() {
            assert(all[i] == from_hull[i]);
        } else if i < from_hull.len() + from_triangles.len() {
            assert(all[i] == from_triangles[i - from_hull.len()]);
        } else {
            assert(all[i] == initial[i - from_hull.len() - from_triangles.len()]);
        }
    }
}

/// What holds of the main path of a map: it leads through the tree from one
/// leaf room to another, and these two are the leaves farthest apart. It is
/// empty where the tree has fewer than two leaves among the main rooms, or
/// where no path leads from the one leaf to the other.
pub open spec fn main_path_fits(
    path: Seq<usize>,
    mst: EdgeMap,
    rooms: Seq<RoomDimensions>,
    ids: Seq<usize>,
) -> bool {
    if leaf_ids(mst, ids).len() < 2 {
        path.len() == 0
    } else {
        exists|i: int, j: int| #[trigger]
            is_farthest_pair(rooms, leaf_ids(mst, ids), i, j) && (if path.len() == 0 {
                cut_off(mst, leaf_ids(mst, ids)[i], leaf_ids(mst, ids)[j])
            } else {
                walks(mst, path, leaf_ids(mst, ids)[i], leaf_ids(mst, ids)[j])
            })
    }
}

/// What holds of the graphs made for a map: the tree is a spanning forest
/// of least weight of the candidate edges, the main path leads through the tree between the two leaves
/// farthest apart, and the third graph is the tree with edges of the pool
/// put back.
pub open spec fn graphs_fit(
    graph: RoomGraph,
    rooms: Seq<Room>,
    triangulation: Triangulation,
    initial: Seq<(usize, usize)>,
    percentage: u32,
) -> bool {
    let candidates = candidate_edges(
        dims_of(rooms),
        triangulation.triangles@,
        triangulation.hull@,
        main_ids(rooms),
        initial,
    );
    &&& is_min_spanning_forest(graph.mst@, candidates)
    &&& main_path_fits(graph.main_path_rooms@, graph.mst@, dims_of(rooms), main_ids(rooms))
    &&& reassembled(
        graph.reassembled_graph@,
        graph.mst@,
        pool_edges(
            candidates,
            graph.mst@,
            outline_pairs(triangulation.hull@, main_ids(rooms)),
            graph.main_path_rooms@,
            initial,
        ),
        percentage,
    )
}

/// The path through the tree between the two leaf rooms farthest apart.
pub fn find_main_path(mst: &MyGraph, map: &MapArea) -> (r: Vec<usize>)
    requires
        rooms_ok(map.rooms@),
        edges_in_range(mst@, map.rooms@.len()),
    ensures
        main_path_fits(r@, mst@, dims_of(map.rooms@), main_ids(map.rooms@)),
        ids_in_range(r@, map.rooms@.len()),
{
    match rooms_with_longest_distance_between_them(mst, map) {
        Some((start_room, end_room)) => {
            match create_path_between_two_rooms(mst, start_room, end_room) {
                Some(path) => {
                    assert forall|k: int| 0 <= k < path@.len() implies #[trigger] path@[k]
                        < map.rooms@.len() by {
                        if path@.len() >= 2 {
                            if k < path@.len() - 1 {
                                assert(mst@.contains_key(edge_key(path@[k], path@[k + 1])));
                            } else {
                                let m = k - 1;
                                assert(mst@.contains_key(edge_key(path@[m], path@[m + 1])));
                            }
                        }
                    }
                    path
                },
                None => Vec::new(),
            }
        },
        None => Vec::new(),
    }
}

/// Builds the graphs of a map from its triangulation: the candidate edges,
/// a spanning tree of least weight over them, the main path, and the tree
/// with some edges put back. Fails, and leaves the map as it is, where the
/// map has no triangulation.
pub fn make_graphs(map: &mut MapArea, worldgen: &WorldgenSettings, rng: &mut WorldgenRng) -> (r:
    Result<(), WorldgenError>)
    requires
        old(map).wf(),
    ensures
        final(map).wf(),
        match r {
            Err(e) => e == WorldgenError::MissingTriangulation && old(map).triangulation is None
                && *final(map) == *old(map),
            Ok(_) => {
                &&& old(map).triangulation is Some
                &&& final(map).graph is Some
                &&& graphs_fit(
                    final(map).graph.unwrap(),
                    old(map).rooms@,
                    old(map).triangulation.unwrap(),
                    old(map).initial_connections@,
                    worldgen.graph_reassembly_percentage,
                )
                &&& final(map).rooms == old(map).rooms
                &&& final(map).initial_connections == old(map).initial_connections
                &&& final(map).triangulation == old(map).triangulation
                &&& final(map).connections == old(map).connections
            },
        },
{
    let room_graph = match &map.triangulation {
        None => {
            return Err(WorldgenError::MissingTriangulation);
        },
        Some(triangulation) => {
            let ids: Vec<usize> = map.main_room_ids();
            proof {
                lemma_main_ids_in_range(map.rooms@);
                lemma_candidate_pairs_in_range(
                    triangulation.triangles@,
                    triangulation.hull@,
                    ids@,
                    map.initial_connections@,
                    map.rooms@.len(),
                );
            }
            let pairs = list_candidate_pairs(triangulation, &ids, &map.initial_connections);
            let graph = graph_of_pairs(&pairs, map);
            let mst = MyGraph { inner: graph_min_spanning_tree(&graph.inner) };
            assert(edges_in_range(mst@, map.rooms@.len())) by {
                assert forall|k: (usize, usize)| #[trigger] mst@.contains_key(k) implies k.0
                    < map.rooms@.len() && k.1 < map.rooms@.len() by {
                    assert(mst@.dom().contains(k) ==> graph@.dom().contains(k));
                }
            }
            let path_rooms = find_main_path(&mst, map);
            let reassembled_graph = reassemble_graph(
                &mst,
                &graph,
                triangulation,
                Some(&path_rooms),
                worldgen.graph_reassembly_percentage,
                rng,
                map,
            );
            proof {
                let pool = pool_edges(
                    graph@,
                    mst@,
                    outline_pairs(triangulation.hull@, main_ids(map.rooms@)),
                    path_rooms@,
                    map.initial_connections@,
                );
                lemma_pool_is_apart(
                    graph@,
                    mst@,
                    outline_pairs(triangulation.hull@, main_ids(map.rooms@)),
                    path_rooms@,
                    map.initial_connections@,
                );
                assert forall|k: (usize, usize)| #[trigger]
                    reassembled_graph@.contains_key(k) implies k.0 < map.rooms@.len() && k.1
                    < map.rooms@.len() by {
                    assert(reassembled_graph@.dom().contains(k) ==> mst@.union_prefer_right(
                        pool,
                    ).dom().contains(k));
                    if pool.dom().contains(k) {
                        assert(graph@.dom().contains(k));
                    }
                }
            }
            RoomGraph { mst, reassembled_graph, main_path_rooms: path_rooms }
        },
    };
    map.graph = Some(room_graph);
    Ok(())
}

/// The pairs of rooms that the connections join.
pub open spec fn connection_pairs(connections: Seq<RoomConnection>) -> Seq<(usize, usize)> {
    Seq::new(connections.len(), |i: int| (connections[i].room1_id, connections[i].room2_id))
}

/// Remakes the graph of a map after its rooms have been connected: the
/// graph then holds an edge for each realised connection and nothing else.
/// Fails, and leaves the map as it is, where the map has no connections or
/// no graph yet.
pub fn remake_graphs(map: &mut MapArea) -> (r: Result<(), WorldgenError>)
    requires
        old(map).wf(),
    ensures
        final(map).wf(),
        match r {
            Err(e) => *final(map) == *old(map) && (if old(map).connections is None {
                e == WorldgenError::MissingConnections
            } else {
                e == WorldgenError::MissingGraph && old(map).graph is None
            }),
            Ok(_) => {
                &&& old(map).connections is Some
                &&& old(map).graph is Some
                &&& final(map).graph is Some
                &&& final(map).graph.unwrap().reassembled_graph@ == add_pairs(
                    no_edges(),
                    dims_of(old(map).rooms@),
                    connection_pairs(old(map).connections.unwrap()@),
                    old(map).connections.unwrap()@.len() as int,
                )
                &&& final(map).graph.unwrap().mst@ == old(map).graph.unwrap().mst@
                &&& final(map).graph.unwrap().main_path_rooms@ == old(
                    map,
                ).graph.unwrap().main_path_rooms@
                &&& final(map).rooms == old(map).rooms
                &&& final(map).initial_connections == old(map).initial_connections
                &&& final(map).triangulation == old(map).triangulation
                &&& final(map).connections == old(map).connections
            },
        },
{
    let room_graph = match &map.connections {
        None => {
            return Err(WorldgenError::MissingConnections);
        },
        Some(connections) => {
            match &map.graph {
                None => {
                    return Err(WorldgenError::MissingGraph);
                },
                Some(old_graph) => {
                    let mut pairs: Vec<(usize, usize)> = Vec::new();
                    let mut k: usize = 0;
                    assert(connections_in_range(connections@, map.rooms@.len()));
                    while k < connections.len()
                        invariant
                            map.wf(),
                            connections_in_range(connections@, map.rooms@.len()),
                            k <= connections@.len(),
                            pairs@.len() == k,
                            forall|j: int|
                                0 <= j < k ==> #[trigger] pairs@[j] == connection_pairs(connections@)[j],
                            pairs_in_range(pairs@, map.rooms@.len()),
                        decreases connections@.len() - k,
                    {
                        assert(connections@[k as int]@.in_range(map.rooms@.len()));
                        pairs.push((connections[k].room1_id, connections[k].room2_id));
                        k += 1;
                    }
                    assert(pairs@ =~= connection_pairs(connections@));
                    let graph = graph_of_pairs(&pairs, map);
                    RoomGraph {
                        mst: old_graph.mst.clone(),
                        reassembled_graph: graph,
                        main_path_rooms: old_graph.main_path_rooms.clone(),
                    }
                },
            }
        },
    };
    map.graph = Some(room_graph);
    Ok(())
}

} // verus!
