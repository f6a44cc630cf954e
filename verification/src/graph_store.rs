//! The weighted graph over room ids: a `petgraph` graph map, and what is
//! taken on trust about it.

use vstd::prelude::*;
use petgraph::graphmap::GraphMap;
use petgraph::Undirected;
use petgraph::data::FromElements;
use std::collections::hash_map::RandomState;
use std::hash::BuildHasher;

verus! {

#[verifier::external_type_specification]
#[verifier::external_body]
#[verifier::reject_recursive_types(N)]
#[verifier::reject_recursive_types(E)]
#[verifier::reject_recursive_types(Ty)]
#[verifier::reject_recursive_types(S)]
pub struct ExGraphMap<N, E, Ty, S: BuildHasher>(GraphMap<N, E, Ty, S>);

#[verifier::external_type_specification]
#[verifier::external_body]
pub struct ExUndirected(Undirected);

/// An undirected graph over room ids with whole-number weights.
pub type UnGraph = GraphMap<usize, u64, Undirected, RandomState>;

/// The edges of a graph as a map from pairs of room ids to weights.
pub type EdgeMap = Map<(usize, usize), u64>;

/// An edge with its weight, as a graph hands it out.
pub type Edge = (usize, usize, u64);

/// The edges that a graph holds: each unordered pair of room ids, written
/// with the smaller id first, and its weight.
pub uninterp spec fn graph_edges(g: UnGraph) -> Map<(usize, usize), u64>;

/// The pair under which a graph files the edge between `a` and `b`.
pub open spec fn edge_key(a: usize, b: usize) -> (usize, usize) {
    if a <= b {
        (a, b)
    } else {
        (b, a)
    }
}

/// The edge `k` has `n` at one of its ends.
pub open spec fn touches(k: (usize, usize), n: usize) -> bool {
    k.0 == n || k.1 == n
}

/// The pairs of the edges that have `n` at one end.
pub open spec fn incident(edges: EdgeMap, n: usize) -> Set<(usize, usize)> {
    edges.dom().filter(|k: (usize, usize)| touches(k, n))
}

/// The edges without those that have `n` at one end.
pub open spec fn without_node(edges: EdgeMap, n: usize) -> EdgeMap {
    edges.restrict(Set::new(|k: (usize, usize)| !touches(k, n)))
}

pub open spec fn no_edges() -> EdgeMap {
    Map::empty()
}

/// `list` names each edge of `edges` once, in some order.
pub open spec fn lists_edges(list: Seq<Edge>, edges: EdgeMap) -> bool {
    &&& edges.dom().finite()
    &&& list.len() == edges.dom().len()
    &&& forall|i: int|
        0 <= i < list.len() ==> {
            &&& edges.contains_key(#[trigger] pair_of(list[i]))
            &&& edges[pair_of(list[i])] == list[i].2
            &&& list[i].0 <= list[i].1
        }
    &&& forall|i: int, j: int|
        0 <= i < j < list.len() ==> #[trigger] pair_of(list[i]) != #[trigger] pair_of(list[j])
    &&& forall|k: (usize, usize)| #[trigger]
        edges.contains_key(k) ==> exists|i: int| 0 <= i < list.len() && #[trigger] pair_of(list[i]) == k
}

/// The two ends of an edge.
pub open spec fn pair_of(e: Edge) -> (usize, usize) {
    (e.0, e.1)
}

/// `list` names each edge of `edges` at `n` once, in some order, as
/// `(n, neighbour, weight)`.
pub open spec fn lists_edges_at(list: Seq<Edge>, edges: EdgeMap, n: usize) -> bool {
    &&& list.len() == incident(edges, n).len()
    &&& forall|i: int|
        0 <= i < list.len() ==> {
            &&& (#[trigger] list[i]).0 == n
            &&& edges.contains_key(edge_key(n, list[i].1))
            &&& edges[edge_key(n, list[i].1)] == list[i].2
        }
    &&& forall|i: int, j: int|
        0 <= i < j < list.len() ==> (#[trigger] list[i]).1 != (#[trigger] list[j]).1
    &&& forall|m: usize| #[trigger]
        edges.contains_key(edge_key(n, m)) ==> exists|i: int|
            0 <= i < list.len() && (#[trigger] list[i]).1 == m
}

/// `path` leads from `start` to `end` along edges, through no room twice.
pub open spec fn walks(edges: EdgeMap, path: Seq<usize>, start: usize, end: usize) -> bool {
    &&& path.len() >= 1
    &&& path[0] == start
    &&& path.last() == end
    &&& forall|k: int|
        0 <= k < path.len() - 1 ==> edges.contains_key(#[trigger] edge_key(path[k], path[k + 1]))
    &&& path.no_duplicates()
}

/// The heaviest edge along a path weighs no more than `weight`.
pub open spec fn no_heavier(edges: EdgeMap, path: Seq<usize>, weight: u64) -> bool {
    forall|k: int|
        0 <= k < path.len() - 1 ==> edges[#[trigger] edge_key(path[k], path[k + 1])] <= weight
}

/// `tree` is a spanning forest of least weight of `graph`: it is made of
/// edges of the graph, no two paths in it lead from one room to another,
/// and the two ends of every other edge of the graph are joined in it by a
/// path of edges that are no heavier than that edge.
pub open spec fn is_min_spanning_forest(tree: EdgeMap, graph: EdgeMap) -> bool {
    &&& tree.submap_of(graph)
    &&& forall|a: usize, b: usize, p: Seq<usize>, q: Seq<usize>|
        #[trigger] walks(tree, p, a, b) && #[trigger] walks(tree, q, a, b) ==> p == q
    &&& forall|k: (usize, usize)| #[trigger]
        graph.contains_key(k) && !tree.contains_key(k) ==> exists|p: Seq<usize>| #[trigger]
            walks(tree, p, k.0, k.1) && no_heavier(tree, p, graph[k])
}

/// `GraphMap::new`: a graph without edges.
#[verifier::external_body]
pub(crate) fn graph_new() -> (g: UnGraph)
    ensures
        graph_edges(g) == no_edges(),
{
    GraphMap::new()
}

/// `GraphMap::add_edge`: the edge between `a` and `b` is filed under its
/// pair with the given weight, which replaces an earlier weight of that
/// pair; every other edge stays.
#[verifier::external_body]
pub(crate) fn graph_add_edge(g: &mut UnGraph, a: usize, b: usize, weight: u64)
    ensures
        graph_edges(*final(g)) == graph_edges(*old(g)).insert(edge_key(a, b), weight),
{
    g.add_edge(a, b, weight);
}

/// `GraphMap::remove_edge`: the edge between `a` and `b` leaves, if there
/// is one; every other edge stays.
#[verifier::external_body]
pub(crate) fn graph_remove_edge(g: &mut UnGraph, a: usize, b: usize)
    ensures
        graph_edges(*final(g)) == graph_edges(*old(g)).remove(edge_key(a, b)),
{
    g.remove_edge(a, b);
}

/// `GraphMap::remove_node`: the node `n` leaves with every edge at it;
/// every other edge stays.
#[verifier::external_body]
pub(crate) fn graph_remove_node(g: &mut UnGraph, n: usize)
    ensures
        graph_edges(*final(g)) == without_node(graph_edges(*old(g)), n),
{
    g.remove_node(n);
}

/// `GraphMap::all_edges`: every edge once, as `(smaller id, larger id,
/// weight)`, in an order that the crate leaves open.
#[verifier::external_body]
pub(crate) fn graph_all_edges(g: &UnGraph) -> (r: Vec<Edge>)
    ensures
        lists_edges(r@, graph_edges(*g)),
{
    g.all_edges().map(|e| (e.0, e.1, *e.2)).collect()
}

/// `GraphMap::edges`: every edge at `n` once, as `(n, neighbour, weight)`,
/// in an order that the crate leaves open; none for a node that the graph
/// does not hold.
#[verifier::external_body]
pub(crate) fn graph_edges_at(g: &UnGraph, n: usize) -> (r: Vec<Edge>)
    ensures
        lists_edges_at(r@, graph_edges(*g), n),
{
    g.edges(n).map(|e| (e.0, e.1, *e.2)).collect()
}

/// `Clone` of `GraphMap`: a graph with the same edges.
#[verifier::external_body]
pub(crate) fn graph_clone(g: &UnGraph) -> (r: UnGraph)
    ensures
        graph_edges(r) == graph_edges(*g),
{
    g.clone()
}

/// `petgraph::algo::min_spanning_tree`, collected with
/// `FromElements::from_elements`: a spanning forest of least weight of `g`,
/// that is, a spanning tree of least weight for each part of `g` that hangs
/// together.
#[verifier::external_body]
pub(crate) fn graph_min_spanning_tree(g: &UnGraph) -> (r: UnGraph)
    ensures
        is_min_spanning_forest(graph_edges(r), graph_edges(*g)),
{
    GraphMap::from_elements(petgraph::algo::min_spanning_tree(g))
}

} // verus!
