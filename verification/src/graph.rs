//! The directed graph that records which plugin requires which.
//!
//! The graph itself is `petgraph`'s `GraphMap`. Verus does not look inside it: what a graph
//! holds is named by [`graph_nodes`] and [`graph_edges`], and each function below states, over
//! those two names, what the `petgraph` method it calls does. None of these statements is
//! proved; they are read off the `petgraph` source.

use crate::reach::has_cycle;
use petgraph::Directed;
use petgraph::Direction;
use petgraph::graphmap::GraphMap;
use std::hash::RandomState;
use vstd::prelude::*;

verus! {

#[verifier::external_type_specification]
#[verifier::external_body]
#[verifier::reject_recursive_types(N)]
#[verifier::reject_recursive_types(E)]
#[verifier::reject_recursive_types(Ty)]
#[verifier::reject_recursive_types(S)]
pub struct ExGraphMap<N, E, Ty, S: std::hash::BuildHasher>(GraphMap<N, E, Ty, S>);

#[verifier::external_type_specification]
#[verifier::external_body]
pub struct ExDirected(Directed);

/// The graph type used for plugin dependencies: nodes are plugin ids, an edge leads from a
/// plugin to one that it requires, and the edge's weight is the position of that requirement
/// in the plugin's declared list.
pub type RequiresGraph = GraphMap<u64, usize, Directed, RandomState>;

/// An edge of the abstract graph: the pair of a dependent and what it depends on.
pub type Edge = (u64, u64);

/// The nodes that a graph holds.
pub uninterp spec fn graph_nodes(g: RequiresGraph) -> Set<u64>;

/// The edges that a graph holds, each with the weight stored on it.
pub uninterp spec fn graph_edges(g: RequiresGraph) -> Map<Edge, usize>;

/// The edges of `edges` that do not touch `n`.
pub open spec fn edges_without_node(edges: Map<Edge, usize>, n: u64) -> Map<Edge, usize> {
    edges.restrict(Set::new(|e: Edge| e.0 != n && e.1 != n))
}

/// `GraphMap::with_capacity`: a graph without nodes or edges. The capacities are only a hint
/// to the allocator.
#[verifier::external_body]
pub(crate) fn graph_with_capacity(nodes: usize, edges: usize) -> (g: RequiresGraph)
    ensures
        graph_nodes(g) =~= Set::empty(),
        graph_edges(g) =~= Map::empty(),
{
    GraphMap::with_capacity(nodes, edges)
}

/// `GraphMap::add_node`: the node is in the graph afterwards; nothing else changes.
#[verifier::external_body]
pub(crate) fn graph_add_node(g: &mut RequiresGraph, n: u64)
    ensures
        graph_nodes(*final(g)) == graph_nodes(*old(g)).insert(n),
        graph_edges(*final(g)) == graph_edges(*old(g)),
{
    g.add_node(n);
}

/// `GraphMap::add_edge`: the edge from `a` to `b` carries `weight` afterwards and both ends
/// are nodes. Returns the weight that the edge carried before, if it existed.
#[verifier::external_body]
pub(crate) fn graph_add_edge(g: &mut RequiresGraph, a: u64, b: u64, weight: usize) -> (previous:
    Option<usize>)
    ensures
        graph_nodes(*final(g)) == graph_nodes(*old(g)).insert(a).insert(b),
        graph_edges(*final(g)) == graph_edges(*old(g)).insert((a, b), weight),
        previous is Some <==> graph_edges(*old(g)).contains_key((a, b)),
        previous is Some ==> previous->0 == graph_edges(*old(g))[(a, b)],
{
    g.add_edge(a, b, weight)
}

/// `GraphMap::remove_edge`: the edge from `a` to `b` is gone afterwards; the nodes stay.
/// Returns the weight that the edge carried, if it existed.
#[verifier::external_body]
pub(crate) fn graph_remove_edge(g: &mut RequiresGraph, a: u64, b: u64) -> (previous: Option<usize>)
    ensures
        graph_nodes(*final(g)) == graph_nodes(*old(g)),
        graph_edges(*final(g)) == graph_edges(*old(g)).remove((a, b)),
        previous is Some <==> graph_edges(*old(g)).contains_key((a, b)),
        previous is Some ==> previous->0 == graph_edges(*old(g))[(a, b)],
{
    g.remove_edge(a, b)
}

/// `GraphMap::remove_node`: the node is gone afterwards, and with it every edge that starts
/// or ends at it. Returns whether the node was in the graph.
#[verifier::external_body]
pub(crate) fn graph_remove_node(g: &mut RequiresGraph, n: u64) -> (existed: bool)
    ensures
        graph_nodes(*final(g)) == graph_nodes(*old(g)).remove(n),
        graph_edges(*final(g)) == edges_without_node(graph_edges(*old(g)), n),
        existed == graph_nodes(*old(g)).contains(n),
{
    g.remove_node(n)
}

/// `GraphMap::contains_node`.
#[verifier::external_body]
pub(crate) fn graph_contains_node(g: &RequiresGraph, n: u64) -> (found: bool)
    ensures
        found == graph_nodes(*g).contains(n),
{
    g.contains_node(n)
}

/// `GraphMap::edges`: the edges that start at `a`, each as its target and weight. Every such
/// edge is listed once; the order is that of `petgraph`'s adjacency list and is not stated.
#[verifier::external_body]
pub(crate) fn graph_edges_from(g: &RequiresGraph, a: u64) -> (out: Vec<(u64, usize)>)
    ensures
        out@.no_duplicates(),
        forall|b: u64, w: usize|
            out@.contains((b, w)) <==> (graph_edges(*g).contains_key((a, b)) && graph_edges(
                *g,
            )[(a, b)] == w),
{
    g.edges(a).map(|(_, b, w)| (b, *w)).collect()
}

/// `GraphMap::edges_directed` with `Incoming`: the edges that end at `b`, each as its source
/// and weight. Every such edge is listed once; the order is not stated.
#[verifier::external_body]
pub(crate) fn graph_edges_into(g: &RequiresGraph, b: u64) -> (out: Vec<(u64, usize)>)
    ensures
        out@.no_duplicates(),
        forall|a: u64, w: usize|
            out@.contains((a, w)) <==> (graph_edges(*g).contains_key((a, b)) && graph_edges(
                *g,
            )[(a, b)] == w),
{
    g.edges_directed(b, Direction::Incoming).map(|(a, _, w)| (a, *w)).collect()
}

/// `petgraph::algo::is_cyclic_directed`: whether the graph contains a cycle, that is, whether
/// some node can be reached from itself along at least one edge (a self loop counts).
#[verifier::external_body]
pub(crate) fn graph_is_cyclic(g: &RequiresGraph) -> (cyclic: bool)
    ensures
        cyclic == has_cycle(graph_edges(*g)),
{
    petgraph::algo::is_cyclic_directed(g)
}

} // verus!
