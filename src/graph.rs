//! Directed graphs over node indices, backed by `petgraph`.
use petgraph::graph::{DiGraph, NodeIndex};
use vstd::prelude::*;

verus! {

#[verifier::external_type_specification]
#[verifier::external_body]
#[verifier::reject_recursive_types(N)]
#[verifier::reject_recursive_types(E)]
#[verifier::reject_recursive_types(Ty)]
#[verifier::reject_recursive_types(Ix)]
pub struct ExGraph<N, E, Ty, Ix>(petgraph::graph::Graph<N, E, Ty, Ix>);

#[verifier::external_type_specification]
#[verifier::external_body]
pub struct ExDirected(petgraph::Directed);

/// Number of nodes held by a graph.
pub uninterp spec fn graph_node_count(g: DiGraph<(), ()>) -> nat;

/// Edges held by a graph, as (source, target) node indices in insertion order.
pub uninterp spec fn graph_edges(g: DiGraph<(), ()>) -> Seq<(nat, nat)>;

/// Largest number of nodes or edges a graph with `u32` indices can hold.
pub const GRAPH_CAPACITY: usize = 0xffff_fffe;

/// `p` is a path of at least one edge that starts and ends at the same node.
pub open spec fn is_cycle(edges: Seq<(nat, nat)>, p: Seq<nat>) -> bool {
    &&& p.len() >= 2
    &&& p[0] == p[p.len() - 1]
    &&& forall|k: int| 0 <= k < p.len() - 1 ==> edges.contains((#[trigger] p[k], p[k + 1]))
}

/// Some sequence of edges leads from a node back to itself.
pub open spec fn has_cycle(edges: Seq<(nat, nat)>) -> bool {
    exists|p: Seq<nat>| is_cycle(edges, p)
}

/// `order` lists each of the nodes `0..n` exactly once, every edge's source before its target.
pub open spec fn is_topological_order(n: nat, edges: Seq<(nat, nat)>, order: Seq<usize>) -> bool {
    &&& order.len() == n
    &&& order.no_duplicates()
    &&& forall|k: int| 0 <= k < order.len() ==> (#[trigger] order[k] as nat) < n
    &&& forall|a: int, b: int|
        #![trigger order[a], order[b]]
        0 <= a < order.len() && 0 <= b < order.len() && edges.contains(
            (order[a] as nat, order[b] as nat),
        ) ==> a < b
}

/// Relies on petgraph's `Graph::new`: a graph with no nodes and no edges.
#[verifier::external_body]
pub(crate) fn new_graph() -> (g: DiGraph<(), ()>)
    ensures
        graph_node_count(g) == 0,
        graph_edges(g) == Seq::<(nat, nat)>::empty(),
{
    DiGraph::new()
}

/// Relies on petgraph's `Graph::add_node`: appends one node, whose index is the old node count.
/// It panics once the index would reach the largest `u32`.
#[verifier::external_body]
pub(crate) fn add_node(g: &mut DiGraph<(), ()>) -> (r: usize)
    requires
        graph_node_count(*old(g)) < GRAPH_CAPACITY,
    ensures
        r as nat == graph_node_count(*old(g)),
        graph_node_count(*final(g)) == graph_node_count(*old(g)) + 1,
        graph_edges(*final(g)) == graph_edges(*old(g)),
{
    g.add_node(()).index()
}

/// Relies on petgraph's `Graph::add_edge`: appends the edge `a -> b`.
/// It panics on an index that is not a node, or once the edge index would reach the largest `u32`.
#[verifier::external_body]
pub(crate) fn add_edge(g: &mut DiGraph<(), ()>, a: usize, b: usize)
    requires
        (a as nat) < graph_node_count(*old(g)),
        (b as nat) < graph_node_count(*old(g)),
        graph_edges(*old(g)).len() < GRAPH_CAPACITY,
    ensures
        graph_node_count(*final(g)) == graph_node_count(*old(g)),
        graph_edges(*final(g)) == graph_edges(*old(g)).push((a as nat, b as nat)),
{
    g.add_edge(NodeIndex::new(a), NodeIndex::new(b), ());
}

/// Relies on petgraph's `algo::is_cyclic_directed`: true when the directed graph contains a cycle,
/// self loops included. Its depth-first search recurses once per node on a path.
#[verifier::external_body]
pub(crate) fn is_cyclic(g: &DiGraph<(), ()>) -> (r: bool)
    ensures
        r == has_cycle(graph_edges(*g)),
{
    petgraph::algo::is_cyclic_directed(g)
}

/// Relies on petgraph's `algo::toposort`: on an acyclic graph every node, each before its
/// successors; on a graph with a cycle (self loops included) an error.
#[verifier::external_body]
pub(crate) fn topological_order(g: &DiGraph<(), ()>) -> (r: Option<Vec<usize>>)
    ensures
        r is None <==> has_cycle(graph_edges(*g)),
        r matches Some(order) ==> is_topological_order(graph_node_count(*g), graph_edges(*g), order@),
{
    petgraph::algo::toposort(g, None).ok().map(|v| v.into_iter().map(|n| n.index()).collect())
}

} // verus!
