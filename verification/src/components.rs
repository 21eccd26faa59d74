//! Connected components of the restriction graph.
//!
//! The graph lives in `petgraph`; this module hands it a list of edges and
//! takes the components back as lists of node numbers.

use vstd::prelude::*;

verus! {

/// The components that `petgraph::algo::kosaraju_scc` lists for the
/// undirected graph built from `edges`, in its order. For an undirected
/// graph these are the connected components.
pub uninterp spec fn graph_components(edges: Seq<(usize, usize)>) -> Seq<Seq<usize>>;

/// `n` is one of the two ends of some edge.
pub open spec fn is_endpoint(edges: Seq<(usize, usize)>, n: usize) -> bool {
    exists|e: int| 0 <= e < edges.len() && ((#[trigger] edges[e]).0 == n || edges[e].1 == n)
}

/// Builds an undirected `petgraph::graphmap::GraphMap` with
/// `GraphMap::from_edges`, which adds the edges in the order given and no
/// node but their ends, and returns what `petgraph::algo::kosaraju_scc`
/// computes on it.
///
/// Trusted, not proved: the result depends on the edge list alone; every
/// component holds at least one node; every node listed is an end of some
/// edge.
#[verifier::external_body]
pub(crate) fn connected_components(edges: &Vec<(usize, usize)>) -> (r: Vec<Vec<usize>>)
    ensures
        r.deep_view() == graph_components(edges@),
        forall|c: int| 0 <= c < r@.len() ==> (#[trigger] r@[c])@.len() > 0,
        forall|c: int, k: int|
            0 <= c < r@.len() && 0 <= k < r@[c]@.len() ==> is_endpoint(edges@, #[trigger] r@[c]@[k]),
{
    let graph = petgraph::graphmap::UnGraphMap::<usize, ()>::from_edges(edges.iter());
    petgraph::algo::kosaraju_scc(&graph)
}

/// The components that `petgraph::algo::kosaraju_scc` lists for the directed
/// graph built from `edges`, in its order: the strongly connected
/// components.
pub uninterp spec fn digraph_components(edges: Seq<(usize, usize)>) -> Seq<Seq<usize>>;

/// Builds a directed `petgraph::graphmap::GraphMap` with
/// `GraphMap::from_edges`, each edge leading from its first node to its
/// second, and returns what `petgraph::algo::kosaraju_scc` computes on it.
///
/// Trusted, not proved: the result depends on the edge list alone; every
/// component holds at least one node; every node listed is an end of some
/// edge.
#[verifier::external_body]
pub(crate) fn strongly_connected_components(edges: &Vec<(usize, usize)>) -> (r: Vec<Vec<usize>>)
    ensures
        r.deep_view() == digraph_components(edges@),
        forall|c: int| 0 <= c < r@.len() ==> (#[trigger] r@[c])@.len() > 0,
        forall|c: int, k: int|
            0 <= c < r@.len() && 0 <= k < r@[c]@.len() ==> is_endpoint(edges@, #[trigger] r@[c]@[k]),
{
    let graph = petgraph::graphmap::DiGraphMap::<usize, ()>::from_edges(edges.iter());
    petgraph::algo::kosaraju_scc(&graph)
}

} // verus!
