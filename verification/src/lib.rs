//! A small verified graph-search framework: an abstract graph capability
//! (root, successors, goal predicate), a search-strategy capability with an
//! instrumented and a stateless variant, a breadth-first search that proves
//! it returns a nearest reachable goal together with a minimum-edge-count
//! path to it, a cost-inverting priority wrapper for smallest-cost-first
//! containers, and a traversal counter for validating a graph
//! implementation's branching structure.

pub mod bfs;
pub mod examplegraph;
pub mod graph;
pub mod graphsearcher;
pub mod heapelement;
pub mod perft;
