//! Finite simple graphs and the combinatorial side of the Ihara zeta
//! function: degrees, regularity, cycle rank, two-colourability, the
//! adjacency matrix, the directed arcs and the Hashimoto
//! (non-backtracking) matrix, and the standard families of test graphs.

pub mod graph;
pub mod bipartite;
pub mod matrices;
pub mod families;
