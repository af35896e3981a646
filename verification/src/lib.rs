//! Max-flow / min-cut / distance-field analyses on bounded grids.
//!
//! The crate models a spatial partitioning problem: given protected source
//! tiles, boundary sink tiles and impassable wall tiles on a 50 by 50 grid,
//! it computes the maximum number of disjoint source-to-sink paths, a
//! minimal separating cut boundary, and a layered breadth-first distance
//! field.
//!
//! `flow` holds the directed flow network with its push-relabel solver,
//! `cut` the residual reachability analysis, the boundary extraction and
//! the cut laws, `termination` the argument that bounds the solver's
//! heights and makes its loop finite, `graph` the grid topology with its
//! analyses, and `planner` the helpers that turn terrain data into a grid
//! graph.

pub mod cut;
pub mod flow;
pub mod graph;
pub mod planner;
pub mod termination;
