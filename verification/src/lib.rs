//! A shared-memory graph-processing engine in the style of the Ligra
//! framework: a compressed dual adjacency-list graph store, a
//! dual-representation frontier (`NodeSubset`), direction-optimized frontier
//! transformation primitives (`relationship_map`, `node_map`, `node_filter`),
//! and the algorithms built on them (breadth-first search and connected
//! components).

pub mod algos;
pub mod format;
pub mod graph;
pub mod ligra;
pub mod node_set;
