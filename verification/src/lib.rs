//! An undirected co-occurrence graph of actors built from movie credit
//! records, with breadth-first shortest-path queries ("degrees of
//! separation") and random-pair sampling of path lengths.

pub mod bfs;
pub mod graph;
pub mod laws;
pub mod records;
pub mod sample;
