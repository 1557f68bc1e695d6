//! A simple store for directed port graphs.
//!
//! Nodes and edges live in slab vectors; removal leaves a hole so that
//! indices stay stable until [`graph::Graph::remove_invalid`] compacts them.

pub mod dot;
pub mod graph;
