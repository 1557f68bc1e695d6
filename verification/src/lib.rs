//! A quantum circuit optimiser built around equivalence-class rewriting.

pub mod circuit;
pub mod graph;
pub mod ops;
pub mod optimiser;
pub mod portmatching;
pub mod rewrite;
