//! Optimisers for circuits, built on rewriting.

pub mod taso;
