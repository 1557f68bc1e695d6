//! Circuits as dataflow graphs of gates with typed ports.

pub mod circuit;
pub mod dag;
pub mod hash;
pub mod operation;
