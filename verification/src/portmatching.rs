//! Compiling circuits into patterns and finding convex matches.

pub mod convex;
pub mod matcher;
pub mod pattern;
