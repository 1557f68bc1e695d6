//! The concrete dataflow graph type used by circuits.

use vstd::prelude::*;
use super::operation::{Op, WireType};

verus! {

/// The weight carried by each circuit node: its gate kind.
#[derive(Clone, Copy, PartialEq, Eq, Structural, Debug)]
pub struct VertexProperties {
    pub op: Op,
}

impl VertexProperties {
    pub fn new(op: Op) -> (r: Self)
        ensures
            r.op == op,
    {
        VertexProperties { op }
    }
}

/// The weight carried by each circuit edge: the type of the wire.
#[derive(Clone, Copy, PartialEq, Eq, Structural, Debug)]
pub struct EdgeProperties {
    pub edge_type: WireType,
}

/// A circuit's underlying graph: gate kinds on nodes, wire types on
/// edges, and `usize` port offsets.
pub type Dag = crate::graph::graph::Graph<VertexProperties, EdgeProperties, usize>;

/// Index of a circuit node.
pub type Vertex = crate::graph::graph::NodeIndex;

/// Index of a circuit edge.
pub type Edge = crate::graph::graph::EdgeIndex;

} // verus!
