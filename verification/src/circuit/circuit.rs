//! The circuit type: a dataflow graph with boundary markers.
//!
//! A circuit owns a [`Dag`] with one `Input` node and one `Output` node.
//! Wire `w` enters the graph at out-port `w` of the input node and, when
//! it is threaded through to the end, reaches in-port `w` of the output
//! node. Gates are appended by cutting a wire's final edge.

use vstd::prelude::*;
use crate::graph::graph::{EdgeData, NodeIndex};
use super::dag::{Dag, Edge, EdgeProperties, Vertex, VertexProperties};
use super::operation::{Op, WireType};

verus! {

/// Why a gate could not be appended to a circuit.
#[derive(Clone, Copy, PartialEq, Eq, Structural, Debug)]
pub enum CircuitError {
    /// No signature exists for this kind of node,, or one that does not fit the
    /// requested wires.
    InvalidSignature,
    /// A wire index is repeated or names no open wire of the right type.
    InvalidWire,
}

/// A circuit: a dataflow graph plus its boundary markers and wire counts.
#[derive(Clone, Debug)]
pub struct Circuit {
    pub dag: Dag,
    pub input: Vertex,
    pub output: Vertex,
    pub n_qubits: usize,
    pub n_wires: usize,
}

/// No two live edges of `g` share an endpoint port: each (node, port)
/// pair is the source of at most one edge and the target of at most one.
#[verifier::opaque]
pub open spec fn ports_unique(g: Dag) -> bool {
    forall|i: int, j: int|
        #![trigger g.edges@[i], g.edges@[j]]
        g.edge_live(i) && g.edge_live(j) && i != j ==> {
            let a = g.edges@[i]->Some_0;
            let b = g.edges@[j]->Some_0;
            &&& !(a.source == b.source && a.source_port == b.source_port)
            &&& !(a.target == b.target && a.target_port == b.target_port)
        }
}

/// The edge slab with the slots named by the first `k` wire ends
/// cleared to holes.
pub open spec fn cleared_slots(
    edges: Seq<Option<EdgeData<EdgeProperties, usize>>>,
    ends: Seq<(Vertex, usize, WireType, Edge)>,
    k: int,
) -> Seq<Option<EdgeData<EdgeProperties, usize>>>
    decreases k,
{
    if k <= 0 {
        edges
    } else {
        cleared_slots(edges, ends, k - 1).update(ends[k - 1].3.0 as int, None)
    }
}

/// The edges appended when a node `v` is spliced into the first `k`
/// wires: for wire `k`, one edge from the old wire end into in-port `k`
/// of `v`, and one from out-port `k` of `v` to the output marker.
pub open spec fn spliced_edges(
    v: Vertex,
    output: Vertex,
    qubits: Seq<usize>,
    ends: Seq<(Vertex, usize, WireType, Edge)>,
    k: int,
) -> Seq<Option<EdgeData<EdgeProperties, usize>>>
    decreases k,
{
    if k <= 0 {
        Seq::empty()
    } else {
        spliced_edges(v, output, qubits, ends, k - 1).push(
            Some(
                EdgeData {
                    source: ends[k - 1].0,
                    source_port: ends[k - 1].1,
                    target: v,
                    target_port: (k - 1) as usize,
                    weight: EdgeProperties { edge_type: ends[k - 1].2 },
                },
            ),
        ).push(
            Some(
                EdgeData {
                    source: v,
                    source_port: (k - 1) as usize,
                    target: output,
                    target_port: qubits[k - 1],
                    weight: EdgeProperties { edge_type: ends[k - 1].2 },
                },
            ),
        )
    }
}

proof fn lemma_cleared_len(
    edges: Seq<Option<EdgeData<EdgeProperties, usize>>>,
    ends: Seq<(Vertex, usize, WireType, Edge)>,
    k: int,
)
    requires
        forall|j: int| 0 <= j < k ==> (#[trigger] ends[j]).3.0 < edges.len(),
    ensures
        cleared_slots(edges, ends, k).len() == edges.len(),
    decreases k,
{
    if k > 0 {
        lemma_cleared_len(edges, ends, k - 1);
    }
}

/// A slot that none of the first `k` wire ends name keeps its contents.
proof fn lemma_cleared_other(
    edges: Seq<Option<EdgeData<EdgeProperties, usize>>>,
    ends: Seq<(Vertex, usize, WireType, Edge)>,
    k: int,
    x: int,
)
    requires
        0 <= x < edges.len(),
        forall|j: int| 0 <= j < k ==> (#[trigger] ends[j]).3.0 != x,
        forall|j: int| 0 <= j < k ==> (#[trigger] ends[j]).3.0 < edges.len(),
    ensures
        cleared_slots(edges, ends, k)[x] == edges[x],
    decreases k,
{
    if k > 0 {
        lemma_cleared_len(edges, ends, k - 1);
        lemma_cleared_other(edges, ends, k - 1, x);
    }
}

impl Circuit {
    /// The kind of operation at live node `i`.
    pub open spec fn node_op(self, i: int) -> Op {
        self.dag.nodes@[i]->Some_0.op
    }

    /// The boundary markers are live, distinct, carry the two marker gate
    /// kinds, and no other node does.
    pub open spec fn boundary_ok(self) -> bool {
        &&& self.dag.node_live(self.input.0 as int)
        &&& self.dag.node_live(self.output.0 as int)
        &&& self.input.0 != self.output.0
        &&& self.node_op(self.input.0 as int) == Op::Input
        &&& self.node_op(self.output.0 as int) == Op::Output
        &&& forall|i: int|
            self.dag.node_live(i) && i != self.input.0 && i != self.output.0 ==> self.node_op(i)
                != Op::Input && self.node_op(i) != Op::Output
    }

    /// A well-formed circuit: edges point at live nodes, the boundary is
    /// in order, and every port carries at most one edge.
    pub open spec fn wf(self) -> bool {
        &&& self.dag.wf()
        &&& self.boundary_ok()
        &&& ports_unique(self.dag)
    }

    /// An empty circuit on `n` qubit wires: wire `w` runs straight from
    /// the input marker's out-port `w` to the output marker's in-port `w`.
    pub fn with_qubits(n: usize) -> (r: Circuit)
        ensures
            r.wf(),
            r.n_qubits == n,
            r.n_wires == n,
            r.input.0 == 0,
            r.output.0 == 1,
            r.dag.nodes@ =~= seq![
                Some(VertexProperties { op: Op::Input }),
                Some(VertexProperties { op: Op::Output }),
            ],
            r.dag.edges@.len() == n,
            forall|w: int|
                0 <= w < n ==> r.dag.edges@[w] == Some(
                    EdgeData {
                        source: NodeIndex(0),
                        source_port: w as usize,
                        target: NodeIndex(1),
                        target_port: w as usize,
                        weight: EdgeProperties { edge_type: WireType::Qubit },
                    },
                ),
    {
        let mut dag = Dag::new();
        let input = dag.add_node(VertexProperties { op: Op::Input });
        let output = dag.add_node(VertexProperties { op: Op::Output });
        let mut w: usize = 0;
        while w < n
            invariant
                input.0 == 0,
                output.0 == 1,
                dag.nodes@ =~= seq![
                    Some(VertexProperties { op: Op::Input }),
                    Some(VertexProperties { op: Op::Output }),
                ],
                dag.edges@.len() == w,
                0 <= w <= n,
                forall|i: int|
                    0 <= i < w ==> dag.edges@[i] == Some(
                        EdgeData {
                            source: NodeIndex(0),
                            source_port: i as usize,
                            target: NodeIndex(1),
                            target_port: i as usize,
                            weight: EdgeProperties { edge_type: WireType::Qubit },
                        },
                    ),
            decreases n - w,
        {
            dag.add_edge(
                (input, w),
                (output, w),
                EdgeProperties { edge_type: WireType::Qubit },
            );
            w = w + 1;
        }
        let r = Circuit { dag, input, output, n_qubits: n, n_wires: n };
        proof {
            reveal(ports_unique);
            assert forall|i: int, j: int|
                r.dag.edge_live(i) && r.dag.edge_live(j) && i != j implies {
                let a = r.dag.edges@[i]->Some_0;
                let b = r.dag.edges@[j]->Some_0;
                !(a.source == b.source && a.source_port == b.source_port) && !(a.target == b.target
                    && a.target_port == b.target_port)
            } by {}
        }
        r
    }

    /// An empty circuit with no wires.
    pub fn new() -> (r: Circuit)
        ensures
            r.wf(),
            r.n_qubits == 0,
            r.n_wires == 0,
    {
        Circuit::with_qubits(0)
    }

    /// The input and output boundary markers.
    pub fn boundary(&self) -> (r: [Vertex; 2])
        ensures
            r[0] == self.input,
            r[1] == self.output,
    {
        [self.input, self.output]
    }

    /// The kind of operation at a node, if the index names a live node.
    pub fn op_at(&self, v: Vertex) -> (r: Option<Op>)
        ensures
            match r {
                Some(op) => self.dag.node_live(v.0 as int) && op == self.node_op(v.0 as int),
                None => !self.dag.node_live(v.0 as int),
            },
    {
        match self.dag.node_weight(v) {
            Some(w) => Some(w.op),
            None => None,
        }
    }

    /// The edge leaving out-port `port` of `node`, if any: returns the
    /// edge's target node, target port, wire type and index.
    pub fn linked_port_from(&self, node: Vertex, port: usize) -> (r: Option<
        (Vertex, usize, WireType, Edge),
    >)
        ensures
            match r {
                Some(link) => {
                    &&& self.dag.edge_live(link.3.0 as int)
                    &&& self.dag.edges@[link.3.0 as int]->Some_0 == (EdgeData {
                        source: node,
                        source_port: port,
                        target: link.0,
                        target_port: link.1,
                        weight: EdgeProperties { edge_type: link.2 },
                    })
                },
                None => forall|i: int|
                    self.dag.edge_live(i) ==> !((#[trigger] self.dag.edges@[i])->Some_0.source.0
                        == node.0 && self.dag.edges@[i]->Some_0.source_port == port),
            },
    {
        let mut i: usize = 0;
        while i < self.dag.edges.len()
            invariant
                0 <= i <= self.dag.edges@.len(),
                forall|j: int|
                    0 <= j < i && self.dag.edge_live(j) ==> !((
                    #[trigger] self.dag.edges@[j])->Some_0.source.0 == node.0
                        && self.dag.edges@[j]->Some_0.source_port == port),
            decreases self.dag.edges@.len() - i,
        {
            match &self.dag.edges[i] {
                Some(d) => {
                    if d.source.0 == node.0 && d.source_port == port {
                        proof {
                            assert(self.dag.edges@[i as int]->Some_0.source.0 == node.0);
                        }
                        return Some((d.target, d.target_port, d.weight.edge_type, crate::graph::graph::EdgeIndex(i)));
                    }
                },
                None => {},
            }
            i = i + 1;
        }
        None
    }

    /// The edge entering in-port `port` of `node`, if any: returns the
    /// edge's source node, source port, wire type and index.
    pub fn linked_port_to(&self, node: Vertex, port: usize) -> (r: Option<
        (Vertex, usize, WireType, Edge),
    >)
        ensures
            match r {
                Some(link) => {
                    &&& self.dag.edge_live(link.3.0 as int)
                    &&& self.dag.edges@[link.3.0 as int]->Some_0 == (EdgeData {
                        source: link.0,
                        source_port: link.1,
                        target: node,
                        target_port: port,
                        weight: EdgeProperties { edge_type: link.2 },
                    })
                },
                None => forall|i: int|
                    self.dag.edge_live(i) ==> !((#[trigger] self.dag.edges@[i])->Some_0.target.0
                        == node.0 && self.dag.edges@[i]->Some_0.target_port == port),
            },
    {
        let mut i: usize = 0;
        while i < self.dag.edges.len()
            invariant
                0 <= i <= self.dag.edges@.len(),
                forall|j: int|
                    0 <= j < i && self.dag.edge_live(j) ==> !((
                    #[trigger] self.dag.edges@[j])->Some_0.target.0 == node.0
                        && self.dag.edges@[j]->Some_0.target_port == port),
            decreases self.dag.edges@.len() - i,
        {
            match &self.dag.edges[i] {
                Some(d) => {
                    if d.target.0 == node.0 && d.target_port == port {
                        proof {
                            assert(self.dag.edges@[i as int]->Some_0.target.0 == node.0);
                        }
                        return Some((d.source, d.source_port, d.weight.edge_type, crate::graph::graph::EdgeIndex(i)));
                    }
                },
                None => {},
            }
            i = i + 1;
        }
        None
    }

    /// An open wire end: an edge of type `t` into the output marker's
    /// in-port `w`.
    pub open spec fn has_open_wire(self, w: int, t: WireType) -> bool {
        exists|e: int|
            self.dag.edge_live(e) && (#[trigger] self.dag.edges@[e])->Some_0.target.0
                == self.output.0 && self.dag.edges@[e]->Some_0.target_port == w
                && self.dag.edges@[e]->Some_0.weight.edge_type == t
    }

    /// When a purely linear gate can be appended on the given wires: the
    /// arities match, the wires are distinct, and each wire is open with
    /// the type that the new node expects.
    pub open spec fn can_append(self, op: Op, qubits: Seq<usize>) -> bool {
        &&& op.spec_has_signature()
        &&& op.spec_sig_in().len() == 0
        &&& op.spec_sig_out().len() == 0
        &&& op.spec_sig_linear().len() == qubits.len()
        &&& qubits.len() >= 1
        &&& forall|i: int, j: int| 0 <= i < j < qubits.len() ==> qubits[i] != qubits[j]
        &&& forall|i: int|
            0 <= i < qubits.len() ==> self.has_open_wire(
                #[trigger] qubits[i] as int,
                op.spec_sig_linear()[i],
            )
    }

    /// Append a purely linear gate at the end of the given wires.
    ///
    /// Wire `qubits[i]` is attached to the new node's in-port and out-port
    /// `i`; the wire then continues on to the output marker.
    /// On a well-formed circuit this succeeds exactly when
    /// `can_append` holds; on failure the circuit is unchanged.
    pub fn append_op(&mut self, op: Op, qubits: &[usize]) -> (r: Result<Vertex, CircuitError>)
        ensures
            match r {
                Err(_) => {
                    &&& final(self).dag.nodes@ == old(self).dag.nodes@
                    &&& final(self).dag.edges@ == old(self).dag.edges@
                    &&& final(self).input == old(self).input
                    &&& final(self).output == old(self).output
                    &&& final(self).n_qubits == old(self).n_qubits
                    &&& final(self).n_wires == old(self).n_wires
                },
                Ok(v) => {
                    &&& final(self).dag.nodes@ == old(self).dag.nodes@.push(
                        Some(VertexProperties { op }),
                    )
                    &&& v.0 == old(self).dag.nodes@.len()
                    &&& final(self).input == old(self).input
                    &&& final(self).output == old(self).output
                    &&& final(self).n_qubits == old(self).n_qubits
                    &&& final(self).n_wires == old(self).n_wires
                    // the wire-closing edges are replaced: for each wire,
                    // its edge into the output marker is cleared and two
                    // edges are appended, threading the wire through the
                    // new node
                    &&& exists|ends: Seq<(Vertex, usize, WireType, Edge)>|
                        {
                            &&& ends.len() == qubits@.len()
                            &&& forall|k: int|
                                0 <= k < ends.len() ==> {
                                    let link = #[trigger] ends[k];
                                    &&& old(self).dag.edge_live(link.3.0 as int)
                                    &&& old(self).dag.edges@[link.3.0 as int] == Some(
                                        EdgeData {
                                            source: link.0,
                                            source_port: link.1,
                                            target: old(self).output,
                                            target_port: qubits@[k],
                                            weight: EdgeProperties { edge_type: link.2 },
                                        },
                                    )
                                    &&& link.2 == op.spec_sig_linear()[k]
                                }
                            &&& final(self).dag.edges@ == cleared_slots(
                                old(self).dag.edges@,
                                ends,
                                qubits@.len() as int,
                            ) + spliced_edges(
                                v,
                                old(self).output,
                                qubits@,
                                ends,
                                qubits@.len() as int,
                            )
                        }
                },
            },
            old(self).wf() ==> (r is Ok <==> old(self).can_append(op, qubits@)),
    {
        proof {
            reveal(ports_unique);
        }
        let sig = match op.signature() {
            Some(s) => s,
            None => {
                return Err(CircuitError::InvalidSignature);
            },
        };
        if !sig.purely_linear() {
            return Err(CircuitError::InvalidSignature);
        }
        if qubits.len() == 0 || sig.linear.len() != qubits.len() {
            return Err(CircuitError::InvalidSignature);
        }
        let mut i: usize = 0;
        while i < qubits.len()
            invariant
                forall|a: int, b: int| 0 <= a < b < qubits@.len() && a < i ==> qubits@[a] != qubits@[b],
                0 <= i <= qubits@.len(),
            decreases qubits@.len() - i,
        {
            let mut j = i + 1;
            while j < qubits.len()
                invariant
                    i < j <= qubits@.len() || (i + 1 == j && j > qubits@.len()),
                    i < qubits@.len(),
                    forall|b: int| i < b < j ==> qubits@[i as int] != qubits@[b],
                decreases qubits@.len() - j,
            {
                if qubits[i] == qubits[j] {
                    return Err(CircuitError::InvalidWire);
                }
                j = j + 1;
            }
            i = i + 1;
        }
        if self.dag.node_weight(self.output).is_none() {
            proof {
                assert(!old(self).wf());
            }
            return Err(CircuitError::InvalidWire);
        }
        let mut ends: Vec<(Vertex, usize, WireType, Edge)> = Vec::new();
        let mut i: usize = 0;
        while i < qubits.len()
            invariant
                0 <= i <= qubits@.len(),
                qubits@.len() == sig.linear@.len(),
                sig.linear@ == op.spec_sig_linear(),
                ends@.len() == i,
                forall|k: int|
                    0 <= k < i ==> {
                        let link = #[trigger] ends@[k];
                        &&& self.dag.edge_live(link.3.0 as int)
                        &&& self.dag.edges@[link.3.0 as int]->Some_0 == (EdgeData {
                            source: link.0,
                            source_port: link.1,
                            target: self.output,
                            target_port: qubits@[k],
                            weight: EdgeProperties { edge_type: link.2 },
                        })
                        &&& link.2 == sig.linear@[k]
                        &&& self.dag.node_live(link.0.0 as int)
                    },
            decreases qubits@.len() - i,
        {
            match self.linked_port_to(self.output, qubits[i]) {
                Some(link) => {
                    if !(link.2 == sig.linear[i]) {
                        proof {
                            reveal(ports_unique);
                            if old(self).wf() && old(self).can_append(op, qubits@) {
                                let we = choose|e: int|
                                    self.dag.edge_live(e) && (
                                    #[trigger] self.dag.edges@[e])->Some_0.target.0
                                        == self.output.0 && self.dag.edges@[e]->Some_0.target_port
                                        == qubits@[i as int]
                                        && self.dag.edges@[e]->Some_0.weight.edge_type
                                        == op.spec_sig_linear()[i as int];
                                assert(we == link.3.0 as int);
                            }
                        }
                        return Err(CircuitError::InvalidWire);
                    }
                    if self.dag.node_weight(link.0).is_none() {
                        proof {
                            assert(!old(self).wf());
                        }
                        return Err(CircuitError::InvalidWire);
                    }
                    ends.push(link);
                },
                None => {
                    proof {
                        if old(self).can_append(op, qubits@) {
                            assert(old(self).has_open_wire(
                                qubits@[i as int] as int,
                                op.spec_sig_linear()[i as int],
                            ));
                        }
                    }
                    return Err(CircuitError::InvalidWire);
                },
            }
            i = i + 1;
        }
        proof {
            assert forall|k: int|
                0 <= k < qubits@.len() implies old(self).has_open_wire(
                #[trigger] qubits@[k] as int,
                op.spec_sig_linear()[k],
            ) by {
                let link = ends@[k];
                assert(self.dag.edge_live(link.3.0 as int));
                assert(self.dag.edges@[link.3.0 as int]->Some_0.target.0 == self.output.0);
                assert(self.dag.edges@[link.3.0 as int]->Some_0.target_port == qubits@[k]);
                assert(self.dag.edges@[link.3.0 as int]->Some_0.weight.edge_type
                    == op.spec_sig_linear()[k]);
            }
            assert(old(self).can_append(op, qubits@));
        }
        proof {
            assert forall|k1: int, k2: int|
                0 <= k1 < k2 < ends@.len() implies (#[trigger] ends@[k1]).3.0 != (
            #[trigger] ends@[k2]).3.0 by {
                if ends@[k1].3.0 == ends@[k2].3.0 {
                    assert(self.dag.edges@[ends@[k1].3.0 as int]->Some_0.target_port
                        == qubits@[k1]);
                    assert(self.dag.edges@[ends@[k2].3.0 as int]->Some_0.target_port
                        == qubits@[k2]);
                    assert(qubits@[k1] != qubits@[k2]);
                }
            }
        }
        let ghost pre = *self;
        let v = self.dag.add_node(VertexProperties { op });
        let output = self.output;
        let mut i: usize = 0;
        while i < qubits.len()
            invariant
                0 <= i <= qubits@.len(),
                self.dag.nodes@ == pre.dag.nodes@.push(Some(VertexProperties { op })),
                v.0 == pre.dag.nodes@.len(),
                self.input == pre.input,
                self.output == pre.output,
                output == pre.output,
                self.n_qubits == pre.n_qubits,
                self.n_wires == pre.n_wires,
                ends@.len() == qubits@.len(),
                forall|k: int|
                    0 <= k < qubits@.len() ==> {
                        let link = #[trigger] ends@[k];
                        &&& pre.dag.edge_live(link.3.0 as int)
                        &&& pre.dag.edges@[link.3.0 as int] == Some(
                            EdgeData {
                                source: link.0,
                                source_port: link.1,
                                target: pre.output,
                                target_port: qubits@[k],
                                weight: EdgeProperties { edge_type: link.2 },
                            },
                        )
                        &&& link.0.0 < pre.dag.nodes@.len()
                        &&& pre.dag.nodes@[link.0.0 as int] is Some
                    },
                forall|k1: int, k2: int|
                    0 <= k1 < k2 < ends@.len() ==> (#[trigger] ends@[k1]).3.0 != (
                    #[trigger] ends@[k2]).3.0,
                pre.dag.node_live(output.0 as int),
                self.dag.edges@ == cleared_slots(pre.dag.edges@, ends@, i as int) + spliced_edges(
                    v,
                    output,
                    qubits@,
                    ends@,
                    i as int,
                ),
            decreases qubits@.len() - i,
        {
            let (src, sport, wtype, e) = ends[i];
            let ghost spliced_i = spliced_edges(v, output, qubits@, ends@, i as int);
            proof {
                lemma_cleared_len(pre.dag.edges@, ends@, i as int);
                lemma_cleared_other(pre.dag.edges@, ends@, i as int, e.0 as int);
                assert(self.dag.edges@[e.0 as int] == pre.dag.edges@[e.0 as int]);
                assert(self.dag.edge_live(e.0 as int));
            }
            self.dag.remove_edge(e);
            proof {
                lemma_cleared_len(pre.dag.edges@, ends@, i as int + 1);
                assert(self.dag.edges@ =~= cleared_slots(pre.dag.edges@, ends@, i as int + 1)
                    + spliced_i);
            }
            self.dag.add_edge((src, sport), (v, i), EdgeProperties { edge_type: wtype });
            self.dag.add_edge((v, i), (output, qubits[i]), EdgeProperties { edge_type: wtype });
            proof {
                assert(self.dag.edges@ =~= cleared_slots(pre.dag.edges@, ends@, i as int + 1)
                    + spliced_edges(v, output, qubits@, ends@, i as int + 1));
            }
            i = i + 1;
        }
        Ok(v)
    }

    /// Whether live node `i` is a command: a live node that is neither
    /// boundary marker.
    pub open spec fn is_command(self, i: int) -> bool {
        &&& self.dag.node_live(i)
        &&& self.node_op(i) != Op::Input
        &&& self.node_op(i) != Op::Output
    }

    /// The command nodes of the circuit, in ascending index order.
    pub fn commands(&self) -> (r: Vec<Vertex>)
        ensures
            forall|j: int| 0 <= j < r@.len() ==> self.is_command(#[trigger] r@[j].0 as int),
            forall|i: int|
                self.is_command(i) ==> exists|j: int| 0 <= j < r@.len() && (#[trigger] r@[j]).0 == i,
            forall|j: int, k: int| 0 <= j < k < r@.len() ==> r@[j].0 < r@[k].0,
    {
        let mut result: Vec<Vertex> = Vec::new();
        let mut i: usize = 0;
        while i < self.dag.nodes.len()
            invariant
                0 <= i <= self.dag.nodes@.len(),
                forall|j: int| 0 <= j < result@.len() ==> self.is_command(#[trigger] result@[j].0 as int),
                forall|j: int| 0 <= j < result@.len() ==> (#[trigger] result@[j]).0 < i,
                forall|n: int|
                    0 <= n < i && self.is_command(n) ==> exists|j: int|
                        0 <= j < result@.len() && (#[trigger] result@[j]).0 == n,
                forall|j: int, k: int| 0 <= j < k < result@.len() ==> result@[j].0 < result@[k].0,
            decreases self.dag.nodes@.len() - i,
        {
            let ghost prev = result@;
            let is_cmd = match &self.dag.nodes[i] {
                Some(w) => !(w.op == Op::Input) && !(w.op == Op::Output),
                None => false,
            };
            if is_cmd {
                result.push(NodeIndex(i));
            }
            proof {
                assert forall|n: int| 0 <= n < i + 1 && self.is_command(n) implies exists|j: int|
                    0 <= j < result@.len() && (#[trigger] result@[j]).0 == n by {
                    if n == i as int {
                        assert(result@[prev.len() as int].0 == n);
                    } else {
                        let j = choose|j: int| 0 <= j < prev.len() && (#[trigger] prev[j]).0 == n;
                        assert(result@[j].0 == n);
                    }
                }
            }
            i = i + 1;
        }
        result
    }

    /// Number of command nodes.
    pub fn n_commands(&self) -> (r: usize)
        ensures
            r == self.commands_spec_len(),
    {
        let mut count: usize = 0;
        let mut i: usize = 0;
        while i < self.dag.nodes.len()
            invariant
                0 <= i <= self.dag.nodes@.len(),
                count == count_commands(*self, i as int),
                count <= i,
            decreases self.dag.nodes@.len() - i,
        {
            let counted = match &self.dag.nodes[i] {
                Some(w) => !(w.op == Op::Input) && !(w.op == Op::Output),
                None => false,
            };
            if counted {
                count = count + 1;
            }
            i = i + 1;
        }
        count
    }

    /// The number of command nodes, counted over the node slab.
    pub open spec fn commands_spec_len(self) -> int {
        count_commands(self, self.dag.nodes@.len() as int)
    }

    /// A deep copy of the circuit, equal to it in every observable part.
    pub fn duplicate(&self) -> (r: Circuit)
        ensures
            r.dag.nodes@ == self.dag.nodes@,
            r.dag.edges@ == self.dag.edges@,
            r.input == self.input,
            r.output == self.output,
            r.n_qubits == self.n_qubits,
            r.n_wires == self.n_wires,
    {
        let mut nodes: Vec<Option<VertexProperties>> = Vec::new();
        let mut i: usize = 0;
        while i < self.dag.nodes.len()
            invariant
                0 <= i <= self.dag.nodes@.len(),
                nodes@ =~= self.dag.nodes@.take(i as int),
            decreases self.dag.nodes@.len() - i,
        {
            nodes.push(self.dag.nodes[i]);
            proof {
                assert(nodes@ =~= self.dag.nodes@.take(i + 1));
            }
            i = i + 1;
        }
        let mut edges: Vec<Option<EdgeData<EdgeProperties, usize>>> = Vec::new();
        let mut j: usize = 0;
        while j < self.dag.edges.len()
            invariant
                0 <= j <= self.dag.edges@.len(),
                edges@ =~= self.dag.edges@.take(j as int),
            decreases self.dag.edges@.len() - j,
        {
            match &self.dag.edges[j] {
                Some(d) => edges.push(
                    Some(
                        EdgeData {
                            source: d.source,
                            source_port: d.source_port,
                            target: d.target,
                            target_port: d.target_port,
                            weight: d.weight,
                        },
                    ),
                ),
                None => edges.push(None),
            }
            proof {
                assert(edges@ =~= self.dag.edges@.take(j + 1));
            }
            j = j + 1;
        }
        proof {
            assert(nodes@ =~= self.dag.nodes@);
            assert(edges@ =~= self.dag.edges@);
        }
        Circuit {
            dag: crate::graph::graph::Graph { nodes, edges },
            input: self.input,
            output: self.output,
            n_qubits: self.n_qubits,
            n_wires: self.n_wires,
        }
    }
}

/// The number of command nodes among the first `n` node slots of `c`.
pub open spec fn count_commands(c: Circuit, n: int) -> int
    decreases n,
{
    if n <= 0 {
        0
    } else {
        count_commands(c, n - 1) + if c.is_command(n - 1) {
            1int
        } else {
            0int
        }
    }
}

} // verus!
