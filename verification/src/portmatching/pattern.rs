//! Circuit patterns: a small circuit compiled into a matching plan.
//!
//! A pattern is a circuit together with a designated root command and a
//! plan: the pattern's internal edges, flattened from its line
//! decomposition into single steps, each reaching out from an already
//! matched node. Running the plan against a host reconstructs the full
//! pattern-to-host node map or proves there is none.

use vstd::prelude::*;
use crate::circuit::circuit::Circuit;
use crate::portmatching::matcher::is_command_exec;
use crate::circuit::dag::Vertex;
use crate::circuit::operation::{Op, WireType};
use crate::graph::graph::EdgeData;
use crate::circuit::dag::EdgeProperties;

verus! {

/// Why a circuit cannot be made into a pattern.
#[derive(Clone, Copy, PartialEq, Eq, Structural, Debug)]
pub enum InvalidPattern {
    /// The circuit has no command nodes.
    EmptyPattern,
    /// Some command or internal edge cannot be reached from the root.
    NotConnected,
}

/// One step of the matching plan: from the already matched node `known`,
/// follow the edge at `port` (out of `known` when `out` is set, into it
/// otherwise) and match `other` at the far end.
#[derive(Clone, Copy, PartialEq, Eq, Structural, Debug)]
pub struct PatternEdge {
    pub known: Vertex,
    pub port: usize,
    pub out: bool,
    pub other: Vertex,
    pub other_port: usize,
    pub wire: WireType,
}

/// A pattern: an owned circuit, a root command, the matching plan, and
/// the boundary of the pattern in its own circuit.
#[derive(Clone, Debug)]
pub struct CircuitPattern {
    pub circuit: Circuit,
    pub root: Vertex,
    pub edges: Vec<PatternEdge>,
    /// For each input wire of the pattern, the (node, in-port) pairs fed
    /// by that wire.
    pub inputs: Vec<Vec<(Vertex, usize)>>,
    /// The (node, out-port) pairs feeding the pattern's output wires.
    pub outputs: Vec<(Vertex, usize)>,
}

/// An edge of `c` between two command nodes.
pub open spec fn internal_edge(c: Circuit, e: int) -> bool {
    &&& c.dag.edge_live(e)
    &&& c.is_command(c.dag.edges@[e]->Some_0.source.0 as int)
    &&& c.is_command(c.dag.edges@[e]->Some_0.target.0 as int)
}

/// The plan step `st` describes exactly the circuit edge `e`.
pub open spec fn step_matches_edge(c: Circuit, st: PatternEdge, e: int) -> bool {
    if st.out {
        c.dag.edges@[e]->Some_0 == (EdgeData {
            source: st.known,
            source_port: st.port,
            target: st.other,
            target_port: st.other_port,
            weight: EdgeProperties { edge_type: st.wire },
        })
    } else {
        c.dag.edges@[e]->Some_0 == (EdgeData {
            source: st.other,
            source_port: st.other_port,
            target: st.known,
            target_port: st.port,
            weight: EdgeProperties { edge_type: st.wire },
        })
    }
}

impl CircuitPattern {
    /// The pattern nodes matched after the first `k` plan steps.
    pub open spec fn step_binds(self, k: int) -> Set<int>
        decreases k,
    {
        if k <= 0 {
            Set::empty().insert(self.root.0 as int)
        } else {
            self.step_binds(k - 1).insert(self.edges@[k - 1].other.0 as int).insert(
                self.edges@[k - 1].known.0 as int,
            )
        }
    }

    /// Every plan step walks a real internal edge of the pattern, between
    /// command nodes, starting from an already matched node.
    #[verifier::opaque]
    pub open spec fn plan_steps_real(self) -> bool {
        &&& forall|k: int|
            0 <= k < self.edges@.len() ==> exists|e: int|
                internal_edge(self.circuit, e) && step_matches_edge(
                    self.circuit,
                    #[trigger] self.edges@[k],
                    e,
                )
        &&& forall|k: int|
            0 <= k < self.edges@.len() ==> self.step_binds(k).contains(
                (#[trigger] self.edges@[k]).known.0 as int,
            )
        &&& forall|k: int|
            0 <= k < self.edges@.len() ==> self.circuit.is_command(
                (#[trigger] self.edges@[k]).known.0 as int,
            ) && self.circuit.is_command(self.edges@[k].other.0 as int)
    }

    /// Every internal edge of the pattern is walked by some plan step.
    #[verifier::opaque]
    pub open spec fn plan_covers(self) -> bool {
        forall|e: int|
            internal_edge(self.circuit, e) ==> exists|k: int|
                0 <= k < self.edges@.len() && step_matches_edge(
                    self.circuit,
                    #[trigger] self.edges@[k],
                    e,
                )
    }

    /// Every command of the pattern is matched by the end of the plan.
    #[verifier::opaque]
    pub open spec fn plan_reaches_all(self) -> bool {
        forall|i: int|
            self.circuit.is_command(i) ==> self.step_binds(self.edges@.len() as int).contains(i)
    }

    /// A valid pattern: its circuit is well formed, the root is a
    /// command, and the plan steps walk real internal edges, always from
    /// an already matched node, covering every internal edge and
    /// reaching every command.
    pub open spec fn pattern_wf(self) -> bool {
        &&& self.circuit.wf()
        &&& self.circuit.is_command(self.root.0 as int)
        &&& self.plan_steps_real()
        &&& self.plan_covers()
        &&& self.plan_reaches_all()
    }

    /// Everything the plan can bind is a command of the pattern.
    pub proof fn lemma_step_binds_commands(self, k: int)
        requires
            self.pattern_wf(),
            0 <= k <= self.edges@.len(),
        ensures
            forall|i: int| self.step_binds(k).contains(i) ==> self.circuit.is_command(i),
        decreases k,
    {
        reveal(CircuitPattern::plan_steps_real);
        if k > 0 {
            self.lemma_step_binds_commands(k - 1);
        }
    }
}

/// An edge of `c` entering a command from outside the commands: the
/// pattern's input boundary wiring.
pub open spec fn boundary_in_edge(c: Circuit, e: int) -> bool {
    &&& c.dag.edge_live(e)
    &&& !c.is_command(c.dag.edges@[e]->Some_0.source.0 as int)
    &&& c.is_command(c.dag.edges@[e]->Some_0.target.0 as int)
}

/// An edge of `c` leaving a command towards outside the commands: the
/// pattern's output boundary wiring.
pub open spec fn boundary_out_edge(c: Circuit, e: int) -> bool {
    &&& c.dag.edge_live(e)
    &&& c.is_command(c.dag.edges@[e]->Some_0.source.0 as int)
    &&& !c.is_command(c.dag.edges@[e]->Some_0.target.0 as int)
}

/// Whether host node slot `h` is in the image of the map.
pub open spec fn image_has(m: Seq<Option<Vertex>>, h: int) -> bool {
    exists|j: int| 0 <= j < m.len() && (#[trigger] m[j]) is Some && m[j]->Some_0.0 == h
}

/// The pattern's input-boundary edge `e` is carried by `m` to a live
/// host edge entering the matched port from outside the image.
pub open spec fn boundary_in_mapped(
    p: CircuitPattern,
    host: Circuit,
    m: Seq<Option<Vertex>>,
    e: int,
) -> bool {
    exists|he: int|
        host.dag.edge_live(he) && {
            let pd = p.circuit.dag.edges@[e]->Some_0;
            let hd = (#[trigger] host.dag.edges@[he])->Some_0;
            &&& hd.target == m[pd.target.0 as int]->Some_0
            &&& hd.target_port == pd.target_port
            &&& hd.weight == pd.weight
            &&& !image_has(m, hd.source.0 as int)
        }
}

/// The pattern's output-boundary edge `e` is carried by `m` to a live
/// host edge leaving the matched port towards outside the image.
pub open spec fn boundary_out_mapped(
    p: CircuitPattern,
    host: Circuit,
    m: Seq<Option<Vertex>>,
    e: int,
) -> bool {
    exists|he: int|
        host.dag.edge_live(he) && {
            let pd = p.circuit.dag.edges@[e]->Some_0;
            let hd = (#[trigger] host.dag.edges@[he])->Some_0;
            &&& hd.source == m[pd.source.0 as int]->Some_0
            &&& hd.source_port == pd.source_port
            &&& hd.weight == pd.weight
            &&& !image_has(m, hd.target.0 as int)
        }
}

/// A full embedding of the pattern in a host: an injective map from the
/// pattern's commands to host commands with equal gate kinds, carrying
/// every internal pattern edge to a host edge with the same ports and
/// wire type, and carrying every boundary wire of the pattern to a host
/// wire that crosses the image's boundary: where a pattern wire enters
/// or leaves the pattern, the matched host port is wired to a node
/// outside the matched set.
#[verifier::opaque]
pub open spec fn is_embedding(
    p: CircuitPattern,
    host: Circuit,
    m: Seq<Option<Vertex>>,
) -> bool {
    &&& m.len() == p.circuit.dag.nodes@.len()
    &&& forall|i: int| 0 <= i < m.len() ==> (p.circuit.is_command(i) <==> (#[trigger] m[i]) is Some)
    &&& forall|i: int|
        0 <= i < m.len() && p.circuit.is_command(i) ==> host.is_command(
            (#[trigger] m[i])->Some_0.0 as int,
        ) && host.node_op(m[i]->Some_0.0 as int) == p.circuit.node_op(i)
    &&& forall|i: int, j: int|
        0 <= i < m.len() && 0 <= j < m.len() && p.circuit.is_command(i) && p.circuit.is_command(j)
            && i != j ==> (#[trigger] m[i])->Some_0.0 != (#[trigger] m[j])->Some_0.0
    &&& forall|e: int|
        internal_edge(p.circuit, e) ==> exists|he: int|
            host.dag.edge_live(he) && (#[trigger] host.dag.edges@[he])->Some_0 == (EdgeData {
                source: m[p.circuit.dag.edges@[e]->Some_0.source.0 as int]->Some_0,
                source_port: p.circuit.dag.edges@[e]->Some_0.source_port,
                target: m[p.circuit.dag.edges@[e]->Some_0.target.0 as int]->Some_0,
                target_port: p.circuit.dag.edges@[e]->Some_0.target_port,
                weight: p.circuit.dag.edges@[e]->Some_0.weight,
            })
    &&& forall|e: int|
        boundary_in_edge(p.circuit, e) ==> #[trigger] boundary_in_mapped(p, host, m, e)
    &&& forall|e: int|
        boundary_out_edge(p.circuit, e) ==> #[trigger] boundary_out_mapped(p, host, m, e)
}

/// An embedding depends on the pattern only through the contents of its
/// circuit: a pattern over a circuit with the same nodes and edges
/// admits the same embeddings.
pub proof fn lemma_embedding_same_views(
    p1: CircuitPattern,
    p2: CircuitPattern,
    host: Circuit,
    m: Seq<Option<Vertex>>,
)
    requires
        p1.circuit.dag.nodes@ == p2.circuit.dag.nodes@,
        p1.circuit.dag.edges@ == p2.circuit.dag.edges@,
        is_embedding(p1, host, m),
    ensures
        is_embedding(p2, host, m),
{
    reveal(is_embedding);
    let c1 = p1.circuit;
    let c2 = p2.circuit;
    assert forall|i: int|
        0 <= i < m.len() implies (c2.is_command(i) <==> (#[trigger] m[i]) is Some) by {
        assert(c1.is_command(i) <==> m[i] is Some);
    }
    assert forall|i: int|
        0 <= i < m.len() && c2.is_command(i) implies host.is_command(
        (#[trigger] m[i])->Some_0.0 as int,
    ) && host.node_op(m[i]->Some_0.0 as int) == c2.node_op(i) by {
        assert(c1.is_command(i));
    }
    assert forall|e: int|
        internal_edge(c2, e) implies exists|he: int|
        host.dag.edge_live(he) && (#[trigger] host.dag.edges@[he])->Some_0 == (EdgeData {
            source: m[c2.dag.edges@[e]->Some_0.source.0 as int]->Some_0,
            source_port: c2.dag.edges@[e]->Some_0.source_port,
            target: m[c2.dag.edges@[e]->Some_0.target.0 as int]->Some_0,
            target_port: c2.dag.edges@[e]->Some_0.target_port,
            weight: c2.dag.edges@[e]->Some_0.weight,
        }) by {
        assert(internal_edge(c1, e));
        let he = choose|he: int|
            host.dag.edge_live(he) && (#[trigger] host.dag.edges@[he])->Some_0 == (EdgeData {
                source: m[c1.dag.edges@[e]->Some_0.source.0 as int]->Some_0,
                source_port: c1.dag.edges@[e]->Some_0.source_port,
                target: m[c1.dag.edges@[e]->Some_0.target.0 as int]->Some_0,
                target_port: c1.dag.edges@[e]->Some_0.target_port,
                weight: c1.dag.edges@[e]->Some_0.weight,
            });
        assert(host.dag.edges@[he]->Some_0 == (EdgeData {
            source: m[c2.dag.edges@[e]->Some_0.source.0 as int]->Some_0,
            source_port: c2.dag.edges@[e]->Some_0.source_port,
            target: m[c2.dag.edges@[e]->Some_0.target.0 as int]->Some_0,
            target_port: c2.dag.edges@[e]->Some_0.target_port,
            weight: c2.dag.edges@[e]->Some_0.weight,
        }));
    }
    assert forall|e: int|
        boundary_in_edge(c2, e) implies #[trigger] boundary_in_mapped(p2, host, m, e) by {
        assert(boundary_in_edge(c1, e));
        assert(boundary_in_mapped(p1, host, m, e));
        let he = choose|he: int|
            host.dag.edge_live(he) && {
                let pd = p1.circuit.dag.edges@[e]->Some_0;
                let hd = (#[trigger] host.dag.edges@[he])->Some_0;
                &&& hd.target == m[pd.target.0 as int]->Some_0
                &&& hd.target_port == pd.target_port
                &&& hd.weight == pd.weight
                &&& !image_has(m, hd.source.0 as int)
            };
        assert(host.dag.edge_live(he) && {
            let pd = p2.circuit.dag.edges@[e]->Some_0;
            let hd = host.dag.edges@[he]->Some_0;
            &&& hd.target == m[pd.target.0 as int]->Some_0
            &&& hd.target_port == pd.target_port
            &&& hd.weight == pd.weight
            &&& !image_has(m, hd.source.0 as int)
        });
    }
    assert forall|e: int|
        boundary_out_edge(c2, e) implies #[trigger] boundary_out_mapped(p2, host, m, e) by {
        assert(boundary_out_edge(c1, e));
        assert(boundary_out_mapped(p1, host, m, e));
        let he = choose|he: int|
            host.dag.edge_live(he) && {
                let pd = p1.circuit.dag.edges@[e]->Some_0;
                let hd = (#[trigger] host.dag.edges@[he])->Some_0;
                &&& hd.source == m[pd.source.0 as int]->Some_0
                &&& hd.source_port == pd.source_port
                &&& hd.weight == pd.weight
                &&& !image_has(m, hd.target.0 as int)
            };
        assert(host.dag.edge_live(he) && {
            let pd = p2.circuit.dag.edges@[e]->Some_0;
            let hd = host.dag.edges@[he]->Some_0;
            &&& hd.source == m[pd.source.0 as int]->Some_0
            &&& hd.source_port == pd.source_port
            &&& hd.weight == pd.weight
            &&& !image_has(m, hd.target.0 as int)
        });
    }
}

/// Two patterns over circuits with the same contents and with the same
/// root admit exactly the same rooted embeddings: a pattern rebuilt from
/// a stored copy of its circuit behaves as the original on every host.
pub proof fn lemma_rooted_embedding_same_views(
    p1: CircuitPattern,
    p2: CircuitPattern,
    host: Circuit,
    m: Seq<Option<Vertex>>,
    rt: Vertex,
)
    requires
        p1.circuit.dag.nodes@ == p2.circuit.dag.nodes@,
        p1.circuit.dag.edges@ == p2.circuit.dag.edges@,
        p1.root == p2.root,
    ensures
        embedding_rooted(p1, host, m, rt) == embedding_rooted(p2, host, m, rt),
{
    if embedding_rooted(p1, host, m, rt) {
        lemma_embedding_same_views(p1, p2, host, m);
    }
    if embedding_rooted(p2, host, m, rt) {
        lemma_embedding_same_views(p2, p1, host, m);
    }
}

/// Plan step `kk` is carried by `binding` to a live host edge with the
/// same ports and wire type.
pub open spec fn step_mapped(
    p: CircuitPattern,
    host: Circuit,
    binding: Seq<Option<Vertex>>,
    kk: int,
) -> bool {
    exists|he: int|
        host.dag.edge_live(he) && (#[trigger] host.dag.edges@[he])->Some_0 == (EdgeData {
            source: binding[if p.edges@[kk].out {
                p.edges@[kk].known.0 as int
            } else {
                p.edges@[kk].other.0 as int
            }]->Some_0,
            source_port: if p.edges@[kk].out {
                p.edges@[kk].port
            } else {
                p.edges@[kk].other_port
            },
            target: binding[if p.edges@[kk].out {
                p.edges@[kk].other.0 as int
            } else {
                p.edges@[kk].known.0 as int
            }]->Some_0,
            target_port: if p.edges@[kk].out {
                p.edges@[kk].other_port
            } else {
                p.edges@[kk].port
            },
            weight: EdgeProperties { edge_type: p.edges@[kk].wire },
        })
}

/// An embedding whose root lands on the given host node.
pub open spec fn embedding_rooted(
    p: CircuitPattern,
    host: Circuit,
    m: Seq<Option<Vertex>>,
    root: Vertex,
) -> bool {
    is_embedding(p, host, m) && m[p.root.0 as int] == Some(root)
}

/// `step_binds` only grows along the plan.
proof fn lemma_step_binds_mono(p: CircuitPattern, k1: int, k2: int)
    requires
        0 <= k1 <= k2,
    ensures
        forall|i: int| p.step_binds(k1).contains(i) ==> p.step_binds(k2).contains(i),
    decreases k2 - k1,
{
    if k2 > k1 {
        lemma_step_binds_mono(p, k1, k2 - 1);
    }
}

/// When the host edge demanded by plan step `k` does not exist at the
/// image of the step's known node, no rooted embedding exists.
#[verifier::rlimit(100)]
proof fn lemma_step_dead_end(
    p: CircuitPattern,
    host: Circuit,
    binding: Seq<Option<Vertex>>,
    root: Vertex,
    k: int,
    hk: Vertex,
)
    requires
        p.pattern_wf(),
        host.wf(),
        0 <= k < p.edges@.len(),
        binding.len() == p.circuit.dag.nodes@.len(),
        binding[p.edges@[k].known.0 as int] == Some(hk),
        forall|m: Seq<Option<Vertex>>, j: int|
            #![trigger embedding_rooted(p, host, m, root), binding[j]]
            embedding_rooted(p, host, m, root) && 0 <= j < binding.len() && binding[j] is Some
                ==> m[j] == binding[j],
        p.edges@[k].out ==> forall|i: int|
            host.dag.edge_live(i) ==> !((#[trigger] host.dag.edges@[i])->Some_0.source.0 == hk.0
                && host.dag.edges@[i]->Some_0.source_port == p.edges@[k].port),
        !p.edges@[k].out ==> forall|i: int|
            host.dag.edge_live(i) ==> !((#[trigger] host.dag.edges@[i])->Some_0.target.0 == hk.0
                && host.dag.edges@[i]->Some_0.target_port == p.edges@[k].port),
    ensures
        forall|m: Seq<Option<Vertex>>| !(#[trigger] embedding_rooted(p, host, m, root)),
{
    reveal(is_embedding);
    reveal(crate::circuit::circuit::ports_unique);
    reveal(CircuitPattern::plan_steps_real);
    let st = p.edges@[k];
    let e_k = choose|e: int|
        internal_edge(p.circuit, e) && step_matches_edge(p.circuit, p.edges@[k], e);
    assert(internal_edge(p.circuit, e_k) && step_matches_edge(p.circuit, p.edges@[k], e_k));
    assert forall|m: Seq<Option<Vertex>>| !(#[trigger] embedding_rooted(p, host, m, root)) by {
        if embedding_rooted(p, host, m, root) {
            let pe = p.circuit.dag.edges@[e_k]->Some_0;
            let he = choose|he: int|
                host.dag.edge_live(he) && (#[trigger] host.dag.edges@[he])->Some_0 == (EdgeData {
                    source: m[pe.source.0 as int]->Some_0,
                    source_port: pe.source_port,
                    target: m[pe.target.0 as int]->Some_0,
                    target_port: pe.target_port,
                    weight: pe.weight,
                });
            assert(m[st.known.0 as int] == binding[st.known.0 as int]);
            assert(false);
        }
    }
}

/// The host edge found at the image of a step's known node is the one
/// every rooted embedding must use: the far node, ports, wire type and
/// gate kind are forced.
#[verifier::rlimit(100)]
proof fn lemma_step_forced(
    p: CircuitPattern,
    host: Circuit,
    binding: Seq<Option<Vertex>>,
    root: Vertex,
    k: int,
    hk: Vertex,
    h_other: Vertex,
    h_other_port: usize,
    h_wire: WireType,
    found_e: int,
)
    requires
        p.pattern_wf(),
        host.wf(),
        0 <= k < p.edges@.len(),
        binding.len() == p.circuit.dag.nodes@.len(),
        binding[p.edges@[k].known.0 as int] == Some(hk),
        forall|m: Seq<Option<Vertex>>, j: int|
            #![trigger embedding_rooted(p, host, m, root), binding[j]]
            embedding_rooted(p, host, m, root) && 0 <= j < binding.len() && binding[j] is Some
                ==> m[j] == binding[j],
        host.dag.edge_live(found_e),
        host.dag.edges@[found_e]->Some_0 == (if p.edges@[k].out {
            EdgeData {
                source: hk,
                source_port: p.edges@[k].port,
                target: h_other,
                target_port: h_other_port,
                weight: EdgeProperties { edge_type: h_wire },
            }
        } else {
            EdgeData {
                source: h_other,
                source_port: h_other_port,
                target: hk,
                target_port: p.edges@[k].port,
                weight: EdgeProperties { edge_type: h_wire },
            }
        }),
    ensures
        forall|m: Seq<Option<Vertex>>|
            #[trigger] embedding_rooted(p, host, m, root) ==> m[p.edges@[k].other.0 as int] == Some(
                h_other,
            ) && h_other_port == p.edges@[k].other_port && h_wire == p.edges@[k].wire
                && host.node_op(h_other.0 as int) == p.circuit.node_op(p.edges@[k].other.0 as int)
                && host.is_command(h_other.0 as int),
{
    reveal(is_embedding);
    reveal(crate::circuit::circuit::ports_unique);
    reveal(CircuitPattern::plan_steps_real);
    let st = p.edges@[k];
    let e_k = choose|e: int|
        internal_edge(p.circuit, e) && step_matches_edge(p.circuit, p.edges@[k], e);
    assert(internal_edge(p.circuit, e_k) && step_matches_edge(p.circuit, p.edges@[k], e_k));
    assert forall|m: Seq<Option<Vertex>>|
        #[trigger] embedding_rooted(p, host, m, root) implies m[p.edges@[k].other.0 as int] == Some(
        h_other,
    ) && h_other_port == p.edges@[k].other_port && h_wire == p.edges@[k].wire && host.node_op(
        h_other.0 as int,
    ) == p.circuit.node_op(p.edges@[k].other.0 as int) && host.is_command(h_other.0 as int) by {
        let pe = p.circuit.dag.edges@[e_k]->Some_0;
        let he = choose|he: int|
            host.dag.edge_live(he) && (#[trigger] host.dag.edges@[he])->Some_0 == (EdgeData {
                source: m[pe.source.0 as int]->Some_0,
                source_port: pe.source_port,
                target: m[pe.target.0 as int]->Some_0,
                target_port: pe.target_port,
                weight: pe.weight,
            });
        assert(m[st.known.0 as int] == binding[st.known.0 as int]);
        assert(host.dag.edge_live(he));
        assert(host.dag.edge_live(found_e));
        if he != found_e {
            let a = host.dag.edges@[he]->Some_0;
            let b = host.dag.edges@[found_e]->Some_0;
            assert(!(a.source == b.source && a.source_port == b.source_port) && !(a.target
                == b.target && a.target_port == b.target_port));
        }
        assert(he == found_e);
    }
}

/// A completed walk whose bindings satisfy the loop facts is a full
/// embedding.
#[verifier::rlimit(100)]
proof fn lemma_binding_is_embedding(
    p: CircuitPattern,
    host: Circuit,
    binding: Seq<Option<Vertex>>,
)
    requires
        p.pattern_wf(),
        binding.len() == p.circuit.dag.nodes@.len(),
        forall|j: int|
            0 <= j < binding.len() ==> ((#[trigger] binding[j]) is Some <==> p.step_binds(
                p.edges@.len() as int,
            ).contains(j)),
        forall|j: int|
            0 <= j < binding.len() && (#[trigger] binding[j]) is Some ==> host.is_command(
                binding[j]->Some_0.0 as int,
            ) && host.node_op(binding[j]->Some_0.0 as int) == p.circuit.node_op(j),
        forall|a: int, b: int|
            0 <= a < binding.len() && 0 <= b < binding.len() && a != b && (
            #[trigger] binding[a]) is Some && (#[trigger] binding[b]) is Some ==> binding[
                a
            ]->Some_0.0 != binding[b]->Some_0.0,
        forall|kk: int| 0 <= kk < p.edges@.len() ==> step_mapped(p, host, binding, kk),
        forall|e: int|
            boundary_in_edge(p.circuit, e) ==> #[trigger] boundary_in_mapped(p, host, binding, e),
        forall|e: int|
            boundary_out_edge(p.circuit, e) ==> #[trigger] boundary_out_mapped(
                p,
                host,
                binding,
                e,
            ),
    ensures
        is_embedding(p, host, binding),
{
    reveal(is_embedding);
    reveal(CircuitPattern::plan_covers);
    reveal(CircuitPattern::plan_reaches_all);
    p.lemma_step_binds_commands(p.edges@.len() as int);
    assert forall|e: int| internal_edge(p.circuit, e) implies exists|he: int|
        host.dag.edge_live(he) && (#[trigger] host.dag.edges@[he])->Some_0 == (EdgeData {
            source: binding[p.circuit.dag.edges@[e]->Some_0.source.0 as int]->Some_0,
            source_port: p.circuit.dag.edges@[e]->Some_0.source_port,
            target: binding[p.circuit.dag.edges@[e]->Some_0.target.0 as int]->Some_0,
            target_port: p.circuit.dag.edges@[e]->Some_0.target_port,
            weight: p.circuit.dag.edges@[e]->Some_0.weight,
        }) by {
        let kk = choose|kk: int|
            0 <= kk < p.edges@.len() && step_matches_edge(p.circuit, #[trigger] p.edges@[kk], e);
        assert(step_mapped(p, host, binding, kk));
        let stk = p.edges@[kk];
        let he = choose|he: int|
            host.dag.edge_live(he) && (#[trigger] host.dag.edges@[he])->Some_0 == (EdgeData {
                source: binding[if p.edges@[kk].out {
                    p.edges@[kk].known.0 as int
                } else {
                    p.edges@[kk].other.0 as int
                }]->Some_0,
                source_port: if p.edges@[kk].out {
                    p.edges@[kk].port
                } else {
                    p.edges@[kk].other_port
                },
                target: binding[if p.edges@[kk].out {
                    p.edges@[kk].other.0 as int
                } else {
                    p.edges@[kk].known.0 as int
                }]->Some_0,
                target_port: if p.edges@[kk].out {
                    p.edges@[kk].other_port
                } else {
                    p.edges@[kk].port
                },
                weight: EdgeProperties { edge_type: p.edges@[kk].wire },
            });
        assert(host.dag.edge_live(he));
    }
}

/// After binding one more node, the found host edge witnesses step `k`
/// and all earlier steps keep their witnesses.
#[verifier::rlimit(100)]
proof fn lemma_steps_still_mapped(
    p: CircuitPattern,
    host: Circuit,
    prev: Seq<Option<Vertex>>,
    new: Seq<Option<Vertex>>,
    k: int,
    hk: Vertex,
    h_other: Vertex,
    found_e: int,
)
    requires
        p.pattern_wf(),
        0 <= k < p.edges@.len(),
        prev.len() == p.circuit.dag.nodes@.len(),
        new.len() == prev.len(),
        forall|j: int|
            0 <= j < prev.len() ==> ((#[trigger] prev[j]) is Some <==> p.step_binds(k).contains(
                j,
            )),
        forall|kk: int| 0 <= kk < k ==> step_mapped(p, host, prev, kk),
        new[p.edges@[k].known.0 as int] == Some(hk),
        new[p.edges@[k].other.0 as int] == Some(h_other),
        forall|j: int|
            0 <= j < prev.len() && j != p.edges@[k].other.0 as int ==> #[trigger] new[j] == prev[j],
        prev[p.edges@[k].other.0 as int] is None || prev[p.edges@[k].other.0 as int] == Some(
            h_other,
        ),
        host.dag.edge_live(found_e),
        host.dag.edges@[found_e]->Some_0 == (if p.edges@[k].out {
            EdgeData {
                source: hk,
                source_port: p.edges@[k].port,
                target: h_other,
                target_port: p.edges@[k].other_port,
                weight: EdgeProperties { edge_type: p.edges@[k].wire },
            }
        } else {
            EdgeData {
                source: h_other,
                source_port: p.edges@[k].other_port,
                target: hk,
                target_port: p.edges@[k].port,
                weight: EdgeProperties { edge_type: p.edges@[k].wire },
            }
        }),
    ensures
        forall|kk: int| 0 <= kk < k + 1 ==> step_mapped(p, host, new, kk),
{
    reveal(CircuitPattern::plan_steps_real);
    assert forall|kk: int| 0 <= kk < k + 1 implies step_mapped(p, host, new, kk) by {
        if kk == k {
            assert(host.dag.edge_live(found_e));
        } else {
            assert(step_mapped(p, host, prev, kk));
            let he = choose|he: int|
                host.dag.edge_live(he) && (#[trigger] host.dag.edges@[he])->Some_0 == (EdgeData {
                    source: prev[if p.edges@[kk].out {
                        p.edges@[kk].known.0 as int
                    } else {
                        p.edges@[kk].other.0 as int
                    }]->Some_0,
                    source_port: if p.edges@[kk].out {
                        p.edges@[kk].port
                    } else {
                        p.edges@[kk].other_port
                    },
                    target: prev[if p.edges@[kk].out {
                        p.edges@[kk].other.0 as int
                    } else {
                        p.edges@[kk].known.0 as int
                    }]->Some_0,
                    target_port: if p.edges@[kk].out {
                        p.edges@[kk].other_port
                    } else {
                        p.edges@[kk].port
                    },
                    weight: EdgeProperties { edge_type: p.edges@[kk].wire },
                });
            assert(p.step_binds(kk).contains(p.edges@[kk].known.0 as int));
            assert(p.step_binds(kk + 1).contains(p.edges@[kk].other.0 as int));
            lemma_step_binds_mono(p, kk, k);
            lemma_step_binds_mono(p, kk + 1, k);
            assert(prev[p.edges@[kk].known.0 as int] is Some);
            assert(prev[p.edges@[kk].other.0 as int] is Some);
            assert(new[p.edges@[kk].known.0 as int] == prev[p.edges@[kk].known.0 as int]);
            assert(new[p.edges@[kk].other.0 as int] == prev[p.edges@[kk].other.0 as int]);
            assert(host.dag.edge_live(he));
        }
    }
}

/// The facts carried from one plan step to the next: the bound set is
/// exactly what the plan has reached, bound nodes match in gate kind,
/// the binding is injective, every processed step has a host edge, and
/// (on a well-formed host) every rooted embedding agrees with the
/// binding.
pub open spec fn walk_invariant(
    p: CircuitPattern,
    host: Circuit,
    binding: Seq<Option<Vertex>>,
    root: Vertex,
    k: int,
) -> bool {
    &&& forall|j: int|
        0 <= j < binding.len() ==> ((#[trigger] binding[j]) is Some <==> p.step_binds(k).contains(
            j,
        ))
    &&& forall|j: int|
        0 <= j < binding.len() && (#[trigger] binding[j]) is Some ==> host.is_command(
            binding[j]->Some_0.0 as int,
        ) && host.node_op(binding[j]->Some_0.0 as int) == p.circuit.node_op(j)
    &&& forall|a: int, b: int|
        0 <= a < binding.len() && 0 <= b < binding.len() && a != b && (
        #[trigger] binding[a]) is Some && (#[trigger] binding[b]) is Some ==> binding[a]->Some_0.0
            != binding[b]->Some_0.0
    &&& forall|kk: int| 0 <= kk < k ==> step_mapped(p, host, binding, kk)
    &&& host.wf() ==> forall|m: Seq<Option<Vertex>>, j: int|
        #![trigger embedding_rooted(p, host, m, root), binding[j]]
        embedding_rooted(p, host, m, root) && 0 <= j < binding.len() && binding[j] is Some ==> m[j]
            == binding[j]
}

impl CircuitPattern {
    /// Run one plan step against the host, extending the binding, or
    /// report that the pattern cannot embed here.
    #[verifier::rlimit(100)]
    fn match_step(
        &self,
        circ: &Circuit,
        binding: &mut Vec<Option<Vertex>>,
        root: Vertex,
        k: usize,
    ) -> (ok: bool)
        requires
            self.pattern_wf(),
            k < self.edges@.len(),
            old(binding)@.len() == self.circuit.dag.nodes@.len(),
            circ.is_command(root.0 as int),
            old(binding)@[self.root.0 as int] == Some(root),
            walk_invariant(*self, *circ, old(binding)@, root, k as int),
        ensures
            final(binding)@.len() == old(binding)@.len(),
            !ok ==> circ.wf() ==> !exists|m: Seq<Option<Vertex>>|
                embedding_rooted(*self, *circ, m, root),
            ok ==> walk_invariant(*self, *circ, final(binding)@, root, k as int + 1)
                && final(binding)@[self.root.0 as int] == Some(root),
    {
        let psize = binding.len();
        let st = self.edges[k];
        proof {
            reveal(CircuitPattern::plan_steps_real);
            assert(self.step_binds(k as int).contains(st.known.0 as int));
            self.lemma_step_binds_commands(k as int);
        }
        let hk = match binding[st.known.0] {
            Some(h) => h,
            None => {
                proof {
                    assert(false);
                }
                return false;
            },
        };
        let link = if st.out {
            circ.linked_port_from(hk, st.port)
        } else {
            circ.linked_port_to(hk, st.port)
        };
        match link {
            None => {
                proof {
                    if circ.wf() {
                        lemma_step_dead_end(*self, *circ, binding@, root, k as int, hk);
                    }
                }
                false
            },
            Some(found) => {
                let (h_other, h_other_port, h_wire, found_e) = found;
                proof {
                    if circ.wf() {
                        lemma_step_forced(
                            *self,
                            *circ,
                            binding@,
                            root,
                            k as int,
                            hk,
                            h_other,
                            h_other_port,
                            h_wire,
                            found_e.0 as int,
                        );
                    }
                }
                let ok_ports = h_other_port == st.other_port && h_wire == st.wire;
                let op_ok = if ok_ports {
                    match (self.circuit.op_at(st.other), circ.op_at(h_other)) {
                        (Some(a), Some(b)) => a == b && !(b == Op::Input) && !(b == Op::Output),
                        _ => false,
                    }
                } else {
                    false
                };
                if !op_ok {
                    return false;
                }
                let ghost prev_binding = binding@;
                match binding[st.other.0] {
                    Some(prev_h) => {
                        if prev_h.0 == h_other.0 {
                            // already bound consistently; the found edge
                            // witnesses this step
                        } else {
                            proof {
                                if circ.wf() {
                                    assert forall|m: Seq<Option<Vertex>>|
                                        !embedding_rooted(*self, *circ, m, root) by {
                                        if embedding_rooted(*self, *circ, m, root) {
                                            assert(m[st.other.0 as int] == binding@[st.other.0 as int]);
                                        }
                                    }
                                }
                            }
                            return false;
                        }
                    },
                    None => {
                        // injectivity: h_other must be fresh
                        let mut dup = false;
                        let mut j: usize = 0;
                        while j < psize
                            invariant
                                0 <= j <= psize,
                                binding@.len() == psize,
                                dup ==> exists|a: int|
                                    0 <= a < psize && (#[trigger] binding@[a]) is Some
                                        && binding@[a]->Some_0.0 == h_other.0,
                                !dup ==> forall|a: int|
                                    0 <= a < j && (#[trigger] binding@[a]) is Some ==> binding@[
                                        a
                                    ]->Some_0.0 != h_other.0,
                            decreases psize - j,
                        {
                            match &binding[j] {
                                Some(h) => {
                                    if h.0 == h_other.0 {
                                        dup = true;
                                    }
                                },
                                None => {},
                            }
                            j = j + 1;
                        }
                        if dup {
                            proof {
                                reveal(is_embedding);
                                if circ.wf() {
                                    let a = choose|a: int|
                                        0 <= a < psize && (#[trigger] binding@[a]) is Some
                                            && binding@[a]->Some_0.0 == h_other.0;
                                    assert forall|m: Seq<Option<Vertex>>|
                                        !embedding_rooted(*self, *circ, m, root) by {
                                        if embedding_rooted(*self, *circ, m, root) {
                                            assert(m[a] == binding@[a]);
                                            assert(self.circuit.is_command(a)) by {
                                                assert(self.step_binds(k as int).contains(a));
                                                self.lemma_step_binds_commands(k as int);
                                            }
                                            assert(m[st.other.0 as int] == Some(h_other));
                                            assert(a != st.other.0 as int);
                                        }
                                    }
                                }
                            }
                            return false;
                        }
                        binding.set(st.other.0, Some(h_other));
                    },
                }
                proof {
                    lemma_steps_still_mapped(
                        *self,
                        *circ,
                        prev_binding,
                        binding@,
                        k as int,
                        hk,
                        h_other,
                        found_e.0 as int,
                    );
                    assert forall|j: int|
                        0 <= j < psize implies ((#[trigger] binding@[j]) is Some
                        <==> self.step_binds(k as int + 1).contains(j)) by {}
                }
                true
            },
        }
    }
}

impl CircuitPattern {
    /// Reconstruct the pattern-to-host node map of a match whose root is
    /// mapped to `root`, or return `None` if the pattern does not embed
    /// there.
    ///
    /// A returned map is always a rooted embedding. On a well-formed
    /// host the converse holds too: `None` means no rooted embedding
    /// exists at `root`.
    #[verifier::rlimit(100)]
    pub fn get_match_map(&self, root: Vertex, circ: &Circuit) -> (r: Option<Vec<Option<Vertex>>>)
        requires
            self.pattern_wf(),
        ensures
            match r {
                Some(m) => embedding_rooted(*self, *circ, m@, root) && (circ.wf()
                    ==> forall|m2: Seq<Option<Vertex>>|
                    #[trigger] embedding_rooted(*self, *circ, m2, root) ==> m2 =~= m@),
                None => circ.wf() ==> !exists|m: Seq<Option<Vertex>>|
                    embedding_rooted(*self, *circ, m, root),
            },
    {
        let psize = self.circuit.dag.nodes.len();
        let p_op = match self.circuit.op_at(self.root) {
            Some(op) => op,
            None => {
                proof {
                    assert(false);
                }
                return None;
            },
        };
        let h_op = match circ.op_at(root) {
            Some(op) => op,
            None => {
                proof {
                    reveal(is_embedding);
                    assert forall|m: Seq<Option<Vertex>>|
                        !embedding_rooted(*self, *circ, m, root) by {
                        if embedding_rooted(*self, *circ, m, root) {
                            assert(m[self.root.0 as int]->Some_0 == root);
                        }
                    }
                }
                return None;
            },
        };
        if !(h_op == p_op) || h_op == Op::Input || h_op == Op::Output {
            proof {
                reveal(is_embedding);
                assert forall|m: Seq<Option<Vertex>>|
                    !embedding_rooted(*self, *circ, m, root) by {
                    if embedding_rooted(*self, *circ, m, root) {
                        assert(m[self.root.0 as int]->Some_0 == root);
                        assert(circ.is_command(root.0 as int));
                    }
                }
            }
            return None;
        }
        let mut binding: Vec<Option<Vertex>> = Vec::new();
        let mut i: usize = 0;
        while i < psize
            invariant
                binding@.len() == i,
                0 <= i <= psize,
                forall|j: int| 0 <= j < i ==> (#[trigger] binding@[j]) is None,
            decreases psize - i,
        {
            binding.push(None);
            i = i + 1;
        }
        binding.set(self.root.0, Some(root));
        proof {
            assert forall|j: int|
                0 <= j < psize implies ((#[trigger] binding@[j]) is Some <==> self.step_binds(
                0,
            ).contains(j)) by {}
        }
        let n_steps = self.edges.len();
        let mut k: usize = 0;
        while k < n_steps
            invariant
                n_steps == self.edges@.len(),
                psize == self.circuit.dag.nodes@.len(),
                self.pattern_wf(),
                binding@.len() == psize,
                circ.is_command(root.0 as int),
                binding@[self.root.0 as int] == Some(root),
                0 <= k <= n_steps,
                walk_invariant(*self, *circ, binding@, root, k as int),
            decreases n_steps - k,
        {
            let ok = self.match_step(circ, &mut binding, root, k);
            if !ok {
                return None;
            }
            k = k + 1;
        }
        proof {
            if circ.wf() {
                reveal(is_embedding);
                reveal(CircuitPattern::plan_reaches_all);
                self.lemma_step_binds_commands(n_steps as int);
                assert forall|m2: Seq<Option<Vertex>>|
                    #[trigger] embedding_rooted(*self, *circ, m2, root) implies m2
                    =~= binding@ by {
                    assert forall|j: int| 0 <= j < psize implies m2[j] == binding@[j] by {
                        if self.circuit.is_command(j) {
                            assert(self.step_binds(n_steps as int).contains(j));
                            assert(binding@[j] is Some);
                            assert(m2[j] == binding@[j]);
                        } else {
                            assert(binding@[j] is None);
                            assert(m2[j] is None);
                        }
                    }
                }
            }
        }
        // verify the pattern's boundary wiring: where a wire enters or
        // leaves the pattern, the matched host port must be wired to a
        // node outside the matched set, with the same port and type
        let pe_count = self.circuit.dag.edges.len();
        let mut e: usize = 0;
        while e < pe_count
            invariant
                pe_count == self.circuit.dag.edges@.len(),
                psize == self.circuit.dag.nodes@.len(),
                self.pattern_wf(),
                binding@.len() == psize,
                n_steps == self.edges@.len(),
                circ.is_command(root.0 as int),
                binding@[self.root.0 as int] == Some(root),
                walk_invariant(*self, *circ, binding@, root, n_steps as int),
                0 <= e <= pe_count,
                circ.wf() ==> forall|m2: Seq<Option<Vertex>>|
                    #[trigger] embedding_rooted(*self, *circ, m2, root) ==> m2 =~= binding@,
                forall|e2: int|
                    0 <= e2 < e && boundary_in_edge(self.circuit, e2)
                        ==> #[trigger] boundary_in_mapped(*self, *circ, binding@, e2),
                forall|e2: int|
                    0 <= e2 < e && boundary_out_edge(self.circuit, e2)
                        ==> #[trigger] boundary_out_mapped(*self, *circ, binding@, e2),
            decreases pe_count - e,
        {
            let (dsrc, dsport, dtgt, dtport, dwt, live) = match &self.circuit.dag.edges[e] {
                Some(dd) => (
                    dd.source,
                    dd.source_port,
                    dd.target,
                    dd.target_port,
                    dd.weight.edge_type,
                    true,
                ),
                None => (crate::graph::graph::NodeIndex(0), 0, crate::graph::graph::NodeIndex(0), 0, WireType::Qubit, false),
            };
            if live {
                let s_cmd = is_command_exec(&self.circuit, dsrc.0);
                let t_cmd = is_command_exec(&self.circuit, dtgt.0);
                if !s_cmd && t_cmd {
                    proof {
                        assert(self.circuit.dag.node_live(dtgt.0 as int));
                    }
                    let ht = match binding[dtgt.0] {
                        Some(h) => h,
                        None => {
                            proof {
                                reveal(CircuitPattern::plan_reaches_all);
                                assert(self.step_binds(n_steps as int).contains(dtgt.0 as int));
                                assert(false);
                            }
                            return None;
                        },
                    };
                    match circ.linked_port_to(ht, dtport) {
                        None => {
                            proof {
                                if circ.wf() {
                                    assert(!boundary_in_mapped(*self, *circ, binding@, e as int))
                                        by {
                                        if boundary_in_mapped(*self, *circ, binding@, e as int) {
                                            let he = choose|he: int|
                                                circ.dag.edge_live(he) && {
                                                    let pd = self.circuit.dag.edges@[
                                                        e as int
                                                    ]->Some_0;
                                                    let hd = (
                                                    #[trigger] circ.dag.edges@[he])->Some_0;
                                                    &&& hd.target == binding@[
                                                        pd.target.0 as int
                                                    ]->Some_0
                                                    &&& hd.target_port == pd.target_port
                                                    &&& hd.weight == pd.weight
                                                    &&& !image_has(binding@, hd.source.0 as int)
                                                };
                                            assert(circ.dag.edges@[he]->Some_0.target.0 == ht.0);
                                        }
                                    }
                                    lemma_boundary_in_mismatch(
                                        *self,
                                        *circ,
                                        binding@,
                                        root,
                                        e as int,
                                    );
                                }
                            }
                            return None;
                        },
                        Some(link) => {
                            if !(link.2 == dwt) || image_scan(&binding, link.0) {
                                proof {
                                    if circ.wf() {
                                        reveal(crate::circuit::circuit::ports_unique);
                                        assert(!boundary_in_mapped(
                                            *self,
                                            *circ,
                                            binding@,
                                            e as int,
                                        )) by {
                                            if boundary_in_mapped(
                                                *self,
                                                *circ,
                                                binding@,
                                                e as int,
                                            ) {
                                                let he = choose|he: int|
                                                    circ.dag.edge_live(he) && {
                                                        let pd = self.circuit.dag.edges@[
                                                            e as int
                                                        ]->Some_0;
                                                        let hd = (
                                                        #[trigger] circ.dag.edges@[he])->Some_0;
                                                        &&& hd.target == binding@[
                                                            pd.target.0 as int
                                                        ]->Some_0
                                                        &&& hd.target_port == pd.target_port
                                                        &&& hd.weight == pd.weight
                                                        &&& !image_has(
                                                            binding@,
                                                            hd.source.0 as int,
                                                        )
                                                    };
                                                let a = circ.dag.edges@[he]->Some_0;
                                                let b = circ.dag.edges@[link.3.0 as int]->Some_0;
                                                if he != link.3.0 as int {
                                                    assert(!(a.target == b.target && a.target_port
                                                        == b.target_port));
                                                }
                                                assert(he == link.3.0 as int);
                                            }
                                        }
                                        lemma_boundary_in_mismatch(
                                            *self,
                                            *circ,
                                            binding@,
                                            root,
                                            e as int,
                                        );
                                    }
                                }
                                return None;
                            }
                        },
                    }
                } else if s_cmd && !t_cmd {
                    proof {
                        assert(self.circuit.dag.node_live(dsrc.0 as int));
                    }
                    let hs = match binding[dsrc.0] {
                        Some(h) => h,
                        None => {
                            proof {
                                reveal(CircuitPattern::plan_reaches_all);
                                assert(self.step_binds(n_steps as int).contains(dsrc.0 as int));
                                assert(false);
                            }
                            return None;
                        },
                    };
                    match circ.linked_port_from(hs, dsport) {
                        None => {
                            proof {
                                if circ.wf() {
                                    assert(!boundary_out_mapped(*self, *circ, binding@, e as int))
                                        by {
                                        if boundary_out_mapped(*self, *circ, binding@, e as int) {
                                            let he = choose|he: int|
                                                circ.dag.edge_live(he) && {
                                                    let pd = self.circuit.dag.edges@[
                                                        e as int
                                                    ]->Some_0;
                                                    let hd = (
                                                    #[trigger] circ.dag.edges@[he])->Some_0;
                                                    &&& hd.source == binding@[
                                                        pd.source.0 as int
                                                    ]->Some_0
                                                    &&& hd.source_port == pd.source_port
                                                    &&& hd.weight == pd.weight
                                                    &&& !image_has(binding@, hd.target.0 as int)
                                                };
                                            assert(circ.dag.edges@[he]->Some_0.source.0 == hs.0);
                                        }
                                    }
                                    lemma_boundary_out_mismatch(
                                        *self,
                                        *circ,
                                        binding@,
                                        root,
                                        e as int,
                                    );
                                }
                            }
                            return None;
                        },
                        Some(link) => {
                            if !(link.2 == dwt) || image_scan(&binding, link.0) {
                                proof {
                                    if circ.wf() {
                                        reveal(crate::circuit::circuit::ports_unique);
                                        assert(!boundary_out_mapped(
                                            *self,
                                            *circ,
                                            binding@,
                                            e as int,
                                        )) by {
                                            if boundary_out_mapped(
                                                *self,
                                                *circ,
                                                binding@,
                                                e as int,
                                            ) {
                                                let he = choose|he: int|
                                                    circ.dag.edge_live(he) && {
                                                        let pd = self.circuit.dag.edges@[
                                                            e as int
                                                        ]->Some_0;
                                                        let hd = (
                                                        #[trigger] circ.dag.edges@[he])->Some_0;
                                                        &&& hd.source == binding@[
                                                            pd.source.0 as int
                                                        ]->Some_0
                                                        &&& hd.source_port == pd.source_port
                                                        &&& hd.weight == pd.weight
                                                        &&& !image_has(
                                                            binding@,
                                                            hd.target.0 as int,
                                                        )
                                                    };
                                                let a = circ.dag.edges@[he]->Some_0;
                                                let b = circ.dag.edges@[link.3.0 as int]->Some_0;
                                                if he != link.3.0 as int {
                                                    assert(!(a.source == b.source && a.source_port
                                                        == b.source_port));
                                                }
                                                assert(he == link.3.0 as int);
                                            }
                                        }
                                        lemma_boundary_out_mismatch(
                                            *self,
                                            *circ,
                                            binding@,
                                            root,
                                            e as int,
                                        );
                                    }
                                }
                                return None;
                            }
                        },
                    }
                }
            }
            e = e + 1;
        }
        proof {
            lemma_binding_is_embedding(*self, *circ, binding@);
        }
        Some(binding)
    }
}

/// When the unique match candidate fails an input-boundary check, no
/// rooted embedding exists.
proof fn lemma_boundary_in_mismatch(
    p: CircuitPattern,
    host: Circuit,
    binding: Seq<Option<Vertex>>,
    root: Vertex,
    e: int,
)
    requires
        forall|m2: Seq<Option<Vertex>>|
            #[trigger] embedding_rooted(p, host, m2, root) ==> m2 =~= binding,
        boundary_in_edge(p.circuit, e),
        !boundary_in_mapped(p, host, binding, e),
    ensures
        !exists|m: Seq<Option<Vertex>>| embedding_rooted(p, host, m, root),
{
    reveal(is_embedding);
    assert forall|m: Seq<Option<Vertex>>| !(#[trigger] embedding_rooted(p, host, m, root)) by {
        if embedding_rooted(p, host, m, root) {
            assert(m =~= binding);
            assert(m == binding);
            assert(boundary_in_mapped(p, host, m, e));
        }
    }
}

/// When the unique match candidate fails an output-boundary check, no
/// rooted embedding exists.
proof fn lemma_boundary_out_mismatch(
    p: CircuitPattern,
    host: Circuit,
    binding: Seq<Option<Vertex>>,
    root: Vertex,
    e: int,
)
    requires
        forall|m2: Seq<Option<Vertex>>|
            #[trigger] embedding_rooted(p, host, m2, root) ==> m2 =~= binding,
        boundary_out_edge(p.circuit, e),
        !boundary_out_mapped(p, host, binding, e),
    ensures
        !exists|m: Seq<Option<Vertex>>| embedding_rooted(p, host, m, root),
{
    reveal(is_embedding);
    assert forall|m: Seq<Option<Vertex>>| !(#[trigger] embedding_rooted(p, host, m, root)) by {
        if embedding_rooted(p, host, m, root) {
            assert(m =~= binding);
            assert(m == binding);
            assert(boundary_out_mapped(p, host, m, e));
        }
    }
}

/// Whether the host node appears in the image of the binding.
fn image_scan(binding: &Vec<Option<Vertex>>, h: Vertex) -> (r: bool)
    ensures
        r == image_has(binding@, h.0 as int),
{
    let mut j: usize = 0;
    while j < binding.len()
        invariant
            0 <= j <= binding@.len(),
            forall|jj: int|
                0 <= jj < j ==> !((#[trigger] binding@[jj]) is Some && binding@[jj]->Some_0.0
                    == h.0),
        decreases binding@.len() - j,
    {
        match &binding[j] {
            Some(b) => {
                if b.0 == h.0 {
                    proof {
                        assert(binding@[j as int] is Some && binding@[j as int]->Some_0.0
                            == h.0 as int);
                    }
                    return true;
                }
            },
            None => {},
        }
        j = j + 1;
    }
    false
}

} // verus!
