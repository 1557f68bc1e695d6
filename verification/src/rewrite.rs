//! Rewrites: replacing a convex subcircuit of a host with another
//! circuit, and strategies for applying sets of rewrites.

use vstd::prelude::*;
use crate::circuit::circuit::Circuit;
use crate::circuit::dag::Vertex;
use crate::graph::graph::NodeIndex;
use crate::portmatching::matcher::{PatternMatcher, Subcircuit};
use crate::portmatching::matcher::commands_connected;
use crate::portmatching::pattern::CircuitPattern;
use crate::portmatching::pattern::embedding_rooted;
use crate::portmatching::pattern::lemma_embedding_same_views;
use crate::portmatching::pattern::InvalidPattern;
use crate::portmatching::matcher::image_set;
use crate::portmatching::convex::{node_set, spec_is_convex};

verus! {

/// Why a rewrite could not be applied.
#[derive(Clone, Copy, PartialEq, Eq, Structural, Debug)]
pub enum RewriteError {
    /// The replacement's boundary does not fit the subcircuit's.
    InvalidReplacement,
}

/// A rewrite: a subcircuit of the host to remove and a replacement
/// circuit to splice into its place. Applying it builds a fresh host;
/// the original is never mutated.
#[derive(Clone, Debug)]
pub struct CircuitRewrite {
    pub subcircuit: Subcircuit,
    pub replacement: Circuit,
}

/// Whether some listed vertex names node slot `i`.
pub open spec fn listed(nodes: Seq<Vertex>, i: int) -> bool {
    exists|k: int| 0 <= k < nodes.len() && (#[trigger] nodes[k]).0 == i
}

/// Wire `w` of `repl` runs straight from the input marker to the
/// output marker.
pub open spec fn identity_wire(repl: Circuit, w: int) -> bool {
    exists|e: int|
        repl.dag.edge_live(e) && (#[trigger] repl.dag.edges@[e])->Some_0.source.0 == repl.input.0
            && repl.dag.edges@[e]->Some_0.source_port == w
            && repl.dag.edges@[e]->Some_0.target.0 == repl.output.0
}

/// The easily decided case in which a rewrite must apply: the
/// replacement's wires all run straight from its input marker to its
/// output marker (an identity replacement, as when a gate pair
/// cancels), the host is well formed, and each wire of the subcircuit
/// has a live neighbour outside the matched nodes on both sides.
pub open spec fn identity_applicable(rw: CircuitRewrite, host: Circuit) -> bool {
    let repl = rw.replacement;
    &&& host.wf()
    &&& crate::circuit::circuit::ports_unique(repl.dag)
    &&& repl.n_wires <= rw.subcircuit.inputs@.len()
    &&& repl.n_wires <= rw.subcircuit.outputs@.len()
    &&& forall|w: int| 0 <= w < repl.n_wires ==> (#[trigger] rw.subcircuit.inputs@[w])@.len() > 0
    &&& forall|w: int|
        0 <= w < repl.n_wires ==> exists|e: int|
            host.dag.edge_live(e) && (#[trigger] host.dag.edges@[e])->Some_0.target.0
                == (#[trigger] rw.subcircuit.inputs@[w])@[0].0.0
                && host.dag.edges@[e]->Some_0.target_port == rw.subcircuit.inputs@[w]@[0].1
                && host.dag.node_live(host.dag.edges@[e]->Some_0.source.0 as int) && !listed(
                rw.subcircuit.nodes@,
                host.dag.edges@[e]->Some_0.source.0 as int,
            )
    &&& forall|w: int|
        0 <= w < repl.n_wires ==> exists|e: int|
            host.dag.edge_live(e) && (#[trigger] host.dag.edges@[e])->Some_0.source.0
                == (#[trigger] rw.subcircuit.outputs@[w]).0.0
                && host.dag.edges@[e]->Some_0.source_port == rw.subcircuit.outputs@[w].1
                && host.dag.node_live(host.dag.edges@[e]->Some_0.target.0 as int) && !listed(
                rw.subcircuit.nodes@,
                host.dag.edges@[e]->Some_0.target.0 as int,
            )
    &&& forall|w: int| 0 <= w < repl.n_wires ==> identity_wire(repl, w)
}

/// What `apply` promises of a produced circuit: the host's wire counts
/// and boundary markers are kept, the matched nodes are cleared to
/// holes, every other host slot keeps its contents, and the slab only
/// grows.
pub open spec fn successor_of(sc: Circuit, rw: CircuitRewrite, host: Circuit) -> bool {
    &&& sc.n_qubits == host.n_qubits
    &&& sc.n_wires == host.n_wires
    &&& sc.input == host.input
    &&& sc.output == host.output
    &&& sc.dag.nodes@.len() >= host.dag.nodes@.len()
    &&& forall|x: int|
        0 <= x < host.dag.nodes@.len() && !listed(rw.subcircuit.nodes@, x) ==> sc.dag.nodes@[x]
            == host.dag.nodes@[x]
    &&& forall|x: int|
        0 <= x < host.dag.nodes@.len() && listed(rw.subcircuit.nodes@, x)
            ==> sc.dag.nodes@[x] is None
}

impl CircuitRewrite {
    /// Apply the rewrite to a host, producing a new circuit.
    ///
    /// On success the matched nodes are cleared to holes, every other
    /// host node keeps its slot, and the replacement's commands are
    /// appended. An identity replacement with a fitting boundary always
    /// succeeds.
    pub fn apply(&self, host: &Circuit) -> (r: Result<Circuit, RewriteError>)
        ensures
            r is Ok ==> successor_of(r->Ok_0, *self, *host),
            identity_applicable(*self, *host) ==> r is Ok,
    {
        proof {
            reveal(crate::circuit::circuit::ports_unique);
        }
        let mut new_host = host.duplicate();
        let repl = &self.replacement;
        // capture the host-side endpoints around the subcircuit per wire
        let n_wires = repl.n_wires;
        if self.subcircuit.inputs.len() < n_wires || self.subcircuit.outputs.len() < n_wires {
            return Err(RewriteError::InvalidReplacement);
        }
        let mut preds: Vec<(Vertex, usize)> = Vec::new();
        let mut succs: Vec<(Vertex, usize)> = Vec::new();
        let mut w: usize = 0;
        while w < n_wires
            invariant
                preds@.len() == w,
                succs@.len() == w,
                0 <= w <= n_wires,
                n_wires == self.replacement.n_wires,
                n_wires <= self.subcircuit.inputs@.len(),
                n_wires <= self.subcircuit.outputs@.len(),
                identity_applicable(*self, *host) ==> forall|w2: int|
                    0 <= w2 < w ==> host.dag.node_live((#[trigger] preds@[w2]).0.0 as int)
                        && !listed(self.subcircuit.nodes@, preds@[w2].0.0 as int),
                identity_applicable(*self, *host) ==> forall|w2: int|
                    0 <= w2 < w ==> host.dag.node_live((#[trigger] succs@[w2]).0.0 as int)
                        && !listed(self.subcircuit.nodes@, succs@[w2].0.0 as int),
            decreases n_wires - w,
        {
            let group = &self.subcircuit.inputs[w];
            if group.len() == 0 {
                return Err(RewriteError::InvalidReplacement);
            }
            let (inode, iport) = group[0];
            match host.linked_port_to(inode, iport) {
                Some(link) => {
                    proof {
                        reveal(crate::circuit::circuit::ports_unique);
                        if identity_applicable(*self, *host) {
                            let e2 = choose|e: int|
                                host.dag.edge_live(e) && (
                                #[trigger] host.dag.edges@[e])->Some_0.target.0
                                    == self.subcircuit.inputs@[w as int]@[0].0.0
                                    && host.dag.edges@[e]->Some_0.target_port
                                    == self.subcircuit.inputs@[w as int]@[0].1
                                    && host.dag.node_live(
                                    host.dag.edges@[e]->Some_0.source.0 as int,
                                ) && !listed(
                                    self.subcircuit.nodes@,
                                    host.dag.edges@[e]->Some_0.source.0 as int,
                                );
                            assert(e2 == link.3.0 as int);
                        }
                    }
                    preds.push((link.0, link.1));
                },
                None => {
                    proof {
                        if identity_applicable(*self, *host) {
                            assert(false);
                        }
                    }
                    return Err(RewriteError::InvalidReplacement);
                },
            }
            let (onode, oport) = self.subcircuit.outputs[w];
            match host.linked_port_from(onode, oport) {
                Some(link) => {
                    proof {
                        reveal(crate::circuit::circuit::ports_unique);
                        if identity_applicable(*self, *host) {
                            let e2 = choose|e: int|
                                host.dag.edge_live(e) && (
                                #[trigger] host.dag.edges@[e])->Some_0.source.0
                                    == self.subcircuit.outputs@[w as int].0.0
                                    && host.dag.edges@[e]->Some_0.source_port
                                    == self.subcircuit.outputs@[w as int].1
                                    && host.dag.node_live(
                                    host.dag.edges@[e]->Some_0.target.0 as int,
                                ) && !listed(
                                    self.subcircuit.nodes@,
                                    host.dag.edges@[e]->Some_0.target.0 as int,
                                );
                            assert(e2 == link.3.0 as int);
                        }
                    }
                    succs.push((link.0, link.1));
                },
                None => {
                    proof {
                        if identity_applicable(*self, *host) {
                            assert(false);
                        }
                    }
                    return Err(RewriteError::InvalidReplacement);
                },
            }
            w = w + 1;
        }
        // remove the matched nodes (and with them the boundary edges)
        let mut k: usize = 0;
        while k < self.subcircuit.nodes.len()
            invariant
                new_host.n_qubits == host.n_qubits,
                new_host.n_wires == host.n_wires,
                new_host.input == host.input,
                new_host.output == host.output,
                new_host.dag.nodes@.len() == host.dag.nodes@.len(),
                0 <= k <= self.subcircuit.nodes@.len(),
                forall|i: int|
                    0 <= i < host.dag.nodes@.len() && !listed(
                        self.subcircuit.nodes@.take(k as int),
                        i,
                    ) ==> new_host.dag.nodes@[i] == host.dag.nodes@[i],
                forall|i: int|
                    0 <= i < host.dag.nodes@.len() && listed(
                        self.subcircuit.nodes@.take(k as int),
                        i,
                    ) ==> new_host.dag.nodes@[i] is None,
            decreases self.subcircuit.nodes@.len() - k,
        {
            let v = self.subcircuit.nodes[k];
            let ghost pre_nodes = new_host.dag.nodes@;
            new_host.dag.remove_node(v);
            proof {
                assert forall|i: int|
                    0 <= i < host.dag.nodes@.len() && listed(
                        self.subcircuit.nodes@.take(k as int + 1),
                        i,
                    ) implies new_host.dag.nodes@[i] is None by {
                    let kk = choose|kk: int|
                        0 <= kk < self.subcircuit.nodes@.take(k as int + 1).len() && (
                        #[trigger] self.subcircuit.nodes@.take(k as int + 1)[kk]).0 == i;
                    if kk < k as int {
                        assert(listed(self.subcircuit.nodes@.take(k as int), i)) by {
                            assert(self.subcircuit.nodes@.take(k as int)[kk].0 == i);
                        }
                        assert(pre_nodes[i] is None);
                    } else {
                        assert(i == v.0 as int);
                    }
                }
                assert forall|i: int|
                    0 <= i < host.dag.nodes@.len() && !listed(
                        self.subcircuit.nodes@.take(k as int + 1),
                        i,
                    ) implies new_host.dag.nodes@[i] == host.dag.nodes@[i] by {
                    assert(!listed(self.subcircuit.nodes@.take(k as int), i)) by {
                        if listed(self.subcircuit.nodes@.take(k as int), i) {
                            let kk = choose|kk: int|
                                0 <= kk < self.subcircuit.nodes@.take(k as int).len() && (
                                #[trigger] self.subcircuit.nodes@.take(k as int)[kk]).0 == i;
                            assert(self.subcircuit.nodes@.take(k as int + 1)[kk].0 == i);
                        }
                    }
                    assert(i != v.0 as int) by {
                        if i == v.0 as int {
                            assert(self.subcircuit.nodes@.take(k as int + 1)[k as int].0 == i);
                        }
                    }
                }
            }
            k = k + 1;
        }
        proof {
            assert(self.subcircuit.nodes@.take(self.subcircuit.nodes@.len() as int)
                =~= self.subcircuit.nodes@);
        }
        // splice the replacement in, wire by wire
        let mut node_map: Vec<Option<NodeIndex>> = Vec::new();
        let mut i: usize = 0;
        let repl_slots = repl.dag.nodes.len();
        while i < repl_slots
            invariant
                node_map@.len() == i,
                0 <= i <= repl_slots,
            decreases repl_slots - i,
        {
            node_map.push(None);
            i = i + 1;
        }
        let mut w: usize = 0;
        while w < n_wires
            invariant
                new_host.n_qubits == host.n_qubits,
                new_host.n_wires == host.n_wires,
                new_host.input == host.input,
                new_host.output == host.output,
                node_map@.len() == repl_slots,
                repl_slots == self.replacement.dag.nodes@.len(),
                n_wires == self.replacement.n_wires,
                preds@.len() == n_wires,
                succs@.len() == n_wires,
                0 <= w <= n_wires,
                new_host.dag.nodes@.len() >= host.dag.nodes@.len(),
                forall|i: int|
                    0 <= i < host.dag.nodes@.len() && !listed(self.subcircuit.nodes@, i)
                        ==> new_host.dag.nodes@[i] == host.dag.nodes@[i],
                forall|i: int|
                    0 <= i < host.dag.nodes@.len() && listed(self.subcircuit.nodes@, i)
                        ==> new_host.dag.nodes@[i] is None,
                identity_applicable(*self, *host) ==> forall|w2: int|
                    0 <= w2 < n_wires ==> host.dag.node_live((#[trigger] preds@[w2]).0.0 as int)
                        && !listed(self.subcircuit.nodes@, preds@[w2].0.0 as int),
                identity_applicable(*self, *host) ==> forall|w2: int|
                    0 <= w2 < n_wires ==> host.dag.node_live((#[trigger] succs@[w2]).0.0 as int)
                        && !listed(self.subcircuit.nodes@, succs@[w2].0.0 as int),
            decreases n_wires - w,
        {
            let (mut cur_node, mut cur_port) = preds[w];
            // walk the replacement's wire w, copying nodes into the host
            let n_repl_edges = self.replacement.dag.edges.len();
            let mut fuel = if n_repl_edges < usize::MAX {
                n_repl_edges + 1
            } else {
                n_repl_edges
            };
            let mut rn = self.replacement.input;
            let mut rp = w;
            let mut done = false;
            while fuel > 0 && !done
                invariant
                    new_host.n_qubits == host.n_qubits,
                    new_host.n_wires == host.n_wires,
                    new_host.input == host.input,
                    new_host.output == host.output,
                    node_map@.len() == repl_slots,
                    repl_slots == self.replacement.dag.nodes@.len(),
                    n_wires == self.replacement.n_wires,
                    preds@.len() == n_wires,
                    succs@.len() == n_wires,
                    w < n_wires,
                    new_host.dag.nodes@.len() >= host.dag.nodes@.len(),
                    forall|i: int|
                        0 <= i < host.dag.nodes@.len() && !listed(self.subcircuit.nodes@, i)
                            ==> new_host.dag.nodes@[i] == host.dag.nodes@[i],
                    forall|i: int|
                        0 <= i < host.dag.nodes@.len() && listed(self.subcircuit.nodes@, i)
                            ==> new_host.dag.nodes@[i] is None,
                    identity_applicable(*self, *host) ==> forall|w2: int|
                        0 <= w2 < n_wires ==> host.dag.node_live(
                            (#[trigger] preds@[w2]).0.0 as int,
                        ) && !listed(self.subcircuit.nodes@, preds@[w2].0.0 as int),
                    identity_applicable(*self, *host) ==> forall|w2: int|
                        0 <= w2 < n_wires ==> host.dag.node_live(
                            (#[trigger] succs@[w2]).0.0 as int,
                        ) && !listed(self.subcircuit.nodes@, succs@[w2].0.0 as int),
                    identity_applicable(*self, *host) && !done ==> rn == self.replacement.input
                        && rp == w && fuel >= 1 && cur_node == preds@[w as int].0 && cur_port
                        == preds@[w as int].1,
                decreases fuel,
            {
                fuel = fuel - 1;
                match self.replacement.linked_port_from(rn, rp) {
                    None => {
                        proof {
                            if identity_applicable(*self, *host) {
                                assert(identity_wire(self.replacement, w as int));
                                assert(false);
                            }
                        }
                        return Err(RewriteError::InvalidReplacement);
                    },
                    Some(link) => {
                        let (next, next_port, wire_type, _e) = link;
                        proof {
                            reveal(crate::circuit::circuit::ports_unique);
                            if identity_applicable(*self, *host) {
                                assert(identity_wire(self.replacement, w as int));
                                let e2 = choose|e: int|
                                    self.replacement.dag.edge_live(e) && (
                                    #[trigger] self.replacement.dag.edges@[e])->Some_0.source.0
                                        == self.replacement.input.0
                                        && self.replacement.dag.edges@[e]->Some_0.source_port
                                        == w as int && self.replacement.dag.edges@[e]->Some_0.target.0
                                        == self.replacement.output.0;
                                assert(e2 == link.3.0 as int);
                                assert(next.0 == self.replacement.output.0);
                            }
                        }
                        if next.0 == self.replacement.output.0 {
                            // close the wire back into the host
                            let (tn, tp) = succs[w];
                            if new_host.dag.node_weight(cur_node).is_none()
                                || new_host.dag.node_weight(tn).is_none() {
                                proof {
                                    if identity_applicable(*self, *host) {
                                        assert(false);
                                    }
                                }
                                return Err(RewriteError::InvalidReplacement);
                            }
                            new_host.dag.add_edge(
                                (cur_node, cur_port),
                                (tn, tp),
                                crate::circuit::dag::EdgeProperties { edge_type: wire_type },
                            );
                            done = true;
                        } else {
                            // copy the replacement command if not yet copied
                            if next.0 >= repl_slots || next.0 >= node_map.len() {
                                return Err(RewriteError::InvalidReplacement);
                            }
                            let mapped = match node_map[next.0] {
                                Some(mv) => mv,
                                None => {
                                    let op = match self.replacement.op_at(next) {
                                        Some(op) => op,
                                        None => {
                                            return Err(RewriteError::InvalidReplacement);
                                        },
                                    };
                                    let mv = new_host.dag.add_node(
                                        crate::circuit::dag::VertexProperties { op },
                                    );
                                    node_map.set(next.0, Some(mv));
                                    mv
                                },
                            };
                            if new_host.dag.node_weight(cur_node).is_none()
                                || new_host.dag.node_weight(mapped).is_none() {
                                return Err(RewriteError::InvalidReplacement);
                            }
                            new_host.dag.add_edge(
                                (cur_node, cur_port),
                                (mapped, next_port),
                                crate::circuit::dag::EdgeProperties { edge_type: wire_type },
                            );
                            cur_node = mapped;
                            cur_port = next_port;
                            rn = next;
                            rp = next_port;
                        }
                    },
                }
            }
            if !done {
                proof {
                    if identity_applicable(*self, *host) {
                        assert(false);
                    }
                }
                return Err(RewriteError::InvalidReplacement);
            }
            w = w + 1;
        }
        Ok(new_host)
    }
}

/// A source of rewrites for a circuit.
pub trait Rewriter {
    fn get_rewrites(&self, circ: &Circuit) -> Vec<CircuitRewrite>;
}

/// A policy for turning a set of rewrites into successor circuits.
pub trait RewriteStrategy {
    fn apply_rewrites(&self, rewrites: Vec<CircuitRewrite>, circ: &Circuit) -> Vec<Circuit>;
}

/// The exhaustive strategy: apply each rewrite to a fresh copy of the
/// host, yielding one successor per applicable rewrite.
#[derive(Clone, Copy, Debug)]
pub struct ExhaustiveRewriteStrategy;

impl ExhaustiveRewriteStrategy {
    /// Apply each rewrite to a fresh copy of the host.
    ///
    /// Every successor keeps the host's wire counts and boundary
    /// markers.
    /// Every successor keeps the host's wire counts and boundary
    /// markers; and every rewrite that is sure to apply — an identity
    /// replacement with a fitting boundary — contributes a successor
    /// carrying `apply`'s guarantees for it.
    pub fn apply_all(&self, rewrites: Vec<CircuitRewrite>, circ: &Circuit) -> (r: Vec<Circuit>)
        ensures
            forall|i: int|
                0 <= i < r@.len() ==> {
                    let sc = #[trigger] r@[i];
                    &&& sc.n_qubits == circ.n_qubits
                    &&& sc.n_wires == circ.n_wires
                    &&& sc.input == circ.input
                    &&& sc.output == circ.output
                },
            forall|j: int|
                0 <= j < rewrites@.len() && identity_applicable(#[trigger] rewrites@[j], *circ)
                    ==> exists|i: int|
                    0 <= i < r@.len() && successor_of(#[trigger] r@[i], rewrites@[j], *circ),
    {
        let mut out: Vec<Circuit> = Vec::new();
        let mut i: usize = 0;
        while i < rewrites.len()
            invariant
                0 <= i <= rewrites@.len(),
                forall|k: int|
                    0 <= k < out@.len() ==> {
                        let sc = #[trigger] out@[k];
                        &&& sc.n_qubits == circ.n_qubits
                        &&& sc.n_wires == circ.n_wires
                        &&& sc.input == circ.input
                        &&& sc.output == circ.output
                    },
                forall|j: int|
                    0 <= j < i && identity_applicable(#[trigger] rewrites@[j], *circ)
                        ==> exists|k: int|
                        0 <= k < out@.len() && successor_of(#[trigger] out@[k], rewrites@[j], *circ),
            decreases rewrites@.len() - i,
        {
            let ghost pre_out = out@;
            match rewrites[i].apply(circ) {
                Ok(new_circ) => out.push(new_circ),
                Err(_) => {},
            }
            proof {
                assert forall|j: int|
                    0 <= j < i + 1 && identity_applicable(#[trigger] rewrites@[j], *circ) implies
                    exists|k: int|
                    0 <= k < out@.len() && successor_of(
                        #[trigger] out@[k],
                        rewrites@[j],
                        *circ,
                    ) by {
                    if j == i as int {
                        assert(successor_of(out@[out@.len() - 1], rewrites@[j], *circ));
                    } else {
                        let k = choose|k: int|
                            0 <= k < pre_out.len() && successor_of(
                                #[trigger] pre_out[k],
                                rewrites@[j],
                                *circ,
                            );
                        assert(successor_of(out@[k], rewrites@[j], *circ));
                    }
                }
            }
            i = i + 1;
        }
        out
    }
}

impl RewriteStrategy for ExhaustiveRewriteStrategy {
    fn apply_rewrites(&self, rewrites: Vec<CircuitRewrite>, circ: &Circuit) -> Vec<Circuit> {
        self.apply_all(rewrites, circ)
    }
}

/// An equivalence class of circuits: a representative and the other
/// members, all computing the same transformation.
#[derive(Clone, Debug)]
pub struct EqCircClass {
    pub rep_circ: Circuit,
    pub other_circs: Vec<Circuit>,
}

/// The rewrite's replacement has the contents of one of `targets`.
pub open spec fn replacement_from_targets(rw: CircuitRewrite, targets: Seq<Circuit>) -> bool {
    exists|t: int|
        0 <= t < targets.len() && rw.replacement.dag.nodes@ == (#[trigger] targets[t]).dag.nodes@
            && rw.replacement.dag.edges@ == targets[t].dag.edges@
}

/// A circuit that compiles into a pattern: well formed, with at least
/// one command, and with all its commands connected.
pub open spec fn compilable(c: Circuit) -> bool {
    &&& c.wf()
    &&& c.commands_spec_len() != 0
    &&& commands_connected(c)
}

/// The source circuit has the same contents as the original member.
pub open spec fn source_matches(src: Circuit, orig: Circuit) -> bool {
    src.dag.nodes@ == orig.dag.nodes@ && src.dag.edges@ == orig.dag.edges@
}

/// The source has the contents of some circuit in the pool.
pub open spec fn source_from(src: Circuit, pool: Seq<Circuit>) -> bool {
    exists|f: int| 0 <= f < pool.len() && source_matches(src, #[trigger] pool[f])
}

/// Rule entries name the contiguous target block starting at `b`,
/// skipping slot `k`, which holds the rule's own source.
pub open spec fn rule_block(
    src: Circuit,
    rule: Seq<usize>,
    targets: Seq<Circuit>,
    b: int,
    k: int,
) -> bool {
    &&& 0 <= b
    &&& b + rule.len() + 1 <= targets.len()
    &&& 0 <= k <= rule.len()
    &&& source_matches(src, targets[b + k])
    &&& forall|j: int|
        0 <= j < rule.len() ==> (#[trigger] rule[j]) as int == b + (if j < k {
            j
        } else {
            j + 1
        })
}

/// The rule replaces its source with the other members of a contiguous
/// block of targets that holds the source itself.
pub open spec fn rule_shape(src: Circuit, rule: Seq<usize>, targets: Seq<Circuit>) -> bool {
    exists|b: int, k: int| #[trigger] rule_block(src, rule, targets, b, k)
}

/// The rewrite cuts out the convex image of a rooted embedding, in
/// `host`, of a pattern compiled from one of `sources`.
pub open spec fn rewrite_from_sources(
    rw: CircuitRewrite,
    sources: Seq<Circuit>,
    host: Circuit,
) -> bool {
    exists|pi: int, p: CircuitPattern, m: Seq<Option<Vertex>>, rt: Vertex|
        #![trigger embedding_rooted(p, host, m, rt), sources[pi]]
        0 <= pi < sources.len() && p.pattern_wf() && source_matches(p.circuit, sources[pi])
            && embedding_rooted(p, host, m, rt) && node_set(rw.subcircuit.nodes@) =~= image_set(m)
            && spec_is_convex(host, image_set(m))
}

/// The members of one class: the representative, then the others.
pub open spec fn class_members(class: EqCircClass) -> Seq<Circuit> {
    seq![class.rep_circ] + class.other_circs@
}

/// All members of the first `n` classes, flattened in order.
pub open spec fn flat_members(eccs: Seq<EqCircClass>, n: int) -> Seq<Circuit>
    decreases n,
{
    if n <= 0 {
        Seq::empty()
    } else {
        flat_members(eccs, n - 1) + class_members(eccs[n - 1])
    }
}

/// A rewriter built from equivalence classes: every member of a class is
/// a pattern, and a match of one member can be replaced by any other
/// member of its class.
#[derive(Clone, Debug)]
pub struct ECCRewriter {
    /// The source circuits of the patterns, in pattern ID order.
    pub pattern_sources: Vec<Circuit>,
    /// For pattern `i`, the indices into `targets` of its replacements.
    pub rewrite_rules: Vec<Vec<usize>>,
    pub targets: Vec<Circuit>,
}

/// Why a rewriter could not be built from a set of classes.
#[derive(Clone, Copy, PartialEq, Eq, Structural, Debug)]
pub enum RewriterError {
    /// A class is too large to index on this machine.
    ClassTooLarge,
}

impl ECCRewriter {
    /// Build a rewriter from equivalence classes.
    ///
    /// The targets are exactly the members of every class, flattened in
    /// order; each member that compiles into a pattern becomes a
    /// pattern source, paired with a rule naming valid target indices.
    pub fn from_eccs(eccs: Vec<EqCircClass>) -> (r: Result<ECCRewriter, RewriterError>)
        ensures
            match r {
                Ok(rw) => {
                    &&& rw.targets@.len() == flat_members(eccs@, eccs@.len() as int).len()
                    &&& forall|i: int|
                        0 <= i < rw.targets@.len() ==> (#[trigger] rw.targets@[i]).dag.nodes@
                            == flat_members(eccs@, eccs@.len() as int)[i].dag.nodes@
                            && rw.targets@[i].dag.edges@ == flat_members(
                            eccs@,
                            eccs@.len() as int,
                        )[i].dag.edges@
                    &&& rw.rewrite_rules@.len() == rw.pattern_sources@.len()
                    &&& forall|i: int, j: int|
                        0 <= i < rw.rewrite_rules@.len() && 0 <= j < rw.rewrite_rules@[i]@.len()
                            ==> #[trigger] rw.rewrite_rules@[i]@[j] < rw.targets@.len()
                    // each rule names its source's whole target block, less
                    // the source's own slot
                    &&& forall|i: int|
                        0 <= i < rw.rewrite_rules@.len() ==> rule_shape(
                            rw.pattern_sources@[i],
                            (#[trigger] rw.rewrite_rules@[i])@,
                            rw.targets@,
                        )
                    // every stored source has the contents of some member
                    &&& forall|i: int|
                        0 <= i < rw.pattern_sources@.len() ==> source_from(
                            #[trigger] rw.pattern_sources@[i],
                            flat_members(eccs@, eccs@.len() as int),
                        )
                    // every member that compiles into a pattern — well
                    // formed, nonempty, connected — yields a source
                    &&& forall|f: int|
                        0 <= f < flat_members(eccs@, eccs@.len() as int).len() && compilable(
                            #[trigger] flat_members(eccs@, eccs@.len() as int)[f],
                        ) ==> exists|i: int|
                            0 <= i < rw.pattern_sources@.len() && #[trigger] source_matches(
                                rw.pattern_sources@[i],
                                flat_members(eccs@, eccs@.len() as int)[f],
                            )
                },
                Err(_) => true,
            },
    {
        let mut pattern_sources: Vec<Circuit> = Vec::new();
        let mut rewrite_rules: Vec<Vec<usize>> = Vec::new();
        let mut targets: Vec<Circuit> = Vec::new();
        let mut c: usize = 0;
        while c < eccs.len()
            invariant
                0 <= c <= eccs@.len(),
                targets@.len() == flat_members(eccs@, c as int).len(),
                forall|i: int|
                    0 <= i < targets@.len() ==> (#[trigger] targets@[i]).dag.nodes@ == flat_members(
                        eccs@,
                        c as int,
                    )[i].dag.nodes@ && targets@[i].dag.edges@ == flat_members(
                        eccs@,
                        c as int,
                    )[i].dag.edges@,
                rewrite_rules@.len() == pattern_sources@.len(),
                forall|i: int, j: int|
                    0 <= i < rewrite_rules@.len() && 0 <= j < rewrite_rules@[i]@.len()
                        ==> #[trigger] rewrite_rules@[i]@[j] < targets@.len(),
                forall|f: int|
                    0 <= f < flat_members(eccs@, c as int).len() && compilable(
                        #[trigger] flat_members(eccs@, c as int)[f],
                    ) ==> exists|i: int|
                        0 <= i < pattern_sources@.len() && #[trigger] source_matches(
                            pattern_sources@[i],
                            flat_members(eccs@, c as int)[f],
                        ),
                forall|i: int|
                    0 <= i < pattern_sources@.len() ==> source_from(
                        #[trigger] pattern_sources@[i],
                        flat_members(eccs@, c as int),
                    ),
                forall|i: int|
                    0 <= i < rewrite_rules@.len() ==> rule_shape(
                        pattern_sources@[i],
                        (#[trigger] rewrite_rules@[i])@,
                        targets@,
                    ),
            decreases eccs@.len() - c,
        {
            let class = &eccs[c];
            let n_others = class.other_circs.len();
            if n_others == usize::MAX {
                return Err(RewriterError::ClassTooLarge);
            }
            let n_members = n_others + 1;
            // collect the member circuits
            let mut members: Vec<&Circuit> = Vec::new();
            members.push(&class.rep_circ);
            let mut m: usize = 0;
            while m < class.other_circs.len()
                invariant
                    members@.len() == m + 1,
                    0 <= m <= class.other_circs@.len(),
                    class == &eccs@[c as int],
                    forall|k: int|
                        0 <= k < members@.len() ==> *(#[trigger] members@[k]) == class_members(
                            eccs@[c as int],
                        )[k],
                decreases class.other_circs@.len() - m,
            {
                members.push(&class.other_circs[m]);
                m = m + 1;
            }
            proof {
                assert(members@.len() == class_members(eccs@[c as int]).len());
            }
            // record targets for this class
            let ghost pre_targets = targets@;
            let base = targets.len();
            let mut m: usize = 0;
            while m < members.len()
                invariant
                    0 <= m <= members@.len(),
                    members@.len() == n_members,
                    n_members == class_members(eccs@[c as int]).len(),
                    forall|k: int|
                        0 <= k < members@.len() ==> *(#[trigger] members@[k]) == class_members(
                            eccs@[c as int],
                        )[k],
                    base == pre_targets.len(),
                    targets@.len() == pre_targets.len() + m,
                    forall|i: int| 0 <= i < pre_targets.len() ==> targets@[i] == pre_targets[i],
                    forall|i: int|
                        0 <= i < m ==> (#[trigger] targets@[base + i]).dag.nodes@ == class_members(
                            eccs@[c as int],
                        )[i].dag.nodes@ && targets@[base + i].dag.edges@ == class_members(
                            eccs@[c as int],
                        )[i].dag.edges@,
                decreases members@.len() - m,
            {
                targets.push(members[m].duplicate());
                m = m + 1;
            }
            // each member is a pattern; its replacements are the others
            proof {
                let pool = flat_members(eccs@, c as int) + class_members(eccs@[c as int]);
                assert forall|i: int|
                    0 <= i < pattern_sources@.len() implies source_from(
                    #[trigger] pattern_sources@[i],
                    pool,
                ) by {
                    let f = choose|f: int|
                        0 <= f < flat_members(eccs@, c as int).len() && source_matches(
                            pattern_sources@[i],
                            #[trigger] flat_members(eccs@, c as int)[f],
                        );
                    assert(pool[f] == flat_members(eccs@, c as int)[f]);
                    assert(source_matches(pattern_sources@[i], pool[f]));
                }
                assert forall|i: int|
                    0 <= i < rewrite_rules@.len() implies rule_shape(
                    pattern_sources@[i],
                    (#[trigger] rewrite_rules@[i])@,
                    targets@,
                ) by {
                    let (b, k): (int, int) = choose|b: int, k: int|
                        #[trigger] rule_block(
                            pattern_sources@[i],
                            rewrite_rules@[i]@,
                            pre_targets,
                            b,
                            k,
                        );
                    assert(targets@[b + k] == pre_targets[b + k]);
                    assert(rule_block(pattern_sources@[i], rewrite_rules@[i]@, targets@, b, k));
                }
            }
            let targets_len = targets.len();
            let mut m: usize = 0;
            while m < members.len()
                invariant
                    0 <= m <= members@.len(),
                    members@.len() == n_members,
                    n_members == class_members(eccs@[c as int]).len(),
                    targets_len == targets@.len(),
                    base + n_members <= targets_len,
                    c < eccs@.len(),
                    forall|k: int|
                        0 <= k < members@.len() ==> *(#[trigger] members@[k]) == class_members(
                            eccs@[c as int],
                        )[k],
                    rewrite_rules@.len() == pattern_sources@.len(),
                    forall|i: int, j: int|
                        0 <= i < rewrite_rules@.len() && 0 <= j < rewrite_rules@[i]@.len()
                            ==> #[trigger] rewrite_rules@[i]@[j] < targets@.len(),
                    forall|f: int|
                        0 <= f < flat_members(eccs@, c as int).len() && compilable(
                            #[trigger] flat_members(eccs@, c as int)[f],
                        ) ==> exists|i: int|
                            0 <= i < pattern_sources@.len() && #[trigger] source_matches(
                                pattern_sources@[i],
                                flat_members(eccs@, c as int)[f],
                            ),
                    forall|k: int|
                        0 <= k < m && compilable(
                            #[trigger] class_members(eccs@[c as int])[k],
                        ) ==> exists|i: int|
                            0 <= i < pattern_sources@.len() && #[trigger] source_matches(
                                pattern_sources@[i],
                                class_members(eccs@[c as int])[k],
                            ),
                    forall|i: int|
                        0 <= i < pattern_sources@.len() ==> source_from(
                            #[trigger] pattern_sources@[i],
                            flat_members(eccs@, c as int) + class_members(eccs@[c as int]),
                        ),
                    forall|i: int|
                        0 <= i < n_members ==> (#[trigger] targets@[base + i]).dag.nodes@
                            == class_members(eccs@[c as int])[i].dag.nodes@ && targets@[base
                            + i].dag.edges@ == class_members(eccs@[c as int])[i].dag.edges@,
                    forall|i: int|
                        0 <= i < rewrite_rules@.len() ==> rule_shape(
                            pattern_sources@[i],
                            (#[trigger] rewrite_rules@[i])@,
                            targets@,
                        ),
                decreases members@.len() - m,
            {
                let ghost pre_sources = pattern_sources@;
                // members that cannot be patterns (an empty circuit, for
                // instance) still serve as replacement targets
                match CircuitPattern::try_from_circuit(members[m]) {
                    Ok(_) => {
                        pattern_sources.push(members[m].duplicate());
                        let mut rule: Vec<usize> = Vec::new();
                        let mut t: usize = 0;
                        while t < n_members
                            invariant
                                0 <= t <= n_members,
                                m < n_members,
                                targets_len == targets@.len(),
                                base + n_members <= targets_len,
                                forall|j: int|
                                    0 <= j < rule@.len() ==> (#[trigger] rule@[j])
                                        < targets@.len(),
                                rule@.len() == (if t <= m {
                                    t as int
                                } else {
                                    t - 1
                                }),
                                forall|j: int|
                                    0 <= j < rule@.len() ==> (#[trigger] rule@[j]) as int == base
                                        + (if j < m {
                                        j
                                    } else {
                                        j + 1
                                    }),
                            decreases n_members - t,
                        {
                            if t != m {
                                rule.push(base + t);
                            }
                            t = t + 1;
                        }
                        let ghost pre_rules = rewrite_rules@;
                        rewrite_rules.push(rule);
                        proof {
                            assert(source_matches(
                                pattern_sources@[pre_sources.len() as int],
                                class_members(eccs@[c as int])[m as int],
                            ));
                            assert(rule@.len() == n_members - 1);
                            assert(source_matches(
                                pattern_sources@[pre_sources.len() as int],
                                targets@[base + m],
                            ));
                            assert(rule_block(
                                pattern_sources@[pre_sources.len() as int],
                                rule@,
                                targets@,
                                base as int,
                                m as int,
                            ));
                            assert forall|i: int|
                                0 <= i < rewrite_rules@.len() implies rule_shape(
                                pattern_sources@[i],
                                (#[trigger] rewrite_rules@[i])@,
                                targets@,
                            ) by {
                                if i == pre_rules.len() as int {
                                    assert(rewrite_rules@[i]@ == rule@);
                                    assert(pattern_sources@[i] == pattern_sources@[pre_sources.len() as int]);
                                } else {
                                    let (b, k): (int, int) = choose|b: int, k: int|
                                        #[trigger] rule_block(
                                            pre_sources[i],
                                            pre_rules[i]@,
                                            targets@,
                                            b,
                                            k,
                                        );
                                    assert(rule_block(
                                        pattern_sources@[i],
                                        rewrite_rules@[i]@,
                                        targets@,
                                        b,
                                        k,
                                    ));
                                }
                            }
                            let pool = flat_members(eccs@, c as int) + class_members(
                                eccs@[c as int],
                            );
                            assert(pool[flat_members(eccs@, c as int).len() + m] == class_members(
                                eccs@[c as int],
                            )[m as int]);
                            assert(source_from(pattern_sources@[pre_sources.len() as int], pool));
                            assert forall|i: int|
                                0 <= i < pattern_sources@.len() implies source_from(
                                #[trigger] pattern_sources@[i],
                                pool,
                            ) by {
                                if i < pre_sources.len() {
                                    let f = choose|f: int|
                                        0 <= f < pool.len() && source_matches(
                                            pre_sources[i],
                                            #[trigger] pool[f],
                                        );
                                    assert(source_matches(pattern_sources@[i], pool[f]));
                                }
                            }
                            assert forall|k: int|
                                0 <= k < m + 1 && compilable(
                                    #[trigger] class_members(eccs@[c as int])[k],
                                ) implies exists|i: int|
                                0 <= i < pattern_sources@.len() && #[trigger] source_matches(
                                    pattern_sources@[i],
                                    class_members(eccs@[c as int])[k],
                                ) by {
                                if k == m as int {
                                } else {
                                    let i = choose|i: int|
                                        0 <= i < pre_sources.len() && #[trigger] source_matches(
                                            pre_sources[i],
                                            class_members(eccs@[c as int])[k],
                                        );
                                    assert(source_matches(
                                        pattern_sources@[i],
                                        class_members(eccs@[c as int])[k],
                                    ));
                                }
                            }
                            assert forall|f: int|
                                0 <= f < flat_members(eccs@, c as int).len() && compilable(
                                    #[trigger] flat_members(eccs@, c as int)[f],
                                ) implies exists|i: int|
                                0 <= i < pattern_sources@.len() && #[trigger] source_matches(
                                    pattern_sources@[i],
                                    flat_members(eccs@, c as int)[f],
                                ) by {
                                let i = choose|i: int|
                                    0 <= i < pre_sources.len() && #[trigger] source_matches(
                                        pre_sources[i],
                                        flat_members(eccs@, c as int)[f],
                                    );
                                assert(source_matches(
                                    pattern_sources@[i],
                                    flat_members(eccs@, c as int)[f],
                                ));
                            }
                        }
                    },
                    Err(e) => {
                        proof {
                            // a member that does not compile is not a
                            // compilable circuit
                            assert(!compilable(*members@[m as int]));
                            assert forall|k: int|
                                0 <= k < m + 1 && compilable(
                                    #[trigger] class_members(eccs@[c as int])[k],
                                ) implies exists|i: int|
                                0 <= i < pattern_sources@.len() && #[trigger] source_matches(
                                    pattern_sources@[i],
                                    class_members(eccs@[c as int])[k],
                                ) by {
                                if k == m as int {
                                    assert(!compilable(class_members(eccs@[c as int])[k]));
                                }
                            }
                        }
                    },
                }
                m = m + 1;
            }
            proof {
                let flat_next = flat_members(eccs@, c as int + 1);
                let flat_cur = flat_members(eccs@, c as int);
                let cls = class_members(eccs@[c as int]);
                assert(flat_next == flat_cur + cls);
                assert(forall|i: int|
                    0 <= i < pattern_sources@.len() ==> source_from(
                        #[trigger] pattern_sources@[i],
                        flat_next,
                    ));
                assert(targets@.len() == flat_next.len());
                assert forall|i: int|
                    0 <= i < targets@.len() implies (#[trigger] targets@[i]).dag.nodes@
                    == flat_next[i].dag.nodes@ && targets@[i].dag.edges@
                    == flat_next[i].dag.edges@ by {
                    if i < base {
                        assert(targets@[i] == pre_targets[i]);
                        assert(flat_next[i] == flat_cur[i]);
                    } else {
                        assert(flat_next[i] == cls[i - base]);
                        assert(targets@[base + (i - base)].dag.nodes@ == cls[i - base].dag.nodes@);
                    }
                }
                assert forall|f: int|
                    0 <= f < flat_next.len() && compilable(#[trigger] flat_next[f]) implies exists|
                    i: int,
                |
                    0 <= i < pattern_sources@.len() && #[trigger] source_matches(
                        pattern_sources@[i],
                        flat_next[f],
                    ) by {
                    if f < base {
                        assert(flat_next[f] == flat_cur[f]);
                        let i = choose|i: int|
                            0 <= i < pattern_sources@.len() && #[trigger] source_matches(
                                pattern_sources@[i],
                                flat_cur[f],
                            );
                        assert(source_matches(pattern_sources@[i], flat_next[f]));
                    } else {
                        assert(flat_next[f] == cls[f - base]);
                        let i = choose|i: int|
                            0 <= i < pattern_sources@.len() && #[trigger] source_matches(
                                pattern_sources@[i],
                                cls[f - base],
                            );
                        assert(source_matches(pattern_sources@[i], flat_next[f]));
                    }
                }
            }
            c = c + 1;
        }
        Ok(ECCRewriter { pattern_sources, rewrite_rules, targets })
    }

    /// The rewrites of all matches of all patterns in the host: for each
    /// match, one rewrite per replacement its rule names. Every returned
    /// rewrite's replacement is one of the stored targets, and every
    /// returned rewrite cuts out the convex image of a rooted embedding
    /// of a pattern compiled from one of the stored sources.
    pub fn rewrites_for(&self, circ: &Circuit) -> (r: Vec<CircuitRewrite>)
        ensures
            forall|i: int|
                0 <= i < r@.len() ==> replacement_from_targets(#[trigger] r@[i], self.targets@),
            forall|i: int|
                0 <= i < r@.len() ==> rewrite_from_sources(
                    #[trigger] r@[i],
                    self.pattern_sources@,
                    *circ,
                ),
            // completeness: when every stored source compiles, each convex
            // rooted embedding of a pattern over a stored source, whose rule
            // names some stored target, is cut out by a returned rewrite
            (circ.wf() && (forall|k: int|
                0 <= k < self.pattern_sources@.len() ==> compilable(
                    #[trigger] self.pattern_sources@[k],
                ))) ==> forall|pi: int, p: CircuitPattern, m: Seq<Option<Vertex>>, rt: Vertex|
                #![trigger embedding_rooted(p, *circ, m, rt), self.pattern_sources@[pi]]
                0 <= pi < self.pattern_sources@.len() && p.pattern_wf() && source_matches(
                    p.circuit,
                    self.pattern_sources@[pi],
                ) && embedding_rooted(p, *circ, m, rt) && spec_is_convex(*circ, image_set(m)) && pi
                    < self.rewrite_rules@.len() && (exists|t: int|
                    0 <= t < self.rewrite_rules@[pi]@.len() && (
                    #[trigger] self.rewrite_rules@[pi]@[t]) < self.targets@.len()) ==> exists|
                    oi: int,
                |
                    0 <= oi < r@.len() && node_set((#[trigger] r@[oi]).subcircuit.nodes@)
                        =~= image_set(m),
    {
        let mut out: Vec<CircuitRewrite> = Vec::new();
        // recompile the patterns; compilation guarantees their validity
        let mut patterns: Vec<CircuitPattern> = Vec::new();
        let mut s: usize = 0;
        while s < self.pattern_sources.len()
            invariant
                out@.len() == 0,
                0 <= s <= self.pattern_sources@.len(),
                patterns@.len() == s,
                forall|i: int|
                    0 <= i < patterns@.len() ==> (#[trigger] patterns@[i]).pattern_wf(),
                forall|i: int|
                    0 <= i < patterns@.len() ==> source_matches(
                        (#[trigger] patterns@[i]).circuit,
                        self.pattern_sources@[i],
                    ),
            decreases self.pattern_sources@.len() - s,
        {
            match CircuitPattern::try_from_circuit(&self.pattern_sources[s]) {
                Ok(p) => patterns.push(p),
                Err(e) => {
                    proof {
                        let src = self.pattern_sources@[s as int];
                        if e == InvalidPattern::EmptyPattern {
                            assert(src.commands_spec_len() == 0);
                        } else {
                            assert(e == InvalidPattern::NotConnected);
                        }
                        assert(!compilable(src));
                    }
                    return out;
                },
            }
            s = s + 1;
        }
        let matcher = PatternMatcher::from_patterns(patterns);
        let matches = matcher.find_matches(circ);
        let mut i: usize = 0;
        while i < matches.len()
            invariant
                matcher.patterns@.len() == self.pattern_sources@.len(),
                forall|k: int|
                    0 <= k < matcher.patterns@.len() ==> (
                    #[trigger] matcher.patterns@[k]).pattern_wf() && source_matches(
                        matcher.patterns@[k].circuit,
                        self.pattern_sources@[k],
                    ),
                forall|k: int|
                    0 <= k < matches@.len() ==> {
                        let mt = #[trigger] matches@[k];
                        &&& mt.pattern.0 < matcher.patterns@.len()
                        &&& exists|m: Seq<Option<Vertex>>|
                            embedding_rooted(
                                matcher.patterns@[mt.pattern.0 as int],
                                *circ,
                                m,
                                mt.root,
                            ) && node_set(mt.position.nodes@) =~= image_set(m)
                        &&& spec_is_convex(*circ, node_set(mt.position.nodes@))
                    },
                forall|k: int|
                    0 <= k < out@.len() ==> replacement_from_targets(
                        #[trigger] out@[k],
                        self.targets@,
                    ),
                forall|k: int|
                    0 <= k < out@.len() ==> rewrite_from_sources(
                        #[trigger] out@[k],
                        self.pattern_sources@,
                        *circ,
                    ),
                forall|k: int|
                    0 <= k < i ==> (((#[trigger] matches@[k]).pattern.0
                        < self.rewrite_rules@.len() && (exists|t2: int|
                        0 <= t2 < self.rewrite_rules@[matches@[k].pattern.0 as int]@.len() && (
                        #[trigger] self.rewrite_rules@[matches@[k].pattern.0 as int]@[t2])
                            < self.targets@.len())) ==> exists|oi: int|
                        0 <= oi < out@.len() && (#[trigger] out@[oi]).subcircuit.nodes@
                            == matches@[k].position.nodes@),
            decreases matches@.len() - i,
        {
            let mt = &matches[i];
            if mt.pattern.0 < self.rewrite_rules.len() {
                let rule = &self.rewrite_rules[mt.pattern.0];
                let mut t: usize = 0;
                while t < rule.len()
                    invariant
                        i < matches@.len(),
                        *mt == matches@[i as int],
                        matcher.patterns@.len() == self.pattern_sources@.len(),
                        forall|k: int|
                            0 <= k < matcher.patterns@.len() ==> (
                            #[trigger] matcher.patterns@[k]).pattern_wf() && source_matches(
                                matcher.patterns@[k].circuit,
                                self.pattern_sources@[k],
                            ),
                        mt.pattern.0 < matcher.patterns@.len(),
                        exists|m: Seq<Option<Vertex>>|
                            embedding_rooted(
                                matcher.patterns@[mt.pattern.0 as int],
                                *circ,
                                m,
                                mt.root,
                            ) && node_set(mt.position.nodes@) =~= image_set(m),
                        spec_is_convex(*circ, node_set(mt.position.nodes@)),
                        forall|k: int|
                            0 <= k < out@.len() ==> replacement_from_targets(
                                #[trigger] out@[k],
                                self.targets@,
                            ),
                        forall|k: int|
                            0 <= k < out@.len() ==> rewrite_from_sources(
                                #[trigger] out@[k],
                                self.pattern_sources@,
                                *circ,
                            ),
                        mt.pattern.0 < self.rewrite_rules@.len(),
                        rule@ == self.rewrite_rules@[mt.pattern.0 as int]@,
                        0 <= t <= rule@.len(),
                        forall|k: int|
                            0 <= k < i ==> (((#[trigger] matches@[k]).pattern.0
                                < self.rewrite_rules@.len() && (exists|t2: int|
                                0 <= t2 < self.rewrite_rules@[matches@[k].pattern.0 as int]@.len()
                                    && (#[trigger] self.rewrite_rules@[matches@[k].pattern.0 as int]@[t2])
                                    < self.targets@.len())) ==> exists|oi: int|
                                0 <= oi < out@.len() && (#[trigger] out@[oi]).subcircuit.nodes@
                                    == matches@[k].position.nodes@),
                        (exists|t2: int|
                            0 <= t2 < t && (#[trigger] rule@[t2]) < self.targets@.len())
                            ==> exists|oi: int|
                            0 <= oi < out@.len() && (#[trigger] out@[oi]).subcircuit.nodes@
                                == mt.position.nodes@,
                    decreases rule@.len() - t,
                {
                    let target_idx = rule[t];
                    if target_idx < self.targets.len() {
                        let ghost pre_out = out@;
                        out.push(
                            CircuitRewrite {
                                subcircuit: Subcircuit {
                                    nodes: clone_vertices(&mt.position.nodes),
                                    inputs: clone_groups(&mt.position.inputs),
                                    outputs: clone_ports(&mt.position.outputs),
                                },
                                replacement: self.targets[target_idx].duplicate(),
                            },
                        );
                        proof {
                            assert forall|k: int|
                                0 <= k < out@.len() implies replacement_from_targets(
                                #[trigger] out@[k],
                                self.targets@,
                            ) && rewrite_from_sources(out@[k], self.pattern_sources@, *circ) by {
                                if k == pre_out.len() as int {
                                    assert(out@[k].replacement.dag.nodes@ == (
                                    #[trigger] self.targets@[target_idx as int]).dag.nodes@
                                        && out@[k].replacement.dag.edges@ == self.targets@[
                                        target_idx as int
                                    ].dag.edges@);
                                    let pi = mt.pattern.0 as int;
                                    let p = matcher.patterns@[pi];
                                    let m = choose|m: Seq<Option<Vertex>>|
                                        embedding_rooted(p, *circ, m, mt.root) && node_set(
                                            mt.position.nodes@,
                                        ) =~= image_set(m);
                                    assert(out@[k].subcircuit.nodes@ == mt.position.nodes@);
                                    assert(node_set(out@[k].subcircuit.nodes@) =~= image_set(m));
                                    assert(image_set(m) == node_set(mt.position.nodes@));
                                    assert(spec_is_convex(*circ, image_set(m)));
                                    assert(source_matches(p.circuit, self.pattern_sources@[pi]));
                                    assert(embedding_rooted(p, *circ, m, mt.root));
                                    assert(rewrite_from_sources(
                                        out@[k],
                                        self.pattern_sources@,
                                        *circ,
                                    ));
                                } else {
                                    assert(out@[k] == pre_out[k]);
                                    assert(replacement_from_targets(pre_out[k], self.targets@));
                                    assert(rewrite_from_sources(
                                        pre_out[k],
                                        self.pattern_sources@,
                                        *circ,
                                    ));
                                }
                            }
                            assert(out@[pre_out.len() as int].subcircuit.nodes@
                                == mt.position.nodes@);
                            assert forall|k: int|
                                0 <= k < i && (#[trigger] matches@[k]).pattern.0
                                    < self.rewrite_rules@.len() && (exists|t2: int|
                                    0 <= t2 < self.rewrite_rules@[matches@[k].pattern.0 as int]@.len()
                                        && (#[trigger] self.rewrite_rules@[matches@[k].pattern.0 as int]@[t2])
                                        < self.targets@.len()) implies exists|oi: int|
                                0 <= oi < out@.len() && (#[trigger] out@[oi]).subcircuit.nodes@
                                    == matches@[k].position.nodes@ by {
                                let oi = choose|oi: int|
                                    0 <= oi < pre_out.len() && (
                                    #[trigger] pre_out[oi]).subcircuit.nodes@
                                        == matches@[k].position.nodes@;
                                assert(out@[oi].subcircuit.nodes@ == matches@[k].position.nodes@);
                            }
                        }
                    } else {
                        proof {
                            if exists|t2: int|
                                0 <= t2 < t + 1 && (#[trigger] rule@[t2]) < self.targets@.len() {
                                let t2 = choose|t2: int|
                                    0 <= t2 < t + 1 && (#[trigger] rule@[t2])
                                        < self.targets@.len();
                                assert(t2 != t);
                            }
                        }
                    }
                    t = t + 1;
                }
                proof {
                    assert forall|k: int|
                        0 <= k < i + 1 && (#[trigger] matches@[k]).pattern.0
                            < self.rewrite_rules@.len() && (exists|t2: int|
                            0 <= t2 < self.rewrite_rules@[matches@[k].pattern.0 as int]@.len() && (
                            #[trigger] self.rewrite_rules@[matches@[k].pattern.0 as int]@[t2])
                                < self.targets@.len()) implies exists|oi: int|
                        0 <= oi < out@.len() && (#[trigger] out@[oi]).subcircuit.nodes@
                            == matches@[k].position.nodes@ by {
                        if k == i as int {
                            let t2 = choose|t2: int|
                                0 <= t2 < self.rewrite_rules@[matches@[k].pattern.0 as int]@.len()
                                    && (#[trigger] self.rewrite_rules@[matches@[k].pattern.0 as int]@[t2])
                                    < self.targets@.len();
                            assert(rule@[t2] < self.targets@.len());
                            assert(exists|t3: int|
                                0 <= t3 < rule@.len() && (#[trigger] rule@[t3])
                                    < self.targets@.len());
                        }
                    }
                }
            }
            i = i + 1;
        }
        proof {
            if circ.wf() && (forall|k: int|
                0 <= k < self.pattern_sources@.len() ==> compilable(
                    #[trigger] self.pattern_sources@[k],
                )) {
                assert forall|pi: int, p: CircuitPattern, m: Seq<Option<Vertex>>, rt: Vertex|
                    #![trigger embedding_rooted(p, *circ, m, rt), self.pattern_sources@[pi]]
                    0 <= pi < self.pattern_sources@.len() && p.pattern_wf() && source_matches(
                        p.circuit,
                        self.pattern_sources@[pi],
                    ) && embedding_rooted(p, *circ, m, rt) && spec_is_convex(*circ, image_set(m))
                        && pi < self.rewrite_rules@.len() && (exists|t: int|
                        0 <= t < self.rewrite_rules@[pi]@.len() && (
                        #[trigger] self.rewrite_rules@[pi]@[t])
                            < self.targets@.len()) implies exists|oi: int|
                    0 <= oi < out@.len() && node_set((#[trigger] out@[oi]).subcircuit.nodes@)
                        =~= image_set(m) by {
                    let q = matcher.patterns@[pi];
                    assert(q.pattern_wf());
                    assert(source_matches(q.circuit, self.pattern_sources@[pi]));
                    assert(q.circuit.dag.nodes@ == p.circuit.dag.nodes@);
                    assert(q.circuit.dag.edges@ == p.circuit.dag.edges@);
                    lemma_embedding_same_views(p, q, *circ, m);
                    reveal(crate::portmatching::pattern::is_embedding);
                    assert(q.circuit.is_command(q.root.0 as int));
                    assert(m.len() == q.circuit.dag.nodes@.len());
                    assert(0 <= q.root.0 as int && (q.root.0 as int) < m.len());
                    assert(m[q.root.0 as int] is Some);
                    let rtp = m[q.root.0 as int]->Some_0;
                    assert(embedding_rooted(matcher.patterns@[pi], *circ, m, rtp));
                    let k = choose|k: int|
                        0 <= k < matches@.len() && (#[trigger] matches@[k]).pattern.0 == pi
                            && matches@[k].root == rtp && node_set(matches@[k].position.nodes@)
                            =~= image_set(m);
                    assert(matches@[k].pattern.0 < self.rewrite_rules@.len());
                    let oi = choose|oi: int|
                        0 <= oi < out@.len() && (#[trigger] out@[oi]).subcircuit.nodes@
                            == matches@[k].position.nodes@;
                    assert(node_set(out@[oi].subcircuit.nodes@) =~= image_set(m));
                }
            }
        }
        out
    }
}

impl Rewriter for ECCRewriter {
    fn get_rewrites(&self, circ: &Circuit) -> Vec<CircuitRewrite> {
        self.rewrites_for(circ)
    }
}

/// A copy of a vertex list.
pub(crate) fn clone_vertices(v: &Vec<Vertex>) -> (r: Vec<Vertex>)
    ensures
        r@ == v@,
{
    let mut r: Vec<Vertex> = Vec::new();
    let mut i: usize = 0;
    while i < v.len()
        invariant
            0 <= i <= v@.len(),
            r@ =~= v@.take(i as int),
        decreases v@.len() - i,
    {
        r.push(v[i]);
        proof {
            assert(r@ =~= v@.take(i + 1));
        }
        i = i + 1;
    }
    proof {
        assert(r@ =~= v@);
    }
    r
}

/// A copy of a port list.
pub(crate) fn clone_ports(v: &Vec<(Vertex, usize)>) -> (r: Vec<(Vertex, usize)>)
    ensures
        r@ == v@,
{
    let mut r: Vec<(Vertex, usize)> = Vec::new();
    let mut i: usize = 0;
    while i < v.len()
        invariant
            0 <= i <= v@.len(),
            r@ =~= v@.take(i as int),
        decreases v@.len() - i,
    {
        r.push(v[i]);
        proof {
            assert(r@ =~= v@.take(i + 1));
        }
        i = i + 1;
    }
    proof {
        assert(r@ =~= v@);
    }
    r
}

/// A copy of a grouped port list.
pub(crate) fn clone_groups(v: &Vec<Vec<(Vertex, usize)>>) -> (r: Vec<Vec<(Vertex, usize)>>)
    ensures
        r@.len() == v@.len(),
        forall|i: int| 0 <= i < r@.len() ==> (#[trigger] r@[i])@ == v@[i]@,
{
    let mut r: Vec<Vec<(Vertex, usize)>> = Vec::new();
    let mut i: usize = 0;
    while i < v.len()
        invariant
            0 <= i <= v@.len(),
            r@.len() == i,
            forall|j: int| 0 <= j < i ==> (#[trigger] r@[j])@ == v@[j]@,
        decreases v@.len() - i,
    {
        r.push(clone_ports(&v[i]));
        i = i + 1;
    }
    r
}

} // verus!
