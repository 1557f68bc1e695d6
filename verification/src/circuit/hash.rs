//! A content hash for circuits.
//!
//! Each node is given a fingerprint built from its gate kind and, layer
//! by layer, from the fingerprints of its predecessors together with the
//! ports and wire types connecting them. After as many refinement rounds
//! as the graph has node slots, every fingerprint has absorbed its whole
//! ancestry (any acyclic ancestry is shallower than that). The circuit
//! hash combines the fingerprints of the live nodes with a wrapping sum,
//! so it does not depend on the order in which nodes were stored.

use vstd::prelude::*;
use crate::graph::graph::EdgeData;
use super::circuit::Circuit;
use super::dag::{EdgeProperties, VertexProperties};
use super::operation::{ConstValue, Op, WireType};

verus! {

/// What `fxhash::hash64` returns for a sequence of words. The outside
/// function is a pure function of its input, so the result may be named.
pub uninterp spec fn fx64_of(s: Seq<u64>) -> u64;

/// Relies on fxhash::hash64: a seedless hash whose result depends on the
/// hashed words alone.
#[verifier::external_body]
fn fx_hash_words(v: &Vec<u64>) -> (r: u64)
    ensures
        r == fx64_of(v@),
{
    fxhash::hash64(v)
}

/// A small code for each wire type.
pub open spec fn wire_code(t: WireType) -> u64 {
    match t {
        WireType::Qubit => 1,
        WireType::LinearBit => 2,
        WireType::Bool => 3,
        WireType::I32 => 4,
        WireType::F64 => 5,
        WireType::Quat64 => 6,
        WireType::Angle => 7,
    }
}

/// The words encoding an operation: a variant code followed by its
/// parameters.
pub open spec fn op_words(op: Op) -> Seq<u64> {
    match op {
        Op::H => seq![1u64],
        Op::X => seq![2u64],
        Op::Y => seq![3u64],
        Op::Z => seq![4u64],
        Op::S => seq![5u64],
        Op::T => seq![6u64],
        Op::Sdg => seq![7u64],
        Op::Tdg => seq![8u64],
        Op::CX => seq![9u64],
        Op::ZZMax => seq![10u64],
        Op::Reset => seq![11u64],
        Op::Input => seq![12u64],
        Op::Output => seq![13u64],
        Op::Noop(t) => seq![14u64, wire_code(t)],
        Op::Measure => seq![15u64],
        Op::Barrier => seq![16u64],
        Op::AngleAdd => seq![17u64],
        Op::AngleMul => seq![18u64],
        Op::AngleNeg => seq![19u64],
        Op::QuatMul => seq![20u64],
        Op::Copy { n_copies, typ } => seq![21u64, n_copies as u64, wire_code(typ)],
        Op::Const(ConstValue::Bool(b)) => seq![
            22u64,
            if b {
                1u64
            } else {
                0u64
            },
        ],
        Op::Const(ConstValue::I32(x)) => seq![23u64, x as u64],
        Op::Const(ConstValue::Angle(a)) => seq![24u64, a.num as u64, a.den as u64],
        Op::RxF64 => seq![25u64],
        Op::RzF64 => seq![26u64],
        Op::TK1 => seq![27u64],
        Op::Rotation => seq![28u64],
        Op::ToRotation => seq![29u64],
    }
}

/// The exec counterpart of [`op_words`].
fn op_words_exec(op: &Op) -> (r: Vec<u64>)
    ensures
        r@ == op_words(*op),
{
    let mut v: Vec<u64> = Vec::new();
    match op {
        Op::H => v.push(1),
        Op::X => v.push(2),
        Op::Y => v.push(3),
        Op::Z => v.push(4),
        Op::S => v.push(5),
        Op::T => v.push(6),
        Op::Sdg => v.push(7),
        Op::Tdg => v.push(8),
        Op::CX => v.push(9),
        Op::ZZMax => v.push(10),
        Op::Reset => v.push(11),
        Op::Input => v.push(12),
        Op::Output => v.push(13),
        Op::Noop(t) => {
            v.push(14);
            v.push(wire_code_exec(t));
        },
        Op::Measure => v.push(15),
        Op::Barrier => v.push(16),
        Op::AngleAdd => v.push(17),
        Op::AngleMul => v.push(18),
        Op::AngleNeg => v.push(19),
        Op::QuatMul => v.push(20),
        Op::Copy { n_copies, typ } => {
            v.push(21);
            v.push(*n_copies as u64);
            v.push(wire_code_exec(typ));
        },
        Op::Const(ConstValue::Bool(b)) => {
            v.push(22);
            v.push(
                if *b {
                    1
                } else {
                    0
                },
            );
        },
        Op::Const(ConstValue::I32(x)) => {
            v.push(23);
            v.push(*x as u64);
        },
        Op::Const(ConstValue::Angle(a)) => {
            v.push(24);
            v.push(a.num as u64);
            v.push(a.den as u64);
        },
        Op::RxF64 => v.push(25),
        Op::RzF64 => v.push(26),
        Op::TK1 => v.push(27),
        Op::Rotation => v.push(28),
        Op::ToRotation => v.push(29),
    }
    proof {
        assert(v@ =~= op_words(*op));
    }
    v
}

fn wire_code_exec(t: &WireType) -> (r: u64)
    ensures
        r == wire_code(*t),
{
    match t {
        WireType::Qubit => 1,
        WireType::LinearBit => 2,
        WireType::Bool => 3,
        WireType::I32 => 4,
        WireType::F64 => 5,
        WireType::Quat64 => 6,
        WireType::Angle => 7,
    }
}

/// The fingerprint contribution of one in-edge of a node, given the
/// previous round's fingerprints `prev` (indexed by node slot).
pub open spec fn edge_term(
    prev: Seq<u64>,
    d: EdgeData<EdgeProperties, usize>,
) -> u64 {
    fx64_of(
        seq![
            d.target_port as u64,
            if 0 <= d.source.0 < prev.len() {
                prev[d.source.0 as int]
            } else {
                0u64
            },
            d.source_port as u64,
            wire_code(d.weight.edge_type),
        ],
    )
}

/// The wrapping sum of the in-edge terms of node `i` over the first `n`
/// edge slots.
pub open spec fn in_sum(
    edges: Seq<Option<EdgeData<EdgeProperties, usize>>>,
    prev: Seq<u64>,
    i: int,
    n: int,
) -> u64
    decreases n,
{
    if n <= 0 {
        0
    } else {
        let rest = in_sum(edges, prev, i, n - 1);
        match edges[n - 1] {
            Some(d) => if d.target.0 == i {
                rest.wrapping_add(edge_term(prev, d))
            } else {
                rest
            },
            None => rest,
        }
    }
}

/// One refinement round of the fingerprint of node `i`.
pub open spec fn node_round(
    nodes: Seq<Option<VertexProperties>>,
    edges: Seq<Option<EdgeData<EdgeProperties, usize>>>,
    prev: Seq<u64>,
    i: int,
) -> u64 {
    match nodes[i] {
        Some(w) => fx64_of(
            op_words(w.op).push(in_sum(edges, prev, i, edges.len() as int)),
        ),
        None => 0,
    }
}

/// The fingerprints after `k` refinement rounds, starting from all
/// zeroes.
pub open spec fn rounds(
    nodes: Seq<Option<VertexProperties>>,
    edges: Seq<Option<EdgeData<EdgeProperties, usize>>>,
    k: int,
) -> Seq<u64>
    decreases k,
{
    if k <= 0 {
        Seq::new(nodes.len(), |i: int| 0u64)
    } else {
        let prev = rounds(nodes, edges, k - 1);
        Seq::new(nodes.len(), |i: int| node_round(nodes, edges, prev, i))
    }
}

/// The wrapping sum of the fingerprints of the live nodes among the
/// first `n` slots.
pub open spec fn live_sum(
    nodes: Seq<Option<VertexProperties>>,
    h: Seq<u64>,
    n: int,
) -> u64
    decreases n,
{
    if n <= 0 {
        0
    } else {
        let rest = live_sum(nodes, h, n - 1);
        if nodes[n - 1] is Some {
            rest.wrapping_add(if 0 <= n - 1 < h.len() {
                h[n - 1]
            } else {
                0u64
            })
        } else {
            rest
        }
    }
}

/// The content hash of a circuit graph: a function of the node and edge
/// views alone, indifferent to slab ordering of the nodes.
pub open spec fn spec_circuit_hash(
    nodes: Seq<Option<VertexProperties>>,
    edges: Seq<Option<EdgeData<EdgeProperties, usize>>>,
) -> u64 {
    fx64_of(
        seq![
            live_sum(nodes, rounds(nodes, edges, nodes.len() as int + 1), nodes.len() as int),
        ],
    )
}

impl Circuit {
    /// The content hash of the circuit.
    ///
    /// The hash is a pure function of the graph's contents. Because each
    /// node's fingerprint is built only from its gate kind, its ports and
    /// its predecessors' fingerprints, and the fingerprints are combined
    /// with an order-indifferent sum, the hash does not change when node
    /// identities are permuted while the wiring is kept.
    pub fn circuit_hash(&self) -> (r: u64)
        ensures
            r == spec_circuit_hash(self.dag.nodes@, self.dag.edges@),
    {
        let n = self.dag.nodes.len();
        let mut h: Vec<u64> = Vec::new();
        let mut i: usize = 0;
        while i < n
            invariant
                0 <= i <= n,
                h@.len() == i,
                forall|j: int| 0 <= j < i ==> h@[j] == 0u64,
            decreases n - i,
        {
            h.push(0);
            i = i + 1;
        }
        proof {
            assert(h@ =~= rounds(self.dag.nodes@, self.dag.edges@, 0));
        }
        h = self.hash_round_exec(h);
        proof {
            assert(h@ =~= rounds(self.dag.nodes@, self.dag.edges@, 1));
        }
        let mut k: usize = 0;
        while k < n
            invariant
                0 <= k <= n,
                n == self.dag.nodes@.len(),
                h@ == rounds(self.dag.nodes@, self.dag.edges@, k as int + 1),
            decreases n - k,
        {
            h = self.hash_round_exec(h);
            proof {
                assert(h@ =~= rounds(self.dag.nodes@, self.dag.edges@, k as int + 2));
            }
            k = k + 1;
        }
        let mut total: u64 = 0;
        let mut i: usize = 0;
        while i < n
            invariant
                0 <= i <= n,
                n == self.dag.nodes@.len(),
                h@ == rounds(self.dag.nodes@, self.dag.edges@, n as int + 1),
                h@.len() == n,
                total == live_sum(self.dag.nodes@, h@, i as int),
            decreases n - i,
        {
            if self.dag.nodes[i].is_some() {
                total = total.wrapping_add(h[i]);
            }
            i = i + 1;
        }
        let mut words: Vec<u64> = Vec::new();
        words.push(total);
        proof {
            assert(words@ =~= seq![
                live_sum(
                    self.dag.nodes@,
                    rounds(self.dag.nodes@, self.dag.edges@, self.dag.nodes@.len() as int + 1),
                    self.dag.nodes@.len() as int,
                ),
            ]);
        }
        fx_hash_words(&words)
    }

    /// One refinement round applied to all node slots.
    fn hash_round_exec(&self, h: Vec<u64>) -> (r: Vec<u64>)
        ensures
            r@.len() == self.dag.nodes@.len(),
            forall|j: int|
                0 <= j < r@.len() ==> r@[j] == node_round(self.dag.nodes@, self.dag.edges@, h@, j),
    {
        let n = self.dag.nodes.len();
        let mut new_h: Vec<u64> = Vec::new();
        let mut i: usize = 0;
        while i < n
            invariant
                0 <= i <= n,
                n == self.dag.nodes@.len(),
                new_h@.len() == i,
                forall|j: int|
                    0 <= j < i ==> new_h@[j] == node_round(self.dag.nodes@, self.dag.edges@, h@, j),
            decreases n - i,
        {
            let v = match &self.dag.nodes[i] {
                Some(w) => {
                    let mut words = op_words_exec(&w.op);
                    let s = self.in_sum_exec(&h, i);
                    words.push(s);
                    fx_hash_words(&words)
                },
                None => 0,
            };
            new_h.push(v);
            i = i + 1;
        }
        new_h
    }

    /// The wrapping sum of the in-edge terms of node `i`, given the
    /// previous round's fingerprints.
    fn in_sum_exec(&self, prev: &Vec<u64>, i: usize) -> (r: u64)
        ensures
            r == in_sum(self.dag.edges@, prev@, i as int, self.dag.edges@.len() as int),
    {
        let mut total: u64 = 0;
        let mut e: usize = 0;
        while e < self.dag.edges.len()
            invariant
                0 <= e <= self.dag.edges@.len(),
                total == in_sum(self.dag.edges@, prev@, i as int, e as int),
            decreases self.dag.edges@.len() - e,
        {
            match &self.dag.edges[e] {
                Some(d) => {
                    if d.target.0 == i {
                        let hv = if d.source.0 < prev.len() {
                            prev[d.source.0]
                        } else {
                            0
                        };
                        let mut words: Vec<u64> = Vec::new();
                        words.push(d.target_port as u64);
                        words.push(hv);
                        words.push(d.source_port as u64);
                        words.push(wire_code_exec(&d.weight.edge_type));
                        proof {
                            assert(words@ =~= seq![
                                d.target_port as u64,
                                if 0 <= d.source.0 < prev@.len() {
                                    prev@[d.source.0 as int]
                                } else {
                                    0u64
                                },
                                d.source_port as u64,
                                wire_code(d.weight.edge_type),
                            ]);
                        }
                        let term = fx_hash_words(&words);
                        total = total.wrapping_add(term);
                    }
                },
                None => {},
            }
            e = e + 1;
        }
        total
    }
}

/// Whether slot `j` is the image of some index under `f`.
pub open spec fn in_image(f: Seq<int>, j: int) -> bool {
    exists|i: int| 0 <= i < f.len() && #[trigger] f[i] == j
}

/// The wrapping sum of the first `n` words.
pub open spec fn wsum(s: Seq<u64>, n: int) -> u64
    decreases n,
{
    if n <= 0 {
        0
    } else {
        wsum(s, n - 1).wrapping_add(s[n - 1])
    }
}

/// The fingerprint of each slot, masked to zero at dead slots.
pub open spec fn masked(nodes: Seq<Option<VertexProperties>>, h: Seq<u64>) -> Seq<u64> {
    Seq::new(
        nodes.len(),
        |i: int|
            if nodes[i] is Some {
                if 0 <= i < h.len() {
                    h[i]
                } else {
                    0u64
                }
            } else {
                0u64
            },
    )
}

proof fn lemma_live_sum_is_wsum(nodes: Seq<Option<VertexProperties>>, h: Seq<u64>, n: int)
    requires
        0 <= n <= nodes.len(),
    ensures
        live_sum(nodes, h, n) == wsum(masked(nodes, h), n),
    decreases n,
{
    if n > 0 {
        lemma_live_sum_is_wsum(nodes, h, n - 1);
    }
}

proof fn lemma_wsum_frame(a: Seq<u64>, b: Seq<u64>, n: int)
    requires
        forall|i: int| 0 <= i < n ==> a[i] == b[i],
        n <= a.len(),
        n <= b.len(),
    ensures
        wsum(a, n) == wsum(b, n),
    decreases n,
{
    if n > 0 {
        lemma_wsum_frame(a, b, n - 1);
    }
}

/// Taking one entry out of a wrapping sum.
proof fn lemma_wsum_remove(s: Seq<u64>, k: int)
    requires
        0 <= k < s.len(),
    ensures
        wsum(s, s.len() as int) == wsum(s.remove(k), s.len() - 1).wrapping_add(s[k]),
    decreases s.len(),
{
    let n = s.len() as int;
    if k == n - 1 {
        assert(forall|i: int| 0 <= i < n - 1 ==> s.remove(k)[i] == s[i]);
        lemma_wsum_frame(s.remove(k), s, n - 1);
    } else {
        let s1 = s.drop_last();
        lemma_wsum_remove(s1, k);
        assert(s.remove(k).drop_last() =~= s1.remove(k));
        assert(forall|i: int| 0 <= i < n - 1 ==> s1[i] == s[i]);
        lemma_wsum_frame(s1, s, n - 1);
        lemma_wsum_frame(s.remove(k).drop_last(), s.remove(k), n - 2);
        assert(s.remove(k)[n - 2] == s[n - 1]);
        let a = wsum(s1.remove(k), n - 2);
        assert(wsum(s, n) == a.wrapping_add(s[k]).wrapping_add(s[n - 1]));
        assert(wsum(s.remove(k), n - 1).wrapping_add(s[k]) == a.wrapping_add(
            s[n - 1],
        ).wrapping_add(s[k]));
        assert(a.wrapping_add(s[k]).wrapping_add(s[n - 1]) == a.wrapping_add(
            s[n - 1],
        ).wrapping_add(s[k]));
    }
}

/// A wrapping sum is indifferent to reindexing by a bijection.
proof fn lemma_wsum_reindex(s: Seq<u64>, f: Seq<int>)
    requires
        f.len() == s.len(),
        forall|i: int| 0 <= i < f.len() ==> 0 <= #[trigger] f[i] < s.len(),
        forall|i: int, j: int| 0 <= i < j < f.len() ==> f[i] != f[j],
        forall|j: int| 0 <= j < s.len() ==> #[trigger] in_image(f, j),
    ensures
        wsum(Seq::new(s.len(), |i: int| s[f[i]]), s.len() as int) == wsum(s, s.len() as int),
    decreases s.len(),
{
    let n = s.len() as int;
    if n > 0 {
        let mapped = Seq::new(s.len(), |i: int| s[f[i]]);
        assert(in_image(f, n - 1));
        let k = choose|i: int| 0 <= i < f.len() && #[trigger] f[i] == n - 1;
        lemma_wsum_remove(mapped, k);
        assert(mapped[k] == s[n - 1]);
        let s1 = s.drop_last();
        let f1 = f.remove(k);
        assert forall|i: int| 0 <= i < f1.len() implies 0 <= #[trigger] f1[i] < s1.len() by {
            if i < k {
                assert(f1[i] == f[i]);
                assert(f[i] != n - 1);
            } else {
                assert(f1[i] == f[i + 1]);
                assert(f[i + 1] != n - 1);
            }
        }
        assert forall|i: int, j: int| 0 <= i < j < f1.len() implies f1[i] != f1[j] by {
            if j < k {
            } else if i < k {
                assert(f1[i] == f[i] && f1[j] == f[j + 1]);
            } else {
                assert(f1[i] == f[i + 1] && f1[j] == f[j + 1]);
            }
        }
        assert forall|j: int| 0 <= j < s1.len() implies #[trigger] in_image(f1, j) by {
            assert(in_image(f, j));
            let i0 = choose|i: int| 0 <= i < f.len() && #[trigger] f[i] == j;
            assert(i0 != k);
            if i0 < k {
                assert(f1[i0] == j);
            } else {
                assert(f1[i0 - 1] == j);
            }
        }
        lemma_wsum_reindex(s1, f1);
        let mapped1 = Seq::new(s1.len(), |i: int| s1[f1[i]]);
        assert(mapped.remove(k) =~= mapped1) by {
            assert forall|i: int| 0 <= i < mapped1.len() implies mapped.remove(k)[i] == mapped1[
                i
            ] by {
                if i < k {
                    assert(mapped.remove(k)[i] == mapped[i]);
                    assert(f1[i] == f[i]);
                    assert(s1[f1[i]] == s[f[i]]);
                } else {
                    assert(mapped.remove(k)[i] == mapped[i + 1]);
                    assert(f1[i] == f[i + 1]);
                    assert(s1[f1[i]] == s[f[i + 1]]);
                }
            }
        }
        assert(forall|i: int| 0 <= i < n - 1 ==> s1[i] == s[i]);
        lemma_wsum_frame(s1, s, n - 1);
    }
}

/// A renaming of node slots: a bijection `f` of the slots carrying each
/// slot's contents along, with the edge slabs equal place for place up
/// to renaming both endpoints.
pub open spec fn is_relabelling(
    nodes1: Seq<Option<VertexProperties>>,
    edges1: Seq<Option<EdgeData<EdgeProperties, usize>>>,
    nodes2: Seq<Option<VertexProperties>>,
    edges2: Seq<Option<EdgeData<EdgeProperties, usize>>>,
    f: Seq<int>,
) -> bool {
    &&& f.len() == nodes1.len()
    &&& nodes2.len() == nodes1.len()
    &&& edges2.len() == edges1.len()
    &&& forall|i: int| 0 <= i < f.len() ==> 0 <= #[trigger] f[i] < nodes2.len()
    &&& forall|i: int, j: int| 0 <= i < j < f.len() ==> f[i] != f[j]
    &&& forall|j: int| 0 <= j < nodes2.len() ==> #[trigger] in_image(f, j)
    &&& forall|i: int| 0 <= i < nodes1.len() ==> nodes2[#[trigger] f[i]] == nodes1[i]
    &&& forall|e: int|
        0 <= e < edges1.len() ==> match (#[trigger] edges1[e], edges2[e]) {
            (None, None) => true,
            (Some(d1), Some(d2)) => {
                &&& d1.source.0 < nodes1.len()
                &&& d1.target.0 < nodes1.len()
                &&& d2.source.0 == f[d1.source.0 as int]
                &&& d2.target.0 == f[d1.target.0 as int]
                &&& d2.source_port == d1.source_port
                &&& d2.target_port == d1.target_port
                &&& d2.weight == d1.weight
            },
            _ => false,
        }
}

proof fn lemma_in_sum_iso(
    nodes1: Seq<Option<VertexProperties>>,
    edges1: Seq<Option<EdgeData<EdgeProperties, usize>>>,
    nodes2: Seq<Option<VertexProperties>>,
    edges2: Seq<Option<EdgeData<EdgeProperties, usize>>>,
    f: Seq<int>,
    prev1: Seq<u64>,
    prev2: Seq<u64>,
    i: int,
    m: int,
)
    requires
        is_relabelling(nodes1, edges1, nodes2, edges2, f),
        prev1.len() == nodes1.len(),
        prev2.len() == nodes2.len(),
        forall|x: int| 0 <= x < nodes1.len() ==> prev2[#[trigger] f[x]] == prev1[x],
        0 <= i < nodes1.len(),
        0 <= m <= edges1.len(),
    ensures
        in_sum(edges2, prev2, f[i], m) == in_sum(edges1, prev1, i, m),
    decreases m,
{
    if m > 0 {
        lemma_in_sum_iso(nodes1, edges1, nodes2, edges2, f, prev1, prev2, i, m - 1);
        match (edges1[m - 1], edges2[m - 1]) {
            (Some(d1), Some(d2)) => {
                if d1.target.0 == i {
                    assert(d2.target.0 == f[i]);
                    assert(edge_term(prev2, d2) == edge_term(prev1, d1)) by {
                        let x = d1.source.0 as int;
                        assert(0 <= f[x] < nodes2.len());
                        assert(prev2[f[x]] == prev1[x]);
                        assert(seq![
                            d2.target_port as u64,
                            if 0 <= d2.source.0 < prev2.len() {
                                prev2[d2.source.0 as int]
                            } else {
                                0u64
                            },
                            d2.source_port as u64,
                            wire_code(d2.weight.edge_type),
                        ] =~= seq![
                            d1.target_port as u64,
                            if 0 <= d1.source.0 < prev1.len() {
                                prev1[d1.source.0 as int]
                            } else {
                                0u64
                            },
                            d1.source_port as u64,
                            wire_code(d1.weight.edge_type),
                        ]);
                    }
                } else {
                    // injectivity: the renamed edge cannot point at f[i]
                    if d2.target.0 == f[i] {
                        assert(f[d1.target.0 as int] == f[i]);
                        assert(d1.target.0 == i);
                    }
                }
            },
            _ => {},
        }
    }
}

proof fn lemma_rounds_iso(
    nodes1: Seq<Option<VertexProperties>>,
    edges1: Seq<Option<EdgeData<EdgeProperties, usize>>>,
    nodes2: Seq<Option<VertexProperties>>,
    edges2: Seq<Option<EdgeData<EdgeProperties, usize>>>,
    f: Seq<int>,
    k: int,
)
    requires
        is_relabelling(nodes1, edges1, nodes2, edges2, f),
    ensures
        forall|i: int|
            0 <= i < nodes1.len() ==> rounds(nodes2, edges2, k)[#[trigger] f[i]] == rounds(
                nodes1,
                edges1,
                k,
            )[i],
    decreases k,
{
    if k > 0 {
        lemma_rounds_iso(nodes1, edges1, nodes2, edges2, f, k - 1);
        let prev1 = rounds(nodes1, edges1, k - 1);
        let prev2 = rounds(nodes2, edges2, k - 1);
        assert forall|i: int|
            0 <= i < nodes1.len() implies rounds(nodes2, edges2, k)[#[trigger] f[i]] == rounds(
            nodes1,
            edges1,
            k,
        )[i] by {
            match nodes1[i] {
                Some(w) => {
                    lemma_in_sum_iso(
                        nodes1,
                        edges1,
                        nodes2,
                        edges2,
                        f,
                        prev1,
                        prev2,
                        i,
                        edges1.len() as int,
                    );
                },
                None => {},
            }
        }
    }
}

/// Hash isomorphism-invariance: renaming the node identities of a
/// circuit while keeping its wiring leaves the content hash unchanged.
pub proof fn lemma_hash_iso(
    nodes1: Seq<Option<VertexProperties>>,
    edges1: Seq<Option<EdgeData<EdgeProperties, usize>>>,
    nodes2: Seq<Option<VertexProperties>>,
    edges2: Seq<Option<EdgeData<EdgeProperties, usize>>>,
    f: Seq<int>,
)
    requires
        is_relabelling(nodes1, edges1, nodes2, edges2, f),
    ensures
        spec_circuit_hash(nodes1, edges1) == spec_circuit_hash(nodes2, edges2),
{
    let n = nodes1.len() as int;
    let h1 = rounds(nodes1, edges1, n + 1);
    let h2 = rounds(nodes2, edges2, n + 1);
    lemma_rounds_iso(nodes1, edges1, nodes2, edges2, f, n + 1);
    lemma_live_sum_is_wsum(nodes1, h1, n);
    lemma_live_sum_is_wsum(nodes2, h2, n);
    let m1 = masked(nodes1, h1);
    let m2 = masked(nodes2, h2);
    assert(Seq::new(m2.len(), |i: int| m2[f[i]]) =~= m1) by {
        assert forall|i: int| 0 <= i < m1.len() implies m2[f[i]] == m1[i] by {
            assert(nodes2[f[i]] == nodes1[i]);
            assert(h2[f[i]] == h1[i]);
        }
    }
    lemma_wsum_reindex(m2, f);
    assert(wsum(m1, n) == wsum(m2, n));
}

/// Hash stability: the content hash is a pure function of the graph, so
/// two circuits with equal graphs — in particular a circuit and its
/// [`Circuit::duplicate`] — hash alike.
pub proof fn lemma_hash_stable(a: Circuit, b: Circuit)
    requires
        a.dag.nodes@ == b.dag.nodes@,
        a.dag.edges@ == b.dag.edges@,
    ensures
        spec_circuit_hash(a.dag.nodes@, a.dag.edges@) == spec_circuit_hash(
            b.dag.nodes@,
            b.dag.edges@,
        ),
{
}

} // verus!
