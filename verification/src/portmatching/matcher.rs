//! The matcher: runs many patterns against a host circuit and emits
//! convex matches.

use vstd::prelude::*;
use crate::circuit::circuit::{ports_unique, Circuit};
use crate::circuit::dag::Vertex;
use crate::circuit::operation::Op;
use crate::graph::graph::NodeIndex;
use super::convex::{check_convex, node_set, spec_is_convex};
use super::pattern::{
    embedding_rooted, internal_edge, step_matches_edge, CircuitPattern, InvalidPattern,
    PatternEdge,
};

verus! {

/// Identifier of a pattern inside a [`PatternMatcher`].
#[derive(Clone, Copy, PartialEq, Eq, Structural, Hash, Debug)]
pub struct PatternID(pub usize);

/// A subcircuit of a host: its nodes and its port boundary.
#[derive(Clone, Debug)]
pub struct Subcircuit {
    pub nodes: Vec<Vertex>,
    pub inputs: Vec<Vec<(Vertex, usize)>>,
    pub outputs: Vec<(Vertex, usize)>,
}

/// A convex pattern match in a host circuit.
#[derive(Clone, Debug)]
pub struct PatternMatch {
    pub position: Subcircuit,
    pub pattern: PatternID,
    pub root: Vertex,
}

/// A host-scoped helper for convexity queries.
///
/// Kept for call sites that check many candidate matches against one
/// host; the checks themselves go through [`check_convex`].
pub struct ConvexChecker;

impl ConvexChecker {
    pub fn new(_circ: &Circuit) -> (r: ConvexChecker) {
        ConvexChecker
    }
}

impl PatternMatch {
    /// The matcher's pattern ID of the match.
    pub fn pattern_id(&self) -> (r: PatternID)
        ensures
            r == self.pattern,
    {
        self.pattern
    }

    /// Create a pattern match from the image of a pattern root.
    ///
    /// Checks at construction time that the match exists and is convex.
    /// A non-convex match is the one benign failure; the other errors
    /// say that no match exists at this root or that it is degenerate.
    pub fn try_from_root_match(
        root: Vertex,
        pattern: PatternID,
        circ: &Circuit,
        matcher: &PatternMatcher,
    ) -> (r: Result<PatternMatch, InvalidPatternMatch>)
        requires
            matcher.matcher_wf(),
        ensures
            match r {
                Ok(mt) => {
                    &&& mt.pattern == pattern
                    &&& mt.root == root
                    &&& pattern.0 < matcher.patterns@.len()
                    // the match is backed by a rooted embedding whose image
                    // is the matched node set, and the subcircuit boundary
                    // is the pattern boundary carried through that embedding
                    &&& exists|m: Seq<Option<Vertex>>|
                        embedding_rooted(
                            matcher.patterns@[pattern.0 as int],
                            *circ,
                            m,
                            root,
                        ) && node_set(mt.position.nodes@) =~= image_set(m)
                            && mt.position.inputs@.len() == matcher.patterns@[
                            pattern.0 as int
                        ].inputs@.len() && (forall|g: int|
                            0 <= g < mt.position.inputs@.len()
                                ==> (#[trigger] mt.position.inputs@[g])@ == mapped_prefix(
                                m,
                                matcher.patterns@[pattern.0 as int].inputs@[g]@,
                                matcher.patterns@[pattern.0 as int].inputs@[g]@.len() as int,
                            )) && mt.position.outputs@ == mapped_prefix(
                            m,
                            matcher.patterns@[pattern.0 as int].outputs@,
                            matcher.patterns@[pattern.0 as int].outputs@.len() as int,
                        )
                    &&& spec_is_convex(*circ, node_set(mt.position.nodes@))
                },
                Err(e) => {
                    &&& e == InvalidPatternMatch::NotConvex ==> exists|m: Seq<Option<Vertex>>|
                        embedding_rooted(matcher.patterns@[pattern.0 as int], *circ, m, root)
                            && !spec_is_convex(*circ, image_set(m))
                    &&& e == InvalidPatternMatch::MatchNotFound ==> (pattern.0
                        >= matcher.patterns@.len() || (circ.wf()
                        ==> !exists|m: Seq<Option<Vertex>>|
                        embedding_rooted(matcher.patterns@[pattern.0 as int], *circ, m, root)))
                    &&& e != InvalidPatternMatch::EmptyMatch
                    &&& e != InvalidPatternMatch::InvalidSubcircuit
                },
            },
            // success is owed: a convex rooted embedding yields a match
            (circ.wf() && pattern.0 < matcher.patterns@.len() && exists|m: Seq<Option<Vertex>>|
                #[trigger] embedding_rooted(matcher.patterns@[pattern.0 as int], *circ, m, root)
                    && spec_is_convex(*circ, image_set(m))) ==> r is Ok,
    {
        let p = match matcher.get_pattern(pattern) {
            Some(p) => p,
            None => {
                return Err(InvalidPatternMatch::MatchNotFound);
            },
        };
        match p.get_match_map(root, circ) {
            None => Err(InvalidPatternMatch::MatchNotFound),
            Some(binding) => {
                let nodes = collect_image(&binding);
                let ghost nodes_view = nodes@;
                proof {
                    // the image of the rooted embedding contains the root,
                    // so the matched node list cannot be empty
                    reveal(crate::portmatching::pattern::is_embedding);
                    assert(matcher.patterns@[pattern.0 as int].pattern_wf());
                    let proot = matcher.patterns@[pattern.0 as int].root.0 as int;
                    assert(binding@.len() == matcher.patterns@[
                        pattern.0 as int
                    ].circuit.dag.nodes@.len());
                    assert(0 <= proot < binding@.len());
                    assert(binding@[proot] == Some(root));
                    assert(image_set(binding@).contains(root.0 as int)) by {
                        assert(binding@[proot] == Some(NodeIndex(root.0 as int as usize)));
                    }
                    assert(node_set(nodes_view).contains(root.0 as int));
                    let q = choose|q: int|
                        0 <= q < nodes_view.len() && (#[trigger] nodes_view[q]).0 == root.0 as int;
                    assert(nodes_view.len() > 0);
                }
                if !check_convex(circ, &nodes) {
                    proof {
                        assert(!spec_is_convex(*circ, image_set(binding@)));
                        if circ.wf() {
                            assert forall|m: Seq<Option<Vertex>>|
                                #[trigger] embedding_rooted(
                                    matcher.patterns@[pattern.0 as int],
                                    *circ,
                                    m,
                                    root,
                                ) implies !spec_is_convex(*circ, image_set(m)) by {
                                assert(m =~= binding@);
                            }
                        }
                    }
                    return Err(InvalidPatternMatch::NotConvex);
                }
                let position = boundary_in_host(p, &binding, nodes);
                proof {
                    assert(node_set(position.nodes@) =~= image_set(binding@));
                }
                Ok(PatternMatch { position, pattern, root })
            },
        }
    }

    /// As [`PatternMatch::try_from_root_match`], with a caller-held
    /// convexity checker.
    pub fn try_from_root_match_with_checker(
        root: Vertex,
        pattern: PatternID,
        circ: &Circuit,
        matcher: &PatternMatcher,
        _checker: &mut ConvexChecker,
    ) -> (r: Result<PatternMatch, InvalidPatternMatch>)
        requires
            matcher.matcher_wf(),
        ensures
            match r {
                Ok(mt) => {
                    &&& mt.pattern == pattern
                    &&& mt.root == root
                    &&& pattern.0 < matcher.patterns@.len()
                    // the match is backed by a rooted embedding whose image
                    // is the matched node set, and the subcircuit boundary
                    // is the pattern boundary carried through that embedding
                    &&& exists|m: Seq<Option<Vertex>>|
                        embedding_rooted(
                            matcher.patterns@[pattern.0 as int],
                            *circ,
                            m,
                            root,
                        ) && node_set(mt.position.nodes@) =~= image_set(m)
                            && mt.position.inputs@.len() == matcher.patterns@[
                            pattern.0 as int
                        ].inputs@.len() && (forall|g: int|
                            0 <= g < mt.position.inputs@.len()
                                ==> (#[trigger] mt.position.inputs@[g])@ == mapped_prefix(
                                m,
                                matcher.patterns@[pattern.0 as int].inputs@[g]@,
                                matcher.patterns@[pattern.0 as int].inputs@[g]@.len() as int,
                            )) && mt.position.outputs@ == mapped_prefix(
                            m,
                            matcher.patterns@[pattern.0 as int].outputs@,
                            matcher.patterns@[pattern.0 as int].outputs@.len() as int,
                        )
                    &&& spec_is_convex(*circ, node_set(mt.position.nodes@))
                },
                Err(e) => {
                    &&& e == InvalidPatternMatch::NotConvex ==> exists|m: Seq<Option<Vertex>>|
                        embedding_rooted(matcher.patterns@[pattern.0 as int], *circ, m, root)
                            && !spec_is_convex(*circ, image_set(m))
                    &&& e == InvalidPatternMatch::MatchNotFound ==> (pattern.0
                        >= matcher.patterns@.len() || (circ.wf()
                        ==> !exists|m: Seq<Option<Vertex>>|
                        embedding_rooted(matcher.patterns@[pattern.0 as int], *circ, m, root)))
                    &&& e != InvalidPatternMatch::EmptyMatch
                    &&& e != InvalidPatternMatch::InvalidSubcircuit
                },
            },
            (circ.wf() && pattern.0 < matcher.patterns@.len() && exists|m: Seq<Option<Vertex>>|
                #[trigger] embedding_rooted(matcher.patterns@[pattern.0 as int], *circ, m, root)
                    && spec_is_convex(*circ, image_set(m))) ==> r is Ok,
    {
        PatternMatch::try_from_root_match(root, pattern, circ, matcher)
    }

    /// Construct a rewrite replacing this match with the given circuit.
    pub fn to_rewrite(&self, replacement: Circuit) -> (r: crate::rewrite::CircuitRewrite)
        ensures
            r.replacement == replacement,
            r.subcircuit.nodes@ == self.position.nodes@,
            r.subcircuit.inputs@.len() == self.position.inputs@.len(),
            forall|g: int|
                0 <= g < r.subcircuit.inputs@.len() ==> (#[trigger] r.subcircuit.inputs@[g])@
                    == self.position.inputs@[g]@,
            r.subcircuit.outputs@ == self.position.outputs@,
    {
        crate::rewrite::CircuitRewrite {
            subcircuit: Subcircuit {
                nodes: crate::rewrite::clone_vertices(&self.position.nodes),
                inputs: crate::rewrite::clone_groups(&self.position.inputs),
                outputs: crate::rewrite::clone_ports(&self.position.outputs),
            },
            replacement,
        }
    }
}

/// Errors that can occur when constructing matches.
#[derive(Clone, Copy, PartialEq, Eq, Structural, Debug)]
pub enum InvalidPatternMatch {
    /// The match is not convex.
    NotConvex,
    /// The subcircuit does not match the pattern.
    MatchNotFound,
    /// The subcircuit matched is not valid.
    InvalidSubcircuit,
    /// Empty matches are not supported.
    EmptyMatch,
}

/// The host nodes in the image of a pattern-to-host map.
pub open spec fn image_set(m: Seq<Option<Vertex>>) -> Set<int> {
    Set::new(
        |h: int|
            0 <= h <= usize::MAX && exists|j: int|
                0 <= j < m.len() && (#[trigger] m[j]) == Some(NodeIndex(h as usize)),
    )
}

/// Whether node slot `i` of `c` holds a command, decided at run time.
pub fn is_command_exec(c: &Circuit, i: usize) -> (r: bool)
    ensures
        r == c.is_command(i as int),
{
    match c.op_at(NodeIndex(i)) {
        Some(op) => !(op == Op::Input) && !(op == Op::Output),
        None => false,
    }
}

impl Circuit {
    /// Decide well-formedness of the circuit at run time.
    pub fn check_wf(&self) -> (r: bool)
        ensures
            r == self.wf(),
    {
        proof {
            reveal(ports_unique);
        }
        // boundary
        let b_ok = match (self.op_at(self.input), self.op_at(self.output)) {
            (Some(a), Some(b)) => a == Op::Input && b == Op::Output && self.input.0
                != self.output.0,
            _ => false,
        };
        if !b_ok {
            return false;
        }
        let n = self.dag.nodes.len();
        let mut i: usize = 0;
        while i < n
            invariant
                n == self.dag.nodes@.len(),
                0 <= i <= n,
                forall|j: int|
                    0 <= j < i && self.dag.node_live(j) && j != self.input.0 && j != self.output.0
                        ==> self.node_op(j) != Op::Input && self.node_op(j) != Op::Output,
            decreases n - i,
        {
            if i != self.input.0 && i != self.output.0 {
                match &self.dag.nodes[i] {
                    Some(w) => {
                        if w.op == Op::Input || w.op == Op::Output {
                            proof {
                                assert(self.dag.node_live(i as int));
                                assert(!(self.node_op(i as int) != Op::Input && self.node_op(
                                    i as int,
                                ) != Op::Output));
                                assert(!self.boundary_ok());
                            }
                            return false;
                        }
                    },
                    None => {},
                }
            }
            i = i + 1;
        }
        // edges point at live nodes
        let ne = self.dag.edges.len();
        let mut e: usize = 0;
        while e < ne
            invariant
                ne == self.dag.edges@.len(),
                n == self.dag.nodes@.len(),
                0 <= e <= ne,
                forall|j: int|
                    0 <= j < e && self.dag.edge_live(j) ==> {
                        let d = (#[trigger] self.dag.edges@[j])->Some_0;
                        self.dag.node_live(d.source.0 as int) && self.dag.node_live(
                            d.target.0 as int,
                        )
                    },
            decreases ne - e,
        {
            match &self.dag.edges[e] {
                Some(d) => {
                    let src_ok = d.source.0 < n && self.dag.nodes[d.source.0].is_some();
                    let tgt_ok = d.target.0 < n && self.dag.nodes[d.target.0].is_some();
                    if !src_ok || !tgt_ok {
                        proof {
                            assert(self.dag.edge_live(e as int));
                            assert(!self.dag.wf());
                        }
                        return false;
                    }
                },
                None => {},
            }
            e = e + 1;
        }
        // port uniqueness
        let mut a: usize = 0;
        while a < ne
            invariant
                ne == self.dag.edges@.len(),
                0 <= a <= ne,
                forall|i2: int, j2: int|
                    #![trigger self.dag.edges@[i2], self.dag.edges@[j2]]
                    0 <= i2 < a && 0 <= j2 < ne && self.dag.edge_live(i2) && self.dag.edge_live(j2)
                        && i2 != j2 ==> {
                        let x = self.dag.edges@[i2]->Some_0;
                        let y = self.dag.edges@[j2]->Some_0;
                        !(x.source == y.source && x.source_port == y.source_port) && !(x.target
                            == y.target && x.target_port == y.target_port)
                    },
            decreases ne - a,
        {
            match &self.dag.edges[a] {
                Some(x) => {
                    let mut b: usize = 0;
                    while b < ne
                        invariant
                            ne == self.dag.edges@.len(),
                            0 <= b <= ne,
                            a < ne,
                            self.dag.edge_live(a as int),
                            *x == self.dag.edges@[a as int]->Some_0,
                            forall|j2: int|
                                0 <= j2 < b && self.dag.edge_live(j2) && j2 != a ==> {
                                    let y = (#[trigger] self.dag.edges@[j2])->Some_0;
                                    !(x.source == y.source && x.source_port == y.source_port) && !(
                                    x.target == y.target && x.target_port == y.target_port)
                                },
                        decreases ne - b,
                    {
                        if b != a {
                            match &self.dag.edges[b] {
                                Some(y) => {
                                    if (x.source.0 == y.source.0 && x.source_port == y.source_port)
                                        || (x.target.0 == y.target.0 && x.target_port
                                        == y.target_port) {
                                        proof {
                                            reveal(ports_unique);
                                            assert(self.dag.edge_live(b as int));
                                            assert(!ports_unique(self.dag));
                                        }
                                        return false;
                                    }
                                },
                                None => {},
                            }
                        }
                        b = b + 1;
                    }
                },
                None => {},
            }
            a = a + 1;
        }
        proof {
            reveal(ports_unique);
            assert forall|i2: int, j2: int|
                #![trigger self.dag.edges@[i2], self.dag.edges@[j2]]
                self.dag.edge_live(i2) && self.dag.edge_live(j2) && i2 != j2 implies {
                let x = self.dag.edges@[i2]->Some_0;
                let y = self.dag.edges@[j2]->Some_0;
                !(x.source == y.source && x.source_port == y.source_port) && !(x.target == y.target
                    && x.target_port == y.target_port)
            } by {}
        }
        true
    }
}

/// The node slots matched after the first `k` plan steps of a plan
/// under construction.
pub open spec fn built_binds(root: Vertex, plan: Seq<PatternEdge>, k: int) -> Set<int>
    decreases k,
{
    if k <= 0 {
        Set::empty().insert(root.0 as int)
    } else {
        built_binds(root, plan, k - 1).insert(plan[k - 1].other.0 as int).insert(
            plan[k - 1].known.0 as int,
        )
    }
}

/// `built_binds` reads only the first `k` steps.
proof fn lemma_built_binds_frame(root: Vertex, a: Seq<PatternEdge>, b: Seq<PatternEdge>, k: int)
    requires
        forall|i: int| 0 <= i < k ==> a[i] == b[i],
    ensures
        built_binds(root, a, k) == built_binds(root, b, k),
    decreases k,
{
    if k > 0 {
        lemma_built_binds_frame(root, a, b, k - 1);
    }
}

/// `built_binds` of a finished plan is `step_binds` of the pattern that
/// carries it.
proof fn lemma_built_is_step_binds(p: CircuitPattern, k: int)
    requires
        0 <= k,
    ensures
        p.step_binds(k) == built_binds(p.root, p.edges@, k),
    decreases k,
{
    if k > 0 {
        lemma_built_is_step_binds(p, k - 1);
    }
}

/// The grown region's facts carry the pattern invariant: every step
/// walks a real internal edge from a matched node, every internal edge
/// is planned and every command is matched.
#[verifier::rlimit(100)]
proof fn lemma_pattern_wf_from_growth(
    pattern: &CircuitPattern,
    circ: &Circuit,
    visited: Seq<bool>,
    planned: Seq<bool>,
)
    requires
        pattern.circuit.dag.nodes@ == circ.dag.nodes@,
        pattern.circuit.dag.edges@ == circ.dag.edges@,
        pattern.circuit.input == circ.input,
        pattern.circuit.output == circ.output,
        circ.wf(),
        circ.is_command(pattern.root.0 as int),
        visited.len() == circ.dag.nodes@.len(),
        planned.len() == circ.dag.edges@.len(),
        forall|x: int|
            0 <= x < visited.len() ==> (visited[x] <==> built_binds(
                pattern.root,
                pattern.edges@,
                pattern.edges@.len() as int,
            ).contains(x)),
        forall|k: int|
            0 <= k < pattern.edges@.len() ==> exists|e: int|
                internal_edge(*circ, e) && step_matches_edge(*circ, #[trigger] pattern.edges@[k], e),
        forall|k: int|
            0 <= k < pattern.edges@.len() ==> built_binds(
                pattern.root,
                pattern.edges@,
                k,
            ).contains((#[trigger] pattern.edges@[k]).known.0 as int),
        forall|k: int|
            0 <= k < pattern.edges@.len() ==> circ.is_command(
                (#[trigger] pattern.edges@[k]).known.0 as int,
            ) && circ.is_command(pattern.edges@[k].other.0 as int),
        forall|e: int|
            0 <= e < planned.len() && planned[e] ==> exists|k: int|
                0 <= k < pattern.edges@.len() && step_matches_edge(
                    *circ,
                    #[trigger] pattern.edges@[k],
                    e,
                ),
        forall|e: int| internal_edge(*circ, e) ==> planned[e],
        forall|x: int| 0 <= x < visited.len() && circ.is_command(x) ==> visited[x],
    ensures
        pattern.pattern_wf(),
{
    reveal(CircuitPattern::plan_steps_real);
    reveal(CircuitPattern::plan_covers);
    reveal(CircuitPattern::plan_reaches_all);
    reveal(crate::circuit::circuit::ports_unique);
    // the duplicated circuit agrees with the host on every spec the
    // pattern invariant reads
    assert forall|i: int|
        pattern.circuit.is_command(i) == circ.is_command(i) by {}
    assert forall|e: int| internal_edge(pattern.circuit, e) == internal_edge(*circ, e) by {}
    assert(pattern.circuit.wf()) by {
        assert(pattern.circuit.boundary_ok()) by {
            assert forall|i: int|
                pattern.circuit.dag.node_live(i) && i != pattern.circuit.input.0 && i
                    != pattern.circuit.output.0 implies pattern.circuit.node_op(i) != Op::Input
                && pattern.circuit.node_op(i) != Op::Output by {
                assert(circ.dag.node_live(i));
                assert(circ.node_op(i) != Op::Input && circ.node_op(i) != Op::Output);
            }
        }
        assert(pattern.circuit.dag.wf()) by {
            assert forall|i: int| pattern.circuit.dag.edge_live(i) implies {
                let ed = pattern.circuit.dag.edges@[i]->Some_0;
                pattern.circuit.dag.node_live(ed.source.0 as int) && pattern.circuit.dag.node_live(
                    ed.target.0 as int,
                )
            } by {
                assert(circ.dag.edge_live(i));
            }
        }
        assert(crate::circuit::circuit::ports_unique(pattern.circuit.dag)) by {
            assert forall|i: int, j: int|
                #![trigger pattern.circuit.dag.edges@[i], pattern.circuit.dag.edges@[j]]
                pattern.circuit.dag.edge_live(i) && pattern.circuit.dag.edge_live(j) && i
                    != j implies {
                let a = pattern.circuit.dag.edges@[i]->Some_0;
                let b = pattern.circuit.dag.edges@[j]->Some_0;
                !(a.source == b.source && a.source_port == b.source_port) && !(a.target == b.target
                    && a.target_port == b.target_port)
            } by {
                assert(circ.dag.edge_live(i) && circ.dag.edge_live(j));
            }
        }
    }
    assert(pattern.circuit.is_command(pattern.root.0 as int));
    assert(pattern.plan_steps_real()) by {
        assert forall|k: int|
            0 <= k < pattern.edges@.len() implies exists|e: int|
            internal_edge(pattern.circuit, e) && step_matches_edge(
                pattern.circuit,
                #[trigger] pattern.edges@[k],
                e,
            ) by {
            let e = choose|e: int|
                internal_edge(*circ, e) && step_matches_edge(*circ, pattern.edges@[k], e);
            assert(internal_edge(pattern.circuit, e));
            assert(step_matches_edge(pattern.circuit, pattern.edges@[k], e));
        }
        assert forall|k: int|
            0 <= k < pattern.edges@.len() implies pattern.step_binds(k).contains(
            (#[trigger] pattern.edges@[k]).known.0 as int,
        ) by {
            lemma_built_is_step_binds(*pattern, k);
        }
    }
    assert(pattern.plan_covers()) by {
        assert forall|e: int| internal_edge(pattern.circuit, e) implies exists|k: int|
            0 <= k < pattern.edges@.len() && step_matches_edge(
                pattern.circuit,
                #[trigger] pattern.edges@[k],
                e,
            ) by {
            assert(internal_edge(*circ, e));
            assert(planned[e]);
            let k = choose|k: int|
                0 <= k < pattern.edges@.len() && step_matches_edge(
                    *circ,
                    #[trigger] pattern.edges@[k],
                    e,
                );
            assert(step_matches_edge(pattern.circuit, pattern.edges@[k], e));
        }
    }
    assert(pattern.plan_reaches_all()) by {
        assert forall|i: int|
            pattern.circuit.is_command(i) implies pattern.step_binds(
            pattern.edges@.len() as int,
        ).contains(i) by {
            assert(circ.is_command(i));
            assert(visited[i]);
            lemma_built_is_step_binds(*pattern, pattern.edges@.len() as int);
        }
    }
}

/// An undirected step between command nodes `a` and `b` along an
/// internal edge.
pub open spec fn internal_step(c: Circuit, a: int, b: int) -> bool {
    exists|e: int|
        #[trigger] internal_edge(c, e) && ((c.dag.edges@[e]->Some_0.source.0 == a
            && c.dag.edges@[e]->Some_0.target.0 == b) || (c.dag.edges@[e]->Some_0.source.0 == b
            && c.dag.edges@[e]->Some_0.target.0 == a))
}

/// An undirected walk through command nodes along internal edges.
pub open spec fn internal_path(c: Circuit, p: Seq<int>) -> bool {
    &&& p.len() >= 1
    &&& forall|k: int| 0 <= k < p.len() ==> c.is_command(#[trigger] p[k])
    &&& forall|k: int| 0 <= k < p.len() - 1 ==> internal_step(c, #[trigger] p[k], p[k + 1])
}

/// Every pair of command nodes is joined by an undirected walk along
/// internal edges: the connectedness that pattern compilation demands.
pub open spec fn commands_connected(c: Circuit) -> bool {
    forall|a: int, b: int|
        #![trigger c.is_command(a), c.is_command(b)]
        c.is_command(a) && c.is_command(b) ==> exists|p: Seq<int>|
            #[trigger] internal_path(c, p) && p[0] == a && p[p.len() - 1] == b
}

/// The grown region is closed: planned edges are internal with both
/// endpoints visited, and an internal edge with a visited endpoint is
/// planned.
spec fn growth_closed(c: Circuit, visited: Seq<bool>, planned: Seq<bool>) -> bool {
    &&& visited.len() == c.dag.nodes@.len()
    &&& planned.len() == c.dag.edges@.len()
    &&& forall|e: int|
        0 <= e < planned.len() && planned[e] ==> internal_edge(c, e) && visited[(
        #[trigger] c.dag.edges@[e])->Some_0.source.0 as int] && visited[c.dag.edges@[
            e
        ]->Some_0.target.0 as int]
    &&& forall|e: int|
        internal_edge(c, e) && (visited[(#[trigger] c.dag.edges@[e])->Some_0.source.0 as int]
            || visited[c.dag.edges@[e]->Some_0.target.0 as int]) ==> planned[e]
}

/// A walk from a visited command has a first unvisited position.
proof fn lemma_first_unvisited(c: Circuit, visited: Seq<bool>, p: Seq<int>, k: int)
    requires
        visited.len() == c.dag.nodes@.len(),
        internal_path(c, p),
        0 <= k < p.len(),
        0 <= p[0] < visited.len(),
        visited[p[0]],
        0 <= p[k] < visited.len(),
        !visited[p[k]],
    ensures
        exists|j: int|
            0 < j <= k && 0 <= #[trigger] p[j] < visited.len() && !visited[p[j]] && forall|m: int|
                0 <= m < j ==> 0 <= #[trigger] p[m] < visited.len() && visited[p[m]],
    decreases k,
{
    if exists|m: int|
        0 <= m < k && 0 <= #[trigger] p[m] < visited.len() && !visited[p[m]] {
        let m = choose|m: int|
            0 <= m < k && 0 <= #[trigger] p[m] < visited.len() && !visited[p[m]];
        lemma_first_unvisited(c, visited, p, m);
    } else {
        assert forall|m: int| 0 <= m < k implies 0 <= #[trigger] p[m] < visited.len() && visited[
            p[m]
        ] by {
            assert(c.is_command(p[m]));
        }
        assert(0 < k <= k && 0 <= p[k] < visited.len() && !visited[p[k]]);
    }
}

/// In a closed region, no walk leads from a visited command to an
/// unvisited one.
proof fn lemma_closed_unreachable(
    c: Circuit,
    visited: Seq<bool>,
    planned: Seq<bool>,
    start: int,
    x: int,
)
    requires
        growth_closed(c, visited, planned),
        0 <= start < visited.len(),
        visited[start],
        0 <= x < visited.len(),
        !visited[x],
    ensures
        forall|p: Seq<int>|
            !(#[trigger] internal_path(c, p) && p[0] == start && p[p.len() - 1] == x),
{
    assert forall|p: Seq<int>|
        !(#[trigger] internal_path(c, p) && p[0] == start && p[p.len() - 1] == x) by {
        if internal_path(c, p) && p[0] == start && p[p.len() - 1] == x {
            lemma_first_unvisited(c, visited, p, p.len() - 1);
            let j = choose|j: int|
                0 < j <= p.len() - 1 && 0 <= #[trigger] p[j] < visited.len() && !visited[p[j]]
                    && forall|m: int|
                    0 <= m < j ==> 0 <= #[trigger] p[m] < visited.len() && visited[p[m]];
            assert(internal_step(c, p[j - 1], p[j]));
            let e = choose|e: int|
                #[trigger] internal_edge(c, e) && ((c.dag.edges@[e]->Some_0.source.0 == p[j - 1]
                    && c.dag.edges@[e]->Some_0.target.0 == p[j]) || (c.dag.edges@[
                    e
                ]->Some_0.source.0 == p[j] && c.dag.edges@[e]->Some_0.target.0 == p[j - 1]));
            assert(planned[e]);
            assert(false);
        }
    }
}

impl CircuitPattern {
    /// Compile a circuit into a pattern.
    ///
    /// Fails with `EmptyPattern` exactly when the circuit has no command
    /// nodes, and with `NotConnected` when some command or internal edge
    /// cannot be reached from the root, or the circuit is malformed.
    pub fn try_from_circuit(circ: &Circuit) -> (r: Result<CircuitPattern, InvalidPattern>)
        ensures
            match r {
                Ok(p) => {
                    &&& p.pattern_wf()
                    &&& p.circuit.dag.nodes@ == circ.dag.nodes@
                    &&& p.circuit.dag.edges@ == circ.dag.edges@
                    // the root is a command of the highest total degree,
                    // ties broken towards the lowest index
                    &&& forall|i: int|
                        circ.is_command(i) ==> spec_degree(
                            circ.dag.edges@,
                            i,
                            circ.dag.edges@.len() as int,
                        ) <= spec_degree(
                            circ.dag.edges@,
                            p.root.0 as int,
                            circ.dag.edges@.len() as int,
                        )
                    &&& forall|i: int|
                        circ.is_command(i) && spec_degree(
                            circ.dag.edges@,
                            i,
                            circ.dag.edges@.len() as int,
                        ) == spec_degree(
                            circ.dag.edges@,
                            p.root.0 as int,
                            circ.dag.edges@.len() as int,
                        ) ==> p.root.0 <= i
                },
                Err(e) => {
                    &&& (e == InvalidPattern::EmptyPattern <==> circ.commands_spec_len() == 0)
                    &&& e == InvalidPattern::NotConnected ==> (circ.wf()
                        ==> !commands_connected(*circ))
                },
            },
            // success is owed on a well-formed circuit whose commands are
            // connected
            (circ.wf() && circ.commands_spec_len() != 0 && commands_connected(*circ)) ==> r is Ok,
    {
        let n = circ.dag.nodes.len();
        let ne = circ.dag.edges.len();
        let commands = circ.commands();
        if commands.len() == 0 {
            proof {
                if circ.commands_spec_len() != 0 {
                    lemma_count_commands_positive(*circ);
                }
            }
            return Err(InvalidPattern::EmptyPattern);
        }
        proof {
            lemma_command_implies_count_positive(*circ, commands@[0].0 as int);
        }
        // root: the command with the highest total degree, ties broken by
        // the lowest index
        let mut root = commands[0];
        let mut best_deg: usize = node_degree(circ, commands[0]);
        let mut ci: usize = 1;
        while ci < commands.len()
            invariant
                1 <= ci <= commands@.len(),
                commands@.len() >= 1,
                forall|j: int|
                    0 <= j < commands@.len() ==> circ.is_command((#[trigger] commands@[j]).0 as int),
                forall|i2: int|
                    circ.is_command(i2) ==> exists|j: int|
                        0 <= j < commands@.len() && (#[trigger] commands@[j]).0 == i2,
                forall|j: int, k: int| 0 <= j < k < commands@.len() ==> commands@[j].0 < commands@[k].0,
                circ.is_command(root.0 as int),
                best_deg == spec_degree(circ.dag.edges@, root.0 as int, circ.dag.edges@.len() as int),
                forall|j: int|
                    0 <= j < ci ==> spec_degree(
                        circ.dag.edges@,
                        (#[trigger] commands@[j]).0 as int,
                        circ.dag.edges@.len() as int,
                    ) <= best_deg,
                forall|j: int|
                    0 <= j < ci && spec_degree(
                        circ.dag.edges@,
                        (#[trigger] commands@[j]).0 as int,
                        circ.dag.edges@.len() as int,
                    ) == best_deg ==> root.0 <= commands@[j].0,
                exists|j: int| 0 <= j < ci && (#[trigger] commands@[j]) == root,
            decreases commands@.len() - ci,
        {
            let d = node_degree(circ, commands[ci]);
            if d > best_deg {
                best_deg = d;
                root = commands[ci];
            }
            ci = ci + 1;
        }
        proof {
            assert forall|i2: int|
                circ.is_command(i2) implies spec_degree(
                circ.dag.edges@,
                i2,
                circ.dag.edges@.len() as int,
            ) <= best_deg && (spec_degree(circ.dag.edges@, i2, circ.dag.edges@.len() as int)
                == best_deg ==> root.0 <= i2) by {
                let j = choose|j: int|
                    0 <= j < commands@.len() && (#[trigger] commands@[j]).0 == i2;
            }
        }
        proof {
            assert(circ.is_command(root.0 as int));
        }
        if !circ.check_wf() {
            return Err(InvalidPattern::NotConnected);
        }
        // grow the matched region outward from the root to a fixpoint
        let mut visited: Vec<bool> = Vec::new();
        let mut i: usize = 0;
        while i < n
            invariant
                visited@.len() == i,
                0 <= i <= n,
                forall|j: int| 0 <= j < i ==> !visited@[j],
            decreases n - i,
        {
            visited.push(false);
            i = i + 1;
        }
        visited.set(root.0, true);
        let mut planned: Vec<bool> = Vec::new();
        let mut i: usize = 0;
        while i < ne
            invariant
                planned@.len() == i,
                0 <= i <= ne,
                forall|j: int| 0 <= j < i ==> !planned@[j],
            decreases ne - i,
        {
            planned.push(false);
            i = i + 1;
        }
        let mut plan: Vec<PatternEdge> = Vec::new();
        proof {
            assert forall|x: int|
                0 <= x < n implies (visited@[x] <==> built_binds(root, plan@, 0).contains(x)) by {}
            crate::portmatching::convex::lemma_count_true_bounds(planned@, ne as int);
        }
        let mut again = true;
        while again
            invariant
                n == circ.dag.nodes@.len(),
                ne == circ.dag.edges@.len(),
                visited@.len() == n,
                planned@.len() == ne,
                circ.is_command(root.0 as int),
                root.0 < n,
                visited@[root.0 as int],
                0 <= crate::portmatching::convex::count_true(planned@, ne as int) <= ne,
                forall|x: int|
                    0 <= x < n ==> (visited@[x] <==> built_binds(
                        root,
                        plan@,
                        plan@.len() as int,
                    ).contains(x)),
                forall|k: int|
                    0 <= k < plan@.len() ==> exists|e: int|
                        internal_edge(*circ, e) && step_matches_edge(
                            *circ,
                            #[trigger] plan@[k],
                            e,
                        ),
                forall|k: int|
                    0 <= k < plan@.len() ==> built_binds(root, plan@, k).contains(
                        (#[trigger] plan@[k]).known.0 as int,
                    ),
                forall|k: int|
                    0 <= k < plan@.len() ==> circ.is_command(
                        (#[trigger] plan@[k]).known.0 as int,
                    ) && circ.is_command(plan@[k].other.0 as int),
                forall|e: int|
                    0 <= e < ne && planned@[e] ==> internal_edge(*circ, e) && visited@[(
                    #[trigger] circ.dag.edges@[e])->Some_0.source.0 as int] && visited@[
                        circ.dag.edges@[e]->Some_0.target.0 as int
                    ],
                forall|e: int|
                    0 <= e < ne && planned@[e] ==> exists|k: int|
                        0 <= k < plan@.len() && step_matches_edge(
                            *circ,
                            #[trigger] plan@[k],
                            e,
                        ),
                !again ==> growth_closed(*circ, visited@, planned@),
            decreases
                    ne - crate::portmatching::convex::count_true(planned@, ne as int) + (if again {
                        1int
                    } else {
                        0int
                    }),
        {
            again = false;
            let ghost count0 = crate::portmatching::convex::count_true(planned@, ne as int);
            let mut e: usize = 0;
            while e < ne
                invariant
                    n == circ.dag.nodes@.len(),
                    ne == circ.dag.edges@.len(),
                    visited@.len() == n,
                    planned@.len() == ne,
                    circ.is_command(root.0 as int),
                    root.0 < n,
                    visited@[root.0 as int],
                    0 <= e <= ne,
                    0 <= crate::portmatching::convex::count_true(planned@, ne as int) <= ne,
                    again ==> crate::portmatching::convex::count_true(planned@, ne as int)
                        > count0,
                    !again ==> crate::portmatching::convex::count_true(planned@, ne as int)
                        == count0,
                    forall|x: int|
                        0 <= x < n ==> (visited@[x] <==> built_binds(
                            root,
                            plan@,
                            plan@.len() as int,
                        ).contains(x)),
                    forall|k: int|
                        0 <= k < plan@.len() ==> exists|e2: int|
                            internal_edge(*circ, e2) && step_matches_edge(
                                *circ,
                                #[trigger] plan@[k],
                                e2,
                            ),
                    forall|k: int|
                        0 <= k < plan@.len() ==> built_binds(root, plan@, k).contains(
                            (#[trigger] plan@[k]).known.0 as int,
                        ),
                    forall|k: int|
                        0 <= k < plan@.len() ==> circ.is_command(
                            (#[trigger] plan@[k]).known.0 as int,
                        ) && circ.is_command(plan@[k].other.0 as int),
                    forall|e2: int|
                        0 <= e2 < ne && planned@[e2] ==> internal_edge(*circ, e2) && visited@[(
                        #[trigger] circ.dag.edges@[e2])->Some_0.source.0 as int] && visited@[
                            circ.dag.edges@[e2]->Some_0.target.0 as int
                        ],
                    forall|e2: int|
                        0 <= e2 < ne && planned@[e2] ==> exists|k: int|
                            0 <= k < plan@.len() && step_matches_edge(
                                *circ,
                                #[trigger] plan@[k],
                                e2,
                            ),
                    !again ==> forall|e2: int|
                        0 <= e2 < e && internal_edge(*circ, e2) && (visited@[(
                        #[trigger] circ.dag.edges@[e2])->Some_0.source.0 as int] || visited@[
                            circ.dag.edges@[e2]->Some_0.target.0 as int
                        ]) ==> planned@[e2],
                decreases ne - e,
            {
                let step = match &circ.dag.edges[e] {
                    Some(d) => {
                        if !planned[e] && d.source.0 < n && d.target.0 < n && is_command_exec(
                            circ,
                            d.source.0,
                        ) && is_command_exec(circ, d.target.0) {
                            if visited[d.source.0] {
                                Some(
                                    PatternEdge {
                                        known: d.source,
                                        port: d.source_port,
                                        out: true,
                                        other: d.target,
                                        other_port: d.target_port,
                                        wire: d.weight.edge_type,
                                    },
                                )
                            } else if visited[d.target.0] {
                                Some(
                                    PatternEdge {
                                        known: d.target,
                                        port: d.target_port,
                                        out: false,
                                        other: d.source,
                                        other_port: d.source_port,
                                        wire: d.weight.edge_type,
                                    },
                                )
                            } else {
                                None
                            }
                        } else {
                            None
                        }
                    },
                    None => None,
                };
                match step {
                    Some(st) => {
                        let ghost prev_planned = planned@;
                        let ghost prev_plan = plan@;
                        let ghost prev_visited = visited@;
                        planned.set(e, true);
                        visited.set(st.other.0, true);
                        visited.set(st.known.0, true);
                        plan.push(st);
                        again = true;
                        proof {
                            crate::portmatching::convex::lemma_count_true_set(
                                prev_planned,
                                ne as int,
                                e as int,
                            );
                            crate::portmatching::convex::lemma_count_true_bounds(
                                planned@,
                                ne as int,
                            );
                            assert(internal_edge(*circ, e as int));
                            assert(step_matches_edge(*circ, st, e as int));
                            assert(built_binds(root, plan@, plan@.len() - 1) == built_binds(
                                root,
                                prev_plan,
                                prev_plan.len() as int,
                            )) by {
                                lemma_built_binds_frame(root, prev_plan, plan@, prev_plan.len() as int);
                            }
                            assert forall|x: int|
                                0 <= x < n implies (visited@[x] <==> built_binds(
                                root,
                                plan@,
                                plan@.len() as int,
                            ).contains(x)) by {}
                            assert forall|k: int|
                                0 <= k < plan@.len() implies built_binds(
                                root,
                                plan@,
                                k,
                            ).contains((#[trigger] plan@[k]).known.0 as int) by {
                                lemma_built_binds_frame(root, prev_plan, plan@, k);
                                if k < prev_plan.len() {
                                } else {
                                    assert(prev_visited[st.known.0 as int]);
                                }
                            }
                            assert forall|e2: int|
                                0 <= e2 < ne && planned@[e2] implies exists|k: int|
                                0 <= k < plan@.len() && step_matches_edge(
                                    *circ,
                                    #[trigger] plan@[k],
                                    e2,
                                ) by {
                                if e2 == e as int {
                                    assert(step_matches_edge(
                                        *circ,
                                        plan@[plan@.len() - 1],
                                        e2,
                                    ));
                                } else {
                                    assert(prev_planned[e2]);
                                    let k = choose|k: int|
                                        0 <= k < prev_plan.len() && step_matches_edge(
                                            *circ,
                                            #[trigger] prev_plan[k],
                                            e2,
                                        );
                                    assert(step_matches_edge(*circ, plan@[k], e2));
                                }
                            }
                        }
                    },
                    None => {},
                }
                e = e + 1;
            }
        }
        // every command must have been reached from the root
        let mut i: usize = 0;
        while i < n
            invariant
                n == circ.dag.nodes@.len(),
                ne == circ.dag.edges@.len(),
                visited@.len() == n,
                planned@.len() == ne,
                root.0 < n,
                circ.is_command(root.0 as int),
                visited@[root.0 as int],
                growth_closed(*circ, visited@, planned@),
                0 <= i <= n,
                forall|x: int| 0 <= x < i && circ.is_command(x) ==> visited@[x],
            decreases n - i,
        {
            if is_command_exec(circ, i) && !visited[i] {
                proof {
                    lemma_command_implies_count_positive(*circ, i as int);
                    lemma_closed_unreachable(*circ, visited@, planned@, root.0 as int, i as int);
                    if commands_connected(*circ) {
                        assert(circ.is_command(root.0 as int) && circ.is_command(i as int));
                        let p = choose|p: Seq<int>|
                            #[trigger] internal_path(*circ, p) && p[0] == root.0 as int && p[p.len()
                                - 1] == i as int;
                        assert(false);
                    }
                }
                return Err(InvalidPattern::NotConnected);
            }
            i = i + 1;
        }
        // with every command visited, the closed region has swallowed
        // every internal edge
        proof {
            assert forall|e2: int| internal_edge(*circ, e2) implies planned@[e2] by {
                let d = circ.dag.edges@[e2]->Some_0;
                assert(circ.is_command(d.source.0 as int));
                assert(visited@[d.source.0 as int]);
            }
        }
        // the boundary of the pattern in its own circuit
        let mut inputs: Vec<Vec<(Vertex, usize)>> = Vec::new();
        let mut w: usize = 0;
        while w < circ.n_wires
            decreases circ.n_wires - w,
        {
            match circ.linked_port_from(circ.input, w) {
                Some(link) => inputs.push(vec![(link.0, link.1)]),
                None => inputs.push(vec![]),
            }
            w = w + 1;
        }
        let mut outputs: Vec<(Vertex, usize)> = Vec::new();
        let mut w: usize = 0;
        while w < circ.n_wires
            decreases circ.n_wires - w,
        {
            match circ.linked_port_to(circ.output, w) {
                Some(link) => outputs.push((link.0, link.1)),
                None => {},
            }
            w = w + 1;
        }
        let pattern = CircuitPattern {
            circuit: circ.duplicate(),
            root,
            edges: plan,
            inputs,
            outputs,
        };
        proof {
            lemma_pattern_wf_from_growth(&pattern, circ, visited@, planned@);
        }
        Ok(pattern)
    }

}

/// The number of live edges among the first `n` slots that have `v` as
/// an endpoint.
pub open spec fn spec_degree(
    edges: Seq<Option<crate::graph::graph::EdgeData<crate::circuit::dag::EdgeProperties, usize>>>,
    v: int,
    n: int,
) -> int
    decreases n,
{
    if n <= 0 {
        0
    } else {
        spec_degree(edges, v, n - 1) + match edges[n - 1] {
            Some(d) => if d.source.0 == v || d.target.0 == v {
                1int
            } else {
                0int
            },
            None => 0int,
        }
    }
}

/// The root that pattern compilation picks is determined by the circuit
/// alone: among the commands of highest total degree, the lowest index.
/// Two candidates satisfying that rule coincide, so recompiling a stored
/// circuit yields a pattern with the original root.
pub proof fn lemma_root_determined(c: Circuit, r1: Vertex, r2: Vertex)
    requires
        c.is_command(r1.0 as int),
        c.is_command(r2.0 as int),
        forall|i: int|
            c.is_command(i) ==> spec_degree(c.dag.edges@, i, c.dag.edges@.len() as int)
                <= spec_degree(c.dag.edges@, r1.0 as int, c.dag.edges@.len() as int),
        forall|i: int|
            c.is_command(i) && spec_degree(c.dag.edges@, i, c.dag.edges@.len() as int)
                == spec_degree(c.dag.edges@, r1.0 as int, c.dag.edges@.len() as int) ==> r1.0
                <= i,
        forall|i: int|
            c.is_command(i) ==> spec_degree(c.dag.edges@, i, c.dag.edges@.len() as int)
                <= spec_degree(c.dag.edges@, r2.0 as int, c.dag.edges@.len() as int),
        forall|i: int|
            c.is_command(i) && spec_degree(c.dag.edges@, i, c.dag.edges@.len() as int)
                == spec_degree(c.dag.edges@, r2.0 as int, c.dag.edges@.len() as int) ==> r2.0
                <= i,
    ensures
        r1 == r2,
{
    let ne = c.dag.edges@.len() as int;
    assert(spec_degree(c.dag.edges@, r1.0 as int, ne) <= spec_degree(c.dag.edges@, r2.0 as int, ne));
    assert(spec_degree(c.dag.edges@, r2.0 as int, ne) <= spec_degree(c.dag.edges@, r1.0 as int, ne));
    assert(r1.0 <= r2.0);
    assert(r2.0 <= r1.0);
}

/// The total number of live edges incident to `v`.
fn node_degree(circ: &Circuit, v: Vertex) -> (r: usize)
    ensures
        r == spec_degree(circ.dag.edges@, v.0 as int, circ.dag.edges@.len() as int),
{
    let mut count: usize = 0;
    let mut e: usize = 0;
    while e < circ.dag.edges.len()
        invariant
            0 <= e <= circ.dag.edges@.len(),
            count <= e,
            count == spec_degree(circ.dag.edges@, v.0 as int, e as int),
        decreases circ.dag.edges@.len() - e,
    {
        match &circ.dag.edges[e] {
            Some(d) => {
                if d.source.0 == v.0 || d.target.0 == v.0 {
                    count = count + 1;
                }
            },
            None => {},
        }
        e = e + 1;
    }
    count
}

proof fn lemma_count_mono(c: Circuit, i: int, j: int)
    requires
        0 <= i <= j,
    ensures
        crate::circuit::circuit::count_commands(c, i) <= crate::circuit::circuit::count_commands(
            c,
            j,
        ),
    decreases j,
{
    if j > i {
        lemma_count_mono(c, i, j - 1);
    }
}

proof fn lemma_count_nonneg(c: Circuit, n: int)
    ensures
        crate::circuit::circuit::count_commands(c, n) >= 0,
    decreases n,
{
    if n > 0 {
        lemma_count_nonneg(c, n - 1);
    }
}

/// A circuit with a command node has a positive command count.
proof fn lemma_command_implies_count_positive(c: Circuit, i: int)
    requires
        c.is_command(i),
    ensures
        c.commands_spec_len() > 0,
{
    lemma_count_nonneg(c, i);
    assert(crate::circuit::circuit::count_commands(c, i + 1)
        == crate::circuit::circuit::count_commands(c, i) + 1);
    lemma_count_mono(c, i + 1, c.dag.nodes@.len() as int);
}

proof fn lemma_count_commands_positive(c: Circuit)
    requires
        crate::circuit::circuit::count_commands(c, c.dag.nodes@.len() as int) != 0,
    ensures
        exists|i: int| c.is_command(i),
{
    lemma_count_commands_witness(c, c.dag.nodes@.len() as int);
}

proof fn lemma_count_commands_witness(c: Circuit, n: int)
    requires
        crate::circuit::circuit::count_commands(c, n) != 0,
    ensures
        exists|i: int| c.is_command(i),
    decreases n,
{
    if n > 0 {
        if c.is_command(n - 1) {
        } else {
            lemma_count_commands_witness(c, n - 1);
        }
    }
}

/// A matcher object for pattern matching on circuits: it owns a set of
/// compiled patterns and runs each against every candidate root.
#[derive(Clone, Debug)]
pub struct PatternMatcher {
    pub patterns: Vec<CircuitPattern>,
}

impl PatternMatcher {
    /// All stored patterns are valid.
    pub open spec fn matcher_wf(self) -> bool {
        forall|i: int|
            0 <= i < self.patterns@.len() ==> (#[trigger] self.patterns@[i]).pattern_wf()
    }

    /// Construct a matcher from a set of patterns.
    pub fn from_patterns(patterns: Vec<CircuitPattern>) -> (r: Self)
        requires
            forall|i: int|
                0 <= i < patterns@.len() ==> (#[trigger] patterns@[i]).pattern_wf(),
        ensures
            r.matcher_wf(),
            r.patterns@ == patterns@,
    {
        PatternMatcher { patterns }
    }

    /// Get a pattern by ID.
    pub fn get_pattern(&self, id: PatternID) -> (r: Option<&CircuitPattern>)
        ensures
            match r {
                Some(p) => id.0 < self.patterns@.len() && *p == self.patterns@[id.0 as int],
                None => id.0 >= self.patterns@.len(),
            },
    {
        if id.0 < self.patterns.len() {
            Some(&self.patterns[id.0])
        } else {
            None
        }
    }

    /// The number of patterns in the matcher.
    pub fn n_patterns(&self) -> (r: usize)
        ensures
            r == self.patterns@.len(),
    {
        self.patterns.len()
    }

    /// Find all convex pattern matches in a circuit.
    ///
    /// Every returned match is sound: its pattern embeds in the host
    /// with the match's root as the image of the pattern root, and the
    /// matched node set is the image of that embedding and is convex.
    pub fn find_matches(&self, circuit: &Circuit) -> (r: Vec<PatternMatch>)
        requires
            self.matcher_wf(),
        ensures
            forall|i: int|
                0 <= i < r@.len() ==> {
                    let mt = #[trigger] r@[i];
                    &&& mt.pattern.0 < self.patterns@.len()
                    &&& exists|m: Seq<Option<Vertex>>|
                        embedding_rooted(
                            self.patterns@[mt.pattern.0 as int],
                            *circuit,
                            m,
                            mt.root,
                        ) && node_set(mt.position.nodes@) =~= image_set(m)
                    &&& spec_is_convex(*circuit, node_set(mt.position.nodes@))
                },
            circuit.wf() ==> forall|pi: int, rt: Vertex, m: Seq<Option<Vertex>>|
                #![trigger embedding_rooted(self.patterns@[pi], *circuit, m, rt)]
                0 <= pi < self.patterns@.len() && embedding_rooted(
                    self.patterns@[pi],
                    *circuit,
                    m,
                    rt,
                ) && spec_is_convex(*circuit, image_set(m)) ==> exists|i: int|
                    0 <= i < r@.len() && (#[trigger] r@[i]).pattern.0 == pi && r@[i].root == rt
                        && node_set(r@[i].position.nodes@) =~= image_set(m),
            forall|i: int, j: int|
                0 <= i < j < r@.len() ==> !((#[trigger] r@[i]).pattern == (#[trigger] r@[j]).pattern
                    && r@[i].root == r@[j].root),
    {
        let mut result: Vec<PatternMatch> = Vec::new();
        let roots = circuit.commands();
        let mut ri: usize = 0;
        while ri < roots.len()
            invariant
                self.matcher_wf(),
                forall|i: int|
                    0 <= i < result@.len() ==> {
                        let mt = #[trigger] result@[i];
                        &&& mt.pattern.0 < self.patterns@.len()
                        &&& exists|m: Seq<Option<Vertex>>|
                            embedding_rooted(
                                self.patterns@[mt.pattern.0 as int],
                                *circuit,
                                m,
                                mt.root,
                            ) && node_set(mt.position.nodes@) =~= image_set(m)
                        &&& spec_is_convex(*circuit, node_set(mt.position.nodes@))
                    },
                0 <= ri <= roots@.len(),
                forall|j: int| 0 <= j < roots@.len() ==> circuit.is_command((#[trigger] roots@[j]).0 as int),
                forall|i2: int|
                    circuit.is_command(i2) ==> exists|j: int|
                        0 <= j < roots@.len() && (#[trigger] roots@[j]).0 == i2,
                forall|j: int, k: int| 0 <= j < k < roots@.len() ==> roots@[j].0 < roots@[k].0,
                forall|i: int|
                    0 <= i < result@.len() ==> exists|j: int|
                        0 <= j < ri && (#[trigger] result@[i]).root == roots@[j],
                forall|i: int, j: int|
                    0 <= i < j < result@.len() ==> !((#[trigger] result@[i]).pattern == (
                    #[trigger] result@[j]).pattern && result@[i].root == result@[j].root),
                circuit.wf() ==> forall|j: int, pi: int, m: Seq<Option<Vertex>>|
                    #![trigger embedding_rooted(self.patterns@[pi], *circuit, m, roots@[j])]
                    0 <= j < ri && 0 <= pi < self.patterns@.len() && embedding_rooted(
                        self.patterns@[pi],
                        *circuit,
                        m,
                        roots@[j],
                    ) && spec_is_convex(*circuit, image_set(m)) ==> exists|i: int|
                        0 <= i < result@.len() && (#[trigger] result@[i]).pattern.0 == pi
                            && result@[i].root == roots@[j] && node_set(result@[i].position.nodes@)
                            =~= image_set(m),
            decreases roots@.len() - ri,
        {
            let root = roots[ri];
            let mut pi: usize = 0;
            while pi < self.patterns.len()
                invariant
                    self.matcher_wf(),
                    forall|i: int|
                        0 <= i < result@.len() ==> {
                            let mt = #[trigger] result@[i];
                            &&& mt.pattern.0 < self.patterns@.len()
                            &&& exists|m: Seq<Option<Vertex>>|
                                embedding_rooted(
                                    self.patterns@[mt.pattern.0 as int],
                                    *circuit,
                                    m,
                                    mt.root,
                                ) && node_set(mt.position.nodes@) =~= image_set(m)
                            &&& spec_is_convex(*circuit, node_set(mt.position.nodes@))
                        },
                ri < roots@.len(),
                0 <= pi <= self.patterns@.len(),
                root == roots@[ri as int],
                forall|j: int| 0 <= j < roots@.len() ==> circuit.is_command((#[trigger] roots@[j]).0 as int),
                forall|i2: int|
                    circuit.is_command(i2) ==> exists|j: int|
                        0 <= j < roots@.len() && (#[trigger] roots@[j]).0 == i2,
                forall|j: int, k: int| 0 <= j < k < roots@.len() ==> roots@[j].0 < roots@[k].0,
                forall|i: int|
                    0 <= i < result@.len() ==> (exists|j: int|
                        0 <= j < ri && (#[trigger] result@[i]).root == roots@[j]) || (result@[i].root
                        == root && result@[i].pattern.0 < pi),
                forall|i: int, j: int|
                    0 <= i < j < result@.len() ==> !((#[trigger] result@[i]).pattern == (
                    #[trigger] result@[j]).pattern && result@[i].root == result@[j].root),
                circuit.wf() ==> forall|j: int, pi2: int, m: Seq<Option<Vertex>>|
                    #![trigger embedding_rooted(self.patterns@[pi2], *circuit, m, roots@[j])]
                    0 <= j < ri && 0 <= pi2 < self.patterns@.len() && embedding_rooted(
                        self.patterns@[pi2],
                        *circuit,
                        m,
                        roots@[j],
                    ) && spec_is_convex(*circuit, image_set(m)) ==> exists|i: int|
                        0 <= i < result@.len() && (#[trigger] result@[i]).pattern.0 == pi2
                            && result@[i].root == roots@[j] && node_set(
                            result@[i].position.nodes@,
                        ) =~= image_set(m),
                circuit.wf() ==> forall|pi2: int, m: Seq<Option<Vertex>>|
                    #![trigger embedding_rooted(self.patterns@[pi2], *circuit, m, root)]
                    0 <= pi2 < pi && embedding_rooted(self.patterns@[pi2], *circuit, m, root)
                        && spec_is_convex(*circuit, image_set(m)) ==> exists|i: int|
                        0 <= i < result@.len() && (#[trigger] result@[i]).pattern.0 == pi2
                            && result@[i].root == root && node_set(result@[i].position.nodes@)
                            =~= image_set(m),
                decreases self.patterns@.len() - pi,
            {
                let ghost pre_result = result@;
                match self.patterns[pi].get_match_map(root, circuit) {
                    Some(binding) => {
                        let nodes = collect_image(&binding);
                        let ghost nodes_view = nodes@;
                        let convex_here = check_convex(circuit, &nodes);
                        if convex_here && nodes.len() > 0 {
                            let position = boundary_in_host(
                                &self.patterns[pi],
                                &binding,
                                nodes,
                            );
                            result.push(
                                PatternMatch { position, pattern: PatternID(pi), root },
                            );
                            proof {
                                assert(forall|i: int|
                                    0 <= i < pre_result.len() ==> #[trigger] result@[i]
                                        == pre_result[i]);
                                let mt = result@[pre_result.len() as int];
                                assert(mt.position.nodes@ == nodes_view);
                                assert(embedding_rooted(
                                    self.patterns@[pi as int],
                                    *circuit,
                                    binding@,
                                    root,
                                ) && node_set(mt.position.nodes@) =~= image_set(binding@));
                                assert(spec_is_convex(*circuit, node_set(mt.position.nodes@)));
                            }
                        }
                        proof {
                            if circuit.wf() {
                                assert forall|m: Seq<Option<Vertex>>|
                                    #[trigger] embedding_rooted(
                                        self.patterns@[pi as int],
                                        *circuit,
                                        m,
                                        root,
                                    ) && spec_is_convex(*circuit, image_set(m)) implies exists|
                                    i: int,
                                |
                                    0 <= i < result@.len() && (#[trigger] result@[i]).pattern.0
                                        == pi && result@[i].root == root && node_set(
                                        result@[i].position.nodes@,
                                    ) =~= image_set(m) by {
                                    assert(m =~= binding@);
                                    assert(m == binding@);
                                    assert(node_set(nodes_view) == image_set(binding@));
                                    assert(spec_is_convex(*circuit, node_set(nodes_view)));
                                    assert(convex_here);
                                    // the root itself lies in the image
                                    reveal(crate::portmatching::pattern::is_embedding);
                                    assert(self.patterns@[pi as int].pattern_wf());
                                    let proot = self.patterns@[pi as int].root.0 as int;
                                    assert(binding@.len() == self.patterns@[
                                        pi as int
                                    ].circuit.dag.nodes@.len());
                                    assert(0 <= proot < binding@.len());
                                    assert(binding@[proot] == Some(root));
                                    assert(image_set(binding@).contains(root.0 as int)) by {
                                        assert(binding@[proot] == Some(
                                            NodeIndex(root.0 as int as usize),
                                        ));
                                    }
                                    assert(node_set(nodes_view).contains(root.0 as int));
                                    let q = choose|q: int|
                                        0 <= q < nodes_view.len() && (#[trigger] nodes_view[q]).0
                                            == root.0 as int;
                                    assert(nodes_view.len() > 0);
                                    assert(result@[pre_result.len() as int].pattern.0 == pi);
                                    assert(result@[pre_result.len() as int].position.nodes@
                                        == nodes_view);
                                    assert(node_set(
                                        result@[pre_result.len() as int].position.nodes@,
                                    ) =~= image_set(m));
                                }
                            }
                        }
                    },
                    None => {
                        proof {
                            assert(result@ == pre_result);
                        }
                    },
                }
                proof {
                    assert(forall|i: int|
                        0 <= i < pre_result.len() ==> #[trigger] result@[i] == pre_result[i]);
                    assert(result@.len() >= pre_result.len());
                    assert(result@.len() <= pre_result.len() + 1);
                    assert forall|i: int|
                        0 <= i < result@.len() implies (exists|j: int|
                        0 <= j < ri && (#[trigger] result@[i]).root == roots@[j]) || (result@[i].root
                        == root && result@[i].pattern.0 < pi + 1) by {
                        if i < pre_result.len() {
                            assert(result@[i] == pre_result[i]);
                        } else {
                            assert(result@[i].root == root && result@[i].pattern.0 == pi);
                        }
                    }
                    assert forall|i: int, j: int|
                        0 <= i < j < result@.len() implies !((#[trigger] result@[i]).pattern == (
                    #[trigger] result@[j]).pattern && result@[i].root == result@[j].root) by {
                        if j < pre_result.len() {
                            assert(result@[i] == pre_result[i]);
                            assert(result@[j] == pre_result[j]);
                        } else {
                            // the new entry carries the current pattern and root
                            assert(result@[j].root == root && result@[j].pattern.0 == pi);
                            assert(result@[i] == pre_result[i]);
                            let x = pre_result[i];
                            if x.root == root && x.pattern.0 < pi as int {
                            } else {
                                let jj = choose|jj: int|
                                    0 <= jj < ri && (#[trigger] pre_result[i]).root == roots@[jj];
                                assert(roots@[jj].0 < roots@[ri as int].0);
                                assert(x.root.0 != root.0);
                            }
                        }
                    }
                    if circuit.wf() {
                        assert forall|j: int, pi2: int, m: Seq<Option<Vertex>>|
                            0 <= j < ri && 0 <= pi2 < self.patterns@.len()
                                && #[trigger] embedding_rooted(
                                self.patterns@[pi2],
                                *circuit,
                                m,
                                roots@[j],
                            ) && spec_is_convex(*circuit, image_set(m)) implies exists|i: int|
                            0 <= i < result@.len() && (#[trigger] result@[i]).pattern.0 == pi2
                                && result@[i].root == roots@[j] && node_set(
                                result@[i].position.nodes@,
                            ) =~= image_set(m) by {
                            let i = choose|i: int|
                                0 <= i < pre_result.len() && (#[trigger] pre_result[i]).pattern.0
                                    == pi2 && pre_result[i].root == roots@[j] && node_set(
                                    pre_result[i].position.nodes@,
                                ) =~= image_set(m);
                            assert(result@[i].pattern.0 == pi2 && result@[i].root == roots@[j]
                                && node_set(result@[i].position.nodes@) =~= image_set(m));
                        }
                        assert forall|pi2: int, m: Seq<Option<Vertex>>|
                            0 <= pi2 < pi + 1 && #[trigger] embedding_rooted(
                                self.patterns@[pi2],
                                *circuit,
                                m,
                                root,
                            ) && spec_is_convex(*circuit, image_set(m)) implies exists|i: int|
                            0 <= i < result@.len() && (#[trigger] result@[i]).pattern.0 == pi2
                                && result@[i].root == root && node_set(result@[i].position.nodes@)
                                =~= image_set(m) by {
                            if pi2 == pi as int {
                            } else {
                                let i = choose|i: int|
                                    0 <= i < pre_result.len() && (
                                    #[trigger] pre_result[i]).pattern.0 == pi2
                                        && pre_result[i].root == root && node_set(
                                        pre_result[i].position.nodes@,
                                    ) =~= image_set(m);
                                assert(result@[i].pattern.0 == pi2 && result@[i].root == root
                                    && node_set(result@[i].position.nodes@) =~= image_set(m));
                            }
                        }
                    }
                }
                pi = pi + 1;
            }
            proof {
                assert forall|i: int|
                    0 <= i < result@.len() implies exists|j: int|
                    0 <= j < ri + 1 && (#[trigger] result@[i]).root == roots@[j] by {
                    if exists|j: int| 0 <= j < ri && (#[trigger] result@[i]).root == roots@[j] {
                    } else {
                        assert(result@[i].root == roots@[ri as int]);
                    }
                }
                if circuit.wf() {
                    assert forall|j: int, pi2: int, m: Seq<Option<Vertex>>|
                        0 <= j < ri + 1 && 0 <= pi2 < self.patterns@.len()
                            && #[trigger] embedding_rooted(
                            self.patterns@[pi2],
                            *circuit,
                            m,
                            roots@[j],
                        ) && spec_is_convex(*circuit, image_set(m)) implies exists|i: int|
                        0 <= i < result@.len() && (#[trigger] result@[i]).pattern.0 == pi2
                            && result@[i].root == roots@[j] && node_set(result@[i].position.nodes@)
                            =~= image_set(m) by {
                        if j == ri as int {
                            assert(roots@[j] == root);
                            assert(embedding_rooted(self.patterns@[pi2], *circuit, m, root));
                        }
                    }
                }
            }
            ri = ri + 1;
        }
        proof {
            if circuit.wf() {
                assert forall|pi: int, rt: Vertex, m: Seq<Option<Vertex>>|
                    0 <= pi < self.patterns@.len() && #[trigger] embedding_rooted(
                        self.patterns@[pi],
                        *circuit,
                        m,
                        rt,
                    ) && spec_is_convex(*circuit, image_set(m)) implies exists|i: int|
                    0 <= i < result@.len() && (#[trigger] result@[i]).pattern.0 == pi
                        && result@[i].root == rt && node_set(result@[i].position.nodes@)
                        =~= image_set(m) by {
                    reveal(crate::portmatching::pattern::is_embedding);
                    assert(self.patterns@[pi].pattern_wf());
                    let proot = self.patterns@[pi].root.0 as int;
                    assert(m[proot] == Some(rt));
                    assert(circuit.is_command(rt.0 as int));
                    let j = choose|j: int|
                        0 <= j < roots@.len() && (#[trigger] roots@[j]).0 == rt.0 as int;
                    assert(roots@[j] == rt);
                    assert(embedding_rooted(self.patterns@[pi], *circuit, m, roots@[j]));
                }
            }
        }
        result
    }
}

/// The list of host nodes bound by a pattern-to-host map, in pattern
/// node order.
fn collect_image(binding: &Vec<Option<Vertex>>) -> (r: Vec<Vertex>)
    ensures
        node_set(r@) =~= image_set(binding@),
{
    let mut r: Vec<Vertex> = Vec::new();
    let mut j: usize = 0;
    while j < binding.len()
        invariant
            0 <= j <= binding@.len(),
            forall|q: int|
                0 <= q < r@.len() ==> exists|jj: int|
                    0 <= jj < binding@.len() && binding@[jj] == Some(#[trigger] r@[q]),
            forall|jj: int|
                0 <= jj < j && (#[trigger] binding@[jj]) is Some ==> exists|q: int|
                    0 <= q < r@.len() && r@[q] == binding@[jj]->Some_0,
        decreases binding@.len() - j,
    {
        let ghost prev = r@;
        match &binding[j] {
            Some(h) => {
                r.push(*h);
                proof {
                    assert forall|jj: int|
                        0 <= jj < j + 1 && (#[trigger] binding@[jj]) is Some implies exists|q: int|
                        0 <= q < r@.len() && r@[q] == binding@[jj]->Some_0 by {
                        if jj == j as int {
                            assert(r@[prev.len() as int] == binding@[jj]->Some_0);
                        } else {
                            let q = choose|q: int|
                                0 <= q < prev.len() && prev[q] == binding@[jj]->Some_0;
                            assert(r@[q] == binding@[jj]->Some_0);
                        }
                    }
                }
            },
            None => {},
        }
        j = j + 1;
    }
    proof {
        assert forall|h: int| node_set(r@).contains(h) implies image_set(binding@).contains(h) by {
            let q = choose|q: int| 0 <= q < r@.len() && (#[trigger] r@[q]).0 == h;
            let jj = choose|jj: int| 0 <= jj < binding@.len() && binding@[jj] == Some(r@[q]);
            assert(binding@[jj] == Some(NodeIndex(h as usize)));
        }
        assert forall|h: int| image_set(binding@).contains(h) implies node_set(r@).contains(h) by {
            let jj = choose|jj: int|
                0 <= jj < binding@.len() && (#[trigger] binding@[jj]) == Some(
                    NodeIndex(h as usize),
                );
            let q = choose|q: int| 0 <= q < r@.len() && r@[q] == binding@[jj]->Some_0;
            assert(r@[q].0 == h);
        }
    }
    r
}

/// The first `k` pattern ports carried through the binding: ports of
/// unbound or out-of-range pattern nodes are dropped.
pub open spec fn mapped_prefix(
    m: Seq<Option<Vertex>>,
    group: Seq<(Vertex, usize)>,
    k: int,
) -> Seq<(Vertex, usize)>
    decreases k,
{
    if k <= 0 {
        Seq::empty()
    } else {
        let rest = mapped_prefix(m, group, k - 1);
        let v = group[k - 1].0;
        let p = group[k - 1].1;
        if 0 <= v.0 < m.len() && m[v.0 as int] is Some {
            rest.push((m[v.0 as int]->Some_0, p))
        } else {
            rest
        }
    }
}

/// Translate the pattern's boundary into host (node, port) lists via the
/// binding: each boundary port of the pattern becomes the same port on
/// the bound host node.
fn boundary_in_host(
    pattern: &CircuitPattern,
    binding: &Vec<Option<Vertex>>,
    nodes: Vec<Vertex>,
) -> (r: Subcircuit)
    ensures
        r.nodes@ == nodes@,
        r.inputs@.len() == pattern.inputs@.len(),
        forall|g: int|
            0 <= g < r.inputs@.len() ==> (#[trigger] r.inputs@[g])@ == mapped_prefix(
                binding@,
                pattern.inputs@[g]@,
                pattern.inputs@[g]@.len() as int,
            ),
        r.outputs@ == mapped_prefix(binding@, pattern.outputs@, pattern.outputs@.len() as int),
{
    let mut inputs: Vec<Vec<(Vertex, usize)>> = Vec::new();
    let mut gi: usize = 0;
    while gi < pattern.inputs.len()
        invariant
            0 <= gi <= pattern.inputs@.len(),
            inputs@.len() == gi,
            forall|g: int|
                0 <= g < gi ==> (#[trigger] inputs@[g])@ == mapped_prefix(
                    binding@,
                    pattern.inputs@[g]@,
                    pattern.inputs@[g]@.len() as int,
                ),
        decreases pattern.inputs@.len() - gi,
    {
        let group = &pattern.inputs[gi];
        let mut mapped: Vec<(Vertex, usize)> = Vec::new();
        let mut k: usize = 0;
        while k < group.len()
            invariant
                0 <= k <= group@.len(),
                group@ == pattern.inputs@[gi as int]@,
                mapped@ == mapped_prefix(binding@, group@, k as int),
            decreases group@.len() - k,
        {
            let (v, p) = group[k];
            if v.0 < binding.len() {
                match &binding[v.0] {
                    Some(h) => mapped.push((*h, p)),
                    None => {},
                }
            }
            k = k + 1;
        }
        inputs.push(mapped);
        gi = gi + 1;
    }
    let mut outputs: Vec<(Vertex, usize)> = Vec::new();
    let mut k: usize = 0;
    while k < pattern.outputs.len()
        invariant
            0 <= k <= pattern.outputs@.len(),
            outputs@ == mapped_prefix(binding@, pattern.outputs@, k as int),
        decreases pattern.outputs@.len() - k,
    {
        let (v, p) = pattern.outputs[k];
        if v.0 < binding.len() {
            match &binding[v.0] {
                Some(h) => outputs.push((*h, p)),
                None => {},
            }
        }
        k = k + 1;
    }
    Subcircuit { nodes, inputs, outputs }
}

} // verus!
