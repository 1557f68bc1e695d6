//! The graph store: nodes and edges in slab vectors.

use vstd::prelude::*;
use vstd::pervasive::VecAdditionalExecFns;

verus! {

/// Index of a node slot in a [`Graph`].
#[derive(Clone, Copy, PartialEq, Eq, Structural, Hash, Debug)]
pub struct NodeIndex(pub usize);

impl NodeIndex {
    pub fn new(index: usize) -> (r: Self)
        ensures
            r.0 == index,
    {
        NodeIndex(index)
    }

    pub fn index(&self) -> (r: usize)
        ensures
            r == self.0,
    {
        self.0
    }
}

/// Index of an edge slot in a [`Graph`].
#[derive(Clone, Copy, PartialEq, Eq, Structural, Hash, Debug)]
pub struct EdgeIndex(pub usize);

impl EdgeIndex {
    pub fn new(index: usize) -> (r: Self)
        ensures
            r.0 == index,
    {
        EdgeIndex(index)
    }

    pub fn index(&self) -> (r: usize)
        ensures
            r == self.0,
    {
        self.0
    }
}

/// Which end of an edge is meant: the `Outgoing` end is at the edge's
/// source node, the `Incoming` end at its target node.
#[derive(Clone, Copy, PartialEq, Eq, Structural, Debug)]
pub enum Direction {
    Incoming,
    Outgoing,
}

/// The record stored for each live edge: the two endpoints, the port
/// offset used at each endpoint, and a weight.
#[derive(Clone, Debug)]
pub struct EdgeData<E, P> {
    pub source: NodeIndex,
    pub source_port: P,
    pub target: NodeIndex,
    pub target_port: P,
    pub weight: E,
}

/// A directed port graph with node weights `N`, edge weights `E` and port
/// offsets `P`.
///
/// Removal of a node or an edge leaves a `None` hole in the slab, so that
/// the indices of the remaining items do not move; `remove_invalid`
/// compacts the slabs and renumbers.
#[derive(Clone, Debug)]
pub struct Graph<N, E, P> {
    pub nodes: Vec<Option<N>>,
    pub edges: Vec<Option<EdgeData<E, P>>>,
}

/// How many of the first `n` slots of `s` are occupied.
pub open spec fn count_live<T>(s: Seq<Option<T>>, n: int) -> int
    decreases n,
{
    if n <= 0 {
        0
    } else {
        count_live(s, n - 1) + if s[n - 1] is Some {
            1int
        } else {
            0int
        }
    }
}

pub broadcast proof fn lemma_count_live_bounds<T>(s: Seq<Option<T>>, n: int)
    ensures
        0 <= #[trigger] count_live(s, n) <= if n >= 0 {
            n
        } else {
            0
        },
    decreases n,
{
    if n > 0 {
        lemma_count_live_bounds(s, n - 1);
    }
}

/// Whether the edge has `n` as one of its endpoints.
pub open spec fn edge_touches<E, P>(e: EdgeData<E, P>, n: NodeIndex) -> bool {
    e.source.0 == n.0 || e.target.0 == n.0
}

/// The slot with both node endpoints renumbered by `offset`.
pub open spec fn shift_slot<E, P>(s: Option<EdgeData<E, P>>, offset: int) -> Option<
    EdgeData<E, P>,
> {
    match s {
        None => None,
        Some(d) => Some(
            EdgeData {
                source: NodeIndex((d.source.0 + offset) as usize),
                source_port: d.source_port,
                target: NodeIndex((d.target.0 + offset) as usize),
                target_port: d.target_port,
                weight: d.weight,
            },
        ),
    }
}

pub proof fn lemma_count_live_mono<T>(s: Seq<Option<T>>, i: int, j: int)
    requires
        0 <= i <= j,
    ensures
        count_live(s, i) <= count_live(s, j),
    decreases j,
{
    if j > i {
        lemma_count_live_mono(s, i, j - 1);
    }
}

/// A live slot's compacted index lies below the total live count.
pub proof fn lemma_live_slot_count<T>(s: Seq<Option<T>>, i: int)
    requires
        0 <= i < s.len(),
        s[i] is Some,
    ensures
        count_live(s, i) < count_live(s, s.len() as int),
{
    lemma_count_live_mono(s, i + 1, s.len() as int);
}

/// An edge record with both node endpoints replaced by their compacted
/// indices with respect to the node slab `nodes`.
pub open spec fn remap_edge<N, E, P>(nodes: Seq<Option<N>>, d: EdgeData<E, P>) -> EdgeData<E, P> {
    EdgeData {
        source: NodeIndex(count_live(nodes, d.source.0 as int) as usize),
        source_port: d.source_port,
        target: NodeIndex(count_live(nodes, d.target.0 as int) as usize),
        target_port: d.target_port,
        weight: d.weight,
    }
}

/// The indices of the occupied slots among the first `n`, in ascending order.
pub open spec fn live_indices<T>(s: Seq<Option<T>>, n: int) -> Seq<usize>
    decreases n,
{
    if n <= 0 {
        Seq::empty()
    } else {
        let prefix = live_indices(s, n - 1);
        if s[n - 1] is Some {
            prefix.push((n - 1) as usize)
        } else {
            prefix
        }
    }
}

impl<N, E, P> Graph<N, E, P> {
    /// Whether node slot `i` holds a live node.
    pub open spec fn node_live(self, i: int) -> bool {
        0 <= i < self.nodes@.len() && self.nodes@[i] is Some
    }

    /// Whether edge slot `i` holds a live edge.
    pub open spec fn edge_live(self, i: int) -> bool {
        0 <= i < self.edges@.len() && self.edges@[i] is Some
    }

    /// Number of live nodes.
    pub open spec fn spec_node_count(self) -> int {
        count_live(self.nodes@, self.nodes@.len() as int)
    }

    /// Number of live edges.
    pub open spec fn spec_edge_count(self) -> int {
        count_live(self.edges@, self.edges@.len() as int)
    }

    /// Every live edge points at live nodes.
    pub open spec fn wf(self) -> bool {
        forall|i: int|
            self.edge_live(i) ==> {
                let e = self.edges@[i]->Some_0;
                &&& self.node_live(e.source.0 as int)
                &&& self.node_live(e.target.0 as int)
            }
    }

    /// An empty graph. The capacity arguments only pre-allocate.
    pub fn with_capacity(nodes: usize, edges: usize) -> (r: Self)
        ensures
            r.nodes@ =~= Seq::<Option<N>>::empty(),
            r.edges@ =~= Seq::<Option<EdgeData<E, P>>>::empty(),
    {
        Graph { nodes: Vec::with_capacity(nodes), edges: Vec::with_capacity(edges) }
    }

    /// An empty graph.
    pub fn new() -> (r: Self)
        ensures
            r.nodes@ =~= Seq::<Option<N>>::empty(),
            r.edges@ =~= Seq::<Option<EdgeData<E, P>>>::empty(),
    {
        Graph { nodes: Vec::new(), edges: Vec::new() }
    }

    /// Add a node with the given weight; returns its index.
    pub fn add_node(&mut self, weight: N) -> (r: NodeIndex)
        ensures
            final(self).nodes@ == old(self).nodes@.push(Some(weight)),
            final(self).edges@ == old(self).edges@,
            r.0 == old(self).nodes@.len(),
            final(self).node_live(r.0 as int),
    {
        let index = self.nodes.len();
        self.nodes.push(Some(weight));
        NodeIndex(index)
    }

    /// Add an edge from port `source.1` of node `source.0` to port
    /// `target.1` of node `target.0`.
    pub fn add_edge(&mut self, source: (NodeIndex, P), target: (NodeIndex, P), weight: E) -> (r:
        EdgeIndex)
        requires
            old(self).node_live(source.0.0 as int),
            old(self).node_live(target.0.0 as int),
        ensures
            final(self).nodes@ == old(self).nodes@,
            final(self).edges@ == old(self).edges@.push(
                Some(
                    EdgeData {
                        source: source.0,
                        source_port: source.1,
                        target: target.0,
                        target_port: target.1,
                        weight,
                    },
                ),
            ),
            r.0 == old(self).edges@.len(),
    {
        let index = self.edges.len();
        let (source_node, source_port) = source;
        let (target_node, target_port) = target;
        self.edges.push(
            Some(
                EdgeData {
                    source: source_node,
                    source_port,
                    target: target_node,
                    target_port,
                    weight,
                },
            ),
        );
        EdgeIndex(index)
    }

    /// The weight of a live node, if the index names one.
    pub fn node_weight(&self, n: NodeIndex) -> (r: Option<&N>)
        ensures
            match r {
                Some(w) => self.node_live(n.0 as int) && self.nodes@[n.0 as int] == Some(*w),
                None => !self.node_live(n.0 as int),
            },
    {
        if n.0 < self.nodes.len() {
            self.nodes[n.0].as_ref()
        } else {
            None
        }
    }

    /// The weight of a live edge, if the index names one.
    pub fn edge_weight(&self, e: EdgeIndex) -> (r: Option<&E>)
        ensures
            match r {
                Some(w) => self.edge_live(e.0 as int) && self.edges@[e.0 as int]->Some_0.weight
                    == *w,
                None => !self.edge_live(e.0 as int),
            },
    {
        if e.0 < self.edges.len() {
            match &self.edges[e.0] {
                Some(data) => Some(&data.weight),
                None => None,
            }
        } else {
            None
        }
    }

    /// The node at the given end of a live edge.
    pub fn edge_endpoint(&self, e: EdgeIndex, direction: Direction) -> (r: Option<NodeIndex>)
        ensures
            match r {
                Some(n) => self.edge_live(e.0 as int) && n == (match direction {
                    Direction::Outgoing => self.edges@[e.0 as int]->Some_0.source,
                    Direction::Incoming => self.edges@[e.0 as int]->Some_0.target,
                }),
                None => !self.edge_live(e.0 as int),
            },
    {
        if e.0 < self.edges.len() {
            match &self.edges[e.0] {
                Some(data) => Some(
                    match direction {
                        Direction::Outgoing => data.source,
                        Direction::Incoming => data.target,
                    },
                ),
                None => None,
            }
        } else {
            None
        }
    }

    /// Number of live nodes.
    pub fn node_count(&self) -> (r: usize)
        ensures
            r == self.spec_node_count(),
    {
        let mut count: usize = 0;
        let mut i: usize = 0;
        while i < self.nodes.len()
            invariant
                0 <= i <= self.nodes@.len(),
                count == count_live(self.nodes@, i as int),
                count <= i,
            decreases self.nodes@.len() - i,
        {
            if self.nodes[i].is_some() {
                count = count + 1;
            }
            i = i + 1;
        }
        count
    }

    /// Number of live edges.
    pub fn edge_count(&self) -> (r: usize)
        ensures
            r == self.spec_edge_count(),
    {
        let mut count: usize = 0;
        let mut i: usize = 0;
        while i < self.edges.len()
            invariant
                0 <= i <= self.edges@.len(),
                count == count_live(self.edges@, i as int),
                count <= i,
            decreases self.edges@.len() - i,
        {
            if self.edges[i].is_some() {
                count = count + 1;
            }
            i = i + 1;
        }
        count
    }

    /// The indices of the live nodes, in ascending order.
    pub fn nodes(&self) -> (r: Vec<NodeIndex>)
        ensures
            r@.len() == live_indices(self.nodes@, self.nodes@.len() as int).len(),
            forall|j: int|
                0 <= j < r@.len() ==> r@[j].0 == live_indices(
                    self.nodes@,
                    self.nodes@.len() as int,
                )[j],
            forall|j: int| 0 <= j < r@.len() ==> self.node_live(#[trigger] r@[j].0 as int),
    {
        let mut result: Vec<NodeIndex> = Vec::new();
        let mut i: usize = 0;
        while i < self.nodes.len()
            invariant
                0 <= i <= self.nodes@.len(),
                result@.len() == live_indices(self.nodes@, i as int).len(),
                forall|j: int|
                    0 <= j < result@.len() ==> result@[j].0 == live_indices(self.nodes@, i as int)[j],
                forall|j: int|
                    0 <= j < result@.len() ==> self.node_live(#[trigger] result@[j].0 as int),
            decreases self.nodes@.len() - i,
        {
            if self.nodes[i].is_some() {
                result.push(NodeIndex(i));
            }
            i = i + 1;
        }
        result
    }

    /// The indices of the live nodes, in ascending order.
    pub fn node_indices(&self) -> (r: Vec<NodeIndex>)
        ensures
            r@.len() == live_indices(self.nodes@, self.nodes@.len() as int).len(),
            forall|j: int|
                0 <= j < r@.len() ==> r@[j].0 == live_indices(
                    self.nodes@,
                    self.nodes@.len() as int,
                )[j],
            forall|j: int| 0 <= j < r@.len() ==> self.node_live(#[trigger] r@[j].0 as int),
    {
        self.nodes()
    }

    /// The indices of the live edges, in ascending order.
    pub fn edges(&self) -> (r: Vec<EdgeIndex>)
        ensures
            r@.len() == live_indices(self.edges@, self.edges@.len() as int).len(),
            forall|j: int|
                0 <= j < r@.len() ==> r@[j].0 == live_indices(
                    self.edges@,
                    self.edges@.len() as int,
                )[j],
            forall|j: int| 0 <= j < r@.len() ==> self.edge_live(#[trigger] r@[j].0 as int),
    {
        let mut result: Vec<EdgeIndex> = Vec::new();
        let mut i: usize = 0;
        while i < self.edges.len()
            invariant
                0 <= i <= self.edges@.len(),
                result@.len() == live_indices(self.edges@, i as int).len(),
                forall|j: int|
                    0 <= j < result@.len() ==> result@[j].0 == live_indices(self.edges@, i as int)[j],
                forall|j: int|
                    0 <= j < result@.len() ==> self.edge_live(#[trigger] result@[j].0 as int),
            decreases self.edges@.len() - i,
        {
            if self.edges[i].is_some() {
                result.push(EdgeIndex(i));
            }
            i = i + 1;
        }
        result
    }

    /// Remove a node, together with every edge incident to it.
    ///
    /// Returns the node's weight, or `None` (and changes nothing) if the
    /// index does not name a live node. The slots are left as holes.
    pub fn remove_node(&mut self, n: NodeIndex) -> (r: Option<N>)
        ensures
            match r {
                None => {
                    &&& !old(self).node_live(n.0 as int)
                    &&& final(self).nodes@ == old(self).nodes@
                    &&& final(self).edges@ == old(self).edges@
                },
                Some(w) => {
                    &&& old(self).node_live(n.0 as int)
                    &&& old(self).nodes@[n.0 as int] == Some(w)
                    &&& final(self).nodes@ == old(self).nodes@.update(n.0 as int, None)
                    &&& final(self).edges@.len() == old(self).edges@.len()
                    &&& forall|i: int|
                        0 <= i < old(self).edges@.len() ==> final(self).edges@[i] == (if old(
                            self,
                        ).edge_live(i) && edge_touches(old(self).edges@[i]->Some_0, n) {
                            None
                        } else {
                            old(self).edges@[i]
                        })
                },
            },
            old(self).wf() ==> final(self).wf(),
    {
        if n.0 >= self.nodes.len() {
            return None;
        }
        let mut taken: Option<N> = None;
        self.nodes.set_and_swap(n.0, &mut taken);
        if taken.is_none() {
            proof {
                assert(self.nodes@ =~= old(self).nodes@);
                if old(self).wf() {
                    assert forall|j: int| self.edge_live(j) implies {
                        let e = self.edges@[j]->Some_0;
                        self.node_live(e.source.0 as int) && self.node_live(e.target.0 as int)
                    } by {
                        assert(old(self).edge_live(j));
                    }
                }
            }
            return None;
        }
        let mut i: usize = 0;
        while i < self.edges.len()
            invariant
                0 <= i <= self.edges@.len(),
                self.nodes@ == old(self).nodes@.update(n.0 as int, None),
                self.edges@.len() == old(self).edges@.len(),
                forall|j: int|
                    0 <= j < i ==> self.edges@[j] == (if old(self).edge_live(j) && edge_touches(
                        old(self).edges@[j]->Some_0,
                        n,
                    ) {
                        None
                    } else {
                        old(self).edges@[j]
                    }),
                forall|j: int| i <= j < self.edges@.len() ==> self.edges@[j] == old(self).edges@[j],
            decreases self.edges@.len() - i,
        {
            let remove_it = match &self.edges[i] {
                Some(d) => d.source.0 == n.0 || d.target.0 == n.0,
                None => false,
            };
            if remove_it {
                self.edges.set(i, None);
            }
            proof {
                assert forall|j: int| 0 <= j < i + 1 implies self.edges@[j] == (if old(
                    self,
                ).edge_live(j) && edge_touches(old(self).edges@[j]->Some_0, n) {
                    None
                } else {
                    old(self).edges@[j]
                }) by {
                    if j < i as int {
                    } else {
                        assert(j == i as int);
                        if remove_it {
                            assert(self.edges@[j] is None);
                            assert(old(self).edge_live(j));
                            assert(edge_touches(old(self).edges@[j]->Some_0, n));
                        } else {
                            assert(self.edges@[j] == old(self).edges@[j]);
                        }
                    }
                }
            }
            i = i + 1;
        }
        proof {
            if old(self).wf() {
                assert forall|j: int| self.edge_live(j) implies {
                    let e = self.edges@[j]->Some_0;
                    self.node_live(e.source.0 as int) && self.node_live(e.target.0 as int)
                } by {
                    assert(old(self).edge_live(j));
                    assert(!edge_touches(old(self).edges@[j]->Some_0, n));
                }
            }
        }
        taken
    }

    /// Remove a single edge, leaving a hole in the edge slab.
    ///
    /// Returns its weight, or `None` (and changes nothing) if the index
    /// does not name a live edge.
    pub fn remove_edge(&mut self, e: EdgeIndex) -> (r: Option<E>)
        ensures
            final(self).nodes@ == old(self).nodes@,
            match r {
                None => {
                    &&& !old(self).edge_live(e.0 as int)
                    &&& final(self).edges@ == old(self).edges@
                },
                Some(w) => {
                    &&& old(self).edge_live(e.0 as int)
                    &&& old(self).edges@[e.0 as int]->Some_0.weight == w
                    &&& final(self).edges@ == old(self).edges@.update(e.0 as int, None)
                },
            },
            old(self).wf() ==> final(self).wf(),
    {
        if e.0 >= self.edges.len() {
            return None;
        }
        let mut taken: Option<EdgeData<E, P>> = None;
        self.edges.set_and_swap(e.0, &mut taken);
        match taken {
            None => {
                proof {
                    assert(self.edges@ =~= old(self).edges@);
                    if old(self).wf() {
                        assert forall|j: int| self.edge_live(j) implies {
                            let ed = self.edges@[j]->Some_0;
                            self.node_live(ed.source.0 as int) && self.node_live(
                                ed.target.0 as int,
                            )
                        } by {
                            assert(old(self).edge_live(j));
                        }
                    }
                }
                None
            },
            Some(d) => {
                proof {
                    if old(self).wf() {
                        assert forall|j: int| self.edge_live(j) implies {
                            let ed = self.edges@[j]->Some_0;
                            self.node_live(ed.source.0 as int) && self.node_live(
                                ed.target.0 as int,
                            )
                        } by {
                            assert(old(self).edge_live(j));
                        }
                    }
                }
                Some(d.weight)
            },
        }
    }

    /// Append all of `other`'s nodes and edges, renumbering `other`'s
    /// node indices past the end of `self`'s node slab.
    pub fn insert_graph(&mut self, other: Graph<N, E, P>)
        requires
            other.wf(),
        ensures
            final(self).nodes@ == old(self).nodes@ + other.nodes@,
            final(self).edges@.len() == old(self).edges@.len() + other.edges@.len(),
            forall|i: int|
                0 <= i < old(self).edges@.len() ==> final(self).edges@[i] == old(self).edges@[i],
            forall|i: int|
                0 <= i < other.edges@.len() ==> final(self).edges@[old(self).edges@.len() + i]
                    == shift_slot(other.edges@[i], old(self).nodes@.len() as int),
    {
        let ghost other0 = other;
        let mut other = other;
        let ghost other_nodes = other.nodes@;
        let ghost other_edges = other.edges@;
        proof {
            assert forall|i: int| 0 <= i < other_edges.len() && other_edges[i] is Some implies {
                let d = other_edges[i]->Some_0;
                d.source.0 < other_nodes.len() && d.target.0 < other_nodes.len()
            } by {
                assert(other0.edge_live(i));
            }
        }
        let offset = self.nodes.len();
        let total_edges = other.edges.len();
        self.nodes.append(&mut other.nodes);
        let total_nodes = self.nodes.len();
        let mut k: usize = 0;
        while other.edges.len() > 0
            invariant
                total_edges == other_edges.len(),
                self.nodes@ == old(self).nodes@ + other_nodes,
                total_nodes == self.nodes@.len(),
                offset == old(self).nodes@.len(),
                k + other.edges@.len() == other_edges.len(),
                other.edges@ == other_edges.skip(k as int),
                self.edges@.len() == old(self).edges@.len() + k,
                forall|i: int|
                    0 <= i < old(self).edges@.len() ==> self.edges@[i] == old(self).edges@[i],
                forall|i: int|
                    0 <= i < k ==> self.edges@[old(self).edges@.len() + i] == shift_slot(
                        other_edges[i],
                        offset as int,
                    ),
                forall|i: int|
                    0 <= i < other_edges.len() && other_edges[i] is Some ==> {
                        let d = other_edges[i]->Some_0;
                        d.source.0 < other_nodes.len() && d.target.0 < other_nodes.len()
                    },
            decreases other.edges@.len(),
        {
            let slot = other.edges.remove(0);
            proof {
                assert(other.edges@ =~= other_edges.skip(k as int + 1));
                assert(slot == other_edges[k as int]);
            }
            match slot {
                None => self.edges.push(None),
                Some(d) => {
                    assert(other_edges[k as int] is Some);
                    self.edges.push(
                        Some(
                            EdgeData {
                                source: NodeIndex(d.source.0 + offset),
                                source_port: d.source_port,
                                target: NodeIndex(d.target.0 + offset),
                                target_port: d.target_port,
                                weight: d.weight,
                            },
                        ),
                    );
                },
            }
            k = k + 1;
        }
    }

    /// A copy of the graph with all holes removed: live nodes and edges
    /// are renumbered consecutively, keeping their relative order.
    pub fn remove_invalid(self) -> (r: Self)
        requires
            self.wf(),
        ensures
            r.nodes@.len() == self.spec_node_count(),
            r.edges@.len() == self.spec_edge_count(),
            forall|j: int| 0 <= j < r.nodes@.len() ==> r.nodes@[j] is Some,
            forall|j: int| 0 <= j < r.edges@.len() ==> r.edges@[j] is Some,
            forall|i: int|
                self.node_live(i) ==> r.nodes@[count_live(self.nodes@, i)] == self.nodes@[i],
            forall|i: int|
                self.edge_live(i) ==> r.edges@[count_live(self.edges@, i)] == Some(
                    remap_edge(self.nodes@, self.edges@[i]->Some_0),
                ),
            r.wf(),
    {
        let ghost g0 = self;
        let mut g = self;
        let ghost nodes0 = g.nodes@;
        let ghost edges0 = g.edges@;
        proof {
            assert forall|i: int| 0 <= i < edges0.len() && edges0[i] is Some implies {
                let d = edges0[i]->Some_0;
                &&& d.source.0 < nodes0.len()
                &&& nodes0[d.source.0 as int] is Some
                &&& d.target.0 < nodes0.len()
                &&& nodes0[d.target.0 as int] is Some
            } by {
                assert(g0.edge_live(i));
            }
        }
        let mut remap: Vec<Option<usize>> = Vec::new();
        let mut new_nodes: Vec<Option<N>> = Vec::new();
        let n_nodes = g.nodes.len();
        let mut k: usize = 0;
        while k < n_nodes
            invariant
                n_nodes == nodes0.len(),
                0 <= k <= n_nodes,
                g.nodes@ == nodes0.skip(k as int),
                remap@.len() == k,
                new_nodes@.len() == count_live(nodes0, k as int),
                forall|i: int|
                    0 <= i < k ==> remap@[i] == (if nodes0[i] is Some {
                        Some(count_live(nodes0, i) as usize)
                    } else {
                        None
                    }),
                forall|i: int|
                    0 <= i < k && nodes0[i] is Some ==> new_nodes@[count_live(nodes0, i)]
                        == nodes0[i],
                forall|j: int| 0 <= j < new_nodes@.len() ==> new_nodes@[j] is Some,
                g.edges@ == edges0,
            decreases n_nodes - k,
        {
            let slot = g.nodes.remove(0);
            proof {
                assert(g.nodes@ =~= nodes0.skip(k as int + 1));
                assert(slot == nodes0[k as int]);
                lemma_count_live_bounds::<N>(nodes0, k as int);
            }
            match slot {
                Some(w) => {
                    remap.push(Some(new_nodes.len()));
                    new_nodes.push(Some(w));
                },
                None => remap.push(None),
            }
            proof {
                assert forall|i: int|
                    0 <= i < k + 1 && nodes0[i] is Some implies new_nodes@[count_live(nodes0, i)]
                    == nodes0[i] by {
                    if i < k as int {
                        lemma_count_live_mono(nodes0, i + 1, k as int);
                    }
                    lemma_count_live_bounds::<N>(nodes0, i);
                }
            }
            k = k + 1;
        }
        let mut new_edges: Vec<Option<EdgeData<E, P>>> = Vec::new();
        let n_edges = g.edges.len();
        let mut k2: usize = 0;
        while k2 < n_edges
            invariant
                n_edges == edges0.len(),
                0 <= k2 <= n_edges,
                g.edges@ == edges0.skip(k2 as int),
                n_nodes == nodes0.len(),
                remap@.len() == nodes0.len(),
                new_nodes@.len() == count_live(nodes0, nodes0.len() as int),
                forall|i: int|
                    0 <= i < nodes0.len() ==> remap@[i] == (if nodes0[i] is Some {
                        Some(count_live(nodes0, i) as usize)
                    } else {
                        None
                    }),
                forall|i: int| 0 <= i < edges0.len() && #[trigger] edges0[i] is Some ==> {
                    let d = edges0[i]->Some_0;
                    &&& d.source.0 < nodes0.len()
                    &&& nodes0[d.source.0 as int] is Some
                    &&& d.target.0 < nodes0.len()
                    &&& nodes0[d.target.0 as int] is Some
                },
                new_edges@.len() == count_live(edges0, k2 as int),
                forall|i: int|
                    0 <= i < k2 && edges0[i] is Some ==> new_edges@[count_live(edges0, i)] == Some(
                        remap_edge(nodes0, edges0[i]->Some_0),
                    ),
                forall|j: int| 0 <= j < new_edges@.len() ==> {
                    &&& (#[trigger] new_edges@[j]) is Some
                    &&& new_edges@[j]->Some_0.source.0 < new_nodes@.len()
                    &&& new_edges@[j]->Some_0.target.0 < new_nodes@.len()
                },
            decreases n_edges - k2,
        {
            let slot = g.edges.remove(0);
            proof {
                assert(g.edges@ =~= edges0.skip(k2 as int + 1));
                assert(slot == edges0[k2 as int]);
                lemma_count_live_bounds::<EdgeData<E, P>>(edges0, k2 as int);
            }
            match slot {
                Some(d) => {
                    proof {
                        lemma_live_slot_count(nodes0, d.source.0 as int);
                        lemma_live_slot_count(nodes0, d.target.0 as int);
                        lemma_count_live_bounds::<N>(nodes0, d.source.0 as int);
                        lemma_count_live_bounds::<N>(nodes0, d.target.0 as int);
                        lemma_count_live_bounds::<N>(nodes0, nodes0.len() as int);
                    }
                    let ns = remap[d.source.0].unwrap();
                    let nt = remap[d.target.0].unwrap();
                    new_edges.push(
                        Some(
                            EdgeData {
                                source: NodeIndex(ns),
                                source_port: d.source_port,
                                target: NodeIndex(nt),
                                target_port: d.target_port,
                                weight: d.weight,
                            },
                        ),
                    );
                },
                None => {
                },
            }
            proof {
                assert forall|i: int|
                    0 <= i < k2 + 1 && edges0[i] is Some implies new_edges@[count_live(edges0, i)]
                    == Some(remap_edge(nodes0, edges0[i]->Some_0)) by {
                    if i < k2 as int {
                        lemma_count_live_mono(edges0, i + 1, k2 as int);
                    }
                    lemma_count_live_bounds::<EdgeData<E, P>>(edges0, i);
                }
            }
            k2 = k2 + 1;
        }
        let result = Graph { nodes: new_nodes, edges: new_edges };
        proof {
            assert forall|i: int| result.edge_live(i) implies {
                let e = result.edges@[i]->Some_0;
                result.node_live(e.source.0 as int) && result.node_live(e.target.0 as int)
            } by {}
        }
        result
    }

    /// The indices of the live edges, in ascending order.
    pub fn edge_indices(&self) -> (r: Vec<EdgeIndex>)
        ensures
            r@.len() == live_indices(self.edges@, self.edges@.len() as int).len(),
            forall|j: int|
                0 <= j < r@.len() ==> r@[j].0 == live_indices(
                    self.edges@,
                    self.edges@.len() as int,
                )[j],
            forall|j: int| 0 <= j < r@.len() ==> self.edge_live(#[trigger] r@[j].0 as int),
    {
        self.edges()
    }
}

} // verus!
