//! The convexity checker.
//!
//! A node set of a host circuit is convex when every directed path of
//! the host that starts and ends in the set stays in the set. The
//! checker computes the set of nodes outside the region that are
//! reachable from it; the region is convex exactly when no such node
//! has an edge back into the region.

use vstd::prelude::*;
use crate::circuit::circuit::Circuit;
use crate::circuit::dag::Vertex;

verus! {

/// A directed edge of the host between live nodes `a` and `b`.
pub open spec fn has_edge(c: Circuit, a: int, b: int) -> bool {
    exists|e: int|
        c.dag.edge_live(e) && (#[trigger] c.dag.edges@[e])->Some_0.source.0 == a
            && c.dag.edges@[e]->Some_0.target.0 == b
}

/// A directed path through live nodes of the host.
pub open spec fn is_path(c: Circuit, p: Seq<int>) -> bool {
    &&& p.len() >= 1
    &&& forall|k: int| 0 <= k < p.len() ==> c.dag.node_live(#[trigger] p[k])
    &&& forall|k: int| 0 <= k < p.len() - 1 ==> has_edge(c, #[trigger] p[k], p[k + 1])
}

/// The node set named by a vector of vertices.
pub open spec fn node_set(v: Seq<Vertex>) -> Set<int> {
    Set::new(|i: int| exists|k: int| 0 <= k < v.len() && (#[trigger] v[k]).0 == i)
}

/// How many of the first `n` entries of `s` are true.
pub(crate) open spec fn count_true(s: Seq<bool>, n: int) -> int
    decreases n,
{
    if n <= 0 {
        0
    } else {
        count_true(s, n - 1) + if s[n - 1] {
            1int
        } else {
            0int
        }
    }
}

pub(crate) proof fn lemma_count_true_bounds(s: Seq<bool>, n: int)
    ensures
        0 <= count_true(s, n) <= if n >= 0 {
            n
        } else {
            0
        },
    decreases n,
{
    if n > 0 {
        lemma_count_true_bounds(s, n - 1);
    }
}

pub(crate) proof fn lemma_count_true_set(s: Seq<bool>, n: int, i: int)
    requires
        0 <= i < n <= s.len(),
        !s[i],
    ensures
        count_true(s.update(i, true), n) == count_true(s, n) + 1,
    decreases n,
{
    if i == n - 1 {
        assert(count_true(s.update(i, true), n - 1) == count_true(s, n - 1)) by {
            lemma_count_true_frame(s, s.update(i, true), n - 1);
        }
    } else {
        lemma_count_true_set(s, n - 1, i);
    }
}

pub(crate) proof fn lemma_count_true_frame(a: Seq<bool>, b: Seq<bool>, n: int)
    requires
        forall|j: int| 0 <= j < n ==> a[j] == b[j],
    ensures
        count_true(a, n) == count_true(b, n),
    decreases n,
{
    if n > 0 {
        lemma_count_true_frame(a, b, n - 1);
    }
}

/// Convexity: every directed path with both ends in `s` stays in `s`.
pub open spec fn spec_is_convex(c: Circuit, s: Set<int>) -> bool {
    forall|p: Seq<int>|
        #[trigger] is_path(c, p) && s.contains(p[0]) && s.contains(p[p.len() - 1]) ==> forall|
            k: int,
        |
            0 <= k < p.len() ==> s.contains(#[trigger] p[k])
}

/// The marks agree with membership in `s` (over the node slab).
spec fn marks_are(c: Circuit, marks: Seq<bool>, s: Set<int>) -> bool {
    &&& marks.len() == c.dag.nodes@.len()
    &&& forall|i: int| 0 <= i < marks.len() ==> (marks[i] <==> s.contains(i))
}

/// Soundness of the visited marking: every visited node is the end of a
/// path that starts in `s` and then stays outside `s`.
spec fn visited_sound(c: Circuit, s: Set<int>, visited: Seq<bool>) -> bool {
    forall|x: int|
        0 <= x < visited.len() && visited[x] ==> exists|p: Seq<int>|
            #[trigger] is_path(c, p) && p.len() >= 2 && s.contains(p[0]) && (forall|k: int|
                1 <= k < p.len() ==> !s.contains(#[trigger] p[k])) && p[p.len() - 1] == x
}

/// Every live edge that leaves `s` ends in a visited node.
spec fn seeds_complete(c: Circuit, s: Set<int>, visited: Seq<bool>) -> bool {
    forall|e: int|
        c.dag.edge_live(e) && visited.len() == c.dag.nodes@.len() && {
            let d = (#[trigger] c.dag.edges@[e])->Some_0;
            c.dag.node_live(d.source.0 as int) && c.dag.node_live(d.target.0 as int) && s.contains(
                d.source.0 as int,
            ) && !s.contains(d.target.0 as int)
        } ==> visited[(c.dag.edges@[e])->Some_0.target.0 as int]
}

/// The visited set is closed: an edge from a visited node to a live node
/// outside `s` ends in a visited node.
spec fn visited_closed(c: Circuit, s: Set<int>, visited: Seq<bool>) -> bool {
    forall|e: int|
        c.dag.edge_live(e) && visited.len() == c.dag.nodes@.len() && {
            let d = (#[trigger] c.dag.edges@[e])->Some_0;
            c.dag.node_live(d.source.0 as int) && c.dag.node_live(d.target.0 as int) && visited[
                d.source.0 as int
            ] && !s.contains(d.target.0 as int)
        } ==> visited[(c.dag.edges@[e])->Some_0.target.0 as int]
}

/// No visited node has an edge back into `s`.
spec fn no_reentry(c: Circuit, s: Set<int>, visited: Seq<bool>) -> bool {
    forall|e: int|
        c.dag.edge_live(e) && visited.len() == c.dag.nodes@.len() && {
            let d = (#[trigger] c.dag.edges@[e])->Some_0;
            c.dag.node_live(d.source.0 as int) && c.dag.node_live(d.target.0 as int) && visited[
                d.source.0 as int
            ]
        } ==> !s.contains((c.dag.edges@[e])->Some_0.target.0 as int)
}

/// From the closure facts, every suffix of an escaping path stays
/// visited: if `p[j]` is visited and `p[j..]` stays outside `s` until
/// position `l`, then `p[l - 1]` is visited.
proof fn lemma_walk_stays_visited(
    c: Circuit,
    s: Set<int>,
    visited: Seq<bool>,
    p: Seq<int>,
    j: int,
    l: int,
)
    requires
        visited.len() == c.dag.nodes@.len(),
        visited_closed(c, s, visited),
        is_path(c, p),
        0 <= j < l < p.len(),
        visited[p[j]],
        0 <= p[j] < visited.len(),
        forall|k: int| j <= k < l ==> !s.contains(#[trigger] p[k]),
    ensures
        visited[p[l - 1]] && 0 <= p[l - 1] < visited.len(),
    decreases l - j,
{
    if l - 1 == j {
    } else {
        // step from p[j] to p[j + 1]
        assert(has_edge(c, p[j], p[j + 1]));
        let e = choose|e: int|
            c.dag.edge_live(e) && (#[trigger] c.dag.edges@[e])->Some_0.source.0 == p[j]
                && c.dag.edges@[e]->Some_0.target.0 == p[j + 1];
        assert(visited[p[j + 1]]);
        lemma_walk_stays_visited(c, s, visited, p, j + 1, l);
    }
}

/// The first position of `p` after `from` that lies in `s`; `p`'s last
/// node must lie in `s`.
proof fn first_reentry(s: Set<int>, p: Seq<int>, from: int) -> (l: int)
    requires
        0 <= from < p.len(),
        s.contains(p[p.len() - 1]),
        !s.contains(p[from]),
    ensures
        from < l < p.len(),
        s.contains(p[l]),
        forall|k: int| from <= k < l ==> !s.contains(#[trigger] p[k]),
    decreases p.len() - from,
{
    if s.contains(p[from + 1]) {
        from + 1
    } else {
        first_reentry(s, p, from + 1)
    }
}

/// When the escape set is closed and has no edge back into `s`, the
/// region `s` is convex.
proof fn lemma_closure_implies_convex(c: Circuit, s: Set<int>, visited: Seq<bool>)
    requires
        visited.len() == c.dag.nodes@.len(),
        seeds_complete(c, s, visited),
        visited_closed(c, s, visited),
        no_reentry(c, s, visited),
    ensures
        spec_is_convex(c, s),
{
    assert forall|p: Seq<int>|
        #[trigger] is_path(c, p) && s.contains(p[0]) && s.contains(p[p.len() - 1]) implies forall|
        k: int,
    | 0 <= k < p.len() ==> s.contains(#[trigger] p[k]) by {
        assert forall|k: int| 0 <= k < p.len() implies s.contains(#[trigger] p[k]) by {
            if !s.contains(p[k]) {
                // find the first escape position
                lemma_first_escape(s, p, k);
                let j = choose|j: int|
                    0 < j <= k && !s.contains(#[trigger] p[j]) && forall|m: int|
                        0 <= m < j ==> s.contains(#[trigger] p[m]);
                // p[j] is visited because the edge p[j-1] -> p[j] leaves s
                assert(has_edge(c, p[j - 1], p[j]));
                let e = choose|e: int|
                    c.dag.edge_live(e) && (#[trigger] c.dag.edges@[e])->Some_0.source.0 == p[j - 1]
                        && c.dag.edges@[e]->Some_0.target.0 == p[j];
                assert(visited[p[j]]);
                // follow the path to the first re-entry into s
                let l = first_reentry(s, p, j);
                lemma_walk_stays_visited(c, s, visited, p, j, l);
                // the edge p[l-1] -> p[l] re-enters s: contradiction
                assert(has_edge(c, p[l - 1], p[l]));
                let e2 = choose|e2: int|
                    c.dag.edge_live(e2) && (#[trigger] c.dag.edges@[e2])->Some_0.source.0 == p[l
                        - 1] && c.dag.edges@[e2]->Some_0.target.0 == p[l];
                assert(false);
            }
        }
    }
}

/// There is a first escape position at or before a known escape.
proof fn lemma_first_escape(s: Set<int>, p: Seq<int>, k: int)
    requires
        0 <= k < p.len(),
        !s.contains(p[k]),
        s.contains(p[0]),
    ensures
        exists|j: int|
            0 < j <= k && !s.contains(#[trigger] p[j]) && forall|m: int|
                0 <= m < j ==> s.contains(#[trigger] p[m]),
    decreases k,
{
    if exists|m: int| 0 <= m < k && !s.contains(#[trigger] p[m]) {
        let m = choose|m: int| 0 <= m < k && !s.contains(#[trigger] p[m]);
        lemma_first_escape(s, p, m);
    } else {
        assert(0 < k <= k && !s.contains(p[k]) && forall|m: int|
            0 <= m < k ==> s.contains(#[trigger] p[m]));
    }
}

/// Whether the node set named by `nodes` is a convex region of `circ`.
///
/// Returns exactly the truth of [`spec_is_convex`].
pub fn check_convex(circ: &Circuit, nodes: &Vec<Vertex>) -> (r: bool)
    ensures
        r == spec_is_convex(*circ, node_set(nodes@)),
{
    let ghost s = node_set(nodes@);
    let n = circ.dag.nodes.len();
    // membership marks
    let mut in_s: Vec<bool> = Vec::new();
    let mut i: usize = 0;
    while i < n
        invariant
            in_s@.len() == i,
            0 <= i <= n,
            forall|j: int| 0 <= j < i ==> !in_s@[j],
        decreases n - i,
    {
        in_s.push(false);
        i = i + 1;
    }
    let mut k: usize = 0;
    while k < nodes.len()
        invariant
            in_s@.len() == n,
            0 <= k <= nodes@.len(),
            forall|j: int|
                0 <= j < n ==> (in_s@[j] <==> exists|m: int|
                    0 <= m < k && (#[trigger] nodes@[m]).0 == j),
        decreases nodes@.len() - k,
    {
        let ghost prev = in_s@;
        let v = nodes[k];
        if v.0 < n {
            in_s.set(v.0, true);
        }
        proof {
            assert forall|j: int|
                0 <= j < n implies (in_s@[j] <==> exists|m: int|
                0 <= m < k + 1 && (#[trigger] nodes@[m]).0 == j) by {
                if in_s@[j] {
                    if prev[j] {
                        let m = choose|m: int| 0 <= m < k && (#[trigger] nodes@[m]).0 == j;
                        assert(nodes@[m].0 == j);
                    } else {
                        assert(nodes@[k as int].0 == j);
                    }
                } else {
                    if exists|m: int| 0 <= m < k + 1 && (#[trigger] nodes@[m]).0 == j {
                        let m = choose|m: int| 0 <= m < k + 1 && (#[trigger] nodes@[m]).0 == j;
                        if m < k {
                        } else {
                            assert(j == nodes@[k as int].0 < n);
                        }
                    }
                }
            }
        }
        k = k + 1;
    }
    proof {
        assert(marks_are(*circ, in_s@, s));
    }
    // seed the escape set: all edges leaving s
    let mut visited: Vec<bool> = Vec::new();
    let mut i: usize = 0;
    while i < n
        invariant
            visited@.len() == i,
            0 <= i <= n,
            forall|j: int| 0 <= j < i ==> !visited@[j],
        decreases n - i,
    {
        visited.push(false);
        i = i + 1;
    }
    let mut queue: Vec<usize> = Vec::new();
    let n_edges = circ.dag.edges.len();
    let mut e: usize = 0;
    while e < n_edges
        invariant
            n_edges == circ.dag.edges@.len(),
            n == circ.dag.nodes@.len(),
            in_s@.len() == n,
            visited@.len() == n,
            marks_are(*circ, in_s@, s),
            0 <= e <= n_edges,
            visited_sound(*circ, s, visited@),
            forall|q: int|
                0 <= q < queue@.len() ==> (#[trigger] queue@[q]) < n && visited@[queue@[q] as int],
            forall|x: int| 0 <= x < n && visited@[x] ==> queue@.contains(x as usize),
            forall|ee: int|
                0 <= ee < e && circ.dag.edge_live(ee) && {
                    let d = (#[trigger] circ.dag.edges@[ee])->Some_0;
                    circ.dag.node_live(d.source.0 as int) && circ.dag.node_live(d.target.0 as int)
                        && s.contains(d.source.0 as int) && !s.contains(d.target.0 as int)
                } ==> visited@[(circ.dag.edges@[ee])->Some_0.target.0 as int],
        decreases n_edges - e,
    {
        let ghost prev = visited@;
        let ghost prev_queue = queue@;
        match &circ.dag.edges[e] {
            Some(d) => {
                if d.source.0 < n && d.target.0 < n && circ.dag.nodes[d.source.0].is_some()
                    && circ.dag.nodes[d.target.0].is_some() && in_s[d.source.0]
                    && !in_s[d.target.0] && !visited[d.target.0] {
                    visited.set(d.target.0, true);
                    queue.push(d.target.0);
                    proof {
                        assert forall|y: int| 0 <= y < n && visited@[y] implies queue@.contains(
                            y as usize,
                        ) by {
                            if y == d.target.0 as int {
                                assert(queue@[queue@.len() - 1] == y as usize);
                            } else {
                                assert(prev[y]);
                                let qi = choose|qi: int|
                                    0 <= qi < prev_queue.len() && prev_queue[qi] == y as usize;
                                assert(queue@[qi] == y as usize);
                            }
                        }
                        let p = seq![d.source.0 as int, d.target.0 as int];
                        assert(circ.dag.edge_live(e as int) && circ.dag.edges@[e as int]->Some_0.source.0
                            == p[0] && circ.dag.edges@[e as int]->Some_0.target.0 == p[1]);
                        assert(is_path(*circ, p));
                        assert(p[p.len() - 1] == d.target.0 as int);
                        assert forall|x: int| 0 <= x < n && visited@[x] implies exists|pp: Seq<int>|
                            #[trigger] is_path(*circ, pp) && pp.len() >= 2 && s.contains(pp[0]) && (
                            forall|kk: int|
                                1 <= kk < pp.len() ==> !s.contains(#[trigger] pp[kk])) && pp[pp.len()
                            - 1] == x by {
                            if x == d.target.0 as int {
                                assert(is_path(*circ, p) && p.len() >= 2 && s.contains(p[0]) && (
                                forall|kk: int|
                                    1 <= kk < p.len() ==> !s.contains(#[trigger] p[kk])) && p[p.len()
                                    - 1] == x);
                            } else {
                                assert(prev[x]);
                            }
                        }
                    }
                }
            },
            None => {},
        }
        e = e + 1;
    }
    // worklist: close the escape set under successors outside s
    proof {
        lemma_count_true_bounds(visited@, n as int);
    }
    while queue.len() > 0
        invariant
            n_edges == circ.dag.edges@.len(),
            n == circ.dag.nodes@.len(),
            in_s@.len() == n,
            visited@.len() == n,
            marks_are(*circ, in_s@, s),
            visited_sound(*circ, s, visited@),
            seeds_complete(*circ, s, visited@),
            0 <= count_true(visited@, n as int) <= n,
            forall|q: int|
                0 <= q < queue@.len() ==> (#[trigger] queue@[q]) < n && visited@[queue@[q] as int],
            // every closure obligation is discharged except through queue members
            forall|ee: int|
                circ.dag.edge_live(ee) && {
                    let d = (#[trigger] circ.dag.edges@[ee])->Some_0;
                    circ.dag.node_live(d.source.0 as int) && circ.dag.node_live(d.target.0 as int)
                        && visited@[d.source.0 as int] && !queue@.contains(d.source.0 as usize)
                        && !s.contains(d.target.0 as int)
                } ==> visited@[(circ.dag.edges@[ee])->Some_0.target.0 as int],
        decreases n - count_true(visited@, n as int), queue@.len(),
    {
        let ghost head_queue = queue@;
        let x = queue.pop().unwrap();
        let ghost popped_queue = queue@;
        let ghost c0 = count_true(visited@, n as int);
        let ghost q1 = queue@.len();
        proof {
            assert(x == head_queue[head_queue.len() - 1]);
            assert forall|ee: int|
                circ.dag.edge_live(ee) && {
                    let d = (#[trigger] circ.dag.edges@[ee])->Some_0;
                    circ.dag.node_live(d.source.0 as int) && circ.dag.node_live(d.target.0 as int)
                        && visited@[d.source.0 as int] && !queue@.contains(d.source.0 as usize) && (
                    circ.dag.edges@[ee]->Some_0.source.0 != x || ee < 0) && !s.contains(
                        d.target.0 as int,
                    )
                } implies visited@[(circ.dag.edges@[ee])->Some_0.target.0 as int] by {
                let d = circ.dag.edges@[ee]->Some_0;
                assert(!head_queue.contains(d.source.0 as usize)) by {
                    if head_queue.contains(d.source.0 as usize) {
                        let qi = choose|qi: int|
                            0 <= qi < head_queue.len() && head_queue[qi] == d.source.0 as usize;
                        if qi < head_queue.len() - 1 {
                            assert(popped_queue[qi] == d.source.0 as usize);
                        }
                    }
                }
            }
        }
        // scan all edges out of x
        let mut e: usize = 0;
        while e < n_edges
            invariant
                n_edges == circ.dag.edges@.len(),
                n == circ.dag.nodes@.len(),
                in_s@.len() == n,
                visited@.len() == n,
                x < n,
                visited@[x as int],
                marks_are(*circ, in_s@, s),
                visited_sound(*circ, s, visited@),
                seeds_complete(*circ, s, visited@),
                0 <= e <= n_edges,
                count_true(visited@, n as int) == c0 + (queue@.len() - q1),
                queue@.len() >= q1,
                forall|q: int|
                    0 <= q < queue@.len() ==> (#[trigger] queue@[q]) < n && visited@[queue@[q] as int],
                forall|ee: int|
                    circ.dag.edge_live(ee) && {
                        let d = (#[trigger] circ.dag.edges@[ee])->Some_0;
                        circ.dag.node_live(d.source.0 as int) && circ.dag.node_live(
                            d.target.0 as int,
                        ) && visited@[d.source.0 as int] && !queue@.contains(d.source.0 as usize)
                            && (d.source.0 != x || ee < e) && !s.contains(d.target.0 as int)
                    } ==> visited@[(circ.dag.edges@[ee])->Some_0.target.0 as int],
            decreases n_edges - e,
        {
            let ghost prev = visited@;
            let ghost prev_queue = queue@;
            match &circ.dag.edges[e] {
                Some(d) => {
                    if d.source.0 == x && d.target.0 < n && circ.dag.nodes[d.target.0].is_some()
                        && !in_s[d.target.0] && !visited[d.target.0] {
                        visited.set(d.target.0, true);
                        queue.push(d.target.0);
                        proof {
                            lemma_count_true_set(prev, n as int, d.target.0 as int);
                            assert(queue@[queue@.len() - 1] == d.target.0);
                            assert(forall|qi: int|
                                0 <= qi < prev_queue.len() ==> queue@[qi] == prev_queue[qi]);
                            assert forall|ee: int|
                                circ.dag.edge_live(ee) && {
                                    let dd = (#[trigger] circ.dag.edges@[ee])->Some_0;
                                    circ.dag.node_live(dd.source.0 as int) && circ.dag.node_live(
                                        dd.target.0 as int,
                                    ) && visited@[dd.source.0 as int] && !queue@.contains(
                                        dd.source.0 as usize,
                                    ) && (dd.source.0 != x || ee < e + 1) && !s.contains(
                                        dd.target.0 as int,
                                    )
                                } implies visited@[(circ.dag.edges@[ee])->Some_0.target.0 as int] by {
                                let dd = circ.dag.edges@[ee]->Some_0;
                                if dd.source.0 as int == d.target.0 as int {
                                    assert(queue@.contains(dd.source.0 as usize));
                                } else {
                                    assert(prev[dd.source.0 as int]);
                                    assert(!prev_queue.contains(dd.source.0 as usize)) by {
                                        if prev_queue.contains(dd.source.0 as usize) {
                                            let qi = choose|qi: int|
                                                0 <= qi < prev_queue.len() && prev_queue[qi]
                                                    == dd.source.0 as usize;
                                            assert(queue@[qi] == dd.source.0 as usize);
                                        }
                                    }
                                    if ee == e as int && dd.source.0 == x {
                                        assert(visited@[dd.target.0 as int]);
                                    }
                                }
                            }
                            // visited_sound: extend the witness path of x by d.target
                            let px = choose|pp: Seq<int>|
                                #[trigger] is_path(*circ, pp) && pp.len() >= 2 && s.contains(pp[0])
                                    && (forall|kk: int|
                                    1 <= kk < pp.len() ==> !s.contains(#[trigger] pp[kk]))
                                    && pp[pp.len() - 1] == x as int;
                            let p2 = px.push(d.target.0 as int);
                            assert(circ.dag.edge_live(e as int) && circ.dag.edges@[e as int]->Some_0.source.0
                                == x as int && circ.dag.edges@[e as int]->Some_0.target.0
                                == d.target.0 as int);
                            assert(has_edge(*circ, x as int, d.target.0 as int));
                            assert(is_path(*circ, p2)) by {
                                assert(forall|kk: int|
                                    0 <= kk < p2.len() - 1 ==> has_edge(
                                        *circ,
                                        #[trigger] p2[kk],
                                        p2[kk + 1],
                                    )) by {
                                    assert(forall|kk: int|
                                        0 <= kk < px.len() - 1 ==> has_edge(
                                            *circ,
                                            #[trigger] px[kk],
                                            px[kk + 1],
                                        ));
                                }
                            }
                            assert(p2[p2.len() - 1] == d.target.0 as int);
                            assert forall|y: int| 0 <= y < n && visited@[y] implies exists|
                                pp: Seq<int>,
                            |
                                #[trigger] is_path(*circ, pp) && pp.len() >= 2 && s.contains(pp[0])
                                    && (forall|kk: int|
                                    1 <= kk < pp.len() ==> !s.contains(#[trigger] pp[kk]))
                                    && pp[pp.len() - 1] == y by {
                                if y == d.target.0 as int {
                                    assert(is_path(*circ, p2) && p2.len() >= 2 && s.contains(p2[0])
                                        && (forall|kk: int|
                                        1 <= kk < p2.len() ==> !s.contains(#[trigger] p2[kk]))
                                        && p2[p2.len() - 1] == y);
                                } else {
                                    assert(prev[y]);
                                }
                            }
                        }
                    }
                },
                None => {},
            }
            e = e + 1;
        }
        proof {
            lemma_count_true_bounds(visited@, n as int);
        }
    }
    proof {
        assert forall|ee: int|
            circ.dag.edge_live(ee) && visited@.len() == circ.dag.nodes@.len() && {
                let d = (#[trigger] circ.dag.edges@[ee])->Some_0;
                circ.dag.node_live(d.source.0 as int) && circ.dag.node_live(d.target.0 as int)
                    && visited@[d.source.0 as int] && !s.contains(d.target.0 as int)
            } implies visited@[(circ.dag.edges@[ee])->Some_0.target.0 as int] by {
            let d = circ.dag.edges@[ee]->Some_0;
            assert(!queue@.contains(d.source.0 as usize));
        }
        assert(visited_closed(*circ, s, visited@));
    }
    // the escape set is closed; check for edges back into s
    let mut e: usize = 0;
    let mut convex = true;
    while e < n_edges
        invariant
            n_edges == circ.dag.edges@.len(),
            n == circ.dag.nodes@.len(),
            in_s@.len() == n,
            visited@.len() == n,
            marks_are(*circ, in_s@, s),
            visited_sound(*circ, s, visited@),
            seeds_complete(*circ, s, visited@),
            visited_closed(*circ, s, visited@),
            0 <= e <= n_edges,
            convex ==> forall|ee: int|
                0 <= ee < e && circ.dag.edge_live(ee) && {
                    let d = (#[trigger] circ.dag.edges@[ee])->Some_0;
                    circ.dag.node_live(d.source.0 as int) && circ.dag.node_live(d.target.0 as int)
                        && visited@[d.source.0 as int]
                } ==> !s.contains((circ.dag.edges@[ee])->Some_0.target.0 as int),
            !convex ==> !spec_is_convex(*circ, s),
        decreases n_edges - e,
    {
        match &circ.dag.edges[e] {
            Some(d) => {
                if d.source.0 < n && d.target.0 < n && circ.dag.nodes[d.source.0].is_some()
                    && circ.dag.nodes[d.target.0].is_some() && visited[d.source.0]
                    && in_s[d.target.0] {
                    proof {
                        // a path from s through the outside back into s
                        let px = choose|pp: Seq<int>|
                            #[trigger] is_path(*circ, pp) && pp.len() >= 2 && s.contains(pp[0]) && (
                            forall|kk: int|
                                1 <= kk < pp.len() ==> !s.contains(#[trigger] pp[kk])) && pp[pp.len()
                            - 1] == d.source.0 as int;
                        let p2 = px.push(d.target.0 as int);
                        assert(circ.dag.edge_live(e as int) && circ.dag.edges@[e as int]->Some_0.source.0
                            == d.source.0 as int && circ.dag.edges@[e as int]->Some_0.target.0
                            == d.target.0 as int);
                        assert(has_edge(*circ, d.source.0 as int, d.target.0 as int));
                        assert(is_path(*circ, p2)) by {
                            assert(forall|kk: int|
                                0 <= kk < p2.len() - 1 ==> has_edge(
                                    *circ,
                                    #[trigger] p2[kk],
                                    p2[kk + 1],
                                )) by {
                                assert(forall|kk: int|
                                    0 <= kk < px.len() - 1 ==> has_edge(
                                        *circ,
                                        #[trigger] px[kk],
                                        px[kk + 1],
                                    ));
                            }
                        }
                        assert(s.contains(p2[0]) && s.contains(p2[p2.len() - 1]));
                        assert(!s.contains(p2[1]));
                        assert(!spec_is_convex(*circ, s));
                    }
                    convex = false;
                }
            },
            None => {},
        }
        e = e + 1;
    }
    proof {
        if convex {
            assert(no_reentry(*circ, s, visited@));
            lemma_closure_implies_convex(*circ, s, visited@);
        }
    }
    convex
}

} // verus!
