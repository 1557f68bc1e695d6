//! The TASO search driver.
//!
//! A best-first search over circuits reachable by rewrites: a priority
//! queue keyed by cost holds the frontier, a set of content hashes
//! suppresses duplicates, and the queue is cut back to half its
//! capacity whenever it fills up. The single-threaded loop lives here
//! in full; for the multi-worker mode this module provides the worker
//! step and the coordinator state machine, while channels, threads and
//! the timer live with the caller.

use vstd::prelude::*;
use std::collections::HashSet;
use crate::circuit::circuit::Circuit;
use crate::circuit::hash::spec_circuit_hash;
use crate::rewrite::{Rewriter, RewriteStrategy};

verus! {

broadcast use vstd::std_specs::hash::axiom_u64_obeys_hash_table_key_model;

/// The queue is cut back to half of this size whenever it reaches it.
pub const PRIORITY_QUEUE_CAPACITY: usize = 10000;

/// `k` is a possible result of the cost function `f` on the circuit `c`.
pub open spec fn cost_fits<C: Fn(&Circuit) -> usize>(f: C, c: Circuit, k: usize) -> bool {
    call_ensures(f, (&c,), k)
}

/// The tuple is one of the sequence's elements.
pub open spec fn tuple_from(t: (u64, Circuit, usize), s: Seq<(u64, Circuit, usize)>) -> bool {
    exists|b: int| 0 <= b < s.len() && #[trigger] s[b] == t
}

/// One queued candidate: a circuit, its content hash and its cost.
pub struct Entry {
    pub hash: u64,
    pub circ: Circuit,
    pub cost: usize,
}

/// A priority queue of circuits, cheapest-first.
///
/// The entries are kept sorted by cost, descending, so the cheapest
/// entry is at the end.
pub struct TasoPQ {
    entries: Vec<Entry>,
}

impl TasoPQ {
    /// The queued entries, most expensive first.
    pub closed spec fn spec_entries(self) -> Seq<Entry> {
        self.entries@
    }

    /// The entries are sorted by cost, descending.
    pub open spec fn wf(self) -> bool {
        forall|i: int, j: int|
            0 <= i < j < self.spec_entries().len() ==> (#[trigger] self.spec_entries()[i]).cost
                >= (#[trigger] self.spec_entries()[j]).cost
    }

    pub open spec fn spec_len(self) -> int {
        self.spec_entries().len() as int
    }

    /// An empty queue.
    pub fn with_capacity(capacity: usize) -> (r: Self)
        ensures
            r.wf(),
            r.spec_entries() =~= Seq::<Entry>::empty(),
    {
        TasoPQ { entries: Vec::with_capacity(capacity) }
    }

    pub fn len(&self) -> (r: usize)
        ensures
            r == self.spec_len(),
    {
        self.entries.len()
    }

    /// Insert an entry, keeping the cost order.
    pub fn push(&mut self, e: Entry)
        requires
            old(self).wf(),
            old(self).spec_len() < usize::MAX,
        ensures
            final(self).wf(),
            exists|i: int|
                0 <= i <= old(self).spec_entries().len() && final(self).spec_entries() == old(
                    self,
                ).spec_entries().insert(i, e),
    {
        let mut i: usize = 0;
        while i < self.entries.len() && self.entries[i].cost > e.cost
            invariant
                0 <= i <= self.entries@.len(),
                forall|j: int| 0 <= j < i ==> (#[trigger] self.entries@[j]).cost > e.cost,
            decreases self.entries@.len() - i,
        {
            i = i + 1;
        }
        let ghost prev = self.entries@;
        self.entries.insert(i, e);
        proof {
            assert forall|a: int, b: int|
                0 <= a < b < self.entries@.len() implies (#[trigger] self.entries@[a]).cost >= (
            #[trigger] self.entries@[b]).cost by {
                if a < i && b == i as int {
                } else if a == i as int && b > i {
                    assert(self.entries@[b] == prev[b - 1]);
                } else if a < i && b > i {
                    assert(self.entries@[b] == prev[b - 1]);
                } else if a > i && b > i {
                    assert(self.entries@[a] == prev[a - 1]);
                    assert(self.entries@[b] == prev[b - 1]);
                }
            }
        }
    }

    /// Remove and return the cheapest entry: the last one, which under
    /// the descending order is a minimum of the queue.
    pub fn pop(&mut self) -> (r: Option<Entry>)
        requires
            old(self).wf(),
        ensures
            final(self).wf(),
            match r {
                None => old(self).spec_len() == 0 && final(self).spec_entries() == old(
                    self,
                ).spec_entries(),
                Some(e) => {
                    &&& old(self).spec_len() > 0
                    &&& e == old(self).spec_entries().last()
                    &&& final(self).spec_entries() == old(self).spec_entries().drop_last()
                    &&& forall|i: int|
                        0 <= i < final(self).spec_entries().len() ==> e.cost <= (
                        #[trigger] final(self).spec_entries()[i]).cost
                },
            },
    {
        let r = self.entries.pop();
        proof {
            let pre = old(self).spec_entries();
            if pre.len() > 0 {
                assert(self.spec_entries() =~= pre.drop_last());
                assert forall|i: int, j: int|
                    0 <= i < j < self.spec_entries().len() implies (
                #[trigger] self.spec_entries()[i]).cost >= (#[trigger] self.spec_entries()[j]).cost by {
                    assert(self.spec_entries()[i] == pre[i]);
                    assert(self.spec_entries()[j] == pre[j]);
                    assert((#[trigger] pre[i]).cost >= pre[j].cost);
                }
                assert forall|i: int|
                    0 <= i < self.spec_entries().len() implies pre.last().cost <= (
                #[trigger] self.spec_entries()[i]).cost by {
                    assert(self.spec_entries()[i] == pre[i]);
                    assert((#[trigger] pre[i]).cost >= pre[pre.len() - 1].cost);
                }
            }
        }
        r
    }

    /// Keep only the `k` cheapest entries: the final `k` of the
    /// descending order.
    pub fn truncate_cheapest(&mut self, k: usize)
        requires
            old(self).wf(),
        ensures
            final(self).wf(),
            final(self).spec_entries() == if k < old(self).spec_len() {
                old(self).spec_entries().skip(old(self).spec_len() - k)
            } else {
                old(self).spec_entries()
            },
    {
        let n = self.entries.len();
        if k < n {
            let tail = self.entries.split_off(n - k);
            self.entries = tail;
        }
    }
}

/// What a run of the optimiser did: the series of best costs in the
/// order they were found (never increasing), and counters.
pub struct TasoReport {
    /// Every improvement of the best cost, starting with the initial
    /// circuit's cost.
    pub best_costs: Vec<usize>,
    /// Number of circuits taken from the queue or received.
    pub circ_count: usize,
    /// Number of distinct circuit hashes seen.
    pub seen_count: usize,
    /// The largest queue length observed at an iteration boundary.
    pub max_queue_len: usize,
    /// Whether the run stopped because the deadline passed.
    pub timed_out: bool,
}

/// The TASO optimiser: a rewriter, a strategy and a cost function.
#[derive(Clone, Debug)]
pub struct TasoOptimiser<R, S, C> {
    pub rewriter: R,
    pub strategy: S,
    pub cost: C,
}

impl<R, S, C> TasoOptimiser<R, S, C> {
    /// Create a new TASO optimiser.
    pub fn new(rewriter: R, strategy: S, cost: C) -> (r: Self)
        ensures
            r.rewriter == rewriter,
            r.strategy == strategy,
            r.cost == cost,
    {
        TasoOptimiser { rewriter, strategy, cost }
    }
}

impl<R: Rewriter, S: RewriteStrategy, C: Fn(&Circuit) -> usize> TasoOptimiser<R, S, C> {
    /// Run the optimiser on a circuit. A timeout in seconds can be
    /// given; the run then stops at the first deadline check after it
    /// has passed.
    ///
    /// The returned circuit's cost is no worse than the input's: there
    /// are cost results `k0` for the input and `kb` for (the contents
    /// of) the result with `kb <= k0`.
    pub fn optimise(&self, circ: &Circuit, timeout: Option<u64>) -> (r: Circuit)
        requires
            forall|c: &Circuit| #[trigger] call_requires(self.cost, (c,)),
        ensures
            exists|k0: usize, kb: usize, c2: Circuit|
                #![trigger cost_fits(self.cost, *circ, k0), cost_fits(self.cost, c2, kb)]
                cost_fits(self.cost, *circ, k0) && c2.dag.nodes@ == r.dag.nodes@ && c2.dag.edges@
                    == r.dag.edges@ && cost_fits(self.cost, c2, kb) && kb <= k0,
    {
        let (best, report) = self.optimise_with_report(circ, timeout);
        proof {
            let last = report.best_costs@.len() - 1;
            assert(report.best_costs@[0] >= report.best_costs@[last]);
        }
        best
    }

    /// Run the optimiser and also return its report.
    ///
    /// The series of best costs never increases, starts at a cost
    /// result of the input circuit, and ends at a cost result of (the
    /// contents of) the returned circuit. Without a timeout the run
    /// never reports a deadline, and the queue never exceeds its
    /// capacity at an iteration boundary.
    pub fn optimise_with_report(&self, circ: &Circuit, timeout: Option<u64>) -> (r: (
        Circuit,
        TasoReport,
    ))
        requires
            forall|c: &Circuit| #[trigger] call_requires(self.cost, (c,)),
        ensures
            r.1.best_costs@.len() >= 1,
            forall|i: int, j: int|
                0 <= i < j < r.1.best_costs@.len() ==> r.1.best_costs@[i] > r.1.best_costs@[j],
            cost_fits(self.cost, *circ, r.1.best_costs@[0]),
            exists|c2: Circuit|
                c2.dag.nodes@ == r.0.dag.nodes@ && c2.dag.edges@ == r.0.dag.edges@
                    && #[trigger] cost_fits(
                    self.cost,
                    c2,
                    r.1.best_costs@[r.1.best_costs@.len() - 1],
                ),
            timeout is None ==> !r.1.timed_out,
            r.1.seen_count >= 1,
            r.1.max_queue_len <= PRIORITY_QUEUE_CAPACITY,
    {
        let start = instant_now();
        let k0 = (self.cost)(circ);
        let h0 = circ.circuit_hash();
        // the coordinator owns the seen set, the best circuit and the
        // best-cost series, for this loop just as for the multi-worker
        // mode
        let mut coordinator = TasoCoordinator::new(circ, k0, h0);
        let mut seen_count: usize = 1;
        let mut pq = TasoPQ::with_capacity(PRIORITY_QUEUE_CAPACITY);
        let init_dup = circ.duplicate();
        let init_cost = (self.cost)(&init_dup);
        let ghost pre_pq = pq;
        pq.push(Entry { hash: h0, circ: init_dup, cost: init_cost });
        proof {
            lemma_insert_preserves_cost_fits(self.cost, pre_pq, pq, init_cost);
        }
        let mut max_queue_len: usize = 1;
        let mut timed_out = false;
        let mut fuel: u64 = 0xFFFF_FFFF_FFFF_FFFF;
        while pq.len() > 0 && fuel > 0
            invariant
                vstd::std_specs::hash::obeys_key_model::<u64>(),
                pq.wf(),
                pq.spec_len() <= PRIORITY_QUEUE_CAPACITY,
                forall|i: int|
                    0 <= i < pq.spec_entries().len() ==> cost_fits(
                        self.cost,
                        (#[trigger] pq.spec_entries()[i]).circ,
                        pq.spec_entries()[i].cost,
                    ),
                coordinator.wf(),
                coordinator.best_costs@[0] == k0,
                cost_fits(self.cost, *circ, k0),
                exists|c2: Circuit|
                    c2.dag.nodes@ == coordinator.best_circ.dag.nodes@ && c2.dag.edges@
                        == coordinator.best_circ.dag.edges@ && #[trigger] cost_fits(
                        self.cost,
                        c2,
                        coordinator.best_cost,
                    ),
                timeout is None ==> !timed_out,
                seen_count >= 1,
                max_queue_len <= PRIORITY_QUEUE_CAPACITY,
                forall|c: &Circuit| #[trigger] call_requires(self.cost, (c,)),
            decreases fuel,
        {
            fuel = fuel - 1;
            if pq.len() > max_queue_len {
                max_queue_len = pq.len();
            }
            let entry = pq.pop().unwrap();
            let rewrites = self.rewriter.get_rewrites(&entry.circ);
            let mut successors = self.strategy.apply_rewrites(rewrites, &entry.circ);
            // hash and cost every successor, then hand the batch to the
            // coordinator: it updates the best circuit and returns the
            // circuits whose hash was never seen before
            let mut batch: Vec<(u64, Circuit, usize)> = Vec::new();
            while successors.len() > 0
                invariant
                    forall|b: int|
                        0 <= b < batch@.len() ==> cost_fits(
                            self.cost,
                            (#[trigger] batch@[b]).1,
                            batch@[b].2,
                        ),
                    forall|c: &Circuit| #[trigger] call_requires(self.cost, (c,)),
                decreases successors@.len(),
            {
                let new_circ = successors.pop().unwrap();
                let new_hash = new_circ.circuit_hash();
                let new_cost = (self.cost)(&new_circ);
                batch.push((new_hash, new_circ, new_cost));
            }
            let ghost pre_coord = coordinator;
            let mut fresh = coordinator.on_batch(batch);
            proof {
                if coordinator.best_cost == pre_coord.best_cost && coordinator.best_circ
                    == pre_coord.best_circ {
                } else {
                    let i = choose|i: int|
                        0 <= i < batch@.len() && (#[trigger] batch@[i]).2
                            == coordinator.best_cost && coordinator.best_circ.dag.nodes@
                            == batch@[i].1.dag.nodes@ && coordinator.best_circ.dag.edges@
                            == batch@[i].1.dag.edges@;
                    assert(cost_fits(self.cost, batch@[i].1, coordinator.best_cost));
                }
            }
            while fresh.len() > 0
                invariant
                    vstd::std_specs::hash::obeys_key_model::<u64>(),
                    pq.wf(),
                    forall|i: int|
                        0 <= i < pq.spec_entries().len() ==> cost_fits(
                            self.cost,
                            (#[trigger] pq.spec_entries()[i]).circ,
                            pq.spec_entries()[i].cost,
                        ),
                    forall|i: int|
                        0 <= i < fresh@.len() ==> cost_fits(
                            self.cost,
                            (#[trigger] fresh@[i]).1,
                            fresh@[i].2,
                        ),
                    seen_count >= 1,
                decreases fresh@.len(),
            {
                let (new_hash, new_circ, new_cost) = match fresh.pop() {
                    Some(t) => t,
                    None => {
                        break ;
                    },
                };
                if seen_count < usize::MAX {
                    seen_count = seen_count + 1;
                }
                if pq.len() < usize::MAX {
                    let ghost pre_pq = pq;
                    pq.push(Entry { hash: new_hash, circ: new_circ, cost: new_cost });
                    proof {
                        lemma_insert_preserves_cost_fits(self.cost, pre_pq, pq, new_cost);
                    }
                }
            }
            if pq.len() >= PRIORITY_QUEUE_CAPACITY {
                // haircut: keep the cheapest half
                pq.truncate_cheapest(PRIORITY_QUEUE_CAPACITY / 2);
            }
            match timeout {
                Some(t) => {
                    if elapsed_secs(&start) > t {
                        timed_out = true;
                        break ;
                    }
                },
                None => {},
            }
        }
        let circ_count = coordinator.circ_count;
        let r = (
            coordinator.best_circ,
            TasoReport {
                best_costs: coordinator.best_costs,
                circ_count,
                seen_count,
                max_queue_len,
                timed_out,
            },
        );
        r
    }
}

/// After an insertion, every queue entry still carries a possible cost
/// result of its own circuit.
proof fn lemma_insert_preserves_cost_fits<C: Fn(&Circuit) -> usize>(
    f: C,
    pre: TasoPQ,
    post: TasoPQ,
    new_cost: usize,
)
    requires
        forall|i: int|
            0 <= i < pre.spec_entries().len() ==> cost_fits(
                f,
                (#[trigger] pre.spec_entries()[i]).circ,
                pre.spec_entries()[i].cost,
            ),
        exists|i: int, e: Entry|
            0 <= i <= pre.spec_entries().len() && post.spec_entries() == pre.spec_entries().insert(
                i,
                e,
            ) && cost_fits(f, e.circ, e.cost),
    ensures
        forall|i: int|
            0 <= i < post.spec_entries().len() ==> cost_fits(
                f,
                (#[trigger] post.spec_entries()[i]).circ,
                post.spec_entries()[i].cost,
            ),
{
    let (at, e) = choose|at: int, e: Entry|
        0 <= at <= pre.spec_entries().len() && post.spec_entries() == pre.spec_entries().insert(
            at,
            e,
        ) && cost_fits(f, e.circ, e.cost);
    assert forall|i: int| 0 <= i < post.spec_entries().len() implies cost_fits(
        f,
        (#[trigger] post.spec_entries()[i]).circ,
        post.spec_entries()[i].cost,
    ) by {
        if i < at {
            assert(post.spec_entries()[i] == pre.spec_entries()[i]);
        } else if i == at {
            assert(post.spec_entries()[i] == e);
        } else {
            assert(post.spec_entries()[i] == pre.spec_entries()[i - 1]);
        }
    }
}

/// The number of CX gates in a circuit: the default cost function.
pub fn num_cx_gates(circ: &Circuit) -> (r: usize)
    ensures
        r == count_cx(*circ, circ.dag.nodes@.len() as int),
{
    let mut count: usize = 0;
    let mut i: usize = 0;
    while i < circ.dag.nodes.len()
        invariant
            0 <= i <= circ.dag.nodes@.len(),
            count == count_cx(*circ, i as int),
            count <= i,
        decreases circ.dag.nodes@.len() - i,
    {
        let is_cx = match &circ.dag.nodes[i] {
            Some(w) => w.op == crate::circuit::operation::Op::CX,
            None => false,
        };
        if is_cx {
            count = count + 1;
        }
        i = i + 1;
    }
    count
}

/// How many of the first `n` node slots of `c` hold a CX gate.
pub open spec fn count_cx(c: Circuit, n: int) -> int
    decreases n,
{
    if n <= 0 {
        0
    } else {
        count_cx(c, n - 1) + if c.dag.node_live(n - 1) && c.node_op(n - 1)
            == crate::circuit::operation::Op::CX {
            1int
        } else {
            0int
        }
    }
}

/// One unit of worker work in the multi-worker mode: compute all
/// successors of each received circuit and hash them. Every returned
/// pair carries the content hash of its own circuit. Workers do no
/// deduplication; the coordinator owns the seen set.
pub fn worker_step<R: Rewriter, S: RewriteStrategy>(
    rewriter: &R,
    strategy: &S,
    batch: Vec<(u64, Circuit)>,
) -> (r: Vec<(u64, Circuit)>)
    ensures
        forall|i: int|
            0 <= i < r@.len() ==> (#[trigger] r@[i]).0 == spec_circuit_hash(
                r@[i].1.dag.nodes@,
                r@[i].1.dag.edges@,
            ),
{
    let mut out: Vec<(u64, Circuit)> = Vec::new();
    let mut i: usize = 0;
    while i < batch.len()
        invariant
            forall|k: int|
                0 <= k < out@.len() ==> (#[trigger] out@[k]).0 == spec_circuit_hash(
                    out@[k].1.dag.nodes@,
                    out@[k].1.dag.edges@,
                ),
        decreases batch@.len() - i,
    {
        let (_hash, circ) = &batch[i];
        let rewrites = rewriter.get_rewrites(circ);
        let mut successors = strategy.apply_rewrites(rewrites, circ);
        while successors.len() > 0
            invariant
                forall|k: int|
                    0 <= k < out@.len() ==> (#[trigger] out@[k]).0 == spec_circuit_hash(
                        out@[k].1.dag.nodes@,
                        out@[k].1.dag.edges@,
                    ),
            decreases successors@.len(),
        {
            let new_circ = successors.pop().unwrap();
            let new_hash = new_circ.circuit_hash();
            out.push((new_hash, new_circ));
        }
        i = i + 1;
    }
    out
}

/// The coordinator state of the multi-worker mode: the authoritative
/// seen set, the best circuit so far and the best-cost series.
pub struct TasoCoordinator {
    pub seen: HashSet<u64>,
    pub best_circ: Circuit,
    pub best_cost: usize,
    pub best_costs: Vec<usize>,
    pub circ_count: usize,
}

impl TasoCoordinator {
    /// The best-cost series strictly decreases and ends at the current
    /// best.
    pub open spec fn wf(self) -> bool {
        &&& self.best_costs@.len() >= 1
        &&& self.best_costs@[self.best_costs@.len() - 1] == self.best_cost
        &&& forall|i: int, j: int|
            0 <= i < j < self.best_costs@.len() ==> self.best_costs@[i] > self.best_costs@[j]
    }

    /// Start a run from the initial circuit.
    pub fn new(initial: &Circuit, initial_cost: usize, initial_hash: u64) -> (r: Self)
        ensures
            r.wf(),
            r.best_circ.dag.nodes@ == initial.dag.nodes@,
            r.best_circ.dag.edges@ == initial.dag.edges@,
            r.best_cost == initial_cost,
            r.best_costs@ =~= seq![initial_cost],
            r.seen@ == Set::<u64>::empty().insert(initial_hash),
            r.circ_count == 1,
    {
        let mut seen: HashSet<u64> = HashSet::new();
        seen.insert(initial_hash);
        let mut best_costs: Vec<usize> = Vec::new();
        best_costs.push(initial_cost);
        TasoCoordinator {
            seen,
            best_circ: initial.duplicate(),
            best_cost: initial_cost,
            best_costs,
            circ_count: 1,
        }
    }

    /// Absorb one batch of (hash, circuit, cost) results from a worker.
    ///
    /// Afterwards every batch hash is in the seen set, which only
    /// grows; the returned batch — the work to hand back to the workers
    /// — contains only circuits whose hash had never been seen before,
    /// and every hash that was new appears in it, so no hash is ever
    /// handed out twice and none is lost; and the best cost becomes the
    /// minimum of the old best and the batch costs, with the best
    /// circuit updated to match.
    pub fn on_batch(&mut self, batch: Vec<(u64, Circuit, usize)>) -> (r: Vec<(u64, Circuit, usize)>)
        requires
            old(self).wf(),
        ensures
            final(self).wf(),
            final(self).best_cost <= old(self).best_cost,
            forall|h: u64| old(self).seen@.contains(h) ==> final(self).seen@.contains(h),
            forall|i: int|
                0 <= i < batch@.len() ==> final(self).seen@.contains((#[trigger] batch@[i]).0),
            forall|i: int|
                0 <= i < r@.len() ==> !old(self).seen@.contains((#[trigger] r@[i]).0)
                    && final(self).seen@.contains(r@[i].0),
            forall|i: int|
                0 <= i < batch@.len() && !old(self).seen@.contains((#[trigger] batch@[i]).0)
                    ==> exists|j: int| 0 <= j < r@.len() && (#[trigger] r@[j]).0 == batch@[i].0,
            forall|i: int| 0 <= i < batch@.len() ==> final(self).best_cost <= (#[trigger] batch@[i]).2,
            (final(self).best_cost == old(self).best_cost && final(self).best_circ == old(
                self,
            ).best_circ) || exists|i: int|
                0 <= i < batch@.len() && (#[trigger] batch@[i]).2 == final(self).best_cost
                    && final(self).best_circ.dag.nodes@ == batch@[i].1.dag.nodes@
                    && final(self).best_circ.dag.edges@ == batch@[i].1.dag.edges@,
            forall|i: int|
                0 <= i < old(self).best_costs@.len() ==> final(self).best_costs@[i]
                    == old(self).best_costs@[i],
            // forwarded tuples come from the batch unchanged
            forall|i: int| 0 <= i < r@.len() ==> tuple_from(#[trigger] r@[i], batch@),
    {
        let mut out: Vec<(u64, Circuit, usize)> = Vec::new();
        let ghost batch0 = batch@;
        let mut batch = batch;
        while batch.len() > 0
            invariant
                vstd::std_specs::hash::obeys_key_model::<u64>(),
                self.wf(),
                batch@.len() <= batch0.len(),
                batch@ == batch0.take(batch@.len() as int),
                self.best_cost <= old(self).best_cost,
                forall|h: u64| old(self).seen@.contains(h) ==> self.seen@.contains(h),
                forall|i: int|
                    batch@.len() <= i < batch0.len() ==> self.seen@.contains(
                        (#[trigger] batch0[i]).0,
                    ),
                forall|i: int|
                    0 <= i < out@.len() ==> !old(self).seen@.contains((#[trigger] out@[i]).0)
                        && self.seen@.contains(out@[i].0),
                forall|i: int| 0 <= i < out@.len() ==> tuple_from(#[trigger] out@[i], batch0),
                // every hash that became seen during this call is in the
                // outgoing batch
                forall|h: u64|
                    self.seen@.contains(h) && !old(self).seen@.contains(h) ==> exists|j: int|
                        0 <= j < out@.len() && (#[trigger] out@[j]).0 == h,
                forall|i: int|
                    batch@.len() <= i < batch0.len() ==> self.best_cost <= (#[trigger] batch0[i]).2,
                (self.best_cost == old(self).best_cost && self.best_circ == old(
                    self,
                ).best_circ) || exists|i: int|
                    batch@.len() <= i < batch0.len() && (#[trigger] batch0[i]).2 == self.best_cost
                        && self.best_circ.dag.nodes@ == batch0[i].1.dag.nodes@
                        && self.best_circ.dag.edges@ == batch0[i].1.dag.edges@,
                old(self).best_costs@.len() <= self.best_costs@.len(),
                forall|i: int|
                    0 <= i < old(self).best_costs@.len() ==> self.best_costs@[i] == old(
                        self,
                    ).best_costs@[i],
            decreases batch@.len(),
        {
            let ghost pre_batch = batch@;
            let ghost pre_out = out@;
            let ghost pre_seen = self.seen@;
            let (hash, circ, cost) = batch.pop().unwrap();
            proof {
                assert forall|i: int| 0 <= i < batch@.len() implies #[trigger] batch@[i] == batch0[
                    i
                ] by {
                    assert(batch@[i] == pre_batch[i]);
                    assert(pre_batch[i] == batch0.take(pre_batch.len() as int)[i]);
                }
                assert(batch@ =~= batch0.take(batch@.len() as int));
                assert(pre_batch[pre_batch.len() - 1] == batch0.take(pre_batch.len() as int)[
                    pre_batch.len() - 1
                ]);
                assert(batch0[batch@.len() as int].0 == hash);
                assert(batch0[batch@.len() as int].1 == circ);
                assert(batch0[batch@.len() as int].2 == cost);
            }
            if self.circ_count < usize::MAX {
                self.circ_count = self.circ_count + 1;
            }
            if cost < self.best_cost {
                self.best_circ = circ.duplicate();
                self.best_cost = cost;
                self.best_costs.push(cost);
            }
            if !self.seen.contains(&hash) {
                self.seen.insert(hash);
                out.push((hash, circ, cost));
                proof {
                    assert(out@[pre_out.len() as int].0 == hash);
                    assert(batch0[batch@.len() as int] == out@[pre_out.len() as int]);
                    assert forall|i: int|
                        0 <= i < out@.len() implies tuple_from(#[trigger] out@[i], batch0) by {
                        if i < pre_out.len() {
                            assert(out@[i] == pre_out[i]);
                            assert(tuple_from(pre_out[i], batch0));
                        } else {
                            assert(batch0[batch@.len() as int] == out@[i]);
                        }
                    }
                    assert forall|h: u64|
                        self.seen@.contains(h) && !old(self).seen@.contains(h) implies exists|
                        j: int,
                    |
                        0 <= j < out@.len() && (#[trigger] out@[j]).0 == h by {
                        if h == hash {
                            assert(out@[pre_out.len() as int].0 == h);
                        } else {
                            assert(pre_seen.contains(h));
                            let j = choose|j: int|
                                0 <= j < pre_out.len() && (#[trigger] pre_out[j]).0 == h;
                            assert(out@[j].0 == h);
                        }
                    }
                }
            }
        }
        out
    }
}

} // verus!

verus! {

/// Relies on std::time::Instant: an opaque point in time.
#[verifier::external_type_specification]
#[verifier::external_body]
pub struct ExInstant(std::time::Instant);

/// Relies on std::time::Instant::now. Nothing can be promised of the
/// clock's reading.
pub assume_specification[ std::time::Instant::now ]() -> (r: std::time::Instant);

/// The clock's reading now.
fn instant_now() -> std::time::Instant {
    std::time::Instant::now()
}

/// Relies on std::time::Instant::elapsed. Nothing can be promised of
/// the clock's reading.
pub assume_specification[ std::time::Instant::elapsed ](start: &std::time::Instant) -> (r:
    std::time::Duration);

/// Relies on std::time::Duration::as_secs: the whole seconds of the
/// span. Nothing is promised of the value.
pub assume_specification[ std::time::Duration::as_secs ](d: &std::time::Duration) -> (r: u64);

/// The whole seconds since `start`.
fn elapsed_secs(start: &std::time::Instant) -> u64 {
    start.elapsed().as_secs()
}

} // verus!
