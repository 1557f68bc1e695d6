//! Tests of the TASO driver.

use std::time::Instant;

use tket2::circuit::circuit::Circuit;
use tket2::circuit::operation::Op;
use tket2::optimiser::taso::{num_cx_gates, TasoOptimiser};
use tket2::optimiser::taso::TasoCoordinator;
use tket2::rewrite::{ECCRewriter, EqCircClass, ExhaustiveRewriteStrategy, Rewriter};

fn cx_circ() -> Circuit {
    let mut c = Circuit::with_qubits(2);
    c.append_op(Op::CX, &[0, 1]).unwrap();
    c
}

fn cx_cx_circ() -> Circuit {
    let mut c = Circuit::with_qubits(2);
    c.append_op(Op::CX, &[0, 1]).unwrap();
    c.append_op(Op::CX, &[0, 1]).unwrap();
    c
}

#[test]
fn dedup_stops_identity_rewrites() {
    // the rewrite library maps a CX to itself: after the first
    // iteration nothing new is found and exactly one hash was seen
    let ecc = EqCircClass {
        rep_circ: cx_circ(),
        other_circs: vec![cx_circ()],
    };
    let rewriter = ECCRewriter::from_eccs(vec![ecc]).unwrap();
    let opt = TasoOptimiser::new(rewriter, ExhaustiveRewriteStrategy, num_cx_gates);
    let (best, report) = opt.optimise_with_report(&cx_circ(), None);
    assert_eq!(report.seen_count, 1);
    assert_eq!(num_cx_gates(&best), 1);
    assert!(!report.timed_out);
    assert!(report.max_queue_len <= 10000);
}

#[test]
fn monotone_best_with_cx_reducing_library() {
    // CX;CX is equivalent to the identity: the driver should reach cost 0
    let ecc = EqCircClass {
        rep_circ: cx_cx_circ(),
        other_circs: vec![Circuit::with_qubits(2)],
    };
    let rewriter = ECCRewriter::from_eccs(vec![ecc]).unwrap();
    let opt = TasoOptimiser::new(rewriter, ExhaustiveRewriteStrategy, num_cx_gates);
    let initial = cx_cx_circ();
    let initial_cost = num_cx_gates(&initial);
    let (best, report) = opt.optimise_with_report(&initial, None);
    // the best-cost series never increases
    for w in report.best_costs.windows(2) {
        assert!(w[0] >= w[1]);
    }
    assert_eq!(report.best_costs[0], initial_cost);
    let final_cost = *report.best_costs.last().unwrap();
    assert!(final_cost < initial_cost);
    assert_eq!(num_cx_gates(&best), final_cost);
    assert_eq!(final_cost, 0);
}

#[test]
fn deadline_is_respected() {
    let ecc = EqCircClass {
        rep_circ: cx_cx_circ(),
        other_circs: vec![Circuit::with_qubits(2)],
    };
    let rewriter = ECCRewriter::from_eccs(vec![ecc]).unwrap();
    let opt = TasoOptimiser::new(rewriter, ExhaustiveRewriteStrategy, num_cx_gates);
    let mut host = Circuit::with_qubits(2);
    for _ in 0..6 {
        host.append_op(Op::CX, &[0, 1]).unwrap();
    }
    let t0 = Instant::now();
    let (best, _report) = opt.optimise_with_report(&host, Some(1));
    let elapsed = t0.elapsed().as_secs();
    // returns within the timeout plus a bounded constant
    assert!(elapsed <= 5);
    assert!(num_cx_gates(&best) <= num_cx_gates(&host));
}

#[test]
fn rewrite_application_reduces_cx_count() {
    let ecc = EqCircClass {
        rep_circ: cx_cx_circ(),
        other_circs: vec![Circuit::with_qubits(2)],
    };
    let rewriter = ECCRewriter::from_eccs(vec![ecc]).unwrap();
    let host = cx_cx_circ();
    let rewrites = rewriter.get_rewrites(&host);
    assert!(!rewrites.is_empty());
    let new_circ = rewrites[0].apply(&host).unwrap();
    assert_eq!(num_cx_gates(&new_circ), 0);
}

#[test]
fn coordinator_deduplicates_batches() {
    let initial = cx_circ();
    let h0 = initial.circuit_hash();
    let mut coord = TasoCoordinator::new(&initial, num_cx_gates(&initial), h0);
    // a batch repeating the initial hash and adding one new circuit
    let other = Circuit::with_qubits(2);
    let h1 = other.circuit_hash();
    let batch = vec![
        (h0, cx_circ(), 1),
        (h1, other.clone(), 0),
        (h1, other, 0),
    ];
    let forwarded = coord.on_batch(batch);
    assert_eq!(forwarded.len(), 1);
    assert_eq!(forwarded[0].0, h1);
    assert_eq!(forwarded[0].2, 0);
    assert_eq!(coord.best_cost, 0);
    for w in coord.best_costs.windows(2) {
        assert!(w[0] >= w[1]);
    }
}
