//! Tests of pattern compilation, matching and the convexity checker.

use tket2::circuit::circuit::Circuit;
use tket2::circuit::operation::Op;
use tket2::graph::graph::NodeIndex;
use tket2::portmatching::convex::check_convex;
use tket2::portmatching::matcher::{
    ConvexChecker, InvalidPatternMatch, PatternID, PatternMatch, PatternMatcher,
};
use tket2::portmatching::pattern::{CircuitPattern, InvalidPattern};

fn bell_circ() -> Circuit {
    let mut c = Circuit::with_qubits(2);
    c.append_op(Op::H, &[0]).unwrap();
    c.append_op(Op::CX, &[0, 1]).unwrap();
    c
}

#[test]
fn construct_matcher() {
    // an H followed by a CX, matched against itself
    let mut circ = Circuit::with_qubits(2);
    circ.append_op(Op::CX, &[0, 1]).unwrap();
    circ.append_op(Op::H, &[0]).unwrap();

    let p = CircuitPattern::try_from_circuit(&circ).unwrap();
    let m = PatternMatcher::from_patterns(vec![p]);

    let matches = m.find_matches(&circ);
    assert_eq!(matches.len(), 1);
}

#[test]
fn empty_pattern_is_rejected() {
    let circ = Circuit::with_qubits(2);
    assert_eq!(
        CircuitPattern::try_from_circuit(&circ).err(),
        Some(InvalidPattern::EmptyPattern)
    );
}

#[test]
fn disconnected_pattern_is_rejected() {
    let mut circ = Circuit::with_qubits(2);
    circ.append_op(Op::H, &[0]).unwrap();
    circ.append_op(Op::H, &[1]).unwrap();
    assert_eq!(
        CircuitPattern::try_from_circuit(&circ).err(),
        Some(InvalidPattern::NotConnected)
    );
}

#[test]
fn bell_circuit_single_match() {
    // the pattern equals the host; exactly one match, rooted at the CX
    let host = bell_circ();
    let pattern = CircuitPattern::try_from_circuit(&bell_circ()).unwrap();
    let matcher = PatternMatcher::from_patterns(vec![pattern]);
    let matches = matcher.find_matches(&host);
    assert_eq!(matches.len(), 1);
    // nodes 0 and 1 are the boundary; H is node 2, CX is node 3
    assert_eq!(matches[0].root, NodeIndex(3));
}

#[test]
fn three_qubit_pattern_has_no_match_in_two_cx() {
    // host: two CX gates on two qubits
    let mut host = Circuit::with_qubits(2);
    host.append_op(Op::CX, &[0, 1]).unwrap();
    host.append_op(Op::CX, &[0, 1]).unwrap();
    // pattern: a three-qubit CX sequence
    let mut pat = Circuit::with_qubits(3);
    pat.append_op(Op::CX, &[0, 1]).unwrap();
    pat.append_op(Op::CX, &[2, 1]).unwrap();
    let pattern = CircuitPattern::try_from_circuit(&pat).unwrap();
    let matcher = PatternMatcher::from_patterns(vec![pattern]);
    let matches = matcher.find_matches(&host);
    assert_eq!(matches.len(), 0);
}

#[test]
fn h_cx_h_matches_three_times() {
    // host: H-CX-H-CX-H-CX-H with the Hs on the first wire
    let mut host = Circuit::with_qubits(2);
    host.append_op(Op::H, &[0]).unwrap();
    host.append_op(Op::CX, &[0, 1]).unwrap();
    host.append_op(Op::H, &[0]).unwrap();
    host.append_op(Op::CX, &[0, 1]).unwrap();
    host.append_op(Op::H, &[0]).unwrap();
    host.append_op(Op::CX, &[0, 1]).unwrap();
    host.append_op(Op::H, &[0]).unwrap();
    // pattern: H-CX-H on two wires
    let mut pat = Circuit::with_qubits(2);
    pat.append_op(Op::H, &[0]).unwrap();
    pat.append_op(Op::CX, &[0, 1]).unwrap();
    pat.append_op(Op::H, &[0]).unwrap();
    let pattern = CircuitPattern::try_from_circuit(&pat).unwrap();
    let matcher = PatternMatcher::from_patterns(vec![pattern]);
    let matches = matcher.find_matches(&host);
    assert_eq!(matches.len(), 3);
    // no two matches share all their nodes
    let mut sets: Vec<Vec<usize>> = matches
        .iter()
        .map(|m| {
            let mut v: Vec<usize> = m.position.nodes.iter().map(|n| n.0).collect();
            v.sort();
            v
        })
        .collect();
    sets.sort();
    sets.dedup();
    assert_eq!(sets.len(), 3);
}

#[test]
fn convexity_checker_flags_detours() {
    // three H gates in series on one wire
    let mut c = Circuit::with_qubits(1);
    let a = c.append_op(Op::H, &[0]).unwrap();
    let b = c.append_op(Op::H, &[0]).unwrap();
    let d = c.append_op(Op::H, &[0]).unwrap();
    // {a, d} is not convex: the path a -> b -> d leaves the set
    assert!(!check_convex(&c, &vec![a, d]));
    // contiguous sets are convex
    assert!(check_convex(&c, &vec![a, b]));
    assert!(check_convex(&c, &vec![a, b, d]));
    assert!(check_convex(&c, &vec![b]));
}

#[test]
fn matcher_accessors() {
    let pattern = CircuitPattern::try_from_circuit(&bell_circ()).unwrap();
    let matcher = PatternMatcher::from_patterns(vec![pattern]);
    assert_eq!(matcher.n_patterns(), 1);
    assert!(matcher.get_pattern(PatternID(0)).is_some());
    assert!(matcher.get_pattern(PatternID(1)).is_none());
}

#[test]
fn match_construction_by_root() {
    let host = bell_circ();
    let pattern = CircuitPattern::try_from_circuit(&bell_circ()).unwrap();
    let matcher = PatternMatcher::from_patterns(vec![pattern]);
    // the CX sits at node 3 of the host
    let m = PatternMatch::try_from_root_match(NodeIndex(3), PatternID(0), &host, &matcher)
        .unwrap();
    assert_eq!(m.pattern_id(), PatternID(0));
    assert_eq!(m.root, NodeIndex(3));
    // no match is rooted at the H
    assert_eq!(
        PatternMatch::try_from_root_match(NodeIndex(2), PatternID(0), &host, &matcher).err(),
        Some(InvalidPatternMatch::MatchNotFound)
    );
    // an unknown pattern ID is also a missing match
    assert_eq!(
        PatternMatch::try_from_root_match(NodeIndex(3), PatternID(7), &host, &matcher).err(),
        Some(InvalidPatternMatch::MatchNotFound)
    );
    let mut checker = ConvexChecker::new(&host);
    let m2 = PatternMatch::try_from_root_match_with_checker(
        NodeIndex(3),
        PatternID(0),
        &host,
        &matcher,
        &mut checker,
    )
    .unwrap();
    // replacing the whole bell circuit with an empty one leaves nothing
    let rewrite = m2.to_rewrite(Circuit::with_qubits(2));
    let out = rewrite.apply(&host).unwrap();
    assert_eq!(out.n_commands(), 0);
}

#[test]
fn recompiled_pattern_matches_identically() {
    // a pattern rebuilt from a stored copy of its circuit picks the same
    // root and finds the same matches, in the same order
    let mut host = Circuit::with_qubits(2);
    host.append_op(Op::H, &[0]).unwrap();
    host.append_op(Op::CX, &[0, 1]).unwrap();
    host.append_op(Op::H, &[0]).unwrap();
    host.append_op(Op::CX, &[0, 1]).unwrap();
    host.append_op(Op::H, &[0]).unwrap();

    let mut pat = Circuit::with_qubits(2);
    pat.append_op(Op::H, &[0]).unwrap();
    pat.append_op(Op::CX, &[0, 1]).unwrap();

    let first = CircuitPattern::try_from_circuit(&pat).unwrap();
    let stored = pat.duplicate();
    let second = CircuitPattern::try_from_circuit(&stored).unwrap();
    assert_eq!(first.root, second.root);

    let m1 = PatternMatcher::from_patterns(vec![first]);
    let m2 = PatternMatcher::from_patterns(vec![second]);
    let r1 = m1.find_matches(&host);
    let r2 = m2.find_matches(&host);
    assert_eq!(r1.len(), r2.len());
    for (a, b) in r1.iter().zip(r2.iter()) {
        assert_eq!(a.root, b.root);
        assert_eq!(a.pattern, b.pattern);
        let na: Vec<usize> = a.position.nodes.iter().map(|n| n.0).collect();
        let nb: Vec<usize> = b.position.nodes.iter().map(|n| n.0).collect();
        assert_eq!(na, nb);
    }
    assert!(r1.len() == 2);
}
