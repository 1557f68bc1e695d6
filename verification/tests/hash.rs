//! Tests of the circuit content hash.

use tket2::circuit::circuit::Circuit;
use tket2::circuit::operation::Op;

#[test]
fn hash_is_stable_under_copying() {
    let mut c = Circuit::with_qubits(2);
    c.append_op(Op::H, &[0]).unwrap();
    c.append_op(Op::CX, &[0, 1]).unwrap();
    assert_eq!(c.circuit_hash(), c.duplicate().circuit_hash());
    assert_eq!(c.circuit_hash(), c.clone().circuit_hash());
}

#[test]
fn hash_ignores_node_identities() {
    // the same two gates added in either order: the node indices differ,
    // the wiring does not
    let mut c1 = Circuit::with_qubits(2);
    c1.append_op(Op::H, &[0]).unwrap();
    c1.append_op(Op::X, &[1]).unwrap();
    let mut c2 = Circuit::with_qubits(2);
    c2.append_op(Op::X, &[1]).unwrap();
    c2.append_op(Op::H, &[0]).unwrap();
    assert_eq!(c1.circuit_hash(), c2.circuit_hash());
}

#[test]
fn hash_distinguishes_circuits() {
    let mut c1 = Circuit::with_qubits(2);
    c1.append_op(Op::H, &[0]).unwrap();
    let mut c2 = Circuit::with_qubits(2);
    c2.append_op(Op::X, &[0]).unwrap();
    let mut c3 = Circuit::with_qubits(2);
    c3.append_op(Op::H, &[1]).unwrap();
    assert_ne!(c1.circuit_hash(), c2.circuit_hash());
    assert_ne!(c1.circuit_hash(), c3.circuit_hash());
}

#[test]
fn hash_sees_gate_order() {
    let mut c1 = Circuit::with_qubits(1);
    c1.append_op(Op::H, &[0]).unwrap();
    c1.append_op(Op::X, &[0]).unwrap();
    let mut c2 = Circuit::with_qubits(1);
    c2.append_op(Op::X, &[0]).unwrap();
    c2.append_op(Op::H, &[0]).unwrap();
    assert_ne!(c1.circuit_hash(), c2.circuit_hash());
}
