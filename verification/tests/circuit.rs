//! Tests of circuit construction.

use tket2::circuit::circuit::{Circuit, CircuitError};
use tket2::circuit::operation::Op;

#[test]
fn build_and_count() {
    let mut c = Circuit::with_qubits(2);
    assert!(c.check_wf());
    assert_eq!(c.n_commands(), 0);
    c.append_op(Op::H, &[0]).unwrap();
    c.append_op(Op::CX, &[0, 1]).unwrap();
    assert_eq!(c.n_commands(), 2);
    assert!(c.check_wf());
    let [i, o] = c.boundary();
    assert_eq!(i.0, 0);
    assert_eq!(o.0, 1);
    assert_eq!(c.commands().len(), 2);
}

#[test]
fn append_rejects_bad_wires() {
    let mut c = Circuit::with_qubits(2);
    // repeated wire
    assert_eq!(c.append_op(Op::CX, &[0, 0]), Err(CircuitError::InvalidWire));
    // out-of-range wire
    assert_eq!(c.append_op(Op::H, &[5]), Err(CircuitError::InvalidWire));
    // arity mismatch
    assert_eq!(
        c.append_op(Op::CX, &[0]),
        Err(CircuitError::InvalidSignature)
    );
    // gates without a signature cannot be appended
    assert_eq!(
        c.append_op(Op::Barrier, &[0]),
        Err(CircuitError::InvalidSignature)
    );
    // the circuit is unchanged after the failures
    assert_eq!(c.n_commands(), 0);
    assert!(c.check_wf());
}

#[test]
fn op_lookup() {
    let mut c = Circuit::with_qubits(1);
    let v = c.append_op(Op::X, &[0]).unwrap();
    assert_eq!(c.op_at(v), Some(Op::X));
    assert_eq!(c.op_at(c.input), Some(Op::Input));
    assert_eq!(c.op_at(tket2::graph::graph::NodeIndex(99)), None);
}
