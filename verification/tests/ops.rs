//! Tests of operations, signatures and angles.

use tket2::circuit::operation::{AngleValue, ConstValue, Op, Signature, WireType};
use tket2::ops::{Pauli, T2Op};

#[test]
fn pauli_commutation() {
    assert!(Pauli::I.commutes_with(Pauli::X));
    assert!(Pauli::Z.commutes_with(Pauli::I));
    assert!(Pauli::X.commutes_with(Pauli::X));
    assert!(!Pauli::X.commutes_with(Pauli::Z));
    assert!(!Pauli::Y.commutes_with(Pauli::Z));
}

#[test]
fn qubit_commutation_of_cx() {
    assert_eq!(
        T2Op::CX.qubit_commutation(),
        vec![(0, Pauli::Z), (1, Pauli::X)]
    );
    assert_eq!(T2Op::H.qubit_commutation(), vec![]);
    assert_eq!(T2Op::RzF64.qubit_commutation(), vec![(0, Pauli::Z)]);
}

#[test]
fn signature_shapes() {
    let sig = Signature::new_linear(vec![WireType::Qubit, WireType::Qubit]);
    assert_eq!(sig.len(), 2);
    assert!(!sig.is_empty());
    assert!(sig.purely_linear());
    assert!(!sig.purely_classical());

    let sig = Signature::new_nonlinear(vec![WireType::F64, WireType::F64], vec![WireType::F64]);
    assert_eq!(sig.len(), 2);
    assert!(!sig.purely_linear());
    assert!(sig.purely_classical());
}

#[test]
fn op_signature_queries() {
    assert!(Op::H.is_one_qb_gate());
    assert!(!Op::H.is_two_qb_gate());
    assert!(Op::CX.is_two_qb_gate());
    assert!(!Op::CX.is_one_qb_gate());
    assert!(Op::AngleAdd.is_pure_classical());
    assert!(!Op::Measure.is_pure_classical());
    assert!(Op::Input.signature().is_none());
    assert!(Op::Barrier.signature().is_none());
    let sig = Op::RzF64.signature().unwrap();
    assert_eq!(sig.linear, vec![WireType::Qubit]);
    assert_eq!(sig.nonlinear[0], vec![WireType::F64]);
    assert!(sig.nonlinear[1].is_empty());
}

#[test]
fn t2op_conversions() {
    for op in T2Op::all_variants() {
        assert_eq!(T2Op::try_from_op(&op.to_op()), Ok(op));
    }
    assert!(T2Op::try_from_op(&Op::Barrier).is_err());
    assert!(T2Op::try_from_op(&Op::Input).is_err());
}

#[test]
fn angle_arithmetic_is_exact() {
    // 1/2 + 1/3 == 5/6
    let a = AngleValue::rational(1, 2);
    let b = AngleValue::rational(1, 3);
    let sum = a.add(b);
    assert_eq!(sum.num * 6, 5 * sum.den);
    // 1/2 - 1/3 == 1/6
    let diff = a.sub(b);
    assert_eq!(diff.num * 6, 1 * diff.den);
    // (1/2) * (2/3) == 1/3
    let prod = a.mul(AngleValue::rational(2, 3));
    assert_eq!(prod.num * 3, prod.den);
    // negation
    let neg = a.neg();
    assert_eq!(neg.num, -1);
    assert_eq!(neg.den, 2);
}

#[test]
fn const_types() {
    assert_eq!(ConstValue::Bool(true).get_type(), WireType::Bool);
    assert_eq!(ConstValue::I32(5).get_type(), WireType::I32);
    assert_eq!(
        ConstValue::Angle(AngleValue::rational(1, 2)).get_type(),
        WireType::Angle
    );
}

#[test]
fn default_op_is_noop() {
    assert_eq!(Op::default(), Op::Noop(WireType::Qubit));
}
