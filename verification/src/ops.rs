//! The quantum operation set and its commutation data.

use vstd::prelude::*;
use crate::circuit::operation::{Op, Signature, WireType};

verus! {

/// The closed set of quantum operations the optimiser works with.
#[derive(Clone, Copy, PartialEq, Eq, Structural, PartialOrd, Ord, Hash, Debug)]
pub enum T2Op {
    H,
    CX,
    T,
    S,
    X,
    Y,
    Z,
    Tdg,
    Sdg,
    ZZMax,
    Measure,
    RzF64,
    TK1,
}

/// The Pauli matrices.
#[derive(Clone, Copy, PartialEq, Eq, Structural, PartialOrd, Ord, Debug)]
pub enum Pauli {
    I,
    X,
    Y,
    Z,
}

/// The error returned when an operation is not a [`T2Op`].
#[derive(Clone, Copy, PartialEq, Eq, Structural, Debug)]
pub struct NotT2Op;

impl Pauli {
    /// Whether this Pauli commutes with another: the identity commutes
    /// with everything, and every Pauli commutes with itself.
    pub fn commutes_with(&self, other: Self) -> (r: bool)
        ensures
            r == (*self == Pauli::I || other == Pauli::I || *self == other),
    {
        *self == Pauli::I || other == Pauli::I || *self == other
    }
}

impl T2Op {
    /// The signature of the operation over the circuit wire types.
    pub fn signature(&self) -> (r: Signature)
        ensures
            r.linear@ == self.spec_linear(),
            r.nonlinear[0]@ == self.spec_params(),
            r.nonlinear[1]@.len() == 0,
    {
        let r = match self {
            T2Op::H | T2Op::T | T2Op::S | T2Op::X | T2Op::Y | T2Op::Z | T2Op::Tdg | T2Op::Sdg => {
                Signature::new_linear(vec![WireType::Qubit])
            },
            T2Op::CX | T2Op::ZZMax => Signature::new_linear(
                vec![WireType::Qubit, WireType::Qubit],
            ),
            T2Op::Measure => Signature::new_linear(vec![WireType::Qubit, WireType::LinearBit]),
            T2Op::RzF64 => Signature::new(vec![WireType::Qubit], [vec![WireType::F64], vec![]]),
            T2Op::TK1 => Signature::new(
                vec![WireType::Qubit],
                [vec![WireType::F64, WireType::F64, WireType::F64], vec![]],
            ),
        };
        proof {
            assert(r.linear@ =~= self.spec_linear());
            assert(r.nonlinear[0]@ =~= self.spec_params());
        }
        r
    }

    /// The linear wires of the operation's signature.
    pub open spec fn spec_linear(self) -> Seq<WireType> {
        match self {
            T2Op::CX | T2Op::ZZMax => seq![WireType::Qubit, WireType::Qubit],
            T2Op::Measure => seq![WireType::Qubit, WireType::LinearBit],
            _ => seq![WireType::Qubit],
        }
    }

    /// The parameter input wires of the operation's signature.
    pub open spec fn spec_params(self) -> Seq<WireType> {
        match self {
            T2Op::RzF64 => seq![WireType::F64],
            T2Op::TK1 => seq![WireType::F64, WireType::F64, WireType::F64],
            _ => Seq::empty(),
        }
    }

    /// How the operation commutes along its qubits: for each qubit
    /// index, the Pauli basis in which the operation is diagonal there.
    pub fn qubit_commutation(&self) -> (r: Vec<(usize, Pauli)>)
        ensures
            r@ == self.spec_qubit_commutation(),
    {
        let r: Vec<(usize, Pauli)> = match self {
            T2Op::X => vec![(0, Pauli::X)],
            T2Op::T | T2Op::Z | T2Op::S | T2Op::Tdg | T2Op::Sdg | T2Op::RzF64 => vec![
                (0, Pauli::Z),
            ],
            T2Op::CX => vec![(0, Pauli::Z), (1, Pauli::X)],
            T2Op::ZZMax => vec![(0, Pauli::Z), (1, Pauli::Z)],
            _ => vec![],
        };
        proof {
            assert(r@ =~= self.spec_qubit_commutation());
        }
        r
    }

    /// The specification of [`T2Op::qubit_commutation`].
    pub open spec fn spec_qubit_commutation(self) -> Seq<(usize, Pauli)> {
        match self {
            T2Op::X => seq![(0usize, Pauli::X)],
            T2Op::T | T2Op::Z | T2Op::S | T2Op::Tdg | T2Op::Sdg | T2Op::RzF64 => seq![
                (0usize, Pauli::Z),
            ],
            T2Op::CX => seq![(0usize, Pauli::Z), (1usize, Pauli::X)],
            T2Op::ZZMax => seq![(0usize, Pauli::Z), (1usize, Pauli::Z)],
            _ => Seq::empty(),
        }
    }

    /// The circuit gate kind of the operation.
    pub fn to_op(self) -> (r: Op)
        ensures
            r == self.spec_op(),
    {
        match self {
            T2Op::H => Op::H,
            T2Op::CX => Op::CX,
            T2Op::T => Op::T,
            T2Op::S => Op::S,
            T2Op::X => Op::X,
            T2Op::Y => Op::Y,
            T2Op::Z => Op::Z,
            T2Op::Tdg => Op::Tdg,
            T2Op::Sdg => Op::Sdg,
            T2Op::ZZMax => Op::ZZMax,
            T2Op::Measure => Op::Measure,
            T2Op::RzF64 => Op::RzF64,
            T2Op::TK1 => Op::TK1,
        }
    }

    /// The specification of [`T2Op::to_op`].
    pub open spec fn spec_op(self) -> Op {
        match self {
            T2Op::H => Op::H,
            T2Op::CX => Op::CX,
            T2Op::T => Op::T,
            T2Op::S => Op::S,
            T2Op::X => Op::X,
            T2Op::Y => Op::Y,
            T2Op::Z => Op::Z,
            T2Op::Tdg => Op::Tdg,
            T2Op::Sdg => Op::Sdg,
            T2Op::ZZMax => Op::ZZMax,
            T2Op::Measure => Op::Measure,
            T2Op::RzF64 => Op::RzF64,
            T2Op::TK1 => Op::TK1,
        }
    }

    /// The operation for a circuit gate kind, or [`NotT2Op`] for a gate
    /// outside the closed set.
    pub fn try_from_op(op: &Op) -> (r: Result<T2Op, NotT2Op>)
        ensures
            match r {
                Ok(t) => t.spec_op() == *op,
                Err(_) => forall|t: T2Op| t.spec_op() != *op,
            },
    {
        let r = match op {
            Op::H => Ok(T2Op::H),
            Op::CX => Ok(T2Op::CX),
            Op::T => Ok(T2Op::T),
            Op::S => Ok(T2Op::S),
            Op::X => Ok(T2Op::X),
            Op::Y => Ok(T2Op::Y),
            Op::Z => Ok(T2Op::Z),
            Op::Tdg => Ok(T2Op::Tdg),
            Op::Sdg => Ok(T2Op::Sdg),
            Op::ZZMax => Ok(T2Op::ZZMax),
            Op::Measure => Ok(T2Op::Measure),
            Op::RzF64 => Ok(T2Op::RzF64),
            Op::TK1 => Ok(T2Op::TK1),
            _ => Err(NotT2Op),
        };
        proof {
            if r is Err {
                assert forall|t: T2Op| t.spec_op() != *op by {}
            }
        }
        r
    }

    /// All operations of the closed set, in declaration order.
    pub fn all_variants() -> (r: Vec<T2Op>)
        ensures
            r@.len() == 13,
    {
        vec![
            T2Op::H,
            T2Op::CX,
            T2Op::T,
            T2Op::S,
            T2Op::X,
            T2Op::Y,
            T2Op::Z,
            T2Op::Tdg,
            T2Op::Sdg,
            T2Op::ZZMax,
            T2Op::Measure,
            T2Op::RzF64,
            T2Op::TK1,
        ]
    }
}

} // verus!
