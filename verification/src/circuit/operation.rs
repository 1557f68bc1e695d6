//! Gate kinds, wire types and signatures.

use vstd::prelude::*;

verus! {

/// The type carried by a wire.
#[derive(Clone, Copy, PartialEq, Eq, Structural, PartialOrd, Ord, Hash, Debug)]
pub enum WireType {
    Qubit,
    LinearBit,
    Bool,
    I32,
    F64,
    Quat64,
    Angle,
}

/// An exact angle, in half-turns: the value `num / den` multiplied by pi
/// gives the angle in radians.
#[derive(Clone, Copy, PartialEq, Eq, Structural, Hash, Debug)]
pub struct AngleValue {
    pub num: i64,
    pub den: i64,
}

/// Bound within which angle numerators and denominators must stay so
/// that exact arithmetic cannot overflow a 64-bit result.
pub const ANGLE_BOUND: i64 = 0x4000_0000;

impl AngleValue {
    /// A well-formed angle has a positive, bounded denominator and a
    /// bounded numerator.
    pub open spec fn wf(self) -> bool {
        &&& 0 < self.den <= ANGLE_BOUND
        &&& -ANGLE_BOUND <= self.num <= ANGLE_BOUND
    }

    /// The rational `num / den` equals the rational `on / od`.
    pub open spec fn rat_eq(self, on: int, od: int) -> bool {
        self.num * od == on * self.den
    }

    /// The exact rational angle `num / den` (in half-turns).
    pub fn rational(num: i64, den: i64) -> (r: Self)
        requires
            0 < den <= ANGLE_BOUND,
            -ANGLE_BOUND <= num <= ANGLE_BOUND,
        ensures
            r.num == num,
            r.den == den,
            r.wf(),
    {
        AngleValue { num, den }
    }

    /// Exact sum: `a/b + c/d == (a*d + c*b) / (b*d)`.
    ///
    /// The result is exact but not normalised, so its parts can outgrow
    /// the well-formedness bound; re-check `wf` before chaining.
    pub fn add(self, rhs: Self) -> (r: Self)
        requires
            self.wf(),
            rhs.wf(),
        ensures
            r.rat_eq(
                self.num * rhs.den + rhs.num * self.den,
                self.den * rhs.den,
            ),
            r.den > 0,
    {
        proof {
            lemma_angle_products_bounded(self, rhs);
        }
        AngleValue { num: self.num * rhs.den + rhs.num * self.den, den: self.den * rhs.den }
    }

    /// Exact difference: `a/b - c/d == (a*d - c*b) / (b*d)`.
    pub fn sub(self, rhs: Self) -> (r: Self)
        requires
            self.wf(),
            rhs.wf(),
        ensures
            r.rat_eq(
                self.num * rhs.den - rhs.num * self.den,
                self.den * rhs.den,
            ),
            r.den > 0,
    {
        proof {
            lemma_angle_products_bounded(self, rhs);
        }
        AngleValue { num: self.num * rhs.den - rhs.num * self.den, den: self.den * rhs.den }
    }

    /// Exact product: `(a/b) * (c/d) == (a*c) / (b*d)`.
    pub fn mul(self, rhs: Self) -> (r: Self)
        requires
            self.wf(),
            rhs.wf(),
        ensures
            r.rat_eq(self.num * rhs.num, self.den * rhs.den),
            r.den > 0,
    {
        proof {
            lemma_angle_products_bounded(self, rhs);
        }
        AngleValue { num: self.num * rhs.num, den: self.den * rhs.den }
    }

    /// Exact negation.
    pub fn neg(self) -> (r: Self)
        requires
            self.wf(),
        ensures
            r.num == -self.num,
            r.den == self.den,
            r.wf(),
    {
        AngleValue { num: -self.num, den: self.den }
    }
}

proof fn lemma_angle_products_bounded(a: AngleValue, b: AngleValue)
    requires
        a.wf(),
        b.wf(),
    ensures
        -0x1000_0000_0000_0000 <= a.num * b.den <= 0x1000_0000_0000_0000,
        -0x1000_0000_0000_0000 <= b.num * a.den <= 0x1000_0000_0000_0000,
        -0x1000_0000_0000_0000 <= a.num * b.num <= 0x1000_0000_0000_0000,
        0 < a.den * b.den <= 0x1000_0000_0000_0000,
{
    assert(-0x1000_0000_0000_0000 <= a.num * b.den <= 0x1000_0000_0000_0000) by (nonlinear_arith)
        requires
            -0x4000_0000 <= a.num <= 0x4000_0000,
            0 < b.den <= 0x4000_0000,
    ;
    assert(-0x1000_0000_0000_0000 <= b.num * a.den <= 0x1000_0000_0000_0000) by (nonlinear_arith)
        requires
            -0x4000_0000 <= b.num <= 0x4000_0000,
            0 < a.den <= 0x4000_0000,
    ;
    assert(-0x1000_0000_0000_0000 <= a.num * b.num <= 0x1000_0000_0000_0000) by (nonlinear_arith)
        requires
            -0x4000_0000 <= a.num <= 0x4000_0000,
            -0x4000_0000 <= b.num <= 0x4000_0000,
    ;
    assert(0 < a.den * b.den <= 0x1000_0000_0000_0000) by (nonlinear_arith)
        requires
            0 < a.den <= 0x4000_0000,
            0 < b.den <= 0x4000_0000,
    ;
}

/// A constant value loaded by a `Const` node.
#[derive(Clone, Copy, PartialEq, Eq, Structural, Hash, Debug)]
pub enum ConstValue {
    Bool(bool),
    I32(i32),
    Angle(AngleValue),
}

impl ConstValue {
    /// The wire type of the loaded constant.
    pub fn get_type(&self) -> (r: WireType)
        ensures
            r == self.spec_get_type(),
    {
        match self {
            ConstValue::Bool(_) => WireType::Bool,
            ConstValue::I32(_) => WireType::I32,
            ConstValue::Angle(_) => WireType::Angle,
        }
    }

    pub open spec fn spec_get_type(self) -> WireType {
        match self {
            ConstValue::Bool(_) => WireType::Bool,
            ConstValue::I32(_) => WireType::I32,
            ConstValue::Angle(_) => WireType::Angle,
        }
    }
}

/// A gate kind.
///
/// `Input` and `Output` are the structural boundary markers; `Const`
/// loads a constant onto a wire; the rest are operations.
#[derive(Clone, Copy, PartialEq, Eq, Structural, Hash, Debug)]
pub enum Op {
    H,
    X,
    Y,
    Z,
    S,
    T,
    Sdg,
    Tdg,
    CX,
    ZZMax,
    Reset,
    Input,
    Output,
    Noop(WireType),
    Measure,
    Barrier,
    AngleAdd,
    AngleMul,
    AngleNeg,
    QuatMul,
    Copy { n_copies: u32, typ: WireType },
    Const(ConstValue),
    RxF64,
    RzF64,
    TK1,
    Rotation,
    ToRotation,
}

impl Default for Op {
    fn default() -> (r: Self)
        ensures
            r == Op::Noop(WireType::Qubit),
    {
        Op::Noop(WireType::Qubit)
    }
}

impl Op {
    /// Whether this kind of node has a signature: the boundary markers and
    /// `Barrier` do not.
    pub open spec fn spec_has_signature(self) -> bool {
        match self {
            Op::Input | Op::Output | Op::Barrier => false,
            _ => true,
        }
    }

    /// The linear wire types of the operation's signature.
    pub open spec fn spec_sig_linear(self) -> Seq<WireType> {
        match self {
            Op::Noop(typ) => seq![typ],
            Op::H | Op::X | Op::Y | Op::Z | Op::S | Op::T | Op::Sdg | Op::Tdg | Op::Reset => seq![
                WireType::Qubit,
            ],
            Op::CX | Op::ZZMax => seq![WireType::Qubit, WireType::Qubit],
            Op::Measure => seq![WireType::Qubit, WireType::LinearBit],
            Op::RxF64 | Op::RzF64 | Op::TK1 | Op::Rotation => seq![WireType::Qubit],
            _ => Seq::empty(),
        }
    }

    /// The nonlinear input wire types of the operation's signature.
    pub open spec fn spec_sig_in(self) -> Seq<WireType> {
        match self {
            Op::AngleAdd | Op::AngleMul => seq![WireType::F64, WireType::F64],
            Op::QuatMul => seq![WireType::Quat64, WireType::Quat64],
            Op::AngleNeg => seq![WireType::F64],
            Op::Copy { n_copies: _, typ } => seq![typ],
            Op::RxF64 | Op::RzF64 => seq![WireType::F64],
            Op::TK1 => seq![WireType::F64, WireType::F64, WireType::F64],
            Op::Rotation => seq![WireType::Quat64],
            Op::ToRotation => seq![WireType::Angle, WireType::F64, WireType::F64, WireType::F64],
            _ => Seq::empty(),
        }
    }

    /// The nonlinear output wire types of the operation's signature.
    pub open spec fn spec_sig_out(self) -> Seq<WireType> {
        match self {
            Op::AngleAdd | Op::AngleMul => seq![WireType::F64],
            Op::QuatMul => seq![WireType::Quat64],
            Op::AngleNeg => seq![WireType::F64],
            Op::Copy { n_copies, typ } => Seq::new(n_copies as nat, |i: int| typ),
            Op::Const(x) => seq![x.spec_get_type()],
            Op::ToRotation => seq![WireType::Quat64],
            _ => Seq::empty(),
        }
    }

    /// The signature of the operation, or `None` for the boundary
    /// markers and `Barrier`.
    pub fn signature(&self) -> (r: Option<Signature>)
        ensures
            r is Some <==> self.spec_has_signature(),
            match r {
                Some(sig) => {
                    &&& sig.linear@ == self.spec_sig_linear()
                    &&& sig.nonlinear[0]@ == self.spec_sig_in()
                    &&& sig.nonlinear[1]@ == self.spec_sig_out()
                },
                None => true,
            },
    {
        let r = match self {
            Op::Input | Op::Output | Op::Barrier => None,
            Op::Noop(typ) => Some(Signature::new_linear(vec![*typ])),
            Op::H | Op::X | Op::Y | Op::Z | Op::S | Op::T | Op::Sdg | Op::Tdg | Op::Reset => Some(
                Signature::new_linear(vec![WireType::Qubit]),
            ),
            Op::CX | Op::ZZMax => Some(
                Signature::new_linear(vec![WireType::Qubit, WireType::Qubit]),
            ),
            Op::Measure => Some(Signature::new_linear(vec![WireType::Qubit, WireType::LinearBit])),
            Op::AngleAdd | Op::AngleMul => Some(binary_op(WireType::F64)),
            Op::QuatMul => Some(binary_op(WireType::Quat64)),
            Op::AngleNeg => Some(
                Signature::new_nonlinear(vec![WireType::F64], vec![WireType::F64]),
            ),
            Op::Copy { n_copies, typ } => {
                let mut outs: Vec<WireType> = Vec::new();
                let n = *n_copies as usize;
                let mut i: usize = 0;
                while i < n
                    invariant
                        0 <= i <= n,
                        outs@.len() == i,
                        forall|j: int| 0 <= j < i ==> outs@[j] == *typ,
                    decreases n - i,
                {
                    outs.push(*typ);
                    i = i + 1;
                }
                Some(Signature::new_nonlinear(vec![*typ], outs))
            },
            Op::Const(x) => Some(Signature::new_nonlinear(vec![], vec![x.get_type()])),
            Op::RxF64 | Op::RzF64 => Some(
                Signature::new(vec![WireType::Qubit], [vec![WireType::F64], vec![]]),
            ),
            Op::TK1 => Some(
                Signature::new(
                    vec![WireType::Qubit],
                    [vec![WireType::F64, WireType::F64, WireType::F64], vec![]],
                ),
            ),
            Op::Rotation => Some(
                Signature::new(vec![WireType::Qubit], [vec![WireType::Quat64], vec![]]),
            ),
            Op::ToRotation => Some(
                Signature::new_nonlinear(
                    vec![WireType::Angle, WireType::F64, WireType::F64, WireType::F64],
                    vec![WireType::Quat64],
                ),
            ),
        };
        proof {
            match r {
                Some(ref sig) => {
                    assert(sig.linear@ =~= self.spec_sig_linear());
                    assert(sig.nonlinear[0]@ =~= self.spec_sig_in());
                    assert(sig.nonlinear[1]@ =~= self.spec_sig_out());
                },
                None => {},
            }
        }
        r
    }

    /// Whether the operation acts on exactly one linear qubit wire.
    pub fn is_one_qb_gate(&self) -> (r: bool)
        ensures
            r == (self.spec_has_signature() && self.spec_sig_linear() =~= seq![WireType::Qubit]),
    {
        match self.signature() {
            Some(sig) => {
                let ok = sig.linear.len() == 1 && sig.linear[0] == WireType::Qubit;
                proof {
                    if ok {
                        assert(self.spec_sig_linear() =~= seq![WireType::Qubit]);
                    } else {
                        assert(!(self.spec_sig_linear() =~= seq![WireType::Qubit]));
                    }
                }
                ok
            },
            None => false,
        }
    }

    /// Whether the operation acts on exactly two linear qubit wires.
    pub fn is_two_qb_gate(&self) -> (r: bool)
        ensures
            r == (self.spec_has_signature() && self.spec_sig_linear() =~= seq![
                WireType::Qubit,
                WireType::Qubit,
            ]),
    {
        match self.signature() {
            Some(sig) => {
                let ok = sig.linear.len() == 2 && sig.linear[0] == WireType::Qubit && sig.linear[1]
                    == WireType::Qubit;
                proof {
                    if ok {
                        assert(self.spec_sig_linear() =~= seq![WireType::Qubit, WireType::Qubit]);
                    } else {
                        assert(!(self.spec_sig_linear() =~= seq![
                            WireType::Qubit,
                            WireType::Qubit,
                        ]));
                    }
                }
                ok
            },
            None => false,
        }
    }

    /// Whether the operation has a signature with no qubit wire anywhere.
    pub fn is_pure_classical(&self) -> (r: bool)
        ensures
            r == (self.spec_has_signature() && (forall|i: int|
                0 <= i < self.spec_sig_linear().len() ==> self.spec_sig_linear()[i]
                    != WireType::Qubit) && (forall|i: int|
                0 <= i < self.spec_sig_in().len() ==> self.spec_sig_in()[i] != WireType::Qubit) && (
            forall|i: int|
                0 <= i < self.spec_sig_out().len() ==> self.spec_sig_out()[i] != WireType::Qubit)),
    {
        match self.signature() {
            Some(sig) => sig.purely_classical(),
            None => false,
        }
    }
}

/// The signature of a node: the types of its linear wires (same on both
/// sides) and of its nonlinear input and output wires.
#[derive(Clone, Debug)]
pub struct Signature {
    pub linear: Vec<WireType>,
    pub nonlinear: [Vec<WireType>; 2],
}

impl Signature {
    pub fn new(linear: Vec<WireType>, nonlinear: [Vec<WireType>; 2]) -> (r: Self)
        ensures
            r.linear@ == linear@,
            r.nonlinear[0]@ == nonlinear[0]@,
            r.nonlinear[1]@ == nonlinear[1]@,
    {
        Signature { linear, nonlinear }
    }

    pub fn new_linear(linear: Vec<WireType>) -> (r: Self)
        ensures
            r.linear@ == linear@,
            r.nonlinear[0]@ == Seq::<WireType>::empty(),
            r.nonlinear[1]@ == Seq::<WireType>::empty(),
    {
        Signature { linear, nonlinear: [vec![], vec![]] }
    }

    pub fn new_nonlinear(inputs: Vec<WireType>, outputs: Vec<WireType>) -> (r: Self)
        ensures
            r.linear@ == Seq::<WireType>::empty(),
            r.nonlinear[0]@ == inputs@,
            r.nonlinear[1]@ == outputs@,
    {
        Signature { linear: vec![], nonlinear: [inputs, outputs] }
    }

    /// Number of wire slots on the wider side.
    pub fn len(&self) -> (r: usize)
        requires
            self.linear@.len() + self.nonlinear[0]@.len() <= usize::MAX,
            self.linear@.len() + self.nonlinear[1]@.len() <= usize::MAX,
        ensures
            r == self.linear@.len() + (if self.nonlinear[0]@.len() >= self.nonlinear[1]@.len() {
                self.nonlinear[0]@.len()
            } else {
                self.nonlinear[1]@.len()
            }),
    {
        let a = self.nonlinear[0].len();
        let b = self.nonlinear[1].len();
        self.linear.len() + (if a >= b {
            a
        } else {
            b
        })
    }

    pub fn is_empty(&self) -> (r: bool)
        ensures
            r == (self.linear@.len() == 0 && self.nonlinear[0]@.len() == 0
                && self.nonlinear[1]@.len() == 0),
    {
        self.linear.is_empty() && self.nonlinear[0].is_empty() && self.nonlinear[1].is_empty()
    }

    pub fn purely_linear(&self) -> (r: bool)
        ensures
            r == (self.nonlinear[0]@.len() == 0 && self.nonlinear[1]@.len() == 0),
    {
        self.nonlinear[0].is_empty() && self.nonlinear[1].is_empty()
    }

    /// True when no wire of the signature carries a qubit.
    pub fn purely_classical(&self) -> (r: bool)
        ensures
            r == ((forall|i: int|
                0 <= i < self.linear@.len() ==> self.linear@[i] != WireType::Qubit) && (forall|
                i: int,
            |
                0 <= i < self.nonlinear[0]@.len() ==> self.nonlinear[0]@[i] != WireType::Qubit) && (
            forall|i: int|
                0 <= i < self.nonlinear[1]@.len() ==> self.nonlinear[1]@[i] != WireType::Qubit)),
    {
        !has_qubit(&self.linear) && !has_qubit(&self.nonlinear[0]) && !has_qubit(&self.nonlinear[1])
    }
}

/// Whether any entry of `wires` is a qubit wire.
fn has_qubit(wires: &Vec<WireType>) -> (r: bool)
    ensures
        r == exists|i: int| 0 <= i < wires@.len() && wires@[i] == WireType::Qubit,
{
    let mut i: usize = 0;
    while i < wires.len()
        invariant
            0 <= i <= wires@.len(),
            forall|j: int| 0 <= j < i ==> wires@[j] != WireType::Qubit,
        decreases wires@.len() - i,
    {
        if wires[i] == WireType::Qubit {
            return true;
        }
        i = i + 1;
    }
    false
}

/// The signature of a symmetric binary operation on values of type `typ`.
pub fn binary_op(typ: WireType) -> (r: Signature)
    ensures
        r.linear@ == Seq::<WireType>::empty(),
        r.nonlinear[0]@ == seq![typ, typ],
        r.nonlinear[1]@ == seq![typ],
{
    let r = Signature::new_nonlinear(vec![typ, typ], vec![typ]);
    proof {
        assert(r.nonlinear[0]@ =~= seq![typ, typ]);
        assert(r.nonlinear[1]@ =~= seq![typ]);
    }
    r
}

} // verus!
