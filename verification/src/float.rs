//! Floating-point operations, on the bits of their operands.
//!
//! The library never computes with floating-point numbers itself. Where a
//! double has to be added, rounded or converted, the caller's arithmetic unit
//! does it: a function from an operation and the bits of up to three operands
//! to the bits of the result. Operands that an operation does not have are
//! zero. Signs, NaN tests and comparisons are read off the bits.
use crate::ir::LibFunc;
use vstd::prelude::*;

verus! {

#[derive(Clone, Copy, PartialEq, Eq, Hash, Debug, Structural)]
pub enum FloatOp {
    Add,
    Sub,
    Mul,
    Div,
    /// The remainder with the sign of the dividend.
    Rem,
    /// `a * b + c`, rounded once.
    Fma,
    Sqrt,
    Floor,
    Ceil,
    /// To the nearest integer, halves away from zero.
    Round,
    Trunc,
    /// The lesser operand; a NaN gives way to a number.
    Min,
    /// The greater operand; a NaN gives way to a number.
    Max,
    Sin,
    Cos,
    Tan,
    Exp,
    /// The natural logarithm.
    Log,
    Pow,
    /// From the two's-complement bits of an `i64`.
    FromInt,
    /// To the two's-complement bits of an `i64`: toward zero, saturating, and
    /// zero for a NaN.
    ToInt,
}

/// What every floating-point operation computes.
pub type FloatSem = spec_fn(FloatOp, u64, u64, u64) -> u64;

/// `unit` takes every operation and always gives the same answer to the same
/// question.
pub open spec fn is_float_unit<F: Fn(FloatOp, u64, u64, u64) -> u64>(unit: F) -> bool {
    &&& forall|op: FloatOp, a: u64, b: u64, c: u64| #[trigger] call_requires(unit, (op, a, b, c))
    &&& forall|op: FloatOp, a: u64, b: u64, c: u64, r: u64, s: u64| #[trigger]
        call_ensures(unit, (op, a, b, c), r) && #[trigger] call_ensures(unit, (op, a, b, c), s)
            ==> r == s
}

/// What `unit` computes.
pub open spec fn sem_of<F: Fn(FloatOp, u64, u64, u64) -> u64>(unit: F) -> FloatSem {
    |op: FloatOp, a: u64, b: u64, c: u64| choose|r: u64| call_ensures(unit, (op, a, b, c), r)
}

/// Asks the unit.
pub fn compute<F: Fn(FloatOp, u64, u64, u64) -> u64>(
    unit: &F,
    op: FloatOp,
    a: u64,
    b: u64,
    c: u64,
) -> (r: u64)
    requires
        is_float_unit(*unit),
    ensures
        r == sem_of(*unit)(op, a, b, c),
{
    let r: u64 = unit(op, a, b, c);
    assert(call_ensures(*unit, (op, a, b, c), r));
    r
}

/// The operation that a library function stands for.
pub open spec fn lib_float_op(func: LibFunc) -> FloatOp {
    match func {
        LibFunc::Sin => FloatOp::Sin,
        LibFunc::Cos => FloatOp::Cos,
        LibFunc::Tan => FloatOp::Tan,
        LibFunc::Exp => FloatOp::Exp,
        LibFunc::Log => FloatOp::Log,
        LibFunc::Pow => FloatOp::Pow,
    }
}

pub fn float_op_of(func: LibFunc) -> (r: FloatOp)
    ensures
        r == lib_float_op(func),
{
    match func {
        LibFunc::Sin => FloatOp::Sin,
        LibFunc::Cos => FloatOp::Cos,
        LibFunc::Tan => FloatOp::Tan,
        LibFunc::Exp => FloatOp::Exp,
        LibFunc::Log => FloatOp::Log,
        LibFunc::Pow => FloatOp::Pow,
    }
}

} // verus!
