//! The types of instructions: which operands an operation takes, and what it
//! gives.
use crate::ir::{CmpOp, Function, Inst, LibFunc, Ty, Value};
use crate::verify::{operand_defect, operands_defect, type_defect};
use vstd::prelude::*;

verus! {

/// The type of a value, if the table has it.
pub open spec fn typed(f: Function, v: Value, ty: Ty) -> bool {
    v.0 < f.types@.len() && f.types@[v.0 as int] == ty
}

pub open spec fn both(f: Function, a: Value, b: Value, ty: Ty) -> bool {
    typed(f, a, ty) && typed(f, b, ty)
}

pub open spec fn every(f: Function, args: Seq<Value>, ty: Ty) -> bool {
    forall|i: int| #![trigger args[i]] 0 <= i < args.len() ==> typed(f, args[i], ty)
}

/// The instruction takes operands of the right types to a result of type
/// `ty`. Numbers are integers and doubles, and bits are integers and bools.
pub open spec fn well_typed(f: Function, inst: Inst, ty: Ty) -> bool {
    match inst {
        Inst::ConstF64(_) => ty == Ty::F64,
        Inst::ConstI64(_) => ty == Ty::I64,
        Inst::ConstBool(_) => ty == Ty::Bool,
        Inst::Param { index, ty: declared } => index < f.params@.len()
            && f.params@[index as int].1 == declared && ty == declared,
        Inst::Add(a, b)
        | Inst::Sub(a, b)
        | Inst::Mul(a, b)
        | Inst::Div(a, b)
        | Inst::Rem(a, b)
        | Inst::Min(a, b)
        | Inst::Max(a, b) => ty != Ty::Bool && both(f, a, b, ty),
        Inst::Neg(a) => ty != Ty::Bool && typed(f, a, ty),
        Inst::And(a, b) | Inst::Or(a, b) | Inst::Xor(a, b) => ty != Ty::F64 && both(f, a, b, ty),
        Inst::Not(a) => ty != Ty::F64 && typed(f, a, ty),
        Inst::Shl(a, b) | Inst::Shr(a, b) | Inst::Sar(a, b) => ty == Ty::I64 && both(
            f,
            a,
            b,
            Ty::I64,
        ),
        Inst::Cmp { op: CmpOp::Eq, lhs, rhs } | Inst::Cmp { op: CmpOp::Ne, lhs, rhs } => ty
            == Ty::Bool && (both(f, lhs, rhs, Ty::I64) || both(f, lhs, rhs, Ty::F64) || both(
            f,
            lhs,
            rhs,
            Ty::Bool,
        )),
        Inst::Cmp { lhs, rhs, .. } => ty == Ty::Bool && (both(f, lhs, rhs, Ty::I64) || both(
            f,
            lhs,
            rhs,
            Ty::F64,
        )),
        Inst::Fma { a, b, c } => ty == Ty::F64 && both(f, a, b, Ty::F64) && typed(f, c, Ty::F64),
        Inst::Sqrt(a)
        | Inst::Abs(a)
        | Inst::Floor(a)
        | Inst::Ceil(a)
        | Inst::Round(a)
        | Inst::Trunc(a) => ty == Ty::F64 && typed(f, a, Ty::F64),
        Inst::Call { func: LibFunc::Pow, args } => ty == Ty::F64 && args@.len() == 2 && every(
            f,
            args@,
            Ty::F64,
        ),
        Inst::Call { args, .. } => ty == Ty::F64 && args@.len() == 1 && every(f, args@, Ty::F64),
        Inst::IToF(a) => ty == Ty::F64 && typed(f, a, Ty::I64),
        Inst::FToI(a) => ty == Ty::I64 && typed(f, a, Ty::F64),
        Inst::Phi { .. } => every(f, inst@.args, ty),
    }
}

proof fn lemma_every(f: Function, value: Value, args: Seq<Value>, ty: Ty, i: int)
    requires
        0 <= i <= args.len(),
    ensures
        operands_defect(f, value, args, ty, i) is None <==> forall|j: int|
            #![trigger args[j]]
            i <= j < args.len() ==> typed(f, args[j], ty),
    decreases args.len() - i,
{
    if i < args.len() {
        lemma_every(f, value, args, ty, i + 1);
        assert(operand_defect(f, value, args[i], ty) is None <==> typed(f, args[i], ty));
    }
}

/// An instruction is found well typed exactly where it is.
pub proof fn lemma_types_checked(f: Function, value: Value, inst: Inst)
    requires
        value.0 < f.types@.len(),
    ensures
        type_defect(f, value, inst@) is None <==> well_typed(
            f,
            inst,
            f.types@[value.0 as int],
        ),
{
    let ty = f.types@[value.0 as int];
    let args = inst@.args;
    match inst {
        Inst::Fma { a, b, c } => {
            lemma_every(f, value, args, Ty::F64, 0);
            assert(args[0] == a && args[1] == b && args[2] == c);
        },
        Inst::Call { .. } => {
            lemma_every(f, value, args, Ty::F64, 0);
        },
        Inst::Phi { .. } => {
            lemma_every(f, value, args, ty, 0);
        },
        _ => {},
    }
}

} // verus!
