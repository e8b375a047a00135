//! What the operators and the functions of the language compute, written out
//! one by one, and that the instructions they are lowered to compute just that.
use crate::arith::{
    double_less, doubles_equal, lemma_bits_of, lemma_shl_multiplies, lemma_shr_divides, magnitude,
    negated_bits, quotient, remainder, wrap,
};
use crate::float::{FloatOp, FloatSem};
use crate::interp::{eval, RtValue};
use crate::ir::{LibFunc, Op, Ty, Value};
use crate::lower::{
    binary_model, call_model, intrinsic_arity, unary_model, BinaryOp, UnaryOp,
};
use vstd::arithmetic::power2::pow2;
use vstd::prelude::*;

verus! {

// ---------------------------------------------------------------------------
// The language

/// An integer where a double is wanted.
pub open spec fn widen(x: RtValue, ty: Ty, fs: FloatSem) -> Option<RtValue> {
    if ty == Ty::I64 {
        match x {
            RtValue::I64(n) => Some(RtValue::F64(fs(FloatOp::FromInt, n as u64, 0, 0))),
            _ => None,
        }
    } else {
        Some(x)
    }
}

/// Negation of a number, and the complement of an integer or a bool.
pub open spec fn unary_result(op: UnaryOp, x: RtValue) -> Option<RtValue> {
    match (op, x) {
        (UnaryOp::Neg, RtValue::F64(a)) => Some(RtValue::F64(negated_bits(a))),
        (UnaryOp::Neg, RtValue::I64(a)) => Some(RtValue::I64(wrap(-a))),
        (UnaryOp::Not | UnaryOp::BitNot, RtValue::I64(a)) => Some(RtValue::I64(!a)),
        (UnaryOp::Not | UnaryOp::BitNot, RtValue::Bool(a)) => Some(RtValue::Bool(!a)),
        _ => None,
    }
}

/// Arithmetic on two integers. It wraps; a division rounds toward zero and has
/// no result where the divisor is zero.
pub open spec fn int_result(op: BinaryOp, a: i64, b: i64) -> Option<RtValue> {
    match op {
        BinaryOp::Add => Some(RtValue::I64(wrap(a + b))),
        BinaryOp::Sub => Some(RtValue::I64(wrap(a - b))),
        BinaryOp::Mul => Some(RtValue::I64(wrap(a * b))),
        BinaryOp::Div => if b == 0 {
            None
        } else {
            Some(RtValue::I64(wrap(quotient(a as int, b as int))))
        },
        BinaryOp::Rem => if b == 0 {
            None
        } else {
            Some(RtValue::I64(wrap(remainder(a as int, b as int))))
        },
        BinaryOp::BitAnd | BinaryOp::And => Some(RtValue::I64(a & b)),
        BinaryOp::BitOr | BinaryOp::Or => Some(RtValue::I64(a | b)),
        BinaryOp::BitXor => Some(RtValue::I64(a ^ b)),
        BinaryOp::Shl => Some(RtValue::I64(wrap(a * pow2(((b as int) % 64) as nat)))),
        BinaryOp::Shr => Some(
            RtValue::I64(wrap((a as u64) as int / pow2(((b as int) % 64) as nat) as int)),
        ),
        BinaryOp::Eq => Some(RtValue::Bool(a == b)),
        BinaryOp::Ne => Some(RtValue::Bool(a != b)),
        BinaryOp::Lt => Some(RtValue::Bool(a < b)),
        BinaryOp::Le => Some(RtValue::Bool(a <= b)),
        BinaryOp::Gt => Some(RtValue::Bool(a > b)),
        BinaryOp::Ge => Some(RtValue::Bool(a >= b)),
    }
}

/// Arithmetic on two doubles, and their comparisons.
pub open spec fn double_result(op: BinaryOp, a: u64, b: u64, fs: FloatSem) -> Option<RtValue> {
    match op {
        BinaryOp::Add => Some(RtValue::F64(fs(FloatOp::Add, a, b, 0))),
        BinaryOp::Sub => Some(RtValue::F64(fs(FloatOp::Sub, a, b, 0))),
        BinaryOp::Mul => Some(RtValue::F64(fs(FloatOp::Mul, a, b, 0))),
        BinaryOp::Div => Some(RtValue::F64(fs(FloatOp::Div, a, b, 0))),
        BinaryOp::Rem => Some(RtValue::F64(fs(FloatOp::Rem, a, b, 0))),
        BinaryOp::Eq => Some(RtValue::Bool(doubles_equal(a, b))),
        BinaryOp::Ne => Some(RtValue::Bool(!doubles_equal(a, b))),
        BinaryOp::Lt => Some(RtValue::Bool(double_less(a, b))),
        BinaryOp::Le => Some(RtValue::Bool(double_less(a, b) || doubles_equal(a, b))),
        BinaryOp::Gt => Some(RtValue::Bool(double_less(b, a))),
        BinaryOp::Ge => Some(RtValue::Bool(double_less(b, a) || doubles_equal(a, b))),
        _ => None,
    }
}

/// What can be done with two bools.
pub open spec fn bool_result(op: BinaryOp, p: bool, q: bool) -> Option<RtValue> {
    match op {
        BinaryOp::And | BinaryOp::BitAnd => Some(RtValue::Bool(p && q)),
        BinaryOp::Or | BinaryOp::BitOr => Some(RtValue::Bool(p || q)),
        BinaryOp::BitXor => Some(RtValue::Bool(p != q)),
        BinaryOp::Eq => Some(RtValue::Bool(p == q)),
        BinaryOp::Ne => Some(RtValue::Bool(p != q)),
        _ => None,
    }
}

/// The result of an operator on two values of one type.
pub open spec fn binary_result(op: BinaryOp, l: RtValue, r: RtValue, fs: FloatSem) -> Option<
    RtValue,
> {
    match (l, r) {
        (RtValue::I64(a), RtValue::I64(b)) => int_result(op, a, b),
        (RtValue::F64(a), RtValue::F64(b)) => double_result(op, a, b, fs),
        (RtValue::Bool(p), RtValue::Bool(q)) => bool_result(op, p, q),
        _ => None,
    }
}

/// The function of a name on one double.
pub open spec fn call1(name: Seq<char>, a: u64, fs: FloatSem) -> Option<u64> {
    if name == "sqrt"@ {
        Some(fs(FloatOp::Sqrt, a, 0, 0))
    } else if name == "abs"@ {
        Some(magnitude(a))
    } else if name == "floor"@ {
        Some(fs(FloatOp::Floor, a, 0, 0))
    } else if name == "ceil"@ {
        Some(fs(FloatOp::Ceil, a, 0, 0))
    } else if name == "round"@ {
        Some(fs(FloatOp::Round, a, 0, 0))
    } else if name == "trunc"@ {
        Some(fs(FloatOp::Trunc, a, 0, 0))
    } else if name == "sin"@ {
        Some(fs(FloatOp::Sin, a, 0, 0))
    } else if name == "cos"@ {
        Some(fs(FloatOp::Cos, a, 0, 0))
    } else if name == "tan"@ {
        Some(fs(FloatOp::Tan, a, 0, 0))
    } else if name == "exp"@ {
        Some(fs(FloatOp::Exp, a, 0, 0))
    } else if name == "log"@ {
        Some(fs(FloatOp::Log, a, 0, 0))
    } else {
        None
    }
}

/// The function of a name on two doubles.
pub open spec fn call2(name: Seq<char>, a: u64, b: u64, fs: FloatSem) -> Option<u64> {
    if name == "min"@ {
        Some(fs(FloatOp::Min, a, b, 0))
    } else if name == "max"@ {
        Some(fs(FloatOp::Max, a, b, 0))
    } else if name == "pow"@ {
        Some(fs(FloatOp::Pow, a, b, 0))
    } else {
        None
    }
}

/// The function of a name on three doubles.
pub open spec fn call3(name: Seq<char>, a: u64, b: u64, c: u64, fs: FloatSem) -> Option<u64> {
    if name == "fma"@ {
        Some(fs(FloatOp::Fma, a, b, c))
    } else {
        None
    }
}

/// The result of a call. The arguments are doubles.
pub open spec fn call_result(name: Seq<char>, vs: Seq<RtValue>, fs: FloatSem) -> Option<RtValue> {
    let bits = if vs.len() == 1 && vs[0] is F64 {
        call1(name, vs[0]->F64_0, fs)
    } else if vs.len() == 2 && vs[0] is F64 && vs[1] is F64 {
        call2(name, vs[0]->F64_0, vs[1]->F64_0, fs)
    } else if vs.len() == 3 && vs[0] is F64 && vs[1] is F64 && vs[2] is F64 {
        call3(name, vs[0]->F64_0, vs[1]->F64_0, vs[2]->F64_0, fs)
    } else {
        None
    };
    match bits {
        Some(b) => Some(RtValue::F64(b)),
        None => None,
    }
}

// ---------------------------------------------------------------------------
// The instructions

/// The instruction of a unary operator computes what the operator does.
pub proof fn lemma_unary_lowered(op: UnaryOp, x: RtValue, fs: FloatSem)
    ensures
        eval(unary_model(op, Value(0)).op, seq![x], Seq::empty(), fs) == unary_result(op, x),
{
}

/// The instruction that widens.
pub proof fn lemma_widen_lowered(x: RtValue, fs: FloatSem)
    ensures
        eval(Op::IToF, seq![x], Seq::empty(), fs) == widen(x, Ty::I64, fs),
{
}

proof fn lemma_shifts(a: i64, b: i64)
    ensures
        crate::arith::shl64(a, b) == wrap(a * pow2(((b as int) % 64) as nat)),
        crate::arith::shr64(a, b) == wrap(
            (a as u64) as int / pow2(((b as int) % 64) as nat) as int,
        ),
{
    lemma_shl_multiplies(a, b);
    lemma_shr_divides(a, b);
    let r = crate::arith::shr64(a, b);
    lemma_bits_of(r);
    crate::arith::lemma_wrap_id(r);
    if r < 0 {
        crate::arith::lemma_wrap_congruent(r as u64 as int, r as int, 1);
    }
}

/// The instruction of a binary operator computes what the operator does.
pub proof fn lemma_binary_lowered(op: BinaryOp, l: RtValue, r: RtValue, fs: FloatSem)
    ensures
        eval(binary_model(op, Value(0), Value(0)).op, seq![l, r], Seq::empty(), fs)
            == binary_result(op, l, r, fs),
{
    match (l, r) {
        (RtValue::I64(a), RtValue::I64(b)) => lemma_shifts(a, b),
        _ => {},
    }
}

proof fn lemma_names_differ()
    ensures
        forall|i: int, j: int|
            #![trigger all_names()[i], all_names()[j]]
            0 <= i < j < 15 ==> all_names()[i] != all_names()[j],
{
    reveal_strlit("sqrt");
    reveal_strlit("abs");
    reveal_strlit("floor");
    reveal_strlit("ceil");
    reveal_strlit("round");
    reveal_strlit("trunc");
    reveal_strlit("min");
    reveal_strlit("max");
    reveal_strlit("fma");
    reveal_strlit("sin");
    reveal_strlit("cos");
    reveal_strlit("tan");
    reveal_strlit("exp");
    reveal_strlit("log");
    reveal_strlit("pow");
    assert forall|i: int, j: int|
        #![trigger all_names()[i], all_names()[j]]
        0 <= i < j < 15 implies all_names()[i] != all_names()[j] by {
        let a = all_names()[i];
        let b = all_names()[j];
        assert(a.len() != b.len() || a[0] != b[0] || a[1] != b[1] || a[2] != b[2]);
    }
}

/// The names of the functions.
pub open spec fn all_names() -> Seq<Seq<char>> {
    seq![
        "sqrt"@,
        "abs"@,
        "floor"@,
        "ceil"@,
        "round"@,
        "trunc"@,
        "min"@,
        "max"@,
        "fma"@,
        "sin"@,
        "cos"@,
        "tan"@,
        "exp"@,
        "log"@,
        "pow"@,
    ]
}

/// The instruction of a call computes what the function of that name does.
#[verifier::rlimit(60)]
pub proof fn lemma_call_lowered(name: Seq<char>, vs: Seq<RtValue>, fs: FloatSem)
    requires
        intrinsic_arity(name) == Some(vs.len()),
    ensures
        eval(call_model(name, Seq::empty()).op, vs, Seq::empty(), fs) == call_result(name, vs, fs),
{
    lemma_names_differ();
    let n = all_names();
    assert(n[0] == "sqrt"@ && n[1] == "abs"@ && n[2] == "floor"@ && n[3] == "ceil"@ && n[4]
        == "round"@ && n[5] == "trunc"@ && n[6] == "min"@ && n[7] == "max"@ && n[8] == "fma"@
        && n[9] == "sin"@ && n[10] == "cos"@ && n[11] == "tan"@ && n[12] == "exp"@ && n[13]
        == "log"@ && n[14] == "pow"@);
}

/// How many arguments each function takes: the number on which it is one.
pub proof fn lemma_arity(name: Seq<char>, a: u64, b: u64, c: u64, fs: FloatSem)
    ensures
        intrinsic_arity(name) == Some(1nat) <==> call1(name, a, fs) is Some,
        intrinsic_arity(name) == Some(2nat) <==> call2(name, a, b, fs) is Some,
        intrinsic_arity(name) == Some(3nat) <==> call3(name, a, b, c, fs) is Some,
        intrinsic_arity(name) matches Some(n) ==> 1 <= n <= 3,
{
    lemma_names_differ();
    let n = all_names();
    assert(n[0] == "sqrt"@ && n[1] == "abs"@ && n[2] == "floor"@ && n[3] == "ceil"@ && n[4]
        == "round"@ && n[5] == "trunc"@ && n[6] == "min"@ && n[7] == "max"@ && n[8] == "fma"@
        && n[9] == "sin"@ && n[10] == "cos"@ && n[11] == "tan"@ && n[12] == "exp"@ && n[13]
        == "log"@ && n[14] == "pow"@);
}

// ---------------------------------------------------------------------------
// The interpreter

/// A call asks the arithmetic unit for the operation of its own name.
pub proof fn lemma_calls_ask_by_name(a: u64, b: u64, args: Seq<RtValue>, fs: FloatSem)
    ensures
        eval(Op::Call(LibFunc::Sin), seq![RtValue::F64(a)], args, fs) == Some(
            RtValue::F64(fs(FloatOp::Sin, a, 0, 0)),
        ),
        eval(Op::Call(LibFunc::Cos), seq![RtValue::F64(a)], args, fs) == Some(
            RtValue::F64(fs(FloatOp::Cos, a, 0, 0)),
        ),
        eval(Op::Call(LibFunc::Tan), seq![RtValue::F64(a)], args, fs) == Some(
            RtValue::F64(fs(FloatOp::Tan, a, 0, 0)),
        ),
        eval(Op::Call(LibFunc::Exp), seq![RtValue::F64(a)], args, fs) == Some(
            RtValue::F64(fs(FloatOp::Exp, a, 0, 0)),
        ),
        eval(Op::Call(LibFunc::Log), seq![RtValue::F64(a)], args, fs) == Some(
            RtValue::F64(fs(FloatOp::Log, a, 0, 0)),
        ),
        eval(Op::Call(LibFunc::Pow), seq![RtValue::F64(a), RtValue::F64(b)], args, fs) == Some(
            RtValue::F64(fs(FloatOp::Pow, a, b, 0)),
        ),
{
}

/// Arithmetic on doubles asks the arithmetic unit for the operation of its own
/// name, with its operands in order.
pub proof fn lemma_doubles_ask_by_name(a: u64, b: u64, c: u64, args: Seq<RtValue>, fs: FloatSem)
    ensures
        ({
            let two = seq![RtValue::F64(a), RtValue::F64(b)];
            let one = seq![RtValue::F64(a)];
            let three = seq![RtValue::F64(a), RtValue::F64(b), RtValue::F64(c)];
            &&& eval(Op::Add, two, args, fs) == Some(RtValue::F64(fs(FloatOp::Add, a, b, 0)))
            &&& eval(Op::Sub, two, args, fs) == Some(RtValue::F64(fs(FloatOp::Sub, a, b, 0)))
            &&& eval(Op::Mul, two, args, fs) == Some(RtValue::F64(fs(FloatOp::Mul, a, b, 0)))
            &&& eval(Op::Div, two, args, fs) == Some(RtValue::F64(fs(FloatOp::Div, a, b, 0)))
            &&& eval(Op::Rem, two, args, fs) == Some(RtValue::F64(fs(FloatOp::Rem, a, b, 0)))
            &&& eval(Op::Min, two, args, fs) == Some(RtValue::F64(fs(FloatOp::Min, a, b, 0)))
            &&& eval(Op::Max, two, args, fs) == Some(RtValue::F64(fs(FloatOp::Max, a, b, 0)))
            &&& eval(Op::Fma, three, args, fs) == Some(RtValue::F64(fs(FloatOp::Fma, a, b, c)))
            &&& eval(Op::Sqrt, one, args, fs) == Some(RtValue::F64(fs(FloatOp::Sqrt, a, 0, 0)))
            &&& eval(Op::Floor, one, args, fs) == Some(RtValue::F64(fs(FloatOp::Floor, a, 0, 0)))
            &&& eval(Op::Ceil, one, args, fs) == Some(RtValue::F64(fs(FloatOp::Ceil, a, 0, 0)))
            &&& eval(Op::Round, one, args, fs) == Some(RtValue::F64(fs(FloatOp::Round, a, 0, 0)))
            &&& eval(Op::Trunc, one, args, fs) == Some(RtValue::F64(fs(FloatOp::Trunc, a, 0, 0)))
            &&& eval(Op::FToI, one, args, fs) == Some(
                RtValue::I64(fs(FloatOp::ToInt, a, 0, 0) as i64),
            )
            &&& eval(Op::Abs, one, args, fs) == Some(RtValue::F64(magnitude(a)))
            &&& eval(Op::Neg, one, args, fs) == Some(RtValue::F64(negated_bits(a)))
        }),
{
}

/// An arithmetic right shift, which no operator of the language stands for,
/// divides by a power of two and rounds down.
pub proof fn lemma_sar_evaluates(a: i64, b: i64, args: Seq<RtValue>, fs: FloatSem)
    ensures
        eval(Op::Sar, seq![RtValue::I64(a), RtValue::I64(b)], args, fs) == Some(
            RtValue::I64(((a as int) / (pow2(((b as int) % 64) as nat) as int)) as i64),
        ),
{
    crate::arith::lemma_sar_divides(a, b);
}

} // verus!
