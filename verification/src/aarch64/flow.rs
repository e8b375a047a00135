//! Code with control flow that keeps every value in a register computes what
//! its function computes.
use crate::aarch64::correct::{
    in_float, is_param, kept, lemma_epilogue, lemma_prologue, lemma_separate, numbered, separate,
};
use crate::aarch64::emit::{chain, condition_of, count_params, holds_when, nothing, phi_source, type_of, Code};
use crate::aarch64::encode::{Condition, Gpr};
use crate::aarch64::encode::{lemma_reg, reg};
use crate::aarch64::error::EmitError;
use crate::aarch64::execute::{
    after, all_go_on, condition_holds, execute, get_d, get_x, lemma_after_add, lemma_after_one,
    lemma_cast_back, lemma_constant_runs, lemma_go_on_add, lemma_not_runs, lemma_or_zero,
    lemma_rem_runs, lemma_stands_parts, lemma_straight, set_x, stands_at, step, whole, Flags,
    Machine,
};
use crate::aarch64::functions::{register_blocks, register_starts, register_values};
use crate::aarch64::machine::{constant, FloatUnaryOp, IntOp, A64};
use crate::aarch64::registers::{
    assignment, compared_again, edge_copies, edge_copy, epilogue, f64_inst, f64_term, float_op,
    int_op, last_comparison, lemma_covered, move_code, prologue, register_of, saved_count, frame_bytes, Assignment,
};
use crate::arith::wrap;
use crate::dominance::{dom, edge};
use crate::float::FloatSem;
use crate::interp::{
    after_block, compare, edge_from, empty_frame, eval, eval_inst, operand_values, reads, run,
    run_insts, slot, yields, Frame, Next,
};
use crate::interp::RtValue;
use crate::ir::{Block, CmpOp, Function, Terminator, Ty, Value};
use crate::ir::Op;
use crate::opt::simulate::{
    args_match, computed_before, extends, frame_typed, inv, lemma_edge_from, lemma_eval_extends,
    lemma_inv_edge, lemma_inv_insts, lemma_inv_start, lemma_next_is_new, lemma_phi_operand_typed,
    ranks, value_ty,
};
use crate::verify::{def_at, end_use_ok, inst_ok, valid};
use vstd::prelude::*;

verus! {

// ---------------------------------------------------------------------------
// One value

/// The value is in the register of `v`. Nothing is said of a bool.
pub open spec fn in_register(a: Assignment, v: int, x: RtValue, m: Machine) -> bool {
    match x {
        RtValue::F64(bits) => a.regs[v] is Some && m.d[a.regs[v].unwrap().number() as int] == bits,
        RtValue::I64(n) => a.regs[v] is Some && a.regs[v].unwrap().number() < 31
            && m.x[a.regs[v].unwrap().number() as int] == n,
        RtValue::Bool(_) => a.regs[v] is Some,
    }
}

/// Every value computed so far is in its register.
pub open spec fn held(a: Assignment, vals: Frame, m: Machine) -> bool {
    &&& vals.len() == a.regs.len()
    &&& forall|v: int|
        #![trigger vals[v]]
        0 <= v < vals.len() && vals[v] is Some ==> in_register(a, v, vals[v].unwrap(), m)
}

/// The arguments come in the first registers of their bank: the doubles in D0
/// and behind it, the integers in X0 and behind it.
pub open spec fn arguments(f: Function, args: Seq<RtValue>, m: Machine) -> bool {
    forall|i: int|
        #![trigger args[i]]
        0 <= i < args.len() ==> {
            let n = count_params(f, f.params@[i].1, i as nat) as int;
            n < 8 ==> match args[i] {
                RtValue::F64(bits) => m.d[n] == bits,
                RtValue::I64(z) => m.x[n] == z,
                RtValue::Bool(_) => true,
            }
        }
}

/// The machines differ in one register of one bank at most, and in what was
/// compared last.
pub open spec fn only_at(float: bool, n: int, m: Machine, p: Machine) -> bool {
    &&& whole(p)
    &&& p.sp == m.sp
    &&& p.memory == m.memory
    &&& forall|j: int| #![trigger p.x[j]] 0 <= j < 32 && (float || j != n) ==> p.x[j] == m.x[j]
    &&& forall|j: int| #![trigger p.d[j]] 0 <= j < 32 && (!float || j != n) ==> p.d[j] == m.d[j]
}

/// What a comparison of these operands leaves in the flags.
pub open spec fn flags_of(l: RtValue, r: RtValue) -> Flags {
    match (l, r) {
        (RtValue::I64(x), RtValue::I64(y)) => Flags::Ints(x, y),
        (RtValue::F64(x), RtValue::F64(y)) => Flags::Doubles(x, y),
        _ => Flags::Unset,
    }
}

/// A comparison of integers or of doubles.
pub open spec fn plain_comparison(f: Function, v: int) -> bool {
    f.inst(v).op is Compare && type_of(f, f.inst(v).args[0]) != Some(Ty::Bool)
}

/// What is known of an operand that has been computed.
pub open spec fn operand_ready(
    f: Function,
    a: Assignment,
    u: Value,
    x: RtValue,
    dst: int,
    float: bool,
    m: Machine,
) -> bool {
    &&& register_of(a.regs, u) is Ok
    &&& type_of(f, u) == Some(value_ty(x))
    &&& in_float(f, false, u.0 as int) == (value_ty(x) == Ty::F64)
    &&& register_of(a.regs, u)->Ok_0.number() < 32
    &&& in_float(f, false, u.0 as int) == float ==> register_of(a.regs, u)->Ok_0.number() != dst
    &&& match x {
        RtValue::F64(bits) => get_d(m, register_of(a.regs, u)->Ok_0) == bits,
        RtValue::I64(n) => register_of(a.regs, u)->Ok_0.number() < 31 && get_x(
            m,
            register_of(a.regs, u)->Ok_0,
        ) == n,
        RtValue::Bool(_) => register_of(a.regs, u)->Ok_0.number() < 31,
    }
}

proof fn lemma_operand(
    f: Function,
    a: Assignment,
    v: Value,
    u: Value,
    vals: Frame,
    m: Machine,
)
    requires
        separate(f, false, a),
        f.types@.len() == f.insts@.len(),
        v.0 < f.insts@.len(),
        a.regs[v.0 as int] is Some,
        !is_param(f, v.0 as int),
        held(a, vals, m),
        frame_typed(f, vals),
        vals[v.0 as int] is None,
        slot(vals, u) is Some,
    ensures
        operand_ready(
            f,
            a,
            u,
            slot(vals, u).unwrap(),
            a.regs[v.0 as int].unwrap().number() as int,
            in_float(f, false, v.0 as int),
            m,
        ),
{
    assert(Value(u.0 as int as u32) == u);
    assert(Value(v.0 as int as u32) == v);
    assert(vals[u.0 as int] is Some);
    assert(a.regs[u.0 as int] is Some && a.regs[v.0 as int] is Some);
    assert(u.0 != v.0);
}

/// The code of `v` is there, its operands are in their registers with the
/// values `vs`, and they have a result.
pub open spec fn about(
    f: Function,
    a: Assignment,
    v: Value,
    vs: Seq<RtValue>,
    m: Machine,
    args: Seq<RtValue>,
    fs: FloatSem,
) -> bool {
    let im = f.inst(v.0 as int);
    let dst = a.regs[v.0 as int].unwrap();
    let float = in_float(f, false, v.0 as int);
    &&& v.0 < f.types@.len()
    &&& whole(m)
    &&& a.regs[v.0 as int] is Some
    &&& dst.number() < 32
    &&& !float ==> dst.number() < 31
    &&& f64_inst(f, a.regs, v) is Ok
    &&& vs.len() == reads(im.op)
    &&& forall|j: int|
        0 <= j < vs.len() ==> operand_ready(
            f,
            a,
            #[trigger] im.args[j],
            vs[j],
            dst.number() as int,
            float,
            m,
        )
    &&& eval(im.op, vs, args, fs) is Some
    &&& value_ty(eval(im.op, vs, args, fs).unwrap()) == f.types@[v.0 as int]
}

/// The code of `v` leaves the result in the register of `v`, or in the flags,
/// and changes nothing else.
pub open spec fn computed(
    f: Function,
    a: Assignment,
    v: Value,
    vs: Seq<RtValue>,
    m: Machine,
    args: Seq<RtValue>,
    fs: FloatSem,
) -> bool {
    let im = f.inst(v.0 as int);
    let p = after(m, f64_inst(f, a.regs, v)->Ok_0, fs);
    let n = a.regs[v.0 as int].unwrap().number() as int;
    &&& only_at(in_float(f, false, v.0 as int), n, m, p)
    &&& in_register(a, v.0 as int, eval(im.op, vs, args, fs).unwrap(), p)
    &&& !(im.op is Compare) ==> p.flags == m.flags
    &&& plain_comparison(f, v.0 as int) ==> p.flags == flags_of(vs[0], vs[1])
}

/// Constants.
#[verifier::rlimit(60)]
proof fn lemma_constant_value(
    f: Function,
    a: Assignment,
    v: Value,
    vs: Seq<RtValue>,
    m: Machine,
    args: Seq<RtValue>,
    fs: FloatSem,
)
    requires
        about(f, a, v, vs, m, args, fs),
        f.inst(v.0 as int).op is ConstF64 || f.inst(v.0 as int).op is ConstI64
            || f.inst(v.0 as int).op is ConstBool,
    ensures
        computed(f, a, v, vs, m, args, fs),
{
    let im = f.inst(v.0 as int);
    let dst = a.regs[v.0 as int].unwrap();
    let float = in_float(f, false, v.0 as int);
    assert(Value(v.0 as int as u32) == v);
    match im.op {
        Op::ConstF64(bits) => {
            lemma_after_one(m, A64::Literal { dst, bits }, fs);
        },
        Op::ConstI64(n) => {
            lemma_constant_runs(m, dst, n as u64, fs);
            lemma_cast_back(n);
        },
        Op::ConstBool(b) => {
            let bit: u64 = if b {
                1
            } else {
                0
            };
            lemma_constant_runs(m, dst, bit, fs);
        },
        _ => {},
    }
}

/// Two doubles.
#[verifier::rlimit(60)]
proof fn lemma_float_pair(
    f: Function,
    a: Assignment,
    v: Value,
    vs: Seq<RtValue>,
    m: Machine,
    args: Seq<RtValue>,
    fs: FloatSem,
)
    requires
        about(f, a, v, vs, m, args, fs),
        float_op(f.inst(v.0 as int).op) is Some,
        in_float(f, false, v.0 as int),
    ensures
        computed(f, a, v, vs, m, args, fs),
{
    let im = f.inst(v.0 as int);
    let dst = a.regs[v.0 as int].unwrap();
    let float = in_float(f, false, v.0 as int);
    assert(Value(v.0 as int as u32) == v);
    assert(operand_ready(f, a, im.args[0], vs[0], dst.number() as int, float, m));
    assert(operand_ready(f, a, im.args[1], vs[1], dst.number() as int, float, m));
    let lhs = register_of(a.regs, im.args[0])->Ok_0;
    let rhs = register_of(a.regs, im.args[1])->Ok_0;
    let pair = float_op(im.op).unwrap();
    lemma_after_one(m, A64::Float { pair, dst, lhs, rhs }, fs);
}

/// Two integers, or two bools.
#[verifier::rlimit(60)]
proof fn lemma_int_pair(
    f: Function,
    a: Assignment,
    v: Value,
    vs: Seq<RtValue>,
    m: Machine,
    args: Seq<RtValue>,
    fs: FloatSem,
)
    requires
        about(f, a, v, vs, m, args, fs),
        int_op(f.inst(v.0 as int).op) is Some,
        !in_float(f, false, v.0 as int),
    ensures
        computed(f, a, v, vs, m, args, fs),
{
    let im = f.inst(v.0 as int);
    let dst = a.regs[v.0 as int].unwrap();
    let float = in_float(f, false, v.0 as int);
    assert(Value(v.0 as int as u32) == v);
    assert(operand_ready(f, a, im.args[0], vs[0], dst.number() as int, float, m));
    assert(operand_ready(f, a, im.args[1], vs[1], dst.number() as int, float, m));
    let lhs = register_of(a.regs, im.args[0])->Ok_0;
    let rhs = register_of(a.regs, im.args[1])->Ok_0;
    let op = int_op(im.op).unwrap();
    lemma_after_one(m, A64::Int { op, dst, lhs, rhs }, fs);
}

/// The remainder.
#[verifier::rlimit(60)]
proof fn lemma_remainder(
    f: Function,
    a: Assignment,
    v: Value,
    vs: Seq<RtValue>,
    m: Machine,
    args: Seq<RtValue>,
    fs: FloatSem,
)
    requires
        about(f, a, v, vs, m, args, fs),
        f.inst(v.0 as int).op is Rem,
    ensures
        computed(f, a, v, vs, m, args, fs),
{
    let im = f.inst(v.0 as int);
    let dst = a.regs[v.0 as int].unwrap();
    let float = in_float(f, false, v.0 as int);
    assert(Value(v.0 as int as u32) == v);
    assert(operand_ready(f, a, im.args[0], vs[0], dst.number() as int, float, m));
    assert(operand_ready(f, a, im.args[1], vs[1], dst.number() as int, float, m));
    let lhs = register_of(a.regs, im.args[0])->Ok_0;
    let rhs = register_of(a.regs, im.args[1])->Ok_0;
    lemma_rem_runs(m, dst, lhs, rhs, fs);
}

/// Negation and complement.
#[verifier::rlimit(60)]
proof fn lemma_sign(
    f: Function,
    a: Assignment,
    v: Value,
    vs: Seq<RtValue>,
    m: Machine,
    args: Seq<RtValue>,
    fs: FloatSem,
)
    requires
        about(f, a, v, vs, m, args, fs),
        f.inst(v.0 as int).op is Neg || f.inst(v.0 as int).op is Not,
    ensures
        computed(f, a, v, vs, m, args, fs),
{
    let im = f.inst(v.0 as int);
    let dst = a.regs[v.0 as int].unwrap();
    let float = in_float(f, false, v.0 as int);
    assert(Value(v.0 as int as u32) == v);
    assert(operand_ready(f, a, im.args[0], vs[0], dst.number() as int, float, m));
    let src = register_of(a.regs, im.args[0])->Ok_0;
    lemma_reg(31);
    if im.op is Not {
        lemma_not_runs(m, dst, src, fs);
        assert(!float);
        assert(f64_inst(f, a.regs, v)->Ok_0 == constant(dst, u64::MAX).push(
            A64::Int { op: IntOp::Xor, dst, lhs: dst, rhs: src },
        ));
        let x = get_x(m, src);
        assert(!x == -1 - x) by (bit_vector);
    } else if float {
        let code = A64::Unary { unary: FloatUnaryOp::Neg, dst, src };
        lemma_after_one(m, code, fs);
        assert(f64_inst(f, a.regs, v)->Ok_0 == seq![code]);
    } else {
        let code = A64::Int { op: IntOp::Sub, dst, lhs: reg(31), rhs: src };
        lemma_after_one(m, code, fs);
        assert(f64_inst(f, a.regs, v)->Ok_0 == seq![code]);
        assert(get_x(m, reg(31)) == 0);
        assert(vs[0] is I64);
        assert(step(m, code, fs) == set_x(m, dst, wrap(-get_x(m, src))));
    }
}

/// Operations on one double, and conversions.
#[verifier::rlimit(60)]
proof fn lemma_one_operand(
    f: Function,
    a: Assignment,
    v: Value,
    vs: Seq<RtValue>,
    m: Machine,
    args: Seq<RtValue>,
    fs: FloatSem,
)
    requires
        about(f, a, v, vs, m, args, fs),
        f.inst(v.0 as int).op is Abs || f.inst(v.0 as int).op is Sqrt || f.inst(v.0 as int).op is IToF
            || f.inst(v.0 as int).op is FToI,
    ensures
        computed(f, a, v, vs, m, args, fs),
{
    let im = f.inst(v.0 as int);
    let dst = a.regs[v.0 as int].unwrap();
    let float = in_float(f, false, v.0 as int);
    assert(Value(v.0 as int as u32) == v);
    assert(operand_ready(f, a, im.args[0], vs[0], dst.number() as int, float, m));
    let src = register_of(a.regs, im.args[0])->Ok_0;
    match im.op {
        Op::Abs => {
            lemma_after_one(m, A64::Unary { unary: FloatUnaryOp::Abs, dst, src }, fs);
        },
        Op::Sqrt => {
            lemma_after_one(m, A64::Unary { unary: FloatUnaryOp::Sqrt, dst, src }, fs);
        },
        Op::IToF => {
            lemma_after_one(m, A64::FromInt { dst, src }, fs);
        },
        _ => {
            lemma_after_one(m, A64::ToInt { dst, src }, fs);
        },
    }
}

/// The fused multiplication and addition.
#[verifier::rlimit(60)]
proof fn lemma_fused(
    f: Function,
    a: Assignment,
    v: Value,
    vs: Seq<RtValue>,
    m: Machine,
    args: Seq<RtValue>,
    fs: FloatSem,
)
    requires
        about(f, a, v, vs, m, args, fs),
        f.inst(v.0 as int).op is Fma,
    ensures
        computed(f, a, v, vs, m, args, fs),
{
    let im = f.inst(v.0 as int);
    let dst = a.regs[v.0 as int].unwrap();
    let float = in_float(f, false, v.0 as int);
    assert(Value(v.0 as int as u32) == v);
    assert(operand_ready(f, a, im.args[0], vs[0], dst.number() as int, float, m));
    assert(operand_ready(f, a, im.args[1], vs[1], dst.number() as int, float, m));
    assert(operand_ready(f, a, im.args[2], vs[2], dst.number() as int, float, m));
    let lhs = register_of(a.regs, im.args[0])->Ok_0;
    let rhs = register_of(a.regs, im.args[1])->Ok_0;
    let addend = register_of(a.regs, im.args[2])->Ok_0;
    lemma_after_one(m, A64::FusedMulAdd { dst, lhs, rhs, addend }, fs);
}

/// Comparisons.
#[verifier::rlimit(60)]
proof fn lemma_comparison(
    f: Function,
    a: Assignment,
    v: Value,
    vs: Seq<RtValue>,
    m: Machine,
    args: Seq<RtValue>,
    fs: FloatSem,
)
    requires
        about(f, a, v, vs, m, args, fs),
        f.inst(v.0 as int).op is Compare,
    ensures
        computed(f, a, v, vs, m, args, fs),
{
    let im = f.inst(v.0 as int);
    let dst = a.regs[v.0 as int].unwrap();
    let float = in_float(f, false, v.0 as int);
    assert(Value(v.0 as int as u32) == v);
    assert(operand_ready(f, a, im.args[0], vs[0], dst.number() as int, float, m));
    assert(operand_ready(f, a, im.args[1], vs[1], dst.number() as int, float, m));
    let lhs = register_of(a.regs, im.args[0])->Ok_0;
    let rhs = register_of(a.regs, im.args[1])->Ok_0;
    if type_of(f, im.args[0]) == Some(Ty::F64) {
        lemma_after_one(m, A64::CompareFloat { lhs, rhs }, fs);
    } else {
        lemma_after_one(m, A64::Compare { lhs, rhs }, fs);
    }
}

/// The code of any value but a parameter or a phi.
proof fn lemma_computed(
    f: Function,
    a: Assignment,
    v: Value,
    vs: Seq<RtValue>,
    m: Machine,
    args: Seq<RtValue>,
    fs: FloatSem,
)
    requires
        about(f, a, v, vs, m, args, fs),
        !(f.inst(v.0 as int).op is Param),
        !(f.inst(v.0 as int).op is Phi),
    ensures
        computed(f, a, v, vs, m, args, fs),
{
    let float = in_float(f, false, v.0 as int);
    assert(Value(v.0 as int as u32) == v);
    match f.inst(v.0 as int).op {
        Op::ConstF64(_) | Op::ConstI64(_) | Op::ConstBool(_) => {
            lemma_constant_value(f, a, v, vs, m, args, fs);
        },
        Op::Add | Op::Sub | Op::Mul | Op::Div => {
            if float {
                lemma_float_pair(f, a, v, vs, m, args, fs);
            } else {
                lemma_int_pair(f, a, v, vs, m, args, fs);
            }
        },
        Op::Min | Op::Max => {
            lemma_float_pair(f, a, v, vs, m, args, fs);
        },
        Op::And | Op::Or | Op::Xor | Op::Shl | Op::Shr | Op::Sar => {
            if float {
                // Bits are no doubles.
                assert(operand_ready(
                    f,
                    a,
                    f.inst(v.0 as int).args[0],
                    vs[0],
                    a.regs[v.0 as int].unwrap().number() as int,
                    float,
                    m,
                ));
            } else {
                lemma_int_pair(f, a, v, vs, m, args, fs);
            }
        },
        Op::Rem => {
            lemma_remainder(f, a, v, vs, m, args, fs);
        },
        Op::Neg | Op::Not => {
            lemma_sign(f, a, v, vs, m, args, fs);
        },
        Op::Abs | Op::Sqrt | Op::IToF | Op::FToI => {
            lemma_one_operand(f, a, v, vs, m, args, fs);
        },
        Op::Fma => {
            lemma_fused(f, a, v, vs, m, args, fs);
        },
        Op::Compare(_) => {
            lemma_comparison(f, a, v, vs, m, args, fs);
        },
        _ => {},
    }
}

// ---------------------------------------------------------------------------
// The values of a block

/// A valid function whose listed values have registers of their own.
pub open spec fn setting(f: Function, a: Assignment, args: Seq<RtValue>) -> bool {
    &&& valid(f)
    &&& separate(f, false, a)
    &&& args_match(f, args)
    &&& forall|b: int, k: int|
        #![trigger f.listed(b)[k]]
        0 <= b < f.blocks@.len() && 0 <= k < f.listed(b).len()
            ==> a.regs[f.listed(b)[k].0 as int] is Some
}

/// From place `k` of block `b` on, the phis are in their registers.
pub open spec fn phis_ready(
    f: Function,
    a: Assignment,
    b: int,
    k: int,
    vals: Frame,
    prev: Option<Block>,
    m: Machine,
    args: Seq<RtValue>,
    fs: FloatSem,
) -> bool {
    forall|l: int|
        #![trigger f.listed(b)[l]]
        k <= l < f.listed(b).len() && f.inst(f.listed(b)[l].0 as int).op is Phi ==> {
            let v = f.listed(b)[l].0 as int;
            let x = eval_inst(f.inst(v), vals, prev, args, fs);
            x is Some && value_ty(x.unwrap()) == f.types@[v] && in_register(a, v, x.unwrap(), m)
        }
}

/// Nothing but temporaries changed.
pub open spec fn untouched(a: Assignment, m: Machine, p: Machine) -> bool {
    &&& whole(p)
    &&& p.sp == m.sp
    &&& p.memory == m.memory
    &&& forall|j: int|
        #![trigger p.x[j]]
        0 <= j < 32 && (j < 8 || j >= 8 + a.ints) ==> p.x[j] == m.x[j]
    &&& forall|j: int|
        #![trigger p.d[j]]
        0 <= j < 32 && (j < 8 || 8 + a.saved_float.len() <= j < 16) ==> p.d[j] == m.d[j]
}

proof fn lemma_other_kept(
    f: Function,
    a: Assignment,
    v: int,
    u: int,
    x: RtValue,
    m: Machine,
    p: Machine,
)
    requires
        separate(f, false, a),
        f.types@.len() == f.insts@.len(),
        0 <= u < f.insts@.len(),
        0 <= v < f.insts@.len(),
        u != v,
        a.regs[v] is Some,
        !is_param(f, v),
        only_at(in_float(f, false, v), a.regs[v].unwrap().number() as int, m, p),
        value_ty(x) == f.types@[u],
        in_register(a, u, x, m),
    ensures
        in_register(a, u, x, p),
{
    assert(a.regs[u] is Some && a.regs[v] is Some);
    assert(Value(u as u32).0 == u);
    assert(in_float(f, false, u) == (f.types@[u] == Ty::F64));
    let n = a.regs[u].unwrap().number() as int;
    if x is F64 {
        assert(0 <= n < 32);
        assert(p.d[n] == m.d[n]);
    } else if x is I64 {
        assert(p.x[n] == m.x[n]);
    }
}

proof fn lemma_temporary(f: Function, a: Assignment, v: int, m: Machine, p: Machine)
    requires
        separate(f, false, a),
        0 <= v < f.insts@.len(),
        a.regs[v] is Some,
        !is_param(f, v),
        only_at(in_float(f, false, v), a.regs[v].unwrap().number() as int, m, p),
    ensures
        untouched(a, m, p),
{
    assert(a.regs[v] is Some);
}

proof fn lemma_last_comparison(f: Function, b: int, k: int)
    ensures
        match last_comparison(f, b, k) {
            Some(j) => 0 <= j < k && f.inst(f.listed(b)[j].0 as int).op is Compare,
            None => true,
        },
    decreases k,
{
    if k > 0 {
        lemma_last_comparison(f, b, k - 1);
    }
}

/// The flags hold the last comparison of the block, if it is one of integers
/// or doubles.
pub open spec fn compared(f: Function, b: int, k: int, w: Frame, m: Machine) -> bool {
    match last_comparison(f, b, k) {
        Some(j) => {
            let v = f.listed(b)[j].0 as int;
            plain_comparison(f, v) ==> {
                &&& slot(w, f.inst(v).args[0]) is Some
                &&& slot(w, f.inst(v).args[1]) is Some
                &&& m.flags == flags_of(
                    slot(w, f.inst(v).args[0]).unwrap(),
                    slot(w, f.inst(v).args[1]).unwrap(),
                )
            }
        },
        None => true,
    }
}

/// What holds after the first `k` values of a block.
pub open spec fn arrived(
    f: Function,
    a: Assignment,
    b: int,
    k: int,
    vals: Frame,
    w: Frame,
    prev: Option<Block>,
    m: Machine,
    p: Machine,
    args: Seq<RtValue>,
    fs: FloatSem,
) -> bool {
    &&& held(a, w, p)
    &&& untouched(a, m, p)
    &&& phis_ready(f, a, b, k, vals, prev, p, args, fs)
    &&& compared(f, b, k, w, p)
}

/// One more value.
#[verifier::spinoff_prover]
#[verifier::rlimit(100)]
proof fn lemma_arrive(
    f: Function,
    a: Assignment,
    rank: spec_fn(int) -> int,
    b: int,
    k: int,
    vals: Frame,
    w: Frame,
    prev: Option<Block>,
    m: Machine,
    p: Machine,
    args: Seq<RtValue>,
    fs: FloatSem,
    x: RtValue,
)
    requires
        setting(f, a, args),
        0 <= b < f.blocks@.len(),
        0 <= k < f.listed(b).len(),
        inv(f, rank, b, k, w, prev, args, fs),
        extends(vals, w),
        arrived(f, a, b, k, vals, w, prev, m, p, args, fs),
        arguments(f, args, m),
        whole(m),
        f64_inst(f, a.regs, f.listed(b)[k]) is Ok,
        eval_inst(f.inst(f.listed(b)[k].0 as int), w, prev, args, fs) == Some(x),
        value_ty(x) == f.types@[f.listed(b)[k].0 as int],
    ensures
        arrived(
            f,
            a,
            b,
            k + 1,
            vals,
            w.update(f.listed(b)[k].0 as int, Some(x)),
            prev,
            m,
            after(p, f64_inst(f, a.regs, f.listed(b)[k])->Ok_0, fs),
            args,
            fs,
        ),
{
    let v = f.listed(b)[k];
    let im = f.inst(v.0 as int);
    let q = after(p, f64_inst(f, a.regs, v)->Ok_0, fs);
    let w1 = w.update(v.0 as int, Some(x));
    lemma_next_is_new(f, rank, b, k, w, prev, args, fs);
    assert(a.regs[v.0 as int] is Some);
    assert(Value(v.0 as int as u32) == v);
    if im.op is Phi {
        assert(f64_inst(f, a.regs, v)->Ok_0 =~= Seq::empty());
        assert(q == p);
        let y = eval_inst(im, vals, prev, args, fs).unwrap();
        lemma_eval_extends(im, vals, w, prev, args, fs);
        assert(y == x);
    } else if im.op is Param {
        assert(f64_inst(f, a.regs, v)->Ok_0 =~= Seq::empty());
        assert(q == p);
        assert(inst_ok(f, b, k));
        match im.op {
            Op::Param(index, ty) => {
                assert(args[index as int] == x);
                let n = count_params(f, f.params@[index as int].1, index as nat) as int;
                assert(p.x[n] == m.x[n]);
                assert(p.d[n] == m.d[n]);
            },
            _ => {},
        }
        assert(in_register(a, v.0 as int, x, q));
    } else {
        let vs = operand_values(im, w);
        assert forall|j: int| 0 <= j < vs.len() implies operand_ready(
            f,
            a,
            #[trigger] im.args[j],
            vs[j],
            a.regs[v.0 as int].unwrap().number() as int,
            in_float(f, false, v.0 as int),
            p,
        ) by {
            assert(slot(w, im.args[j]) is Some);
            lemma_operand(f, a, v, im.args[j], w, p);
        }
        assert(about(f, a, v, vs, p, args, fs));
        lemma_computed(f, a, v, vs, p, args, fs);
        lemma_temporary(f, a, v.0 as int, p, q);
        assert forall|u: int| #![trigger w1[u]] 0 <= u < w1.len() && w1[u] is Some implies in_register(
            a,
            u,
            w1[u].unwrap(),
            q,
        ) by {
            if u != v.0 {
                assert(w[u] is Some);
                lemma_other_kept(f, a, v.0 as int, u, w[u].unwrap(), p, q);
            }
        }
        assert forall|l: int|
            #![trigger f.listed(b)[l]]
            k + 1 <= l < f.listed(b).len() && f.inst(f.listed(b)[l].0 as int).op is Phi implies ({
            let u = f.listed(b)[l].0 as int;
            let y = eval_inst(f.inst(u), vals, prev, args, fs);
            y is Some && value_ty(y.unwrap()) == f.types@[u] && in_register(a, u, y.unwrap(), q)
        }) by {
            let u = f.listed(b)[l].0 as int;
            assert(def_at(f, u, b, l));
            assert(def_at(f, v.0 as int, b, k));
            let y = eval_inst(f.inst(u), vals, prev, args, fs).unwrap();
            lemma_other_kept(f, a, v.0 as int, u, y, p, q);
        }
        if plain_comparison(f, v.0 as int) {
            assert(reads(im.op) == 2);
            assert(slot(w, im.args[0]) is Some);
            assert(slot(w, im.args[1]) is Some);
        }
    }
    if !(im.op is Compare) {
        lemma_last_comparison(f, b, k);
    }
}

/// The code of the first `k` values of block `b`.
pub open spec fn block_code(f: Function, a: Assignment, b: int, k: nat) -> Code {
    register_values(f, a, false, b, k, nothing())
}

/// The code of a block runs as the block does.
proof fn lemma_block(
    f: Function,
    a: Assignment,
    rank: spec_fn(int) -> int,
    b: int,
    k: nat,
    vals: Frame,
    prev: Option<Block>,
    m: Machine,
    args: Seq<RtValue>,
    fs: FloatSem,
)
    requires
        setting(f, a, args),
        0 <= b < f.blocks@.len(),
        k <= f.listed(b).len(),
        inv(f, rank, b, 0, vals, prev, args, fs),
        whole(m),
        held(a, vals, m),
        phis_ready(f, a, b, 0, vals, prev, m, args, fs),
        arguments(f, args, m),
        block_code(f, a, b, k) is Ok,
        run_insts(f, b, k as int, vals, prev, args, fs) is Some,
    ensures
        ({
            let w = run_insts(f, b, k as int, vals, prev, args, fs).unwrap();
            let p = after(m, block_code(f, a, b, k)->Ok_0, fs);
            &&& arrived(f, a, b, k as int, vals, w, prev, m, p, args, fs)
            &&& inv(f, rank, b, k as int, w, prev, args, fs)
        }),
    decreases k,
{
    lemma_inv_insts(f, rank, b, k as int, vals, prev, args, fs);
    if k > 0 {
        let j = (k - 1) as nat;
        lemma_block(f, a, rank, b, j, vals, prev, m, args, fs);
        lemma_inv_insts(f, rank, b, j as int, vals, prev, args, fs);
        let w = run_insts(f, b, j as int, vals, prev, args, fs).unwrap();
        let v = f.listed(b)[j as int];
        let x = eval_inst(f.inst(v.0 as int), w, prev, args, fs).unwrap();
        let w1 = run_insts(f, b, k as int, vals, prev, args, fs).unwrap();
        assert(w1 == w.update(v.0 as int, Some(x)));
        assert(w1[v.0 as int] is Some);
        let c = block_code(f, a, b, j)->Ok_0;
        let piece = f64_inst(f, a.regs, v)->Ok_0;
        let p = after(m, c, fs);
        lemma_arrive(f, a, rank, b, j as int, vals, w, prev, m, p, args, fs, x);
        lemma_after_add(m, c, piece, fs);
    }
}

// ---------------------------------------------------------------------------
// Edges

/// A move between two registers of a bank.
proof fn lemma_move(p: Machine, float: bool, dst: Gpr, src: Gpr, fs: FloatSem)
    requires
        whole(p),
        dst.number() < 32,
        src.number() < 32,
        !float ==> dst.number() < 31 && src.number() < 31,
    ensures
        ({
            let q = after(p, move_code(float, dst, src), fs);
            &&& only_at(float, dst.number() as int, p, q)
            &&& q.flags == p.flags
            &&& float ==> get_d(q, dst) == get_d(p, src)
            &&& !float ==> get_x(q, dst) == get_x(p, src)
        }),
{
    if dst == src {
        assert(after(p, move_code(float, dst, src), fs) == p);
    } else if float {
        lemma_after_one(p, A64::Unary { unary: FloatUnaryOp::Move, dst, src }, fs);
    } else {
        lemma_reg(31);
        lemma_after_one(p, A64::Int { op: IntOp::Or, dst, lhs: reg(31), rhs: src }, fs);
        let z = get_x(p, src);
        lemma_or_zero(z);
    }
}

/// The source of a phi has been computed when control leaves a predecessor.
pub(crate) proof fn lemma_source_there(
    f: Function,
    rank: spec_fn(int) -> int,
    b: int,
    t: int,
    k: int,
    w: Frame,
    prev: Option<Block>,
    args: Seq<RtValue>,
    fs: FloatSem,
)
    requires
        valid(f),
        0 <= b <= u32::MAX,
        0 <= t < f.blocks@.len(),
        0 <= k < f.listed(t).len(),
        inv(f, rank, b, f.listed(b).len() as int, w, prev, args, fs),
        f.inst(f.listed(t)[k].0 as int).op is Phi,
        phi_source(f.inst(f.listed(t)[k].0 as int), b) is Some,
    ensures
        ({
            let v = f.listed(t)[k].0 as int;
            let u = phi_source(f.inst(v), b).unwrap();
            &&& slot(w, u) is Some
            &&& eval_inst(f.inst(v), w, Some(Block(b as u32)), args, fs) == slot(w, u)
            &&& f.types@[u.0 as int] == f.types@[v]
            &&& value_ty(slot(w, u).unwrap()) == f.types@[v]
        }),
{
    let v = f.listed(t)[k].0 as int;
    let im = f.inst(v);
    let from = Block(b as u32);
    assert(inst_ok(f, t, k));
    match im.op {
        Op::Phi(froms) => {
            lemma_edge_from(froms, from, 0);
            let j = edge_from(froms, from, 0).unwrap();
            let u = im.args[j];
            assert(froms.len() == im.args.len());
            assert(end_use_ok(f, u.0 as int, froms[j].0 as int));
            let (c, l) = choose|c: int, l: int| #[trigger]
                def_at(f, u.0 as int, c, l) && dom(f, c, b);
            assert(f.listed(c)[l].0 == u.0);
            assert(w[f.listed(c)[l].0 as int] is Some);
            lemma_phi_operand_typed(f, f.listed(t)[k], im.args, f.types@[v], 0, j);
            assert(w[u.0 as int] is Some);
        },
        _ => {},
    }
}

/// The copies on an edge put the phis of the target in their registers.
proof fn lemma_copies(
    f: Function,
    a: Assignment,
    rank: spec_fn(int) -> int,
    b: int,
    t: int,
    k: nat,
    w: Frame,
    prev: Option<Block>,
    p: Machine,
    args: Seq<RtValue>,
    fs: FloatSem,
)
    requires
        setting(f, a, args),
        ranks(f, rank),
        f.blocks@.len() <= u32::MAX,
        edge(f, b, t),
        k <= f.listed(t).len(),
        inv(f, rank, b, f.listed(b).len() as int, w, prev, args, fs),
        whole(p),
        held(a, w, p),
        edge_copies(f, a.regs, t, b, k) is Ok,
    ensures
        ({
            let q = after(p, edge_copies(f, a.regs, t, b, k)->Ok_0, fs);
            &&& held(a, w, q)
            &&& untouched(a, p, q)
            &&& q.flags == p.flags
            &&& forall|l: int|
                #![trigger f.listed(t)[l]]
                0 <= l < k && f.inst(f.listed(t)[l].0 as int).op is Phi ==> {
                    let v = f.listed(t)[l].0 as int;
                    let x = eval_inst(f.inst(v), w, Some(Block(b as u32)), args, fs);
                    x is Some && value_ty(x.unwrap()) == f.types@[v] && in_register(
                        a,
                        v,
                        x.unwrap(),
                        q,
                    )
                }
        }),
    decreases k,
{
    if k > 0 {
        let j = (k - 1) as nat;
        lemma_copies(f, a, rank, b, t, j, w, prev, p, args, fs);
        let c = edge_copies(f, a.regs, t, b, j)->Ok_0;
        let v = f.listed(t)[j as int];
        let piece = edge_copy(f, a.regs, v, b)->Ok_0;
        lemma_after_add(p, c, piece, fs);
        let p1 = after(p, c, fs);
        let q = after(p1, piece, fs);
        assert(Value(v.0 as int as u32) == v);
        if f.inst(v.0 as int).op is Phi {
            lemma_source_there(f, rank, b, t, j as int, w, prev, args, fs);
            let u = phi_source(f.inst(v.0 as int), b).unwrap();
            lemma_inv_edge(f, rank, b, t, w, prev, args, fs);
            lemma_next_is_new_at(f, rank, t, j as int, w, Some(Block(b as u32)), args, fs);
            assert(w[u.0 as int] is Some);
            assert(a.regs[v.0 as int] is Some && a.regs[u.0 as int] is Some);
            let float = in_float(f, false, v.0 as int);
            assert(Value(u.0 as int as u32) == u);
            assert(in_float(f, false, u.0 as int) == float);
            let dst = a.regs[v.0 as int].unwrap();
            let src = a.regs[u.0 as int].unwrap();
            assert(register_of(a.regs, u) == Ok::<Gpr, EmitError>(src));
            lemma_move(p1, float, dst, src, fs);
            lemma_temporary(f, a, v.0 as int, p1, q);
            let x = slot(w, u).unwrap();
            assert(in_register(a, u.0 as int, x, p1));
            assert forall|i: int| #![trigger w[i]] 0 <= i < w.len() && w[i] is Some implies in_register(
                a,
                i,
                w[i].unwrap(),
                q,
            ) by {
                lemma_other_kept(f, a, v.0 as int, i, w[i].unwrap(), p1, q);
            }
            assert forall|l: int|
                #![trigger f.listed(t)[l]]
                0 <= l < k && f.inst(f.listed(t)[l].0 as int).op is Phi implies ({
                let i = f.listed(t)[l].0 as int;
                let y = eval_inst(f.inst(i), w, Some(Block(b as u32)), args, fs);
                y is Some && value_ty(y.unwrap()) == f.types@[i] && in_register(a, i, y.unwrap(), q)
            }) by {
                let i = f.listed(t)[l].0 as int;
                if l < j {
                    assert(def_at(f, i, t, l));
                    assert(def_at(f, v.0 as int, t, j as int));
                    let y = eval_inst(f.inst(i), w, Some(Block(b as u32)), args, fs).unwrap();
                    lemma_other_kept(f, a, v.0 as int, i, y, p1, q);
                }
            }
        } else {
            assert(piece =~= Seq::empty());
            assert(q == p1);
        }
    }
}

/// No value of a block is there when control comes to it.
pub(crate) proof fn lemma_next_is_new_at(
    f: Function,
    rank: spec_fn(int) -> int,
    t: int,
    k: int,
    w: Frame,
    prev: Option<Block>,
    args: Seq<RtValue>,
    fs: FloatSem,
)
    requires
        valid(f),
        inv(f, rank, t, 0, w, prev, args, fs),
        0 <= k < f.listed(t).len(),
    ensures
        w[f.listed(t)[k].0 as int] is None,
{
    let v = f.listed(t)[k].0 as int;
    assert(def_at(f, v, t, k));
    if w[v] is Some {
        assert(computed_before(f, rank, v, t, 0));
    }
}

// ---------------------------------------------------------------------------
// The layout of the code

#[verifier::rlimit(60)]
proof fn lemma_inst_goes_on(f: Function, regs: Seq<Option<Gpr>>, v: Value)
    requires
        f64_inst(f, regs, v) is Ok,
    ensures
        all_go_on(f64_inst(f, regs, v)->Ok_0),
{
}

proof fn lemma_block_goes_on(f: Function, a: Assignment, b: int, k: nat)
    requires
        block_code(f, a, b, k) is Ok,
    ensures
        all_go_on(block_code(f, a, b, k)->Ok_0),
    decreases k,
{
    if k > 0 {
        let j = (k - 1) as nat;
        lemma_block_goes_on(f, a, b, j);
        lemma_inst_goes_on(f, a.regs, f.listed(b)[j as int]);
        lemma_go_on_add(
            block_code(f, a, b, j)->Ok_0,
            f64_inst(f, a.regs, f.listed(b)[j as int])->Ok_0,
        );
    }
}

proof fn lemma_copies_go_on(f: Function, regs: Seq<Option<Gpr>>, t: int, b: int, k: nat)
    requires
        edge_copies(f, regs, t, b, k) is Ok,
    ensures
        all_go_on(edge_copies(f, regs, t, b, k)->Ok_0),
    decreases k,
{
    if k > 0 {
        let j = (k - 1) as nat;
        lemma_copies_go_on(f, regs, t, b, j);
        lemma_go_on_add(
            edge_copies(f, regs, t, b, j)->Ok_0,
            edge_copy(f, regs, f.listed(t)[j as int], b)->Ok_0,
        );
    }
}

/// The values of a block come behind whatever there is.
proof fn lemma_behind(f: Function, a: Assignment, b: int, k: nat, acc: Seq<A64>)
    ensures
        register_values(f, a, false, b, k, Ok(acc)) == chain(Ok(acc), block_code(f, a, b, k)),
    decreases k,
{
    if k > 0 {
        let j = (k - 1) as nat;
        lemma_behind(f, a, b, j, acc);
        let front = block_code(f, a, b, j);
        let piece = f64_inst(f, a.regs, f.listed(b)[j as int]);
        if front is Ok && piece is Ok {
            assert((acc + front->Ok_0) + piece->Ok_0 =~= acc + (front->Ok_0 + piece->Ok_0));
        }
    } else {
        assert(acc + Seq::<A64>::empty() =~= acc);
    }
}

/// Where block `b` starts, its values and its terminator stand.
proof fn lemma_layout(f: Function, a: Assignment, b: int, n: nat)
    requires
        0 <= b < n,
        register_blocks(f, a, n) is Ok,
    ensures
        register_blocks(f, a, b as nat) is Ok,
        block_code(f, a, b, f.listed(b).len()) is Ok,
        f64_term(f, a, b) is Ok,
        stands_at(
            register_blocks(f, a, n)->Ok_0,
            register_blocks(f, a, b as nat)->Ok_0.len() as int,
            block_code(f, a, b, f.listed(b).len())->Ok_0 + f64_term(f, a, b)->Ok_0,
        ),
        register_blocks(f, a, b as nat)->Ok_0.len() <= register_blocks(f, a, n)->Ok_0.len(),
    decreases n,
{
    let m = (n - 1) as nat;
    let before = register_blocks(f, a, m);
    if before is Err {
        lemma_values_of_error(f, a, m as int, f.listed(m as int).len(), before);
    }
    lemma_behind(f, a, m as int, f.listed(m as int).len(), before->Ok_0);
    let c = register_blocks(f, a, n)->Ok_0;
    let v = block_code(f, a, m as int, f.listed(m as int).len())->Ok_0;
    let t = f64_term(f, a, m as int)->Ok_0;
    let p = before->Ok_0;
    assert(c == (p + v) + t);
    if b < m {
        lemma_layout(f, a, b, m);
        let q = register_blocks(f, a, b as nat)->Ok_0;
        let piece = block_code(f, a, b, f.listed(b).len())->Ok_0 + f64_term(f, a, b)->Ok_0;
        assert forall|i: int| #![trigger piece[i]] 0 <= i < piece.len() implies c[q.len() + i]
            == piece[i] by {
            assert(p[q.len() + i] == piece[i]);
        }
    } else {
        let piece = v + t;
        assert forall|i: int| #![trigger piece[i]] 0 <= i < piece.len() implies c[p.len() + i]
            == piece[i] by {}
    }
}

proof fn lemma_values_of_error(f: Function, a: Assignment, b: int, k: nat, acc: Code)
    requires
        acc is Err,
    ensures
        register_values(f, a, false, b, k, acc) == acc,
    decreases k,
{
    if k > 0 {
        lemma_values_of_error(f, a, b, (k - 1) as nat, acc);
    }
}

/// The prologue stands first.
proof fn lemma_starts_with_prologue(f: Function, a: Assignment, n: nat)
    requires
        register_blocks(f, a, n) is Ok,
    ensures
        stands_at(register_blocks(f, a, n)->Ok_0, 0, prologue(a)),
    decreases n,
{
    if n > 0 {
        let m = (n - 1) as nat;
        let before = register_blocks(f, a, m);
        if before is Err {
            lemma_values_of_error(f, a, m as int, f.listed(m as int).len(), before);
        }
        lemma_behind(f, a, m as int, f.listed(m as int).len(), before->Ok_0);
        lemma_starts_with_prologue(f, a, m);
        let c = register_blocks(f, a, n)->Ok_0;
        let p = before->Ok_0;
        assert forall|i: int| #![trigger prologue(a)[i]] 0 <= i < prologue(a).len() implies c[0 + i]
            == prologue(a)[i] by {
            assert(p[0 + i] == prologue(a)[i]);
        }
    }
}

// ---------------------------------------------------------------------------
// Running a function

/// Every branch is on a comparison of integers or of doubles.
pub open spec fn branches_plainly(f: Function) -> bool {
    forall|b: int|
        #![trigger f.term(b)]
        0 <= b < f.blocks@.len() ==> (f.term(b) matches Some(Terminator::Branch { cond, .. })
            ==> plain_comparison(f, cond.0 as int))
}

/// What a caller finds after a function with a double as its result returned:
/// the result in D0, and its own registers and stack pointer as they were.
pub open spec fn returned_double(m: Machine, p: Machine, x: RtValue) -> bool {
    &&& x == RtValue::F64(p.d[0])
    &&& p.sp == m.sp
    &&& forall|j: int| #![trigger p.x[j]] 19 <= j < 31 ==> p.x[j] == m.x[j]
    &&& forall|j: int| #![trigger p.d[j]] 8 <= j < 16 ==> p.d[j] == m.d[j]
}

/// The machine works in the frame that was opened when it was `start`.
pub open spec fn framed(a: Assignment, start: Machine, m: Machine) -> bool {
    &&& whole(start)
    &&& whole(m)
    &&& numbered(a)
    &&& kept(m, a, start)
    &&& m.sp == if saved_count(a) == 0 {
        start.sp
    } else {
        start.sp - frame_bytes(a)
    }
    &&& forall|j: int|
        #![trigger m.x[j]]
        19 + a.saved_int.len() <= j < 31 ==> m.x[j] == start.x[j]
    &&& forall|j: int|
        #![trigger m.d[j]]
        8 + a.saved_float.len() <= j < 16 ==> m.d[j] == start.d[j]
}

proof fn lemma_still_framed(
    f: Function,
    a: Assignment,
    args: Seq<RtValue>,
    start: Machine,
    m: Machine,
    p: Machine,
)
    requires
        separate(f, false, a),
        framed(a, start, m),
        untouched(a, m, p),
        arguments(f, args, m),
    ensures
        framed(a, start, p),
        arguments(f, args, p),
{
    assert forall|j: int| #![trigger p.x[j]] 19 + a.saved_int.len() <= j < 31 implies p.x[j]
        == start.x[j] by {
        assert(m.x[j] == start.x[j]);
    }
    assert forall|j: int| #![trigger p.d[j]] 8 + a.saved_float.len() <= j < 16 implies p.d[j]
        == start.d[j] by {
        assert(m.d[j] == start.d[j]);
    }
    assert forall|i: int| #![trigger args[i]] 0 <= i < args.len() implies ({
        let n = count_params(f, f.params@[i].1, i as nat) as int;
        n < 8 ==> match args[i] {
            RtValue::F64(bits) => p.d[n] == bits,
            RtValue::I64(z) => p.x[n] == z,
            RtValue::Bool(_) => true,
        }
    }) by {
        let n = count_params(f, f.params@[i].1, i as nat) as int;
        if n < 8 {
            assert(p.d[n] == m.d[n]);
            assert(p.x[n] == m.x[n]);
        }
    }
}

/// The condition of a branch holds where its comparison does.
pub(crate) proof fn lemma_condition(op: CmpOp, l: RtValue, r: RtValue)
    requires
        compare(op, l, r) is Some,
        !(l is Bool),
    ensures
        condition_holds(condition_of(op, l is F64), flags_of(l, r)) == compare(op, l, r).unwrap(),
{
}

/// The way out: the result in D0, the saved registers, and the return.
proof fn lemma_return(
    f: Function,
    a: Assignment,
    b: int,
    v: Value,
    w: Frame,
    code: Seq<A64>,
    starts: Seq<usize>,
    pc: int,
    start: Machine,
    p: Machine,
    fs: FloatSem,
    x: RtValue,
) -> (fuel: nat)
    requires
        separate(f, false, a),
        f.types@.len() == f.insts@.len(),
        f.term(b) == Some(Terminator::Return(v)),
        f64_term(f, a, b) is Ok,
        stands_at(code, pc, f64_term(f, a, b)->Ok_0),
        framed(a, start, p),
        held(a, w, p),
        frame_typed(f, w),
        slot(w, v) == Some(x),
    ensures
        execute(code, starts, pc, p, fs, fuel) is Some,
        returned_double(start, execute(code, starts, pc, p, fs, fuel).unwrap(), x),
{
    let r = register_of(a.regs, v)->Ok_0;
    let moved = move_code(true, reg(0), r);
    let inner = moved + epilogue(a);
    let t = f64_term(f, a, b)->Ok_0;
    assert(t == inner.push(A64::Return));
    assert(t =~= inner + seq![A64::Return]);
    lemma_reg(0);
    assert(w[v.0 as int] is Some);
    assert(a.regs[v.0 as int] is Some);
    assert(Value(v.0 as int as u32) == v);
    assert(x is F64);
    lemma_move(p, true, reg(0), r, fs);
    let q = after(p, moved, fs);
    assert(kept(q, a, start));
    lemma_epilogue(q, a, start, fs);
    lemma_after_add(p, moved, epilogue(a), fs);
    let e = after(q, epilogue(a), fs);
    lemma_stands_parts(code, pc, inner, seq![A64::Return]);
    assert(all_go_on(moved));
    assert(all_go_on(epilogue(a)));
    lemma_go_on_add(moved, epilogue(a));
    let end = pc + inner.len();
    assert(seq![A64::Return][0] == A64::Return);
    assert(code[end + 0] == A64::Return);
    assert(execute(code, starts, end, e, fs, 1) == Some(e));
    lemma_straight(code, starts, pc, inner, p, fs, 1);
    assert(e.d[0] == q.d[0]);
    assert forall|j: int| #![trigger e.x[j]] 19 <= j < 31 implies e.x[j] == start.x[j] by {
        if j >= 19 + a.saved_int.len() {
            assert(e.x[j] == q.x[j]);
            assert(q.x[j] == p.x[j]);
        }
    }
    assert forall|j: int| #![trigger e.d[j]] 8 <= j < 16 implies e.d[j] == start.d[j] by {
        if j >= 8 + a.saved_float.len() {
            assert(e.d[j] == q.d[j]);
            assert(q.d[j] == p.d[j]);
        }
    }
    1 + inner.len()
}

/// The code from the start of block `b` on returns what the function returns
/// from there on.
#[verifier::spinoff_prover]
#[verifier::rlimit(100)]
proof fn lemma_runs(
    f: Function,
    a: Assignment,
    rank: spec_fn(int) -> int,
    b: int,
    prev: Option<Block>,
    vals: Frame,
    start: Machine,
    m: Machine,
    args: Seq<RtValue>,
    fs: FloatSem,
    n: nat,
    x: RtValue,
) -> (fuel: nat)
    requires
        setting(f, a, args),
        ranks(f, rank),
        f.blocks@.len() <= u32::MAX,
        branches_plainly(f),
        register_blocks(f, a, f.blocks@.len()) is Ok,
        register_blocks(f, a, f.blocks@.len())->Ok_0.len() <= usize::MAX,
        0 <= b < f.blocks@.len(),
        inv(f, rank, b, 0, vals, prev, args, fs),
        framed(a, start, m),
        held(a, vals, m),
        phis_ready(f, a, b, 0, vals, prev, m, args, fs),
        arguments(f, args, m),
        run(f, b, prev, vals, args, fs, n) == Some(x),
    ensures
        ({
            let code = register_blocks(f, a, f.blocks@.len())->Ok_0;
            let pc = register_blocks(f, a, b as nat)->Ok_0.len() as int;
            let p = execute(code, register_starts(f, a), pc, m, fs, fuel);
            p is Some && returned_double(start, p.unwrap(), x)
        }),
    decreases n, 3nat,
{
    let count = f.blocks@.len();
    let code = register_blocks(f, a, count)->Ok_0;
    let starts = register_starts(f, a);
    let pc = register_blocks(f, a, b as nat)->Ok_0.len() as int;
    lemma_layout(f, a, b, count);
    let k = f.listed(b).len();
    let v = block_code(f, a, b, k)->Ok_0;
    let t = f64_term(f, a, b)->Ok_0;
    lemma_stands_parts(code, pc, v, t);
    let w = run_insts(f, b, k as int, vals, prev, args, fs).unwrap();
    lemma_block(f, a, rank, b, k, vals, prev, m, args, fs);
    let p = after(m, v, fs);
    lemma_still_framed(f, a, args, start, m, p);
    lemma_block_goes_on(f, a, b, k);
    let at = pc + v.len();
    let rest = match f.term(b) {
        Some(Terminator::Return(r)) => {
            lemma_return(f, a, b, r, w, code, starts, at, start, p, fs, x)
        },
        Some(Terminator::Jump(c)) => {
            lemma_follow(f, a, rank, b, c.0 as int, prev, w, start, p, args, fs, n, x)
        },
        Some(Terminator::Branch { cond, then_, else_ }) => {
            lemma_branch(f, a, rank, b, prev, w, start, p, args, fs, n, x)
        },
        None => 0,
    };
    if f.term(b) is Some && f.term(b).unwrap() is Jump {
        let c = f.term(b).unwrap()->Jump_0.0 as int;
        assert(edge(f, b, c));
        let copies = edge_copies(f, a.regs, c, b, f.listed(c).len())->Ok_0;
        assert(t == copies + seq![A64::Jump { block: c as usize }]);
    }
    lemma_straight(code, starts, pc, v, m, fs, rest);
    rest + v.len()
}

/// After the copies for an edge, the code of the block that it leads to
/// returns what the function returns.
#[verifier::spinoff_prover]
#[verifier::rlimit(60)]
proof fn lemma_taken(
    f: Function,
    a: Assignment,
    rank: spec_fn(int) -> int,
    b: int,
    c: int,
    prev: Option<Block>,
    w: Frame,
    start: Machine,
    p: Machine,
    args: Seq<RtValue>,
    fs: FloatSem,
    n: nat,
    x: RtValue,
) -> (fuel: nat)
    requires
        setting(f, a, args),
        ranks(f, rank),
        f.blocks@.len() <= u32::MAX,
        branches_plainly(f),
        register_blocks(f, a, f.blocks@.len()) is Ok,
        register_blocks(f, a, f.blocks@.len())->Ok_0.len() <= usize::MAX,
        0 <= b < f.blocks@.len(),
        edge(f, b, c),
        inv(f, rank, b, f.listed(b).len() as int, w, prev, args, fs),
        framed(a, start, p),
        held(a, w, p),
        arguments(f, args, p),
        edge_copies(f, a.regs, c, b, f.listed(c).len()) is Ok,
        n > 0,
        run(f, c, Some(Block(b as u32)), w, args, fs, (n - 1) as nat) == Some(x),
    ensures
        ({
            let copies = edge_copies(f, a.regs, c, b, f.listed(c).len())->Ok_0;
            let e = execute(
                register_blocks(f, a, f.blocks@.len())->Ok_0,
                register_starts(f, a),
                register_starts(f, a)[c] as int,
                after(p, copies, fs),
                fs,
                fuel,
            );
            e is Some && returned_double(start, e.unwrap(), x)
        }),
        0 <= c < register_starts(f, a).len(),
    decreases n, 0nat,
{
    let count = f.blocks@.len();
    let copies = edge_copies(f, a.regs, c, b, f.listed(c).len())->Ok_0;
    lemma_copies(f, a, rank, b, c, f.listed(c).len(), w, prev, p, args, fs);
    lemma_inv_edge(f, rank, b, c, w, prev, args, fs);
    let q = after(p, copies, fs);
    lemma_still_framed(f, a, args, start, p, q);
    lemma_layout(f, a, c, count);
    lemma_runs(f, a, rank, c, Some(Block(b as u32)), w, start, q, args, fs, (n - 1) as nat, x)
}

/// The copies for an edge that is not taken after all.
#[verifier::spinoff_prover]
#[verifier::rlimit(60)]
proof fn lemma_passed_over(
    f: Function,
    a: Assignment,
    rank: spec_fn(int) -> int,
    b: int,
    c: int,
    prev: Option<Block>,
    w: Frame,
    start: Machine,
    p: Machine,
    args: Seq<RtValue>,
    fs: FloatSem,
)
    requires
        setting(f, a, args),
        ranks(f, rank),
        f.blocks@.len() <= u32::MAX,
        0 <= b < f.blocks@.len(),
        edge(f, b, c),
        inv(f, rank, b, f.listed(b).len() as int, w, prev, args, fs),
        framed(a, start, p),
        held(a, w, p),
        arguments(f, args, p),
        edge_copies(f, a.regs, c, b, f.listed(c).len()) is Ok,
    ensures
        ({
            let q = after(p, edge_copies(f, a.regs, c, b, f.listed(c).len())->Ok_0, fs);
            &&& framed(a, start, q)
            &&& held(a, w, q)
            &&& arguments(f, args, q)
            &&& q.flags == p.flags
        }),
{
    let copies = edge_copies(f, a.regs, c, b, f.listed(c).len())->Ok_0;
    lemma_copies(f, a, rank, b, c, f.listed(c).len(), w, prev, p, args, fs);
    lemma_still_framed(f, a, args, start, p, after(p, copies, fs));
}

/// A jump behind a straight piece.
proof fn lemma_jump(
    code: Seq<A64>,
    starts: Seq<usize>,
    at: int,
    copies: Seq<A64>,
    block: usize,
    p: Machine,
    fs: FloatSem,
    inner: nat,
)
    requires
        stands_at(code, at, copies + seq![A64::Jump { block }]),
        all_go_on(copies),
        block < starts.len(),
    ensures
        execute(code, starts, at, p, fs, inner + 1 + copies.len()) == execute(
            code,
            starts,
            starts[block as int] as int,
            after(p, copies, fs),
            fs,
            inner,
        ),
{
    let jump = A64::Jump { block };
    lemma_stands_parts(code, at, copies, seq![jump]);
    assert(seq![jump][0] == jump);
    assert(code[at + copies.len() + 0] == jump);
    lemma_straight(code, starts, at, copies, p, fs, inner + 1);
}

/// A conditional jump behind a straight piece.
proof fn lemma_jump_if(
    code: Seq<A64>,
    starts: Seq<usize>,
    at: int,
    copies: Seq<A64>,
    condition: Condition,
    block: usize,
    tail: Seq<A64>,
    p: Machine,
    fs: FloatSem,
    inner: nat,
)
    requires
        stands_at(code, at, copies + (seq![A64::JumpIf { condition, block }] + tail)),
        all_go_on(copies),
        block < starts.len(),
    ensures
        stands_at(code, at + copies.len() + 1, tail),
        execute(code, starts, at, p, fs, inner + 1 + copies.len()) == execute(
            code,
            starts,
            if condition_holds(condition, after(p, copies, fs).flags) {
                starts[block as int] as int
            } else {
                at + copies.len() + 1
            },
            after(p, copies, fs),
            fs,
            inner,
        ),
{
    let branch = A64::JumpIf { condition, block };
    lemma_stands_parts(code, at, copies, seq![branch] + tail);
    lemma_stands_parts(code, at + copies.len(), seq![branch], tail);
    assert(seq![branch][0] == branch);
    assert(code[at + copies.len() + 0] == branch);
    lemma_straight(code, starts, at, copies, p, fs, inner + 1);
}

/// The code of a jump, and what it leads to.
#[verifier::spinoff_prover]
#[verifier::rlimit(60)]
proof fn lemma_follow(
    f: Function,
    a: Assignment,
    rank: spec_fn(int) -> int,
    b: int,
    c: int,
    prev: Option<Block>,
    w: Frame,
    start: Machine,
    p: Machine,
    args: Seq<RtValue>,
    fs: FloatSem,
    n: nat,
    x: RtValue,
) -> (fuel: nat)
    requires
        setting(f, a, args),
        ranks(f, rank),
        f.blocks@.len() <= u32::MAX,
        branches_plainly(f),
        register_blocks(f, a, f.blocks@.len()) is Ok,
        register_blocks(f, a, f.blocks@.len())->Ok_0.len() <= usize::MAX,
        0 <= b < f.blocks@.len(),
        edge(f, b, c),
        inv(f, rank, b, f.listed(b).len() as int, w, prev, args, fs),
        framed(a, start, p),
        held(a, w, p),
        arguments(f, args, p),
        edge_copies(f, a.regs, c, b, f.listed(c).len()) is Ok,
        n > 0,
        run(f, c, Some(Block(b as u32)), w, args, fs, (n - 1) as nat) == Some(x),
    ensures
        ({
            let code = register_blocks(f, a, f.blocks@.len())->Ok_0;
            let copies = edge_copies(f, a.regs, c, b, f.listed(c).len())->Ok_0;
            forall|at: int|
                #![trigger stands_at(code, at, copies + seq![A64::Jump { block: c as usize }])]
                stands_at(code, at, copies + seq![A64::Jump { block: c as usize }]) ==> {
                    let e = execute(code, register_starts(f, a), at, p, fs, fuel);
                    e is Some && returned_double(start, e.unwrap(), x)
                }
        }),
    decreases n, 1nat,
{
    let code = register_blocks(f, a, f.blocks@.len())->Ok_0;
    let starts = register_starts(f, a);
    let copies = edge_copies(f, a.regs, c, b, f.listed(c).len())->Ok_0;
    let inner = lemma_taken(f, a, rank, b, c, prev, w, start, p, args, fs, n, x);
    lemma_copies_go_on(f, a.regs, c, b, f.listed(c).len());
    let jump = A64::Jump { block: c as usize };
    assert forall|at: int| #![trigger stands_at(code, at, copies + seq![jump])] stands_at(
        code,
        at,
        copies + seq![jump],
    ) implies ({
        let e = execute(code, starts, at, p, fs, inner + 1 + copies.len());
        e is Some && returned_double(start, e.unwrap(), x)
    }) by {
        lemma_jump(code, starts, at, copies, c as usize, p, fs, inner);
    }
    inner + 1 + copies.len()
}

/// The comparison of a branch, made once more if need be, decides as its
/// condition does, and changes nothing but the flags.
#[verifier::spinoff_prover]
#[verifier::rlimit(60)]
proof fn lemma_decision(
    f: Function,
    a: Assignment,
    rank: spec_fn(int) -> int,
    b: int,
    prev: Option<Block>,
    w: Frame,
    start: Machine,
    p: Machine,
    args: Seq<RtValue>,
    fs: FloatSem,
    holds: bool,
)
    requires
        setting(f, a, args),
        branches_plainly(f),
        0 <= b < f.blocks@.len(),
        f.term(b) is Some,
        f.term(b).unwrap() is Branch,
        compared_again(f, a.regs, b, f.term(b).unwrap()->cond) is Ok,
        inv(f, rank, b, f.listed(b).len() as int, w, prev, args, fs),
        compared(f, b, f.listed(b).len() as int, w, p),
        framed(a, start, p),
        held(a, w, p),
        arguments(f, args, p),
        slot(w, f.term(b).unwrap()->cond) == Some(RtValue::Bool(holds)),
    ensures
        ({
            let cond = f.term(b).unwrap()->cond;
            let again = compared_again(f, a.regs, b, cond)->Ok_0;
            let q = after(p, again, fs);
            &&& all_go_on(again)
            &&& framed(a, start, q)
            &&& held(a, w, q)
            &&& arguments(f, args, q)
            &&& condition_holds(holds_when(f, cond), q.flags) == holds
        }),
{
    let k = f.listed(b).len() as int;
    let cond = f.term(b).unwrap()->cond;
    let im = f.inst(cond.0 as int);
    let again = compared_again(f, a.regs, b, cond)->Ok_0;
    let q = after(p, again, fs);
    assert(w[cond.0 as int] is Some);
    assert(eval_inst(im, w, None, args, fs) == w[cond.0 as int]);
    let vs = operand_values(im, w);
    assert(reads(im.op) == 2);
    assert(slot(w, im.args[0]) is Some && slot(w, im.args[1]) is Some);
    let l = slot(w, im.args[0]).unwrap();
    let r = slot(w, im.args[1]).unwrap();
    assert(vs[0] == l && vs[1] == r);
    let op = im.op->Compare_0;
    assert(compare(op, l, r) == Some(holds));
    assert(w[im.args[0].0 as int] is Some && w[im.args[1].0 as int] is Some);
    assert(type_of(f, im.args[0]) == Some(value_ty(l)));
    assert(type_of(f, im.args[1]) == Some(value_ty(r)));
    lemma_condition(op, l, r);
    lemma_last_comparison(f, b, k);
    let fresh = match last_comparison(f, b, k) {
        Some(j) => f.listed(b)[j] == cond,
        None => false,
    };
    if fresh {
        assert(again =~= Seq::empty());
        assert(q == p);
    } else {
        let lhs = register_of(a.regs, im.args[0])->Ok_0;
        let rhs = register_of(a.regs, im.args[1])->Ok_0;
        assert(in_register(a, im.args[0].0 as int, l, p));
        assert(in_register(a, im.args[1].0 as int, r, p));
        let op = if type_of(f, im.args[0]) == Some(Ty::F64) {
            A64::CompareFloat { lhs, rhs }
        } else {
            A64::Compare { lhs, rhs }
        };
        assert(again =~= seq![op]);
        lemma_after_one(p, op, fs);
        assert(q.flags == flags_of(l, r));
        assert(q.x == p.x && q.d == p.d && q.sp == p.sp && q.memory == p.memory);
        assert(untouched(a, p, q));
        lemma_still_framed(f, a, args, start, p, q);
        assert forall|v: int| #![trigger w[v]] 0 <= v < w.len() && w[v] is Some implies in_register(
            a,
            v,
            w[v].unwrap(),
            q,
        ) by {
            assert(in_register(a, v, w[v].unwrap(), p));
        }
    }
}

/// The code of a branch, and what it leads to.
#[verifier::spinoff_prover]
#[verifier::rlimit(100)]
proof fn lemma_branch(
    f: Function,
    a: Assignment,
    rank: spec_fn(int) -> int,
    b: int,
    prev: Option<Block>,
    w: Frame,
    start: Machine,
    p: Machine,
    args: Seq<RtValue>,
    fs: FloatSem,
    n: nat,
    x: RtValue,
) -> (fuel: nat)
    requires
        setting(f, a, args),
        ranks(f, rank),
        f.blocks@.len() <= u32::MAX,
        branches_plainly(f),
        register_blocks(f, a, f.blocks@.len()) is Ok,
        register_blocks(f, a, f.blocks@.len())->Ok_0.len() <= usize::MAX,
        0 <= b < f.blocks@.len(),
        f.term(b) is Some,
        f.term(b).unwrap() is Branch,
        f64_term(f, a, b) is Ok,
        inv(f, rank, b, f.listed(b).len() as int, w, prev, args, fs),
        framed(a, start, p),
        held(a, w, p),
        compared(f, b, f.listed(b).len() as int, w, p),
        arguments(f, args, p),
        n > 0,
        match after_block(f.term(b), w) {
            Next::Goto(c) => run(f, c, Some(Block(b as u32)), w, args, fs, (n - 1) as nat) == Some(
                x,
            ),
            _ => false,
        },
    ensures
        ({
            let code = register_blocks(f, a, f.blocks@.len())->Ok_0;
            forall|at: int|
                #![trigger stands_at(code, at, f64_term(f, a, b)->Ok_0)]
                stands_at(code, at, f64_term(f, a, b)->Ok_0) ==> {
                    let e = execute(code, register_starts(f, a), at, p, fs, fuel);
                    e is Some && returned_double(start, e.unwrap(), x)
                }
        }),
    decreases n, 2nat,
{
    let count = f.blocks@.len();
    let code = register_blocks(f, a, count)->Ok_0;
    let starts = register_starts(f, a);
    let term = f.term(b).unwrap();
    let cond = term->cond;
    let c1 = term->then_.0 as int;
    let c2 = term->else_.0 as int;
    assert(edge(f, b, c1) && edge(f, b, c2));
    let holds = slot(w, cond).unwrap()->Bool_0;
    lemma_branch_code(f, a, b);
    lemma_decision(f, a, rank, b, prev, w, start, p, args, fs, holds);
    let again = compared_again(f, a.regs, b, cond)->Ok_0;
    let condition = holds_when(f, cond);
    // The pieces of the code.
    let copies1 = edge_copies(f, a.regs, c1, b, f.listed(c1).len())->Ok_0;
    let copies2 = edge_copies(f, a.regs, c2, b, f.listed(c2).len())->Ok_0;
    let branch = A64::JumpIf { condition, block: c1 as usize };
    let tail = copies2 + seq![A64::Jump { block: c2 as usize }];
    let t = f64_term(f, a, b)->Ok_0;
    lemma_copies_go_on(f, a.regs, c1, b, f.listed(c1).len());
    let p1 = after(p, again, fs);
    lemma_passed_over(f, a, rank, b, c1, prev, w, start, p1, args, fs);
    let q = after(p1, copies1, fs);
    let inner = if holds {
        lemma_taken(f, a, rank, b, c1, prev, w, start, p1, args, fs, n, x)
    } else {
        lemma_follow(f, a, rank, b, c2, prev, w, start, q, args, fs, n, x)
    };
    let rest = copies1 + (seq![branch] + tail);
    let steps = inner + 1 + copies1.len();
    assert forall|at: int| #![trigger stands_at(code, at, t)] stands_at(code, at, t) implies ({
        let e = execute(code, starts, at, p, fs, steps + again.len());
        e is Some && returned_double(start, e.unwrap(), x)
    }) by {
        lemma_stands_parts(code, at, again, rest);
        let there = at + again.len();
        lemma_jump_if(code, starts, there, copies1, condition, c1 as usize, tail, p1, fs, inner);
        lemma_straight(code, starts, at, again, p, fs, steps);
    }
    steps + again.len()
}

/// The parts of the code of a branch.
proof fn lemma_branch_code(f: Function, a: Assignment, b: int)
    requires
        f.term(b) is Some,
        f.term(b).unwrap() is Branch,
        f64_term(f, a, b) is Ok,
    ensures
        ({
            let term = f.term(b).unwrap();
            let c1 = term->then_.0 as int;
            let c2 = term->else_.0 as int;
            let one = edge_copies(f, a.regs, c1, b, f.listed(c1).len());
            let two = edge_copies(f, a.regs, c2, b, f.listed(c2).len());
            let again = compared_again(f, a.regs, b, term->cond);
            let condition = holds_when(f, term->cond);
            &&& one is Ok
            &&& two is Ok
            &&& again is Ok
            &&& f64_term(f, a, b)->Ok_0 == again->Ok_0 + (one->Ok_0 + (seq![
                A64::JumpIf { condition, block: c1 as usize },
            ] + (two->Ok_0 + seq![A64::Jump { block: c2 as usize }])))
        }),
{
    let term = f.term(b).unwrap();
    let c1 = term->then_.0 as int;
    let c2 = term->else_.0 as int;
    let one = edge_copies(f, a.regs, c1, b, f.listed(c1).len())->Ok_0;
    let two = edge_copies(f, a.regs, c2, b, f.listed(c2).len())->Ok_0;
    let condition = holds_when(f, term->cond);
    let branch = A64::JumpIf { condition, block: c1 as usize };
    let jump = A64::Jump { block: c2 as usize };
    assert(((one + seq![branch]) + two) + seq![jump] =~= one + (seq![branch] + (two + seq![jump])));
}

/// The code that a function with a double as its result gets where its values
/// fit in registers: called with the arguments in the first registers of their
/// banks, it returns what the function yields, and keeps what belongs to the
/// caller. The function has no loops, and branches on comparisons of integers
/// or of doubles.
pub proof fn lemma_f64_code_computes(
    f: Function,
    rank: spec_fn(int) -> int,
    m: Machine,
    args: Seq<RtValue>,
    fs: FloatSem,
    x: RtValue,
)
    requires
        valid(f),
        ranks(f, rank),
        f.entry.0 == 0,
        f.blocks@.len() <= u32::MAX,
        f.insts@.len() <= u32::MAX,
        branches_plainly(f),
        assignment(f, false, f.blocks@.len()) is Ok,
        ({
            let a = assignment(f, false, f.blocks@.len())->Ok_0;
            let code = register_blocks(f, a, f.blocks@.len());
            code is Ok && code->Ok_0.len() <= usize::MAX
        }),
        whole(m),
        args_match(f, args),
        arguments(f, args, m),
        yields(f, args, fs, x),
    ensures
        ({
            let a = assignment(f, false, f.blocks@.len())->Ok_0;
            let code = register_blocks(f, a, f.blocks@.len())->Ok_0;
            exists|fuel: nat|
                #![trigger execute(code, register_starts(f, a), 0, m, fs, fuel)]
                execute(code, register_starts(f, a), 0, m, fs, fuel) is Some && returned_double(
                    m,
                    execute(code, register_starts(f, a), 0, m, fs, fuel).unwrap(),
                    x,
                )
        }),
{
    let count = f.blocks@.len();
    let a = assignment(f, false, count)->Ok_0;
    let code = register_blocks(f, a, count)->Ok_0;
    let starts = register_starts(f, a);
    let vals = empty_frame(f.insts@.len());
    let n = choose|n: nat| #[trigger] run(f, f.entry.0 as int, None, vals, args, fs, n) == Some(x);
    lemma_separate(f, false, count);
    assert forall|b: int, k: int|
        #![trigger f.listed(b)[k]]
        0 <= b < f.blocks@.len() && 0 <= k < f.listed(b).len() implies a.regs[f.listed(
        b,
    )[k].0 as int] is Some by {
        lemma_covered(f, false, count, b, k);
    }
    assert(numbered(a));
    lemma_prologue(m, a, fs);
    let p = after(m, prologue(a), fs);
    lemma_inv_start(f, rank, args, fs);
    // The entry has no phis: control comes to it from nowhere.
    assert(run(f, 0, None, vals, args, fs, n) == Some(x));
    assert forall|l: int|
        #![trigger f.listed(0)[l]]
        0 <= l < f.listed(0).len() implies !(f.inst(f.listed(0)[l].0 as int).op is Phi) by {
        lemma_no_entry_phi(f, l, f.listed(0).len() as int, vals, args, fs);
    }
    let fuel = lemma_runs(f, a, rank, 0, None, vals, m, p, args, fs, n, x);
    lemma_starts_with_prologue(f, a, count);
    assert(all_go_on(prologue(a)));
    lemma_straight(code, starts, 0, prologue(a), m, fs, fuel);
    assert(register_blocks(f, a, 0)->Ok_0 == prologue(a));
    assert(execute(code, starts, 0, m, fs, fuel + prologue(a).len()) is Some);
}

/// A block that control enters from nowhere and that runs has no phis.
pub(crate) proof fn lemma_no_entry_phi(
    f: Function,
    l: int,
    k: int,
    vals: Frame,
    args: Seq<RtValue>,
    fs: FloatSem,
)
    requires
        0 <= l < k,
        run_insts(f, 0, k, vals, None, args, fs) is Some,
    ensures
        !(f.inst(f.listed(0)[l].0 as int).op is Phi),
    decreases k,
{
    if l < k - 1 {
        lemma_no_entry_phi(f, l, k - 1, vals, args, fs);
    }
}

} // verus!
