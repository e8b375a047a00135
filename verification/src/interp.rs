//! The interpreter: the correctness oracle for the whole compiler.
//!
//! Integer operations wrap, as the machine instructions do. Floating-point
//! operations go to the caller's arithmetic unit.
use crate::arith::{
    add64, bits_equal, bits_less, div64, mul64, neg64, rem64, shift_left, shift_right_arithmetic,
    shift_right_logical, sub64,
};
use crate::arith::{
    double_less, doubles_equal, magnitude, negated_bits, quotient, remainder, sar64, shl64, shr64,
    wrap,
};
use crate::collections::EdgeList;
use crate::float::{compute, float_op_of, FloatOp};
use crate::float::{is_float_unit, lib_float_op, sem_of, FloatSem};
use crate::ir::{Block, CmpOp, Function, Inst, LibFunc, Terminator, Value};
use crate::ir::{InstModel, Op};
use crate::verify::arity;
use vstd::prelude::*;

verus! {

/// A runtime value. A double is held as its bits.
#[derive(Clone, Copy, Debug, PartialEq, Eq, Structural)]
pub enum RtValue {
    F64(u64),
    I64(i64),
    Bool(bool),
}

impl RtValue {
    pub fn as_f64(self) -> (r: u64)
        requires
            self is F64,
        ensures
            self == RtValue::F64(r),
    {
        match self {
            RtValue::F64(x) => x,
            _ => 0,
        }
    }

    pub fn as_i64(self) -> (r: i64)
        requires
            self is I64,
        ensures
            self == RtValue::I64(r),
    {
        match self {
            RtValue::I64(x) => x,
            _ => 0,
        }
    }

    pub fn as_bool(self) -> (r: bool)
        requires
            self is Bool,
        ensures
            self == RtValue::Bool(r),
    {
        match self {
            RtValue::Bool(x) => x,
            _ => false,
        }
    }
}

/// The values computed so far, by value number.
pub type Frame = Seq<Option<RtValue>>;

pub open spec fn slot(vals: Frame, v: Value) -> Option<RtValue> {
    if v.0 < vals.len() {
        vals[v.0 as int]
    } else {
        None
    }
}

/// The comparison of two values of one type; bools know only (in)equality.
pub open spec fn compare(op: CmpOp, l: RtValue, r: RtValue) -> Option<bool> {
    match (l, r) {
        (RtValue::F64(x), RtValue::F64(y)) => Some(
            match op {
                CmpOp::Eq => doubles_equal(x, y),
                CmpOp::Ne => !doubles_equal(x, y),
                CmpOp::Lt => double_less(x, y),
                CmpOp::Le => double_less(x, y) || doubles_equal(x, y),
                CmpOp::Gt => double_less(y, x),
                CmpOp::Ge => double_less(y, x) || doubles_equal(x, y),
            },
        ),
        (RtValue::I64(x), RtValue::I64(y)) => Some(
            match op {
                CmpOp::Eq => x == y,
                CmpOp::Ne => x != y,
                CmpOp::Lt => x < y,
                CmpOp::Le => x <= y,
                CmpOp::Gt => x > y,
                CmpOp::Ge => x >= y,
            },
        ),
        (RtValue::Bool(x), RtValue::Bool(y)) => match op {
            CmpOp::Eq => Some(x == y),
            CmpOp::Ne => Some(x != y),
            _ => None,
        },
        _ => None,
    }
}

/// The floating-point operation of an arithmetic instruction on doubles.
pub open spec fn float_op(op: Op) -> FloatOp {
    match op {
        Op::Add => FloatOp::Add,
        Op::Sub => FloatOp::Sub,
        Op::Mul => FloatOp::Mul,
        Op::Div => FloatOp::Div,
        Op::Rem => FloatOp::Rem,
        Op::Fma => FloatOp::Fma,
        Op::Sqrt => FloatOp::Sqrt,
        Op::Floor => FloatOp::Floor,
        Op::Ceil => FloatOp::Ceil,
        Op::Round => FloatOp::Round,
        Op::Trunc => FloatOp::Trunc,
        Op::Min => FloatOp::Min,
        Op::Max => FloatOp::Max,
        Op::Call(func) => lib_float_op(func),
        Op::IToF => FloatOp::FromInt,
        _ => FloatOp::ToInt,
    }
}

/// Integer arithmetic. Dividing by zero has no result.
pub open spec fn int_binary(op: Op, x: i64, y: i64) -> Option<i64> {
    match op {
        Op::Add => Some(wrap(x + y)),
        Op::Sub => Some(wrap(x - y)),
        Op::Mul => Some(wrap(x * y)),
        Op::Div => if y == 0 {
            None
        } else {
            Some(wrap(quotient(x as int, y as int)))
        },
        Op::Rem => if y == 0 {
            None
        } else {
            Some(wrap(remainder(x as int, y as int)))
        },
        Op::And => Some(x & y),
        Op::Or => Some(x | y),
        Op::Xor => Some(x ^ y),
        Op::Shl => Some(shl64(x, y)),
        Op::Shr => Some(shr64(x, y)),
        Op::Sar => Some(sar64(x, y)),
        _ => None,
    }
}

pub open spec fn bool_binary(op: Op, x: bool, y: bool) -> Option<bool> {
    match op {
        Op::And => Some(x && y),
        Op::Or => Some(x || y),
        Op::Xor => Some(x != y),
        _ => None,
    }
}

/// The operations on two doubles.
pub open spec fn is_float_binary(op: Op) -> bool {
    op is Add || op is Sub || op is Mul || op is Div || op is Rem || op is Min || op is Max
}

pub open spec fn eval_binary(op: Op, l: RtValue, r: RtValue, fs: FloatSem) -> Option<RtValue> {
    match (l, r) {
        (RtValue::F64(x), RtValue::F64(y)) => if is_float_binary(op) {
            Some(RtValue::F64(fs(float_op(op), x, y, 0)))
        } else {
            None
        },
        (RtValue::I64(x), RtValue::I64(y)) => match int_binary(op, x, y) {
            Some(z) => Some(RtValue::I64(z)),
            None => None,
        },
        (RtValue::Bool(x), RtValue::Bool(y)) => match bool_binary(op, x, y) {
            Some(z) => Some(RtValue::Bool(z)),
            None => None,
        },
        _ => None,
    }
}

pub open spec fn eval_unary(op: Op, a: RtValue, fs: FloatSem) -> Option<RtValue> {
    match (op, a) {
        (Op::Neg, RtValue::F64(x)) => Some(RtValue::F64(negated_bits(x))),
        (Op::Neg, RtValue::I64(x)) => Some(RtValue::I64(wrap(-x))),
        (Op::Not, RtValue::I64(x)) => Some(RtValue::I64(!x)),
        (Op::Not, RtValue::Bool(x)) => Some(RtValue::Bool(!x)),
        (Op::Abs, RtValue::F64(x)) => Some(RtValue::F64(magnitude(x))),
        (Op::Sqrt, RtValue::F64(x)) => Some(RtValue::F64(fs(FloatOp::Sqrt, x, 0, 0))),
        (Op::Floor, RtValue::F64(x)) => Some(RtValue::F64(fs(FloatOp::Floor, x, 0, 0))),
        (Op::Ceil, RtValue::F64(x)) => Some(RtValue::F64(fs(FloatOp::Ceil, x, 0, 0))),
        (Op::Round, RtValue::F64(x)) => Some(RtValue::F64(fs(FloatOp::Round, x, 0, 0))),
        (Op::Trunc, RtValue::F64(x)) => Some(RtValue::F64(fs(FloatOp::Trunc, x, 0, 0))),
        (Op::IToF, RtValue::I64(x)) => Some(RtValue::F64(fs(FloatOp::FromInt, x as u64, 0, 0))),
        (Op::FToI, RtValue::F64(x)) => Some(RtValue::I64(fs(FloatOp::ToInt, x, 0, 0) as i64)),
        _ => None,
    }
}

/// How many operands the operation reads.
pub open spec fn reads(op: Op) -> nat {
    match op {
        Op::ConstF64(_) | Op::ConstI64(_) | Op::ConstBool(_) | Op::Param(_, _) | Op::Phi(_) => 0,
        Op::Neg
        | Op::Not
        | Op::Sqrt
        | Op::Abs
        | Op::Floor
        | Op::Ceil
        | Op::Round
        | Op::Trunc
        | Op::IToF
        | Op::FToI => 1,
        Op::Call(func) => arity(func),
        Op::Fma => 3,
        _ => 2,
    }
}

/// What an operation other than a phi computes from the values it reads and
/// the arguments of the function. Nothing, where the operands do not fit the
/// operation or an integer is divided by zero.
pub open spec fn eval(op: Op, vs: Seq<RtValue>, args: Seq<RtValue>, fs: FloatSem) -> Option<
    RtValue,
> {
    match op {
        Op::ConstF64(bits) => Some(RtValue::F64(bits)),
        Op::ConstI64(n) => Some(RtValue::I64(n)),
        Op::ConstBool(b) => Some(RtValue::Bool(b)),
        Op::Param(index, _) => if index < args.len() {
            Some(args[index as int])
        } else {
            None
        },
        Op::Compare(c) => match compare(c, vs[0], vs[1]) {
            Some(b) => Some(RtValue::Bool(b)),
            None => None,
        },
        Op::Fma => match (vs[0], vs[1], vs[2]) {
            (RtValue::F64(a), RtValue::F64(b), RtValue::F64(c)) => Some(
                RtValue::F64(fs(FloatOp::Fma, a, b, c)),
            ),
            _ => None,
        },
        Op::Call(LibFunc::Pow) => match (vs[0], vs[1]) {
            (RtValue::F64(a), RtValue::F64(b)) => Some(RtValue::F64(fs(FloatOp::Pow, a, b, 0))),
            _ => None,
        },
        Op::Call(func) => match vs[0] {
            RtValue::F64(a) => Some(RtValue::F64(fs(lib_float_op(func), a, 0, 0))),
            _ => None,
        },
        Op::Phi(_) => None,
        _ => if reads(op) == 1 {
            eval_unary(op, vs[0], fs)
        } else {
            eval_binary(op, vs[0], vs[1], fs)
        },
    }
}

/// The place of the first edge that comes from `p`, from place `i` on.
pub open spec fn edge_from(froms: Seq<Block>, p: Block, i: int) -> Option<int>
    decreases froms.len() - i,
{
    if i < 0 || i >= froms.len() {
        None
    } else if froms[i] == p {
        Some(i)
    } else {
        edge_from(froms, p, i + 1)
    }
}

/// All operands that the instruction reads have been computed.
pub open spec fn readable(m: InstModel, vals: Frame) -> bool {
    &&& reads(m.op) <= m.args.len()
    &&& forall|j: int|
        #![trigger m.args[j]]
        0 <= j < reads(m.op) ==> slot(vals, m.args[j]) is Some
}

/// The values of the operands that the instruction reads.
pub open spec fn operand_values(m: InstModel, vals: Frame) -> Seq<RtValue> {
    Seq::new(reads(m.op), |j: int| slot(vals, m.args[j]).unwrap())
}

/// The value of an instruction that control reached from block `prev`.
pub open spec fn eval_inst(
    m: InstModel,
    vals: Frame,
    prev: Option<Block>,
    args: Seq<RtValue>,
    fs: FloatSem,
) -> Option<RtValue> {
    match m.op {
        Op::Phi(froms) => match prev {
            None => None,
            Some(p) => match edge_from(froms, p, 0) {
                Some(j) => slot(vals, m.args[j]),
                None => None,
            },
        },
        _ => if readable(m, vals) {
            eval(m.op, operand_values(m, vals), args, fs)
        } else {
            None
        },
    }
}

/// The frame after the first `k` instructions of block `b`.
pub open spec fn run_insts(
    f: Function,
    b: int,
    k: int,
    vals: Frame,
    prev: Option<Block>,
    args: Seq<RtValue>,
    fs: FloatSem,
) -> Option<Frame>
    decreases k,
{
    if k <= 0 {
        Some(vals)
    } else {
        match run_insts(f, b, k - 1, vals, prev, args, fs) {
            None => None,
            Some(w) => {
                let v = f.listed(b)[k - 1];
                if v.0 < w.len() && v.0 < f.insts@.len() {
                    match eval_inst(f.inst(v.0 as int), w, prev, args, fs) {
                        Some(x) => Some(w.update(v.0 as int, Some(x))),
                        None => None,
                    }
                } else {
                    None
                }
            },
        }
    }
}

/// Where control goes at the end of a block.
pub enum Next {
    Done(RtValue),
    Goto(int),
    Stuck,
}

pub open spec fn after_block(t: Option<Terminator>, vals: Frame) -> Next {
    match t {
        Some(Terminator::Return(v)) => match slot(vals, v) {
            Some(x) => Next::Done(x),
            None => Next::Stuck,
        },
        Some(Terminator::Jump(b)) => Next::Goto(b.0 as int),
        Some(Terminator::Branch { cond, then_, else_ }) => match slot(vals, cond) {
            Some(RtValue::Bool(c)) => if c {
                Next::Goto(then_.0 as int)
            } else {
                Next::Goto(else_.0 as int)
            },
            _ => Next::Stuck,
        },
        None => Next::Stuck,
    }
}

/// What the function returns when control enters block `b` from block `prev`,
/// if it returns within `fuel` blocks.
pub open spec fn run(
    f: Function,
    b: int,
    prev: Option<Block>,
    vals: Frame,
    args: Seq<RtValue>,
    fs: FloatSem,
    fuel: nat,
) -> Option<RtValue>
    decreases fuel,
{
    if fuel == 0 || b < 0 || b >= f.blocks@.len() {
        None
    } else {
        match run_insts(f, b, f.listed(b).len() as int, vals, prev, args, fs) {
            None => None,
            Some(w) => match after_block(f.term(b), w) {
                Next::Done(x) => Some(x),
                Next::Goto(c) => run(f, c, Some(Block(b as u32)), w, args, fs, (fuel - 1) as nat),
                Next::Stuck => None,
            },
        }
    }
}

pub open spec fn empty_frame(n: nat) -> Frame {
    Seq::new(n, |i: int| None)
}

/// Called with `args`, the function returns `x`.
pub open spec fn yields(f: Function, args: Seq<RtValue>, fs: FloatSem, x: RtValue) -> bool {
    exists|fuel: nat| #[trigger]
        run(f, f.entry.0 as int, None, empty_frame(f.insts@.len()), args, fs, fuel) == Some(x)
}

/// The instruction divides an integer by zero.
pub open spec fn divides_by_zero(m: InstModel, vals: Frame) -> bool {
    &&& m.op is Div || m.op is Rem
    &&& readable(m, vals)
    &&& operand_values(m, vals)[0] is I64
    &&& operand_values(m, vals)[1] == RtValue::I64(0)
}

/// In block `b`, the instruction at place `k`, an `op`, divides by zero.
pub open spec fn traps_at(
    f: Function,
    b: int,
    k: int,
    prev: Option<Block>,
    vals: Frame,
    args: Seq<RtValue>,
    fs: FloatSem,
    op: Op,
) -> bool {
    &&& 0 <= k < f.listed(b).len()
    &&& f.listed(b)[k].0 < f.insts@.len()
    &&& f.inst(f.listed(b)[k].0 as int).op == op
    &&& match run_insts(f, b, k, vals, prev, args, fs) {
        Some(w) => divides_by_zero(f.inst(f.listed(b)[k].0 as int), w),
        None => false,
    }
}

/// An `op` of block `b` divides by zero.
pub open spec fn traps_in(
    f: Function,
    b: int,
    prev: Option<Block>,
    vals: Frame,
    args: Seq<RtValue>,
    fs: FloatSem,
    op: Op,
) -> bool {
    exists|k: int| #[trigger] traps_at(f, b, k, prev, vals, args, fs, op)
}

/// When control enters block `b` from block `prev`, an `op` divides by zero
/// within `fuel` blocks.
pub open spec fn run_traps(
    f: Function,
    b: int,
    prev: Option<Block>,
    vals: Frame,
    args: Seq<RtValue>,
    fs: FloatSem,
    op: Op,
    fuel: nat,
) -> bool
    decreases fuel,
{
    if fuel == 0 || b < 0 || b >= f.blocks@.len() {
        false
    } else {
        traps_in(f, b, prev, vals, args, fs, op) || match run_insts(
            f,
            b,
            f.listed(b).len() as int,
            vals,
            prev,
            args,
            fs,
        ) {
            None => false,
            Some(w) => match after_block(f.term(b), w) {
                Next::Goto(c) => run_traps(
                    f,
                    c,
                    Some(Block(b as u32)),
                    w,
                    args,
                    fs,
                    op,
                    (fuel - 1) as nat,
                ),
                _ => false,
            },
        }
    }
}

/// Called with `args`, the function stops at an `op`, a division or a
/// remainder, that divides an integer by zero.
pub open spec fn traps(f: Function, args: Seq<RtValue>, fs: FloatSem, op: Op) -> bool {
    exists|fuel: nat| #[trigger]
        run_traps(f, f.entry.0 as int, None, empty_frame(f.insts@.len()), args, fs, op, fuel)
}

/// Behind an instruction that divides by zero nothing runs.
pub proof fn lemma_stopped(
    f: Function,
    b: int,
    k: int,
    n: int,
    prev: Option<Block>,
    vals: Frame,
    args: Seq<RtValue>,
    fs: FloatSem,
    op: Op,
)
    requires
        traps_at(f, b, k, prev, vals, args, fs, op),
        k < n,
    ensures
        run_insts(f, b, n, vals, prev, args, fs) is None,
    decreases n,
{
    if n > k + 1 {
        lemma_stopped(f, b, k, n - 1, prev, vals, args, fs, op);
    } else {
        let w = run_insts(f, b, k, vals, prev, args, fs).unwrap();
        let m = f.inst(f.listed(b)[k].0 as int);
        let vs = operand_values(m, w);
        assert(eval_binary(m.op, vs[0], vs[1], fs) is None);
    }
}

proof fn lemma_run_stopped(
    f: Function,
    b: int,
    prev: Option<Block>,
    vals: Frame,
    args: Seq<RtValue>,
    fs: FloatSem,
    op: Op,
    fuel: nat,
    n: nat,
)
    requires
        run_traps(f, b, prev, vals, args, fs, op, fuel),
    ensures
        run(f, b, prev, vals, args, fs, n) is None,
    decreases fuel,
{
    if traps_in(f, b, prev, vals, args, fs, op) {
        let k = choose|k: int| #[trigger] traps_at(f, b, k, prev, vals, args, fs, op);
        lemma_stopped(f, b, k, f.listed(b).len() as int, prev, vals, args, fs, op);
    } else if n > 0 {
        let w = run_insts(f, b, f.listed(b).len() as int, vals, prev, args, fs).unwrap();
        match after_block(f.term(b), w) {
            Next::Goto(c) => lemma_run_stopped(
                f,
                c,
                Some(Block(b as u32)),
                w,
                args,
                fs,
                op,
                (fuel - 1) as nat,
                (n - 1) as nat,
            ),
            _ => {},
        }
    }
}

/// A function that traps returns nothing.
pub proof fn lemma_trap_or_value(f: Function, args: Seq<RtValue>, fs: FloatSem, op: Op, x: RtValue)
    requires
        traps(f, args, fs, op),
    ensures
        !yields(f, args, fs, x),
{
    let vals = empty_frame(f.insts@.len());
    let fuel = choose|fuel: nat| #[trigger]
        run_traps(f, f.entry.0 as int, None, vals, args, fs, op, fuel);
    if yields(f, args, fs, x) {
        let n = choose|n: nat| #[trigger] run(f, f.entry.0 as int, None, vals, args, fs, n) == Some(
            x,
        );
        lemma_run_stopped(f, f.entry.0 as int, None, vals, args, fs, op, fuel, n);
    }
}

/// A run that returns does so with any more fuel.
pub proof fn lemma_more_fuel(
    f: Function,
    b: int,
    prev: Option<Block>,
    vals: Frame,
    args: Seq<RtValue>,
    fs: FloatSem,
    n: nat,
    m: nat,
)
    requires
        n <= m,
        run(f, b, prev, vals, args, fs, n) is Some,
    ensures
        run(f, b, prev, vals, args, fs, m) == run(f, b, prev, vals, args, fs, n),
    decreases n,
{
    let w = run_insts(f, b, f.listed(b).len() as int, vals, prev, args, fs).unwrap();
    match after_block(f.term(b), w) {
        Next::Goto(c) => {
            lemma_more_fuel(
                f,
                c,
                Some(Block(b as u32)),
                w,
                args,
                fs,
                (n - 1) as nat,
                (m - 1) as nat,
            );
        },
        _ => {},
    }
}

/// A function has at most one result for given arguments.
pub proof fn lemma_result_unique(
    f: Function,
    args: Seq<RtValue>,
    fs: FloatSem,
    x: RtValue,
    y: RtValue,
)
    requires
        yields(f, args, fs, x),
        yields(f, args, fs, y),
    ensures
        x == y,
{
    let start = empty_frame(f.insts@.len());
    let n = choose|n: nat| #[trigger]
        run(f, f.entry.0 as int, None, start, args, fs, n) == Some(x);
    let m = choose|m: nat| #[trigger]
        run(f, f.entry.0 as int, None, start, args, fs, m) == Some(y);
    if n <= m {
        lemma_more_fuel(f, f.entry.0 as int, None, start, args, fs, n, m);
    } else {
        lemma_more_fuel(f, f.entry.0 as int, None, start, args, fs, m, n);
    }
}

fn get(vals: &Vec<Option<RtValue>>, v: Value) -> (r: Option<RtValue>)
    ensures
        r == slot(vals@, v),
{
    if (v.0 as usize) < vals.len() {
        vals[v.0 as usize]
    } else {
        None
    }
}

/// Compares two values of one type.
pub fn eval_compare(op: CmpOp, l: RtValue, r: RtValue) -> (b: Option<bool>)
    ensures
        b == compare(op, l, r),
{
    match (l, r) {
        (RtValue::F64(x), RtValue::F64(y)) => Some(
            match op {
                CmpOp::Eq => bits_equal(x, y),
                CmpOp::Ne => !bits_equal(x, y),
                CmpOp::Lt => bits_less(x, y),
                CmpOp::Le => bits_less(x, y) || bits_equal(x, y),
                CmpOp::Gt => bits_less(y, x),
                CmpOp::Ge => bits_less(y, x) || bits_equal(x, y),
            },
        ),
        (RtValue::I64(x), RtValue::I64(y)) => Some(
            match op {
                CmpOp::Eq => x == y,
                CmpOp::Ne => x != y,
                CmpOp::Lt => x < y,
                CmpOp::Le => x <= y,
                CmpOp::Gt => x > y,
                CmpOp::Ge => x >= y,
            },
        ),
        (RtValue::Bool(x), RtValue::Bool(y)) => match op {
            CmpOp::Eq => Some(x == y),
            CmpOp::Ne => Some(x != y),
            _ => None,
        },
        _ => None,
    }
}

/// The operations with two operands, apart from comparisons.
#[derive(Clone, Copy, PartialEq, Eq, Debug, Structural)]
pub enum BinaryInst {
    Add,
    Sub,
    Mul,
    Div,
    Rem,
    And,
    Or,
    Xor,
    Shl,
    Shr,
    Sar,
    Min,
    Max,
}

impl BinaryInst {
    pub open spec fn op(self) -> Op {
        match self {
            BinaryInst::Add => Op::Add,
            BinaryInst::Sub => Op::Sub,
            BinaryInst::Mul => Op::Mul,
            BinaryInst::Div => Op::Div,
            BinaryInst::Rem => Op::Rem,
            BinaryInst::And => Op::And,
            BinaryInst::Or => Op::Or,
            BinaryInst::Xor => Op::Xor,
            BinaryInst::Shl => Op::Shl,
            BinaryInst::Shr => Op::Shr,
            BinaryInst::Sar => Op::Sar,
            BinaryInst::Min => Op::Min,
            BinaryInst::Max => Op::Max,
        }
    }
}

/// Integer arithmetic; `None` for a division by zero.
pub fn int_pair(op: BinaryInst, x: i64, y: i64) -> (r: Option<i64>)
    ensures
        r == int_binary(op.op(), x, y),
{
    match op {
        BinaryInst::Add => Some(add64(x, y)),
        BinaryInst::Sub => Some(sub64(x, y)),
        BinaryInst::Mul => Some(mul64(x, y)),
        BinaryInst::Div => if y == 0 {
            None
        } else {
            Some(div64(x, y))
        },
        BinaryInst::Rem => if y == 0 {
            None
        } else {
            Some(rem64(x, y))
        },
        BinaryInst::And => Some(x & y),
        BinaryInst::Or => Some(x | y),
        BinaryInst::Xor => Some(x ^ y),
        BinaryInst::Shl => Some(shift_left(x, y)),
        BinaryInst::Shr => Some(shift_right_logical(x, y)),
        BinaryInst::Sar => Some(shift_right_arithmetic(x, y)),
        BinaryInst::Min | BinaryInst::Max => None,
    }
}

fn float_pair(op: BinaryInst) -> (r: Option<FloatOp>)
    ensures
        r is Some <==> is_float_binary(op.op()),
        r matches Some(o) ==> o == float_op(op.op()),
{
    match op {
        BinaryInst::Add => Some(FloatOp::Add),
        BinaryInst::Sub => Some(FloatOp::Sub),
        BinaryInst::Mul => Some(FloatOp::Mul),
        BinaryInst::Div => Some(FloatOp::Div),
        BinaryInst::Rem => Some(FloatOp::Rem),
        BinaryInst::Min => Some(FloatOp::Min),
        BinaryInst::Max => Some(FloatOp::Max),
        _ => None,
    }
}

/// Evaluates an operation on two operands.
pub fn eval_pair<F: Fn(FloatOp, u64, u64, u64) -> u64>(
    op: BinaryInst,
    l: RtValue,
    r: RtValue,
    unit: &F,
) -> (x: Option<RtValue>)
    requires
        is_float_unit(*unit),
    ensures
        x == eval_binary(op.op(), l, r, sem_of(*unit)),
{
    match (l, r) {
        (RtValue::F64(x), RtValue::F64(y)) => match float_pair(op) {
            Some(o) => Some(RtValue::F64(compute(unit, o, x, y, 0))),
            None => None,
        },
        (RtValue::I64(x), RtValue::I64(y)) => match int_pair(op, x, y) {
            Some(z) => Some(RtValue::I64(z)),
            None => None,
        },
        (RtValue::Bool(x), RtValue::Bool(y)) => match op {
            BinaryInst::And => Some(RtValue::Bool(x && y)),
            BinaryInst::Or => Some(RtValue::Bool(x || y)),
            BinaryInst::Xor => Some(RtValue::Bool(x != y)),
            _ => None,
        },
        _ => None,
    }
}

fn pair_value<F: Fn(FloatOp, u64, u64, u64) -> u64>(
    op: BinaryInst,
    a: Value,
    b: Value,
    vals: &Vec<Option<RtValue>>,
    unit: &F,
    Ghost(m): Ghost<InstModel>,
    Ghost(prev): Ghost<Option<Block>>,
    Ghost(args): Ghost<Seq<RtValue>>,
) -> (x: Option<RtValue>)
    requires
        is_float_unit(*unit),
        m == crate::ir::model2(op.op(), a, b),
    ensures
        x == eval_inst(m, vals@, prev, args, sem_of(*unit)),
{
    assert(m.args[0] == a && m.args[1] == b);
    match (get(vals, a), get(vals, b)) {
        (Some(l), Some(r)) => {
            assert(readable(m, vals@));
            eval_pair(op, l, r, unit)
        },
        _ => None,
    }
}

fn rounding_value<F: Fn(FloatOp, u64, u64, u64) -> u64>(
    op: FloatOp,
    a: Value,
    vals: &Vec<Option<RtValue>>,
    unit: &F,
) -> (x: Option<RtValue>)
    requires
        is_float_unit(*unit),
    ensures
        x == (match slot(vals@, a) {
            Some(RtValue::F64(y)) => Some(RtValue::F64(sem_of(*unit)(op, y, 0, 0))),
            _ => None,
        }),
{
    match get(vals, a) {
        Some(RtValue::F64(y)) => Some(RtValue::F64(compute(unit, op, y, 0, 0))),
        _ => None,
    }
}

fn phi_value(incoming: &EdgeList, prev: Option<Block>, vals: &Vec<Option<RtValue>>) -> (x: Option<
    RtValue,
>)
    ensures
        forall|args: Seq<RtValue>, fs: FloatSem| #[trigger]
            eval_inst((Inst::Phi { incoming: *incoming })@, vals@, prev, args, fs) == x,
{
    let ghost m = (Inst::Phi { incoming: *incoming })@;
    let ghost froms = crate::ir::edge_blocks(incoming@);
    let from: Block = match prev {
        Some(p) => p,
        None => return None,
    };
    let mut i: usize = 0;
    while i < incoming.len()
        invariant
            i <= incoming@.len(),
            froms == crate::ir::edge_blocks(incoming@),
            m == (Inst::Phi { incoming: *incoming })@,
            prev == Some(from),
            edge_from(froms, from, 0) == edge_from(froms, from, i as int),
        decreases incoming@.len() - i,
    {
        let (b, v): (Block, Value) = incoming.get(i);
        if b == from {
            assert(m.args[i as int] == v);
            return get(vals, v);
        }
        i += 1;
    }
    None
}

/// Evaluates one instruction; `None` where it has no value.
#[verifier::rlimit(60)]
pub fn value_of<F: Fn(FloatOp, u64, u64, u64) -> u64>(
    inst: &Inst,
    vals: &Vec<Option<RtValue>>,
    prev: Option<Block>,
    args: &[RtValue],
    unit: &F,
) -> (x: Option<RtValue>)
    requires
        is_float_unit(*unit),
    ensures
        x == eval_inst(inst@, vals@, prev, args@, sem_of(*unit)),
{
    let ghost m = inst@;
    let ghost a = args@;
    match inst {
        Inst::ConstF64(bits) => Some(RtValue::F64(*bits)),
        Inst::ConstI64(n) => Some(RtValue::I64(*n)),
        Inst::ConstBool(b) => Some(RtValue::Bool(*b)),
        Inst::Param { index, .. } => if (*index as usize) < args.len() {
            Some(args[*index as usize])
        } else {
            None
        },
        Inst::Add(x, y) => pair_value(BinaryInst::Add, *x, *y, vals, unit, Ghost(m), Ghost(prev), Ghost(a)),
        Inst::Sub(x, y) => pair_value(BinaryInst::Sub, *x, *y, vals, unit, Ghost(m), Ghost(prev), Ghost(a)),
        Inst::Mul(x, y) => pair_value(BinaryInst::Mul, *x, *y, vals, unit, Ghost(m), Ghost(prev), Ghost(a)),
        Inst::Div(x, y) => pair_value(BinaryInst::Div, *x, *y, vals, unit, Ghost(m), Ghost(prev), Ghost(a)),
        Inst::Rem(x, y) => pair_value(BinaryInst::Rem, *x, *y, vals, unit, Ghost(m), Ghost(prev), Ghost(a)),
        Inst::And(x, y) => pair_value(BinaryInst::And, *x, *y, vals, unit, Ghost(m), Ghost(prev), Ghost(a)),
        Inst::Or(x, y) => pair_value(BinaryInst::Or, *x, *y, vals, unit, Ghost(m), Ghost(prev), Ghost(a)),
        Inst::Xor(x, y) => pair_value(BinaryInst::Xor, *x, *y, vals, unit, Ghost(m), Ghost(prev), Ghost(a)),
        Inst::Shl(x, y) => pair_value(BinaryInst::Shl, *x, *y, vals, unit, Ghost(m), Ghost(prev), Ghost(a)),
        Inst::Shr(x, y) => pair_value(BinaryInst::Shr, *x, *y, vals, unit, Ghost(m), Ghost(prev), Ghost(a)),
        Inst::Sar(x, y) => pair_value(BinaryInst::Sar, *x, *y, vals, unit, Ghost(m), Ghost(prev), Ghost(a)),
        Inst::Min(x, y) => pair_value(BinaryInst::Min, *x, *y, vals, unit, Ghost(m), Ghost(prev), Ghost(a)),
        Inst::Max(x, y) => pair_value(BinaryInst::Max, *x, *y, vals, unit, Ghost(m), Ghost(prev), Ghost(a)),
        Inst::Neg(x) => {
            assert(m.args[0] == x);
            match get(vals, *x) {
                Some(RtValue::F64(y)) => Some(RtValue::F64(y ^ 0x8000_0000_0000_0000)),
                Some(RtValue::I64(y)) => Some(RtValue::I64(neg64(y))),
                _ => None,
            }
        },
        Inst::Not(x) => {
            assert(m.args[0] == x);
            match get(vals, *x) {
                Some(RtValue::I64(y)) => Some(RtValue::I64(!y)),
                Some(RtValue::Bool(y)) => Some(RtValue::Bool(!y)),
                _ => None,
            }
        },
        Inst::Abs(x) => {
            assert(m.args[0] == x);
            match get(vals, *x) {
                Some(RtValue::F64(y)) => Some(RtValue::F64(y & 0x7fff_ffff_ffff_ffff)),
                _ => None,
            }
        },
        Inst::Sqrt(x) => {
            assert(m.args[0] == x);
            rounding_value(FloatOp::Sqrt, *x, vals, unit)
        },
        Inst::Floor(x) => {
            assert(m.args[0] == x);
            rounding_value(FloatOp::Floor, *x, vals, unit)
        },
        Inst::Ceil(x) => {
            assert(m.args[0] == x);
            rounding_value(FloatOp::Ceil, *x, vals, unit)
        },
        Inst::Round(x) => {
            assert(m.args[0] == x);
            rounding_value(FloatOp::Round, *x, vals, unit)
        },
        Inst::Trunc(x) => {
            assert(m.args[0] == x);
            rounding_value(FloatOp::Trunc, *x, vals, unit)
        },
        Inst::Fma { a: x, b: y, c: z } => {
            assert(m.args[0] == x && m.args[1] == y && m.args[2] == z);
            match (get(vals, *x), get(vals, *y), get(vals, *z)) {
                (Some(RtValue::F64(p)), Some(RtValue::F64(q)), Some(RtValue::F64(r))) => Some(
                    RtValue::F64(compute(unit, FloatOp::Fma, p, q, r)),
                ),
                _ => None,
            }
        },
        Inst::Cmp { op, lhs, rhs } => {
            assert(m.args[0] == lhs && m.args[1] == rhs);
            match (get(vals, *lhs), get(vals, *rhs)) {
                (Some(l), Some(r)) => match eval_compare(*op, l, r) {
                    Some(b) => Some(RtValue::Bool(b)),
                    None => None,
                },
                _ => None,
            }
        },
        Inst::Call { func, args: call_args } => {
            if call_args.len() == 0 {
                return None;
            }
            let first: Value = call_args.get(0);
            assert(m.args[0] == first);
            match func {
                LibFunc::Pow => {
                    if call_args.len() < 2 {
                        return None;
                    }
                    let second: Value = call_args.get(1);
                    assert(m.args[1] == second);
                    match (get(vals, first), get(vals, second)) {
                        (Some(RtValue::F64(x)), Some(RtValue::F64(y))) => Some(
                            RtValue::F64(compute(unit, FloatOp::Pow, x, y, 0)),
                        ),
                        _ => None,
                    }
                },
                _ => rounding_value(float_op_of(*func), first, vals, unit),
            }
        },
        Inst::IToF(x) => {
            assert(m.args[0] == x);
            match get(vals, *x) {
                Some(RtValue::I64(y)) => Some(
                    RtValue::F64(compute(unit, FloatOp::FromInt, y as u64, 0, 0)),
                ),
                _ => None,
            }
        },
        Inst::FToI(x) => {
            assert(m.args[0] == x);
            match get(vals, *x) {
                Some(RtValue::F64(y)) => Some(
                    RtValue::I64(compute(unit, FloatOp::ToInt, y, 0, 0) as i64),
                ),
                _ => None,
            }
        },
        Inst::Phi { incoming } => {
            let x: Option<RtValue> = phi_value(incoming, prev, vals);
            assert(inst@ == (Inst::Phi { incoming: *incoming })@);
            x
        },
    }
}

/// Runs the function on `args`.
pub fn interpret<F: Fn(FloatOp, u64, u64, u64) -> u64>(
    f: &Function,
    args: &[RtValue],
    unit: &F,
) -> (r: RtValue)
    requires
        is_float_unit(*unit),
        exists|x: RtValue| yields(*f, args@, sem_of(*unit), x),
    ensures
        yields(*f, args@, sem_of(*unit), r),
{
    let ghost fs = sem_of(*unit);
    let ghost want = choose|x: RtValue| yields(*f, args@, fs, x);
    let ghost mut fuel: nat = choose|n: nat| #[trigger]
        run(*f, f.entry.0 as int, None, empty_frame(f.insts@.len()), args@, fs, n) == Some(want);
    let mut vals: Vec<Option<RtValue>> = Vec::new();
    let mut i: usize = 0;
    while i < f.insts.len()
        invariant
            i <= f.insts@.len(),
            vals@ == empty_frame(i as nat),
        decreases f.insts@.len() - i,
    {
        vals.push(None);
        i += 1;
    }
    let mut block: Block = f.entry;
    let mut prev: Option<Block> = None;
    loop
        invariant
            is_float_unit(*unit),
            fs == sem_of(*unit),
            run(*f, block.0 as int, prev, vals@, args@, fs, fuel) == Some(want),
            yields(*f, args@, fs, want),
            vals@.len() == f.insts@.len(),
        decreases fuel,
    {
        let b: usize = block.0 as usize;
        let ghost start = vals@;
        let ghost count = f.listed(b as int).len() as int;
        proof {
            lemma_prefix_runs(*f, b as int, count, start, prev, args@, fs);
        }
        let mut k: usize = 0;
        while k < f.blocks[b].insts.len()
            invariant
                is_float_unit(*unit),
                fs == sem_of(*unit),
                b < f.blocks@.len(),
                k <= f.listed(b as int).len(),
                count == f.listed(b as int).len(),
                vals@.len() == f.insts@.len(),
                run_insts(*f, b as int, k as int, start, prev, args@, fs) == Some(vals@),
                forall|j: int|
                    0 <= j <= count ==> #[trigger] run_insts(
                        *f,
                        b as int,
                        j,
                        start,
                        prev,
                        args@,
                        fs,
                    ) is Some,
            decreases f.listed(b as int).len() - k,
        {
            let v: Value = f.blocks[b].insts[k];
            assert(run_insts(*f, b as int, k + 1, start, prev, args@, fs) is Some);
            let x: Option<RtValue> = value_of(&f.insts[v.0 as usize], &vals, prev, args, unit);
            vals.set(v.0 as usize, x);
            k += 1;
        }
        match f.blocks[b].term {
            Some(Terminator::Return(v)) => match get(&vals, v) {
                Some(x) => return x,
                None => return RtValue::Bool(false),
            },
            Some(Terminator::Jump(t)) => {
                prev = Some(block);
                block = t;
            },
            Some(Terminator::Branch { cond, then_, else_ }) => {
                prev = Some(block);
                match get(&vals, cond) {
                    Some(RtValue::Bool(c)) => {
                        block = if c {
                            then_
                        } else {
                            else_
                        };
                    },
                    _ => return RtValue::Bool(false),
                }
            },
            None => return RtValue::Bool(false),
        }
        proof {
            fuel = (fuel - 1) as nat;
        }
    }
}

/// How a run ends.
#[derive(Debug, Clone, Copy, PartialEq, Eq)]
pub enum Outcome {
    /// It returned.
    Returned(RtValue),
    /// A division divided an integer by zero.
    DividedByZero,
    /// A remainder divided an integer by zero.
    RemainderByZero,
    /// It had not returned within the blocks allowed, or could not go on.
    Unfinished,
}

/// Called with `args`, the function stops within `limit` blocks at an `op` that
/// divides an integer by zero.
pub open spec fn traps_within(
    f: Function,
    args: Seq<RtValue>,
    fs: FloatSem,
    op: Op,
    limit: nat,
) -> bool {
    run_traps(f, f.entry.0 as int, None, empty_frame(f.insts@.len()), args, fs, op, limit)
}

/// Whether the instruction divides an integer by zero.
fn zero_divisor(inst: &Inst, vals: &Vec<Option<RtValue>>) -> (r: bool)
    ensures
        r == divides_by_zero(inst@, vals@),
{
    let ghost m = inst@;
    match inst {
        Inst::Div(x, y) | Inst::Rem(x, y) => {
            assert(m.args[0] == x && m.args[1] == y);
            assert(m.args.len() == 2);
            match get(vals, *x) {
                Some(RtValue::I64(_)) => match get(vals, *y) {
                    Some(RtValue::I64(n)) => n == 0,
                    _ => false,
                },
                _ => false,
            }
        },
        _ => false,
    }
}

/// In a block that has run up to place `k`, nothing before it divided by zero;
/// and behind one that gives no value nothing does.
proof fn lemma_traps_here(
    f: Function,
    b: int,
    k: int,
    prev: Option<Block>,
    vals: Frame,
    args: Seq<RtValue>,
    fs: FloatSem,
    op: Op,
)
    requires
        0 <= k <= f.listed(b).len(),
        run_insts(f, b, k, vals, prev, args, fs) is Some,
        k < f.listed(b).len() ==> run_insts(f, b, k + 1, vals, prev, args, fs) is None,
    ensures
        traps_in(f, b, prev, vals, args, fs, op) == traps_at(f, b, k, prev, vals, args, fs, op),
{
    if traps_in(f, b, prev, vals, args, fs, op) {
        let j = choose|j: int| #[trigger] traps_at(f, b, j, prev, vals, args, fs, op);
        if j < k {
            lemma_stopped(f, b, j, k, prev, vals, args, fs, op);
        } else if j > k {
            lemma_prefix_runs(f, b, j, vals, prev, args, fs);
        }
    }
}

/// Runs the function on `args`, through at most `limit` blocks, and says how
/// that ended.
#[verifier::rlimit(40)]
pub fn outcome_within<F: Fn(FloatOp, u64, u64, u64) -> u64>(
    f: &Function,
    args: &[RtValue],
    unit: &F,
    limit: usize,
) -> (r: Outcome)
    requires
        is_float_unit(*unit),
    ensures
        (match r {
            Outcome::Returned(x) => Some(x),
            _ => None,
        }) == run(
            *f,
            f.entry.0 as int,
            None,
            empty_frame(f.insts@.len()),
            args@,
            sem_of(*unit),
            limit as nat,
        ),
        r matches Outcome::Returned(x) ==> yields(*f, args@, sem_of(*unit), x),
        r is DividedByZero <==> traps_within(*f, args@, sem_of(*unit), Op::Div, limit as nat),
        r is RemainderByZero <==> traps_within(*f, args@, sem_of(*unit), Op::Rem, limit as nat),
{
    let ghost fs = sem_of(*unit);
    let mut vals: Vec<Option<RtValue>> = Vec::new();
    let mut i: usize = 0;
    while i < f.insts.len()
        invariant
            i <= f.insts@.len(),
            vals@ == empty_frame(i as nat),
        decreases f.insts@.len() - i,
    {
        vals.push(None);
        i += 1;
    }
    let ghost want = run(*f, f.entry.0 as int, None, vals@, args@, fs, limit as nat);
    let mut block: Block = f.entry;
    let mut prev: Option<Block> = None;
    let mut fuel: usize = limit;
    while fuel > 0 && (block.0 as usize) < f.blocks.len()
        invariant
            is_float_unit(*unit),
            fs == sem_of(*unit),
            run(*f, block.0 as int, prev, vals@, args@, fs, fuel as nat) == want,
            want == run(
                *f,
                f.entry.0 as int,
                None,
                empty_frame(f.insts@.len()),
                args@,
                fs,
                limit as nat,
            ),
            forall|op: Op| #[trigger]
                traps_within(*f, args@, fs, op, limit as nat) == run_traps(
                    *f,
                    block.0 as int,
                    prev,
                    vals@,
                    args@,
                    fs,
                    op,
                    fuel as nat,
                ),
            vals@.len() == f.insts@.len(),
        decreases fuel,
    {
        let b: usize = block.0 as usize;
        let ghost start = vals@;
        let ghost count = f.listed(b as int).len() as int;
        let mut k: usize = 0;
        while k < f.blocks[b].insts.len()
            invariant
                is_float_unit(*unit),
                fs == sem_of(*unit),
                b == block.0,
                b < f.blocks@.len(),
                fuel > 0,
                k <= f.listed(b as int).len(),
                count == f.listed(b as int).len(),
                vals@.len() == f.insts@.len(),
                run(*f, block.0 as int, prev, start, args@, fs, fuel as nat) == want,
                want == run(
                    *f,
                    f.entry.0 as int,
                    None,
                    empty_frame(f.insts@.len()),
                    args@,
                    fs,
                    limit as nat,
                ),
                forall|op: Op| #[trigger]
                    traps_within(*f, args@, fs, op, limit as nat) == run_traps(
                        *f,
                        block.0 as int,
                        prev,
                        start,
                        args@,
                        fs,
                        op,
                        fuel as nat,
                    ),
                run_insts(*f, b as int, k as int, start, prev, args@, fs) == Some(vals@),
            decreases f.listed(b as int).len() - k,
        {
            let v: Value = f.blocks[b].insts[k];
            let x: Option<RtValue> = if (v.0 as usize) < f.insts.len() {
                value_of(&f.insts[v.0 as usize], &vals, prev, args, unit)
            } else {
                None
            };
            if x.is_none() {
                proof {
                    assert(run_insts(*f, b as int, k + 1, start, prev, args@, fs) is None);
                    if run_insts(*f, b as int, count, start, prev, args@, fs) is Some {
                        lemma_prefix_runs(*f, b as int, count, start, prev, args@, fs);
                    }
                    lemma_traps_here(*f, b as int, k as int, prev, start, args@, fs, Op::Div);
                    lemma_traps_here(*f, b as int, k as int, prev, start, args@, fs, Op::Rem);
                }
                if (v.0 as usize) < f.insts.len() && zero_divisor(&f.insts[v.0 as usize], &vals) {
                    return match f.insts[v.0 as usize] {
                        Inst::Div(_, _) => Outcome::DividedByZero,
                        _ => Outcome::RemainderByZero,
                    };
                }
                return Outcome::Unfinished;
            }
            vals.set(v.0 as usize, x);
            k += 1;
        }
        proof {
            assert forall|op: Op| !#[trigger] traps_in(
                *f,
                b as int,
                prev,
                start,
                args@,
                fs,
                op,
            ) by {
                lemma_traps_here(*f, b as int, count, prev, start, args@, fs, op);
            }
        }
        let next: Block = match f.blocks[b].term {
            Some(Terminator::Return(v)) => {
                return match get(&vals, v) {
                    Some(x) => Outcome::Returned(x),
                    None => Outcome::Unfinished,
                };
            },
            Some(Terminator::Jump(t)) => t,
            Some(Terminator::Branch { cond, then_, else_ }) => match get(&vals, cond) {
                Some(RtValue::Bool(c)) => if c {
                    then_
                } else {
                    else_
                },
                _ => {
                    return Outcome::Unfinished;
                },
            },
            None => {
                return Outcome::Unfinished;
            },
        };
        prev = Some(block);
        block = next;
        fuel -= 1;
    }
    Outcome::Unfinished
}

/// Runs the function on `args`, through at most `limit` blocks. Nothing comes
/// back where it has not returned by then, or cannot go on: where it divides
/// by zero, for one.
pub fn interpret_within<F: Fn(FloatOp, u64, u64, u64) -> u64>(
    f: &Function,
    args: &[RtValue],
    unit: &F,
    limit: usize,
) -> (r: Option<RtValue>)
    requires
        is_float_unit(*unit),
    ensures
        r == run(
            *f,
            f.entry.0 as int,
            None,
            empty_frame(f.insts@.len()),
            args@,
            sem_of(*unit),
            limit as nat,
        ),
        r is Some ==> yields(*f, args@, sem_of(*unit), r->Some_0),
{
    match outcome_within(f, args, unit, limit) {
        Outcome::Returned(x) => Some(x),
        _ => None,
    }
}

/// Where a block runs to some place, it has run to every earlier one.
pub proof fn lemma_prefix_runs(
    f: Function,
    b: int,
    k: int,
    vals: Frame,
    prev: Option<Block>,
    args: Seq<RtValue>,
    fs: FloatSem,
)
    requires
        run_insts(f, b, k, vals, prev, args, fs) is Some,
    ensures
        forall|j: int|
            0 <= j <= k ==> #[trigger] run_insts(f, b, j, vals, prev, args, fs) is Some,
    decreases k,
{
    if k > 0 {
        lemma_prefix_runs(f, b, k - 1, vals, prev, args, fs);
    }
}

} // verus!
