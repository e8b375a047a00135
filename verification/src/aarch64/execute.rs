//! What the machine does, and that emitted code computes what its function
//! computes.
use crate::aarch64::encode::{Condition, Gpr};
use crate::aarch64::machine::{constant, lemma_constant, wide_value};
use crate::aarch64::machine::{FloatPairOp, FloatUnaryOp, IntOp, A64};
use crate::arith::{
    double_less, doubles_equal, is_nan, lemma_wrap_congruent, lemma_wrap_offset, magnitude,
    negated_bits, quotient, remainder, sar64, shl64, shr64, wrap,
};
use crate::float::{FloatOp, FloatSem};
use vstd::prelude::*;

verus! {

/// What was compared last.
pub enum Flags {
    Unset,
    Ints(i64, i64),
    Doubles(u64, u64),
}

/// The registers, the stack and the flags.
#[verifier::ext_equal]
pub struct Machine {
    pub x: Seq<i64>,
    pub d: Seq<u64>,
    pub sp: int,
    pub memory: Map<int, u64>,
    pub flags: Flags,
}

pub open spec fn whole(m: Machine) -> bool {
    m.x.len() == 32 && m.d.len() == 32
}

/// An X register; number 31 is zero.
pub open spec fn get_x(m: Machine, r: Gpr) -> i64 {
    if r.number() == 31 {
        0
    } else {
        m.x[r.number() as int]
    }
}

pub open spec fn set_x(m: Machine, r: Gpr, value: i64) -> Machine {
    if r.number() == 31 {
        m
    } else {
        Machine { x: m.x.update(r.number() as int, value), ..m }
    }
}

pub open spec fn get_d(m: Machine, r: Gpr) -> u64 {
    m.d[r.number() as int]
}

pub open spec fn set_d(m: Machine, r: Gpr, bits: u64) -> Machine {
    Machine { d: m.d.update(r.number() as int, bits), ..m }
}

/// Integer instructions. Division rounds toward zero, and gives zero where
/// the divisor is zero.
pub open spec fn int_value(op: IntOp, x: i64, y: i64) -> i64 {
    match op {
        IntOp::Add => wrap(x + y),
        IntOp::Sub => wrap(x - y),
        IntOp::Mul => wrap(x * y),
        IntOp::Div => if y == 0 {
            0
        } else {
            wrap(quotient(x as int, y as int))
        },
        IntOp::And => x & y,
        IntOp::Or => x | y,
        IntOp::Xor => x ^ y,
        IntOp::Shl => shl64(x, y),
        IntOp::Shr => shr64(x, y),
        IntOp::Sar => sar64(x, y),
    }
}

/// The operation of an instruction on two doubles.
pub open spec fn pair_op(pair: FloatPairOp) -> FloatOp {
    match pair {
        FloatPairOp::Add => FloatOp::Add,
        FloatPairOp::Sub => FloatOp::Sub,
        FloatPairOp::Mul => FloatOp::Mul,
        FloatPairOp::Div => FloatOp::Div,
        FloatPairOp::Min => FloatOp::Min,
        FloatPairOp::Max => FloatOp::Max,
    }
}

pub open spec fn unary_value(unary: FloatUnaryOp, bits: u64, fs: FloatSem) -> u64 {
    match unary {
        FloatUnaryOp::Move => bits,
        FloatUnaryOp::Neg => negated_bits(bits),
        FloatUnaryOp::Abs => magnitude(bits),
        FloatUnaryOp::Sqrt => fs(FloatOp::Sqrt, bits, 0, 0),
    }
}

/// Whether a condition holds. After doubles were compared, one of which is no
/// number, `Ne`, `Lt` and `Le` hold.
pub open spec fn condition_holds(c: Condition, flags: Flags) -> bool {
    match flags {
        Flags::Unset => c is Al,
        Flags::Ints(a, b) => match c {
            Condition::Eq => a == b,
            Condition::Ne => a != b,
            Condition::Lt => a < b,
            Condition::Ge => a >= b,
            Condition::Gt => a > b,
            Condition::Le => a <= b,
            Condition::Mi => wrap(a - b) < 0,
            Condition::Ls => a as u64 <= b as u64,
            Condition::Al => true,
        },
        Flags::Doubles(a, b) => {
            let unordered = is_nan(a) || is_nan(b);
            match c {
                Condition::Eq => doubles_equal(a, b),
                Condition::Ne => !doubles_equal(a, b),
                Condition::Lt => unordered || double_less(a, b),
                Condition::Ge => !unordered && !double_less(a, b),
                Condition::Gt => double_less(b, a),
                Condition::Le => !double_less(b, a),
                Condition::Mi => double_less(a, b),
                Condition::Ls => !unordered && !double_less(b, a),
                Condition::Al => true,
            }
        },
    }
}

/// One instruction that is neither a jump nor a call nor a return.
pub open spec fn step(m: Machine, i: A64, fs: FloatSem) -> Machine {
    match i {
        A64::Int { op, dst, lhs, rhs } => set_x(m, dst, int_value(op, get_x(m, lhs), get_x(m, rhs))),
        A64::Float { pair, dst, lhs, rhs } => set_d(
            m,
            dst,
            fs(pair_op(pair), get_d(m, lhs), get_d(m, rhs), 0),
        ),
        A64::Unary { unary, dst, src } => set_d(
            m,
            dst,
            unary_value(unary, get_d(m, src), fs),
        ),
        A64::MulSub { dst, lhs, rhs, minuend } => set_x(
            m,
            dst,
            wrap(get_x(m, minuend) - get_x(m, lhs) * get_x(m, rhs)),
        ),
        A64::FusedMulAdd { dst, lhs, rhs, addend } => set_d(
            m,
            dst,
            fs(FloatOp::Fma, get_d(m, lhs), get_d(m, rhs), get_d(m, addend)),
        ),
        A64::FromInt { dst, src } => set_d(
            m,
            dst,
            fs(FloatOp::FromInt, get_x(m, src) as u64, 0, 0),
        ),
        A64::ToInt { dst, src } => set_x(
            m,
            dst,
            fs(FloatOp::ToInt, get_d(m, src), 0, 0) as i64,
        ),
        A64::Compare { lhs, rhs } => Machine {
            flags: Flags::Ints(get_x(m, lhs), get_x(m, rhs)),
            ..m
        },
        A64::CompareFloat { lhs, rhs } => Machine {
            flags: Flags::Doubles(get_d(m, lhs), get_d(m, rhs)),
            ..m
        },
        A64::Load { dst, slot } => set_x(m, dst, m.memory[m.sp + slot] as i64),
        A64::Store { src, slot } => Machine {
            memory: m.memory.insert(m.sp + slot, get_x(m, src) as u64),
            ..m
        },
        A64::LoadFloat { dst, slot } => set_d(m, dst, m.memory[m.sp + slot]),
        A64::StoreFloat { src, slot } => Machine {
            memory: m.memory.insert(m.sp + slot, get_d(m, src)),
            ..m
        },
        A64::MoveWide { dst, imm, shift } => set_x(m, dst, ((imm as u64) << (shift as u64)) as i64),
        A64::MoveKeep { dst, imm, shift } => set_x(
            m,
            dst,
            ((get_x(m, dst) as u64 & !(0xffffu64 << (shift as u64))) | ((imm as u64) << (
            shift as u64))) as i64,
        ),
        A64::OpenFrame { bytes } => Machine { sp: m.sp - bytes, ..m },
        A64::CloseFrame { bytes } => Machine { sp: m.sp + bytes, ..m },
        A64::Literal { dst, bits } => set_d(m, dst, bits),
        _ => m,
    }
}

/// One instruction after another.
pub open spec fn after(m: Machine, code: Seq<A64>, fs: FloatSem) -> Machine
    decreases code.len(),
{
    if code.len() == 0 {
        m
    } else {
        step(after(m, code.drop_last(), fs), code.last(), fs)
    }
}

pub proof fn lemma_after_add(m: Machine, a: Seq<A64>, b: Seq<A64>, fs: FloatSem)
    ensures
        after(m, a + b, fs) == after(after(m, a, fs), b, fs),
    decreases b.len(),
{
    if b.len() == 0 {
        assert(a + b =~= a);
    } else {
        assert((a + b).drop_last() =~= a + b.drop_last());
        lemma_after_add(m, a, b.drop_last(), fs);
    }
}

pub proof fn lemma_after_one(m: Machine, i: A64, fs: FloatSem)
    ensures
        after(m, seq![i], fs) == step(m, i, fs),
{
    assert(seq![i].drop_last() =~= Seq::<A64>::empty());
    assert(after(m, seq![i].drop_last(), fs) == m);
}

/// A number keeps its value on its way through the bits.
pub proof fn lemma_cast_back(x: i64)
    ensures
        (x as u64) as i64 == x,
{
    assert((x as u64) as i64 == x) by (bit_vector);
}

pub proof fn lemma_or_zero(x: i64)
    ensures
        0i64 | x == x,
{
    assert(0i64 | x == x) by (bit_vector);
}

pub proof fn lemma_flip(x: i64)
    ensures
        (u64::MAX as i64) ^ x == !x,
{
    assert((u64::MAX as i64) ^ x == !x) by (bit_vector);
}

pub(crate) proof fn lemma_cast(u: u64)
    ensures
        (u as i64) as u64 == u,
{
    assert((u as i64) as u64 == u) by (bit_vector);
}

/// The moves of a constant go to one register.
spec fn moves_to(code: Seq<A64>, dst: Gpr) -> bool {
    forall|i: int|
        #![trigger code[i]]
        0 <= i < code.len() ==> match code[i] {
            A64::MoveWide { dst: r, .. } => r == dst,
            A64::MoveKeep { dst: r, .. } => r == dst,
            _ => false,
        }
}

proof fn lemma_moves(m: Machine, code: Seq<A64>, dst: Gpr, fs: FloatSem)
    requires
        whole(m),
        dst.number() < 31,
        code.len() > 0,
        moves_to(code, dst),
    ensures
        after(m, code, fs) == set_x(m, dst, wide_value(code, get_x(m, dst) as u64) as i64),
    decreases code.len(),
{
    let front = code.drop_last();
    let start = get_x(m, dst) as u64;
    assert(moves_to(front, dst)) by {
        assert forall|i: int| #![trigger front[i]] 0 <= i < front.len() implies match front[i] {
            A64::MoveWide { dst: r, .. } => r == dst,
            A64::MoveKeep { dst: r, .. } => r == dst,
            _ => false,
        } by {
            assert(front[i] == code[i]);
        }
    }
    assert(code.last() == code[code.len() - 1]);
    if front.len() > 0 {
        lemma_moves(m, front, dst, fs);
        lemma_cast(wide_value(front, start));
    }
    let w = after(m, front, fs);
    assert(after(m, code, fs) =~= set_x(m, dst, wide_value(code, start) as i64));
}

/// A constant ends up in its register, and nothing else changes.
pub proof fn lemma_constant_runs(m: Machine, dst: Gpr, value: u64, fs: FloatSem)
    requires
        whole(m),
        dst.number() < 31,
    ensures
        after(m, constant(dst, value), fs) == set_x(m, dst, value as i64),
{
    let code = constant(dst, value);
    assert(moves_to(code, dst));
    lemma_moves(m, code, dst, fs);
    lemma_constant(dst, value, get_x(m, dst) as u64);
}

/// Subtracting the product of quotient and divisor leaves the remainder.
pub(crate) proof fn lemma_rest(x: i64, y: i64)
    requires
        y != 0,
    ensures
        wrap(x - wrap(quotient(x as int, y as int)) * y) == wrap(remainder(x as int, y as int)),
{
    let full = quotient(x as int, y as int);
    let q = wrap(full);
    let k = lemma_wrap_offset(full);
    assert(x - q * y == (x - y * full) + (k * y) * 0x1_0000_0000_0000_0000) by (nonlinear_arith)
        requires
            full == q + k * 0x1_0000_0000_0000_0000,
    ;
    lemma_wrap_congruent(x - q * y, x - y * full, k * y);
}

/// The remainder, where its register is not that of an operand.
pub proof fn lemma_rem_runs(m: Machine, dst: Gpr, lhs: Gpr, rhs: Gpr, fs: FloatSem)
    requires
        whole(m),
        dst.number() < 31,
        lhs.number() < 31,
        rhs.number() < 31,
        dst.number() != lhs.number(),
        dst.number() != rhs.number(),
        get_x(m, rhs) != 0,
    ensures
        after(
            m,
            seq![
                A64::Int { op: IntOp::Div, dst, lhs, rhs },
                A64::MulSub { dst, lhs: dst, rhs, minuend: lhs },
            ],
            fs,
        ) == set_x(m, dst, wrap(remainder(get_x(m, lhs) as int, get_x(m, rhs) as int))),
{
    let a = A64::Int { op: IntOp::Div, dst, lhs, rhs };
    let b = A64::MulSub { dst, lhs: dst, rhs, minuend: lhs };
    assert(seq![a, b] =~= seq![a] + seq![b]);
    lemma_after_add(m, seq![a], seq![b], fs);
    lemma_after_one(m, a, fs);
    let mid = step(m, a, fs);
    lemma_after_one(mid, b, fs);
    lemma_rest(get_x(m, lhs), get_x(m, rhs));
    assert(after(m, seq![a, b], fs) =~= set_x(
        m,
        dst,
        wrap(remainder(get_x(m, lhs) as int, get_x(m, rhs) as int)),
    ));
}

/// The complement, where its register is not that of the operand.
pub proof fn lemma_not_runs(m: Machine, dst: Gpr, src: Gpr, fs: FloatSem)
    requires
        whole(m),
        dst.number() < 31,
        src.number() < 31,
        dst.number() != src.number(),
    ensures
        after(
            m,
            constant(dst, u64::MAX).push(A64::Int { op: IntOp::Xor, dst, lhs: dst, rhs: src }),
            fs,
        ) == set_x(m, dst, !get_x(m, src)),
{
    let a = constant(dst, u64::MAX);
    let b = A64::Int { op: IntOp::Xor, dst, lhs: dst, rhs: src };
    assert(a.push(b).drop_last() =~= a);
    lemma_constant_runs(m, dst, u64::MAX, fs);
    let x = get_x(m, src);
    lemma_flip(x);
    assert(after(m, a.push(b), fs) =~= set_x(m, dst, !x));
}

/// Runs code from place `pc` on until it returns, for at most `fuel`
/// instructions. Blocks start where `starts` says. Nothing is said of calls.
pub open spec fn execute(
    code: Seq<A64>,
    starts: Seq<usize>,
    pc: int,
    m: Machine,
    fs: FloatSem,
    fuel: nat,
) -> Option<Machine>
    decreases fuel,
{
    if fuel == 0 || pc < 0 || pc >= code.len() {
        None
    } else {
        let rest = (fuel - 1) as nat;
        match code[pc] {
            A64::Return => Some(m),
            A64::CallRegister { .. } => None,
            A64::Jump { block } => if block < starts.len() {
                execute(code, starts, starts[block as int] as int, m, fs, rest)
            } else {
                None
            },
            A64::JumpIf { condition, block } => if !condition_holds(condition, m.flags) {
                execute(code, starts, pc + 1, m, fs, rest)
            } else if block < starts.len() {
                execute(code, starts, starts[block as int] as int, m, fs, rest)
            } else {
                None
            },
            i => execute(code, starts, pc + 1, step(m, i, fs), fs, rest),
        }
    }
}

/// The instruction leads to the next one.
pub open spec fn goes_on(i: A64) -> bool {
    !(i is Return) && !(i is CallRegister) && !(i is Jump) && !(i is JumpIf)
}

pub open spec fn all_go_on(code: Seq<A64>) -> bool {
    forall|i: int| #![trigger code[i]] 0 <= i < code.len() ==> goes_on(code[i])
}

/// The piece stands at place `pc` of the code.
pub open spec fn stands_at(code: Seq<A64>, pc: int, piece: Seq<A64>) -> bool {
    &&& 0 <= pc
    &&& pc + piece.len() <= code.len()
    &&& forall|i: int| #![trigger piece[i]] 0 <= i < piece.len() ==> code[pc + i] == piece[i]
}

/// A piece without jumps runs from its first instruction to its last.
pub proof fn lemma_straight(
    code: Seq<A64>,
    starts: Seq<usize>,
    pc: int,
    piece: Seq<A64>,
    m: Machine,
    fs: FloatSem,
    fuel: nat,
)
    requires
        stands_at(code, pc, piece),
        all_go_on(piece),
    ensures
        execute(code, starts, pc, m, fs, fuel + piece.len()) == execute(
            code,
            starts,
            pc + piece.len(),
            after(m, piece, fs),
            fs,
            fuel,
        ),
    decreases piece.len(),
{
    if piece.len() > 0 {
        let front = piece.drop_last();
        assert forall|i: int| #![trigger front[i]] 0 <= i < front.len() implies goes_on(front[i])
            && code[pc + i] == front[i] by {
            assert(front[i] == piece[i]);
        }
        lemma_straight(code, starts, pc, front, m, fs, fuel + 1);
        let last = piece[piece.len() - 1];
        assert(goes_on(last));
        assert(code[pc + (piece.len() - 1)] == last);
    }
}

pub proof fn lemma_stands_parts(code: Seq<A64>, pc: int, a: Seq<A64>, b: Seq<A64>)
    requires
        stands_at(code, pc, a + b),
    ensures
        stands_at(code, pc, a),
        stands_at(code, pc + a.len(), b),
{
    let c = a + b;
    assert forall|i: int| #![trigger a[i]] 0 <= i < a.len() implies code[pc + i] == a[i] by {
        assert(c[i] == a[i]);
    }
    assert forall|i: int| #![trigger b[i]] 0 <= i < b.len() implies code[pc + a.len() + i] == b[i] by {
        assert(c[a.len() + i] == b[i]);
        assert(code[pc + (a.len() + i)] == c[a.len() + i]);
    }
}

pub proof fn lemma_go_on_add(a: Seq<A64>, b: Seq<A64>)
    requires
        all_go_on(a),
        all_go_on(b),
    ensures
        all_go_on(a + b),
{
    let c = a + b;
    assert forall|i: int| #![trigger c[i]] 0 <= i < c.len() implies goes_on(c[i]) by {
        if i < a.len() {
            assert(c[i] == a[i]);
        } else {
            assert(c[i] == b[i - a.len()]);
        }
    }
}

} // verus!
