//! What the operations of the assembler do, and that a translated instruction
//! computes what it stands for.
use crate::arith::{is_nan, quotient, remainder, sar64, shl64, shr64, wrap};
use crate::interp::RtValue;
use crate::interp::{compare, int_binary};
use crate::ir::{LibFunc, Op, Ty, Value};
use crate::x64::machine::{defines, parts_of, put, shape};
use crate::x64::machine::{
    Abi, AluOp, AsmOp, ConditionCode, Label, MachineInst, PhysReg, Shape, ShiftOp, SseOp,
};
use crate::x64::translate::{
    at, divide, flag, float_condition, int_condition, mask_register, move_float, move_int, shift, translated,
};
use vstd::prelude::*;

verus! {

// ---------------------------------------------------------------------------
// The processor

/// What was compared last.
pub enum Flags {
    Other,
    Ints(i64, i64),
    Doubles(u64, u64),
    Tested(u64),
}

/// The registers, the flags, and the words of the memory by their addresses.
pub struct Cpu {
    pub regs: spec_fn(PhysReg) -> u64,
    pub flags: Flags,
    pub memory: spec_fn(int) -> u64,
}

/// The constants, what the floating-point operations give, and what is called:
/// what a call of the code at an address leaves behind, what each function of
/// the mathematical library gives, and what each external function takes and
/// gives.
pub struct Unit {
    pub pool: spec_fn(Label) -> u64,
    pub sse: spec_fn(SseOp, u64, u64) -> u64,
    pub round: spec_fn(u8, u64) -> u64,
    pub from_int: spec_fn(u64) -> u64,
    pub to_int: spec_fn(u64) -> u64,
    pub call: spec_fn(u64, Cpu) -> Cpu,
    pub libm: spec_fn(LibFunc, u64, u64) -> u64,
    pub external: spec_fn(i64, Seq<u64>) -> u64,
    pub signature: spec_fn(i64) -> (Seq<Ty>, Ty),
}

pub open spec fn get(c: Cpu, r: PhysReg) -> u64 {
    (c.regs)(r)
}

pub open spec fn with_register(c: Cpu, r: PhysReg, value: u64) -> Cpu {
    Cpu {
        regs: |other: PhysReg|
            if other == r {
                value
            } else {
                get(c, other)
            },
        flags: c.flags,
        memory: c.memory,
    }
}

pub open spec fn word(c: Cpu, address: int) -> u64 {
    (c.memory)(address)
}

pub open spec fn with_word(c: Cpu, address: int, value: u64) -> Cpu {
    Cpu {
        regs: |r: PhysReg| get(c, r),
        flags: c.flags,
        memory: |other: int|
            if other == address {
                value
            } else {
                word(c, other)
            },
    }
}

/// The word at some distance from where a register points.
pub open spec fn peek(c: Cpu, base: PhysReg, offset: i32) -> u64 {
    word(c, get(c, base) + offset)
}

pub open spec fn poke(c: Cpu, base: PhysReg, offset: i32, value: u64) -> Cpu {
    with_word(c, get(c, base) + offset, value)
}

pub open spec fn with_flags(c: Cpu, flags: Flags) -> Cpu {
    Cpu { regs: |r: PhysReg| get(c, r), flags, memory: c.memory }
}

pub open spec fn alu(op: AluOp, x: i64, y: i64) -> i64 {
    match op {
        AluOp::Add => wrap(x + y),
        AluOp::Sub | AluOp::Cmp => wrap(x - y),
        AluOp::And => x & y,
        AluOp::Or => x | y,
        AluOp::Xor => x ^ y,
    }
}

pub open spec fn shifted(op: ShiftOp, x: i64, count: i64) -> i64 {
    match op {
        ShiftOp::Shl => shl64(x, count),
        ShiftOp::Shr => shr64(x, count),
        ShiftOp::Sar => sar64(x, count),
    }
}

/// All bits are the sign.
pub open spec fn sign(bits: u64) -> u64 {
    if (bits as i64) < 0 {
        0xffff_ffff_ffff_ffff
    } else {
        0
    }
}

/// Whether a condition holds. Doubles set the flags of unsigned numbers; where
/// one is no number, they compare as equal and as below.
pub open spec fn condition_holds(cond: ConditionCode, flags: Flags) -> bool {
    match flags {
        Flags::Other => false,
        Flags::Ints(x, y) => match cond {
            ConditionCode::Equal => x == y,
            ConditionCode::NotEqual => x != y,
            ConditionCode::Less => x < y,
            ConditionCode::LessOrEqual => x <= y,
            ConditionCode::Greater => x > y,
            ConditionCode::GreaterOrEqual => x >= y,
            ConditionCode::Below => (x as u64) < (y as u64),
            ConditionCode::BelowOrEqual => x as u64 <= y as u64,
            ConditionCode::Above => x as u64 > y as u64,
            ConditionCode::AboveOrEqual => x as u64 >= y as u64,
        },
        Flags::Doubles(x, y) => {
            let unordered = is_nan(x) || is_nan(y);
            let less = compare(crate::ir::CmpOp::Lt, RtValue::F64(x), RtValue::F64(y)).unwrap();
            let equal = compare(crate::ir::CmpOp::Eq, RtValue::F64(x), RtValue::F64(y)).unwrap();
            match cond {
                ConditionCode::Equal => unordered || equal,
                ConditionCode::NotEqual => !unordered && !equal,
                ConditionCode::Below => unordered || less,
                ConditionCode::BelowOrEqual => unordered || less || equal,
                ConditionCode::Above => !unordered && !less && !equal,
                ConditionCode::AboveOrEqual => !unordered && !less,
                _ => false,
            }
        },
        Flags::Tested(bits) => match cond {
            ConditionCode::Equal => bits == 0,
            ConditionCode::NotEqual => bits != 0,
            _ => false,
        },
    }
}

/// The lowest byte becomes zero or one.
pub open spec fn with_bit(bits: u64, bit: bool) -> u64 {
    if bit {
        (bits & 0xffff_ffff_ffff_ff00) | 1
    } else {
        bits & 0xffff_ffff_ffff_ff00
    }
}

/// What the bare instruction gives. The square root reads its source alone.
pub open spec fn bare_value(op: SseOp, x: u64, y: u64, unit: Unit) -> u64 {
    if op == SseOp::Sqrt {
        (unit.sse)(op, y, 0)
    } else {
        (unit.sse)(op, x, y)
    }
}

/// What an operation on doubles gives. Where one operand is no number, the
/// minimum and the maximum are the other one.
pub open spec fn sse_value(op: SseOp, x: u64, y: u64, unit: Unit) -> u64 {
    if op == SseOp::Min || op == SseOp::Max {
        if is_nan(x) {
            y
        } else if is_nan(y) {
            x
        } else {
            bare_value(op, x, y, unit)
        }
    } else {
        bare_value(op, x, y, unit)
    }
}

/// What the guard compared last.
pub open spec fn guard_flags(x: u64, y: u64) -> Flags {
    if is_nan(x) {
        Flags::Doubles(x, x)
    } else {
        Flags::Doubles(y, y)
    }
}

/// One operation on registers. Division of a number that RAX holds, with its
/// sign in RDX, traps where the divisor is zero or the quotient does not fit.
/// A call leaves behind what the unit says. Jumps are left out.
pub open spec fn step(c: Cpu, op: AsmOp, unit: Unit) -> Option<Cpu> {
    match op {
        AsmOp::MovRegReg { dst, src } => Some(with_register(c, dst, get(c, src))),
        AsmOp::MovRegImm { dst, imm } => Some(with_register(c, dst, imm as u64)),
        AsmOp::MovsdRegReg { dst, src } => Some(with_register(c, dst, get(c, src))),
        AsmOp::MovsdRegRiprel { dst, label } => Some(with_register(c, dst, (unit.pool)(label))),
        AsmOp::MovRegMem { dst, base, offset } | AsmOp::MovsdRegMem { dst, base, offset } => Some(
            with_register(c, dst, peek(c, base, offset)),
        ),
        AsmOp::MovMemReg { base, offset, src } | AsmOp::MovsdMemReg { base, offset, src } => Some(
            poke(c, base, offset, get(c, src)),
        ),
        AsmOp::CallReg { target } => Some((unit.call)(get(c, target), c)),
        AsmOp::AluRegImm { op, dst, imm } => {
            let x = get(c, dst) as i64;
            let y = imm as i64;
            if op == AluOp::Cmp {
                Some(with_flags(c, Flags::Ints(x, y)))
            } else {
                Some(with_flags(with_register(c, dst, alu(op, x, y) as u64), Flags::Other))
            }
        },
        AsmOp::AluRegReg { op, dst, src } => {
            let x = get(c, dst) as i64;
            let y = get(c, src) as i64;
            if op == AluOp::Cmp {
                Some(with_flags(c, Flags::Ints(x, y)))
            } else {
                Some(with_flags(with_register(c, dst, alu(op, x, y) as u64), Flags::Other))
            }
        },
        AsmOp::SseRegReg { op, dst, src } => if op == SseOp::Min || op == SseOp::Max {
            Some(
                with_flags(with_register(
                        c,
                        dst,
                        sse_value(op, get(c, dst), get(c, src), unit),
                    ), guard_flags(get(c, dst), get(c, src))),
            )
        } else {
            Some(with_register(c, dst, sse_value(op, get(c, dst), get(c, src), unit)))
        },
        AsmOp::SseBare { op, dst, src } => Some(
            with_register(c, dst, bare_value(op, get(c, dst), get(c, src), unit)),
        ),
        AsmOp::ShiftRegCl { op, dst } => Some(
            with_flags(with_register(
                    c,
                    dst,
                    shifted(op, get(c, dst) as i64, get(c, PhysReg::Rcx) as i64) as u64,
                ), Flags::Other),
        ),
        AsmOp::ImulRegReg { dst, src } => Some(
            with_flags(with_register(c, dst, wrap(get(c, dst) as i64 * get(c, src) as i64) as u64), Flags::Other),
        ),
        AsmOp::Cqo => Some(with_register(c, PhysReg::Rdx, sign(get(c, PhysReg::Rax)))),
        AsmOp::IdivReg { src } => {
            let x = get(c, PhysReg::Rax) as i64;
            let y = get(c, src) as i64;
            if get(c, PhysReg::Rdx) != sign(get(c, PhysReg::Rax)) || y == 0 || (x == i64::MIN && y
                == -1) {
                None
            } else {
                Some(
                    with_flags(with_register(
                            with_register(c, PhysReg::Rax, wrap(quotient(x as int, y as int)) as u64),
                            PhysReg::Rdx,
                            wrap(remainder(x as int, y as int)) as u64,
                        ), Flags::Other),
                )
            }
        },
        AsmOp::NegReg { dst } => Some(
            with_flags(with_register(c, dst, wrap(-(get(c, dst) as i64)) as u64), Flags::Other),
        ),
        AsmOp::NotReg { dst } => Some(with_register(c, dst, (!(get(c, dst) as i64)) as u64)),
        AsmOp::LeaRegScaled { dst, base, index, scale, disp } => Some(
            with_register(
                c,
                dst,
                wrap(get(c, base) as i64 + get(c, index) as i64 * scale + disp) as u64,
            ),
        ),
        AsmOp::Roundsd { mode, dst, src } => Some(with_register(c, dst, (unit.round)(mode, get(c, src)))),
        AsmOp::AndpdRegReg { dst, src } => Some(with_register(c, dst, get(c, dst) & get(c, src))),
        AsmOp::XorpdRegReg { dst, src } => Some(with_register(c, dst, get(c, dst) ^ get(c, src))),
        AsmOp::Cvtsi2sd { dst, src } => Some(with_register(c, dst, (unit.from_int)(get(c, src)))),
        AsmOp::Cvttsd2si { dst, src } => Some(with_register(c, dst, (unit.to_int)(get(c, src)))),
        AsmOp::UcomisdRegReg { lhs, rhs } => Some(
            with_flags(c, Flags::Doubles(get(c, lhs), get(c, rhs))),
        ),
        AsmOp::TestRegReg { lhs, rhs } => Some(
            with_flags(c, Flags::Tested(get(c, lhs) & get(c, rhs))),
        ),
        AsmOp::Setcc { cond, dst } => Some(
            with_register(c, dst, with_bit(get(c, dst), condition_holds(cond, c.flags))),
        ),
        AsmOp::Cmovcc { cond, dst, src } => Some(
            if condition_holds(cond, c.flags) {
                with_register(c, dst, get(c, src))
            } else {
                c
            },
        ),
        _ => None,
    }
}

/// Where a run starts: behind the first `from` operations.
pub struct Start {
    pub cpu: Cpu,
    pub from: nat,
}

/// One operation after another, from the start on.
#[verifier::opaque]
pub open spec fn run(start: Start, ops: Seq<AsmOp>, unit: Unit) -> Option<Cpu>
    decreases ops.len(),
{
    if ops.len() < start.from {
        None
    } else if ops.len() == start.from {
        Some(start.cpu)
    } else {
        match run(start, ops.drop_last(), unit) {
            Some(d) => step(d, ops.last(), unit),
            None => None,
        }
    }
}

/// The doubles compared last have no order.
pub open spec fn unordered(flags: Flags) -> bool {
    match flags {
        Flags::Doubles(x, y) => is_nan(x) || is_nan(y),
        _ => false,
    }
}

/// One instruction after another, from place `pc` on, with jumps over some of
/// them.
pub open spec fn walk(c: Cpu, ops: Seq<AsmOp>, pc: nat, unit: Unit) -> Option<Cpu>
    decreases
            if pc < ops.len() {
                ops.len() - pc
            } else {
                0
            },
{
    if pc >= ops.len() {
        Some(c)
    } else {
        match ops[pc as int] {
            AsmOp::Skip { count } => walk(c, ops, pc + 1 + count as nat, unit),
            AsmOp::SkipIfUnordered { count } => if unordered(c.flags) {
                walk(c, ops, pc + 1 + count as nat, unit)
            } else {
                walk(c, ops, pc + 1, unit)
            },
            _ => match step(c, ops[pc as int], unit) {
                Some(d) => walk(d, ops, pc + 1, unit),
                None => None,
            },
        }
    }
}

/// The instructions of an operation on doubles do what the operation does: of
/// two operands of which one is no number, the minimum and the maximum are the
/// other one.
#[verifier::rlimit(40)]
pub proof fn lemma_guard_computes(c: Cpu, op: SseOp, dst: PhysReg, src: PhysReg, unit: Unit)
    ensures
        ({
            let whole = AsmOp::SseRegReg { op, dst, src };
            let one = walk(c, parts_of(whole), 0, unit);
            let other = step(c, whole, unit);
            &&& one is Some
            &&& other is Some
            &&& one.unwrap().flags == other.unwrap().flags
            &&& one.unwrap().memory == other.unwrap().memory
            &&& forall|r: PhysReg| #[trigger]
                get(one.unwrap(), r) == get(other.unwrap(), r)
            &&& get(other.unwrap(), dst) == sse_value(op, get(c, dst), get(c, src), unit)
        }),
{
    let ops = parts_of(AsmOp::SseRegReg { op, dst, src });
    let x = get(c, dst);
    let y = get(c, src);
    if op == SseOp::Min || op == SseOp::Max {
        let one = with_flags(c, Flags::Doubles(x, x));
        let two = with_flags(one, Flags::Doubles(y, y));
        assert(ops.len() == 7);
        assert(walk(c, ops, 0, unit) == walk(one, ops, 1, unit));
        if is_nan(x) {
            let end = with_register(one, dst, y);
            assert(walk(one, ops, 1, unit) == walk(one, ops, 6, unit));
            assert(step(one, ops[6], unit) == Some(end));
            assert(walk(one, ops, 6, unit) == walk(end, ops, 7, unit));
        } else {
            assert(walk(one, ops, 1, unit) == walk(one, ops, 2, unit));
            assert(step(one, ops[2], unit) == Some(two));
            assert(walk(one, ops, 2, unit) == walk(two, ops, 3, unit));
            if is_nan(y) {
                assert(walk(two, ops, 3, unit) == walk(two, ops, 7, unit));
            } else {
                let end = with_register(two, dst, bare_value(op, x, y, unit));
                assert(walk(two, ops, 3, unit) == walk(two, ops, 4, unit));
                assert(step(two, ops[4], unit) == Some(end));
                assert(walk(two, ops, 4, unit) == walk(end, ops, 5, unit));
                assert(walk(end, ops, 5, unit) == walk(end, ops, 7, unit));
            }
        }
    } else {
        let end = with_register(c, dst, bare_value(op, x, y, unit));
        assert(ops.len() == 1);
        assert(step(c, ops[0], unit) == Some(end));
        assert(walk(c, ops, 0, unit) == walk(end, ops, 1, unit));
    }
}

// ---------------------------------------------------------------------------
// Instructions

/// An operation on two integers, as bits.
pub open spec fn int_bits(op: Op, x: u64, y: u64) -> Option<u64> {
    match int_binary(op, x as i64, y as i64) {
        Some(z) => Some(z as u64),
        None => None,
    }
}

/// The same where the processor does not trap.
pub open spec fn division_bits(op: Op, x: u64, y: u64) -> Option<u64> {
    if x as i64 == i64::MIN && y as i64 == -1 {
        None
    } else {
        int_bits(op, x, y)
    }
}

pub open spec fn bit_of(b: Option<bool>) -> Option<u64> {
    match b {
        Some(true) => Some(1),
        Some(false) => Some(0),
        None => None,
    }
}

pub open spec fn alu_op(op: AluOp) -> Op {
    match op {
        AluOp::Add => Op::Add,
        AluOp::Sub | AluOp::Cmp => Op::Sub,
        AluOp::And => Op::And,
        AluOp::Or => Op::Or,
        AluOp::Xor => Op::Xor,
    }
}

pub open spec fn shift_op(op: ShiftOp) -> Op {
    match op {
        ShiftOp::Shl => Op::Shl,
        ShiftOp::Shr => Op::Shr,
        ShiftOp::Sar => Op::Sar,
    }
}

/// How many arguments a function of the mathematical library takes.
pub open spec fn arity(func: LibFunc) -> nat {
    if func == LibFunc::Pow {
        2
    } else {
        1
    }
}

/// What an instruction gives, from what its values are. Nothing where the
/// processor traps, where a comparison of doubles other than `>` and `>=`
/// meets one that is no number, where a call has too few or too many
/// arguments, and for parameters and jumps.
pub open spec fn meaning(
    inst: MachineInst,
    val: spec_fn(Value) -> u64,
    labels: Seq<Label>,
    unit: Unit,
) -> Option<u64> {
    match inst {
        MachineInst::LoadImmI64 { imm, .. } => Some(imm as u64),
        MachineInst::LoadImmF64 { pool_index, .. } => Some((unit.pool)(labels[pool_index as int])),
        MachineInst::IntMul { lhs, rhs, .. } => int_bits(Op::Mul, val(lhs), val(rhs)),
        MachineInst::IntDiv { lhs, rhs, .. } => division_bits(Op::Div, val(lhs), val(rhs)),
        MachineInst::IntRem { lhs, rhs, .. } => division_bits(Op::Rem, val(lhs), val(rhs)),
        MachineInst::IntNeg { src, .. } => Some(wrap(-(val(src) as i64)) as u64),
        MachineInst::Not { src, .. } => Some((!(val(src) as i64)) as u64),
        MachineInst::Lea { base, index, scale, disp, .. } => Some(
            wrap(val(base) as i64 + val(index) as i64 * scale + disp) as u64,
        ),
        MachineInst::FloatSqrt { src, .. } => Some((unit.sse)(SseOp::Sqrt, val(src), 0)),
        MachineInst::FloatRound { src, mode, .. } => Some((unit.round)(mode, val(src))),
        MachineInst::FloatAbs { src, mask_pool, .. } => Some(
            val(src) & (unit.pool)(labels[mask_pool as int]),
        ),
        MachineInst::FloatNeg { src, mask_pool, .. } => Some(
            val(src) ^ (unit.pool)(labels[mask_pool as int]),
        ),
        MachineInst::IntToFloat { src, .. } => Some((unit.from_int)(val(src))),
        MachineInst::FloatToInt { src, .. } => Some((unit.to_int)(val(src))),
        MachineInst::IntCmp { op, lhs, rhs, .. } => bit_of(
            compare(op, RtValue::I64(val(lhs) as i64), RtValue::I64(val(rhs) as i64)),
        ),
        MachineInst::FloatCmp { op, lhs, rhs, .. } => if (is_nan(val(lhs)) || is_nan(val(rhs)))
            && !(op is Gt) && !(op is Ge) {
            None
        } else {
            bit_of(compare(op, RtValue::F64(val(lhs)), RtValue::F64(val(rhs))))
        },
        MachineInst::IntCmov { cond, then_val, else_val, .. } => Some(
            if val(cond) != 0 {
                val(then_val)
            } else {
                val(else_val)
            },
        ),
        MachineInst::CallLibm { func, args, .. } => if args@.len() != arity(func) {
            None
        } else if arity(func) == 2 {
            Some((unit.libm)(func, val(args@[0]), val(args@[1])))
        } else {
            Some((unit.libm)(func, val(args@[0]), 0))
        },
        MachineInst::ExternalCall { address, args, .. } => if args@.len() != (unit.signature)(
            address,
        ).0.len() {
            None
        } else {
            Some((unit.external)(address, Seq::new(args@.len(), |i: int| val(args@[i]))))
        },
        MachineInst::IntAdd { lhs, rhs, .. } => Some(
            wrap(val(lhs) as i64 + val(rhs) as i64) as u64,
        ),
        MachineInst::IntSub { lhs, rhs, .. } => Some(
            wrap(val(lhs) as i64 - val(rhs) as i64) as u64,
        ),
        MachineInst::And { lhs, rhs, .. } => Some((val(lhs) as i64 & val(rhs) as i64) as u64),
        MachineInst::Or { lhs, rhs, .. } => Some((val(lhs) as i64 | val(rhs) as i64) as u64),
        MachineInst::Xor { lhs, rhs, .. } => Some((val(lhs) as i64 ^ val(rhs) as i64) as u64),
        MachineInst::Shl { lhs, rhs, .. } => Some(
            shl64(val(lhs) as i64, val(rhs) as i64) as u64,
        ),
        MachineInst::Shr { lhs, rhs, .. } => Some(
            shr64(val(lhs) as i64, val(rhs) as i64) as u64,
        ),
        MachineInst::Sar { lhs, rhs, .. } => Some(
            sar64(val(lhs) as i64, val(rhs) as i64) as u64,
        ),
        MachineInst::FloatAdd { lhs, rhs, .. } => Some((unit.sse)(SseOp::Add, val(lhs), val(rhs))),
        MachineInst::FloatSub { lhs, rhs, .. } => Some((unit.sse)(SseOp::Sub, val(lhs), val(rhs))),
        MachineInst::FloatMul { lhs, rhs, .. } => Some((unit.sse)(SseOp::Mul, val(lhs), val(rhs))),
        MachineInst::FloatDiv { lhs, rhs, .. } => Some((unit.sse)(SseOp::Div, val(lhs), val(rhs))),
        MachineInst::FloatMin { lhs, rhs, .. } => Some(
            number_of(SseOp::Min, val(lhs), val(rhs), unit),
        ),
        MachineInst::FloatMax { lhs, rhs, .. } => Some(
            number_of(SseOp::Max, val(lhs), val(rhs), unit),
        ),
        MachineInst::FloatFma { .. } => None,
        MachineInst::Param { .. } => None,
        MachineInst::Jump { .. } => None,
        MachineInst::Branch { .. } => None,
        MachineInst::Return { .. } => None,
    }
}

/// Of two doubles of which one is no number, the other one; else what the
/// operation gives.
pub open spec fn number_of(op: SseOp, x: u64, y: u64, unit: Unit) -> u64 {
    if is_nan(x) {
        y
    } else if is_nan(y) {
        x
    } else {
        (unit.sse)(op, x, y)
    }
}

/// What an instruction stands for is what its operation gives.
proof fn lemma_shape_means(
    inst: MachineInst,
    val: spec_fn(Value) -> u64,
    labels: Seq<Label>,
    unit: Unit,
)
    ensures
        match shape(inst) {
            Shape::Alu { op, lhs, rhs, .. } => meaning(inst, val, labels, unit) == int_bits(
                alu_op(op),
                val(lhs),
                val(rhs),
            ),
            Shape::Sse { op, lhs, rhs, .. } => meaning(inst, val, labels, unit) == Some(
                sse_value(op, val(lhs), val(rhs), unit),
            ),
            Shape::Shift { op, lhs, rhs, .. } => meaning(inst, val, labels, unit) == int_bits(
                shift_op(op),
                val(lhs),
                val(rhs),
            ),
            Shape::Other => true,
        },
{
}

/// The registers that an instruction uses besides those of its values.
pub open spec fn takes(inst: MachineInst, r: PhysReg) -> bool {
    match inst {
        MachineInst::IntDiv { .. } | MachineInst::IntRem { .. } => r == PhysReg::Rax || r
            == PhysReg::Rdx,
        MachineInst::FloatAbs { .. } | MachineInst::FloatNeg { .. } => r == PhysReg::Xmm(13) || r
            == PhysReg::Xmm(14),
        MachineInst::Shl { .. } | MachineInst::Shr { .. } | MachineInst::Sar { .. } => r
            == PhysReg::Rcx,
        _ => false,
    }
}

/// The result does not overwrite an operand that is still to be read.
pub open spec fn keeps_operands(inst: MachineInst, regs: Seq<(Value, PhysReg)>) -> bool {
    match inst {
        MachineInst::IntMul { dst, lhs, rhs } => at(regs, dst) != at(regs, rhs) || at(regs, dst)
            == at(regs, lhs),
        MachineInst::IntCmov { dst, cond, then_val, else_val } => at(regs, dst) == at(
            regs,
            then_val,
        ) || (at(regs, dst) != at(regs, cond) && at(regs, dst) != at(regs, else_val)),
        _ => match shape(inst) {
            Shape::Alu { dst, lhs, rhs, .. } => at(regs, dst) != at(regs, rhs) || at(regs, dst)
                == at(regs, lhs),
            Shape::Sse { dst, lhs, rhs, .. } => at(regs, dst) != at(regs, rhs) || at(regs, dst)
                == at(regs, lhs),
            Shape::Shift { dst, lhs, rhs, .. } => at(regs, dst) != at(regs, rhs) || at(regs, dst)
                == at(regs, lhs),
            Shape::Other => true,
        },
    }
}

/// The result is in its register, and nothing else changed but the registers
/// that the instruction takes.
pub open spec fn computed(
    c: Cpu,
    e: Option<Cpu>,
    inst: MachineInst,
    dst: PhysReg,
    z: u64,
) -> bool {
    &&& e is Some
    &&& e.unwrap().memory == c.memory
    &&& get(e.unwrap(), dst) == z
    &&& forall|r: PhysReg|
        #![trigger get(e.unwrap(), r)]
        r != dst && !takes(inst, r) ==> get(e.unwrap(), r) == get(c, r)
}

pub(crate) proof fn lemma_put(start: Start, ops: Seq<AsmOp>, op: AsmOp, c: Cpu, unit: Unit)
    requires
        run(start, ops, unit) == Some(c),
    ensures
        put(Some(ops), op) == Some(ops.push(op)),
        run(start, ops.push(op), unit) == step(c, op, unit),
{
    reveal(run);
    assert(ops.push(op).drop_last() =~= ops);
    assert(ops.len() >= start.from);
}

/// A move, unless the value is there.
proof fn lemma_move(
    start: Start,
    ops: Seq<AsmOp>,
    float: bool,
    dst: PhysReg,
    src: PhysReg,
    c: Cpu,
    unit: Unit,
) -> (e: Cpu)
    requires
        run(start, ops, unit) == Some(c),
    ensures
        ({
            let out = if float {
                move_float(Some(ops), dst, src)
            } else {
                move_int(Some(ops), dst, src)
            };
            out is Some && run(start, out.unwrap(), unit) == Some(e)
        }),
        get(e, dst) == get(c, src),
        forall|r: PhysReg| #![trigger get(e, r)] r != dst ==> get(e, r) == get(c, r),
        e.flags == c.flags,
        e.memory == c.memory,
{
    if dst != src {
        if float {
            lemma_put(start, ops, AsmOp::MovsdRegReg { dst, src }, c, unit);
        } else {
            lemma_put(start, ops, AsmOp::MovRegReg { dst, src }, c, unit);
        }
        with_register(c, dst, get(c, src))
    } else {
        c
    }
}

#[verifier::rlimit(60)]
#[verifier::spinoff_prover]
proof fn lemma_integers(
    start: Start,
    ops: Seq<AsmOp>,
    abi: Abi,
    inst: MachineInst,
    regs: Seq<(Value, PhysReg)>,
    labels: Seq<Label>,
    c: Cpu,
    unit: Unit,
)
    requires
        inst is LoadImmI64 || inst is IntMul || inst is IntDiv || inst is IntRem || inst is IntNeg
            || inst is Not || inst is Lea,
        run(start, ops, unit) == Some(c),
        translated(Some(ops), abi, inst, regs, labels) is Some,
        keeps_operands(inst, regs),
        meaning(inst, |v: Value| get(c, at(regs, v)), labels, unit) is Some,
    ensures
        defines(inst) is Some,
        computed(
            c,
            run(start, translated(Some(ops), abi, inst, regs, labels).unwrap(), unit),
            inst,
            at(regs, defines(inst).unwrap()),
            meaning(inst, |v: Value| get(c, at(regs, v)), labels, unit).unwrap(),
        ),
{
    let dst = at(regs, defines(inst).unwrap());
    match inst {
        MachineInst::LoadImmI64 { imm, .. } => {
            lemma_put(start, ops, AsmOp::MovRegImm { dst, imm }, c, unit);
        },
        MachineInst::IntMul { lhs, rhs, .. } => {
            let e = lemma_move(start, ops, false, dst, at(regs, lhs), c, unit);
            let moved = move_int(Some(ops), dst, at(regs, lhs)).unwrap();
            lemma_put(start, moved, AsmOp::ImulRegReg { dst, src: at(regs, rhs) }, e, unit);
        },
        MachineInst::IntDiv { lhs, rhs, .. } => {
            lemma_divide(start, ops, inst, dst, at(regs, lhs), at(regs, rhs), PhysReg::Rax, c, unit);
        },
        MachineInst::IntRem { lhs, rhs, .. } => {
            lemma_divide(start, ops, inst, dst, at(regs, lhs), at(regs, rhs), PhysReg::Rdx, c, unit);
        },
        MachineInst::IntNeg { src, .. } => {
            let e = lemma_move(start, ops, false, dst, at(regs, src), c, unit);
            let moved = move_int(Some(ops), dst, at(regs, src)).unwrap();
            lemma_put(start, moved, AsmOp::NegReg { dst }, e, unit);
        },
        MachineInst::Not { src, .. } => {
            let e = lemma_move(start, ops, false, dst, at(regs, src), c, unit);
            let moved = move_int(Some(ops), dst, at(regs, src)).unwrap();
            lemma_put(start, moved, AsmOp::NotReg { dst }, e, unit);
        },
        MachineInst::Lea { base, index, scale, disp, .. } => {
            let op = AsmOp::LeaRegScaled {
                dst,
                base: at(regs, base),
                index: at(regs, index),
                scale,
                disp,
            };
            lemma_put(start, ops, op, c, unit);
        },
        _ => {},
    }
}

#[verifier::rlimit(60)]
#[verifier::spinoff_prover]
proof fn lemma_doubles(
    start: Start,
    ops: Seq<AsmOp>,
    abi: Abi,
    inst: MachineInst,
    regs: Seq<(Value, PhysReg)>,
    labels: Seq<Label>,
    c: Cpu,
    unit: Unit,
)
    requires
        inst is LoadImmF64 || inst is FloatSqrt || inst is FloatRound || inst is FloatAbs
            || inst is FloatNeg || inst is IntToFloat || inst is FloatToInt,
        run(start, ops, unit) == Some(c),
        translated(Some(ops), abi, inst, regs, labels) is Some,
        keeps_operands(inst, regs),
        meaning(inst, |v: Value| get(c, at(regs, v)), labels, unit) is Some,
    ensures
        defines(inst) is Some,
        computed(
            c,
            run(start, translated(Some(ops), abi, inst, regs, labels).unwrap(), unit),
            inst,
            at(regs, defines(inst).unwrap()),
            meaning(inst, |v: Value| get(c, at(regs, v)), labels, unit).unwrap(),
        ),
{
    let dst = at(regs, defines(inst).unwrap());
    match inst {
        MachineInst::LoadImmF64 { pool_index, .. } => {
            let label = labels[pool_index as int];
            lemma_put(start, ops, AsmOp::MovsdRegRiprel { dst, label }, c, unit);
        },
        MachineInst::FloatSqrt { src, .. } => {
            let e = lemma_move(start, ops, true, dst, at(regs, src), c, unit);
            let moved = move_float(Some(ops), dst, at(regs, src)).unwrap();
            lemma_put(start, moved, AsmOp::SseRegReg { op: SseOp::Sqrt, dst, src: dst }, e, unit);
        },
        MachineInst::FloatRound { src, mode, .. } => {
            let e = lemma_move(start, ops, true, dst, at(regs, src), c, unit);
            let moved = move_float(Some(ops), dst, at(regs, src)).unwrap();
            lemma_put(start, moved, AsmOp::Roundsd { mode, dst, src: dst }, e, unit);
        },
        MachineInst::FloatAbs { src, mask_pool, .. } => {
            let mask = mask_register(dst);
            let label = labels[mask_pool as int];
            let e = lemma_move(start, ops, true, dst, at(regs, src), c, unit);
            let moved = move_float(Some(ops), dst, at(regs, src)).unwrap();
            let load = AsmOp::MovsdRegRiprel { dst: mask, label };
            lemma_put(start, moved, load, e, unit);
            let d = with_register(e, mask, (unit.pool)(label));
            lemma_put(start, moved.push(load), AsmOp::AndpdRegReg { dst, src: mask }, d, unit);
        },
        MachineInst::FloatNeg { src, mask_pool, .. } => {
            let mask = mask_register(dst);
            let label = labels[mask_pool as int];
            let e = lemma_move(start, ops, true, dst, at(regs, src), c, unit);
            let moved = move_float(Some(ops), dst, at(regs, src)).unwrap();
            let load = AsmOp::MovsdRegRiprel { dst: mask, label };
            lemma_put(start, moved, load, e, unit);
            let d = with_register(e, mask, (unit.pool)(label));
            lemma_put(start, moved.push(load), AsmOp::XorpdRegReg { dst, src: mask }, d, unit);
        },
        MachineInst::IntToFloat { src, .. } => {
            lemma_put(start, ops, AsmOp::Cvtsi2sd { dst, src: at(regs, src) }, c, unit);
        },
        MachineInst::FloatToInt { src, .. } => {
            lemma_put(start, ops, AsmOp::Cvttsd2si { dst, src: at(regs, src) }, c, unit);
        },
        _ => {},
    }
}

#[verifier::rlimit(60)]
#[verifier::spinoff_prover]
proof fn lemma_choices(
    start: Start,
    ops: Seq<AsmOp>,
    abi: Abi,
    inst: MachineInst,
    regs: Seq<(Value, PhysReg)>,
    labels: Seq<Label>,
    c: Cpu,
    unit: Unit,
)
    requires
        inst is IntCmp || inst is FloatCmp || inst is IntCmov,
        run(start, ops, unit) == Some(c),
        translated(Some(ops), abi, inst, regs, labels) is Some,
        keeps_operands(inst, regs),
        meaning(inst, |v: Value| get(c, at(regs, v)), labels, unit) is Some,
    ensures
        defines(inst) is Some,
        computed(
            c,
            run(start, translated(Some(ops), abi, inst, regs, labels).unwrap(), unit),
            inst,
            at(regs, defines(inst).unwrap()),
            meaning(inst, |v: Value| get(c, at(regs, v)), labels, unit).unwrap(),
        ),
{
    let dst = at(regs, defines(inst).unwrap());
    match inst {
        MachineInst::IntCmp { op, lhs, rhs, .. } => {
            let l = at(regs, lhs);
            let r = at(regs, rhs);
            let first = AsmOp::AluRegReg { op: AluOp::Cmp, dst: l, src: r };
            lemma_put(start, ops, first, c, unit);
            let d = with_flags(c, Flags::Ints(get(c, l) as i64, get(c, r) as i64));
            lemma_flag(start, ops.push(first), dst, int_condition(op), d, unit);
        },
        MachineInst::FloatCmp { op, lhs, rhs, .. } => {
            let l = at(regs, lhs);
            let r = at(regs, rhs);
            let first = AsmOp::UcomisdRegReg { lhs: l, rhs: r };
            lemma_put(start, ops, first, c, unit);
            let d = with_flags(c, Flags::Doubles(get(c, l), get(c, r)));
            lemma_flag(start, ops.push(first), dst, float_condition(op), d, unit);
        },
        MachineInst::IntCmov { cond, then_val, else_val, .. } => {
            let e = lemma_move(start, ops, false, dst, at(regs, then_val), c, unit);
            let moved = move_int(Some(ops), dst, at(regs, then_val)).unwrap();
            let test = AsmOp::TestRegReg { lhs: at(regs, cond), rhs: at(regs, cond) };
            lemma_put(start, moved, test, e, unit);
            let bits = get(e, at(regs, cond));
            assert(bits & bits == bits) by (bit_vector);
            let d = with_flags(e, Flags::Tested(bits));
            let last = AsmOp::Cmovcc {
                cond: ConditionCode::Equal,
                dst,
                src: at(regs, else_val),
            };
            lemma_put(start, moved.push(test), last, d, unit);
        },
        _ => {},
    }
}

#[verifier::rlimit(60)]
#[verifier::spinoff_prover]
proof fn lemma_shapes(
    start: Start,
    ops: Seq<AsmOp>,
    abi: Abi,
    inst: MachineInst,
    regs: Seq<(Value, PhysReg)>,
    labels: Seq<Label>,
    c: Cpu,
    unit: Unit,
)
    requires
        !(shape(inst) is Other),
        run(start, ops, unit) == Some(c),
        translated(Some(ops), abi, inst, regs, labels) is Some,
        keeps_operands(inst, regs),
        meaning(inst, |v: Value| get(c, at(regs, v)), labels, unit) is Some,
    ensures
        defines(inst) is Some,
        computed(
            c,
            run(start, translated(Some(ops), abi, inst, regs, labels).unwrap(), unit),
            inst,
            at(regs, defines(inst).unwrap()),
            meaning(inst, |v: Value| get(c, at(regs, v)), labels, unit).unwrap(),
        ),
{
    let dst = at(regs, defines(inst).unwrap());
    lemma_shape_means(inst, |v: Value| get(c, at(regs, v)), labels, unit);
    match shape(inst) {
        Shape::Alu { op, lhs, rhs, .. } => {
            let e = lemma_move(start, ops, false, dst, at(regs, lhs), c, unit);
            let moved = move_int(Some(ops), dst, at(regs, lhs)).unwrap();
            lemma_put(start, moved, AsmOp::AluRegReg { op, dst, src: at(regs, rhs) }, e, unit);
        },
        Shape::Sse { op, lhs, rhs, .. } => {
            let e = lemma_move(start, ops, true, dst, at(regs, lhs), c, unit);
            let moved = move_float(Some(ops), dst, at(regs, lhs)).unwrap();
            lemma_put(start, moved, AsmOp::SseRegReg { op, dst, src: at(regs, rhs) }, e, unit);
        },
        Shape::Shift { op, lhs, rhs, .. } => {
            lemma_shift(start, ops, inst, op, dst, at(regs, lhs), at(regs, rhs), c, unit);
        },
        Shape::Other => {},
    }
}

/// The operations of an instruction compute what it stands for, from whatever
/// state: the result is in its register, and only the registers that the
/// instruction takes have changed besides.
pub proof fn lemma_translated_computes(
    start: Start,
    ops: Seq<AsmOp>,
    abi: Abi,
    inst: MachineInst,
    regs: Seq<(Value, PhysReg)>,
    labels: Seq<Label>,
    c: Cpu,
    unit: Unit,
)
    requires
        run(start, ops, unit) == Some(c),
        !(inst is CallLibm),
        translated(Some(ops), abi, inst, regs, labels) is Some,
        keeps_operands(inst, regs),
        meaning(inst, |v: Value| get(c, at(regs, v)), labels, unit) is Some,
    ensures
        defines(inst) is Some,
        computed(
            c,
            run(start, translated(Some(ops), abi, inst, regs, labels).unwrap(), unit),
            inst,
            at(regs, defines(inst).unwrap()),
            meaning(inst, |v: Value| get(c, at(regs, v)), labels, unit).unwrap(),
        ),
{
    if !(shape(inst) is Other) {
        lemma_shapes(start, ops, abi, inst, regs, labels, c, unit);
    } else {
        match inst {
            MachineInst::LoadImmI64 { .. }
            | MachineInst::IntMul { .. }
            | MachineInst::IntDiv { .. }
            | MachineInst::IntRem { .. }
            | MachineInst::IntNeg { .. }
            | MachineInst::Not { .. }
            | MachineInst::Lea { .. } => lemma_integers(start, ops, abi, inst, regs, labels, c, unit),
            MachineInst::IntCmp { .. }
            | MachineInst::FloatCmp { .. }
            | MachineInst::IntCmov { .. } => lemma_choices(start, ops, abi, inst, regs, labels, c, unit),
            _ => lemma_doubles(start, ops, abi, inst, regs, labels, c, unit),
        }
    }
}

/// Division.
#[verifier::rlimit(20)]
proof fn lemma_divide(
    start: Start,
    ops: Seq<AsmOp>,
    inst: MachineInst,
    dst: PhysReg,
    lhs: PhysReg,
    rhs: PhysReg,
    out: PhysReg,
    c: Cpu,
    unit: Unit,
)
    requires
        run(start, ops, unit) == Some(c),
        inst is IntDiv || inst is IntRem,
        out == PhysReg::Rax || out == PhysReg::Rdx,
        divide(Some(ops), dst, lhs, rhs, out) is Some,
        get(c, rhs) as i64 != 0,
        !(get(c, lhs) as i64 == i64::MIN && get(c, rhs) as i64 == -1),
    ensures
        ({
            let x = get(c, lhs) as i64;
            let y = get(c, rhs) as i64;
            computed(
                c,
                run(start, divide(Some(ops), dst, lhs, rhs, out).unwrap(), unit),
                inst,
                dst,
                if out == PhysReg::Rax {
                    wrap(quotient(x as int, y as int)) as u64
                } else {
                    wrap(remainder(x as int, y as int)) as u64
                },
            )
        }),
{
    let e = lemma_move(start, ops, false, PhysReg::Rax, lhs, c, unit);
    let moved = move_int(Some(ops), PhysReg::Rax, lhs).unwrap();
    lemma_put(start, moved, AsmOp::Cqo, e, unit);
    let d = with_register(e, PhysReg::Rdx, sign(get(e, PhysReg::Rax)));
    let extended = moved.push(AsmOp::Cqo);
    let divided = AsmOp::IdivReg { src: rhs };
    lemma_put(start, extended, divided, d, unit);
    assert(get(d, PhysReg::Rax) == get(c, lhs));
    assert(get(d, PhysReg::Rdx) == sign(get(c, lhs)));
    assert(get(d, rhs) == get(c, rhs));
    let q = step(d, divided, unit).unwrap();
    let z = lemma_move(start, extended.push(divided), false, dst, out, q, unit);
}

/// A shift by the count in RCX.
#[verifier::rlimit(20)]
proof fn lemma_shift(
    start: Start,
    ops: Seq<AsmOp>,
    inst: MachineInst,
    op: ShiftOp,
    dst: PhysReg,
    lhs: PhysReg,
    rhs: PhysReg,
    c: Cpu,
    unit: Unit,
)
    requires
        run(start, ops, unit) == Some(c),
        inst is Shl || inst is Shr || inst is Sar,
        shift(Some(ops), op, dst, lhs, rhs) is Some,
        dst != rhs || dst == lhs,
    ensures
        computed(
            c,
            run(start, shift(Some(ops), op, dst, lhs, rhs).unwrap(), unit),
            inst,
            dst,
            shifted(op, get(c, lhs) as i64, get(c, rhs) as i64) as u64,
        ),
{
    let e = lemma_move(start, ops, false, dst, lhs, c, unit);
    let moved = move_int(Some(ops), dst, lhs).unwrap();
    let d = lemma_move(start, moved, false, PhysReg::Rcx, rhs, e, unit);
    let counted = move_int(Some(moved), PhysReg::Rcx, rhs).unwrap();
    lemma_put(start, counted, AsmOp::ShiftRegCl { op, dst }, d, unit);
}

/// The bit of a comparison.
proof fn lemma_flag(
    start: Start,
    ops: Seq<AsmOp>,
    dst: PhysReg,
    cond: ConditionCode,
    c: Cpu,
    unit: Unit,
)
    requires
        run(start, ops, unit) == Some(c),
    ensures
        ({
            let e = run(start, flag(Some(ops), dst, cond).unwrap(), unit);
            &&& e is Some
            &&& e.unwrap().memory == c.memory
            &&& get(e.unwrap(), dst) == if condition_holds(cond, c.flags) {
                1u64
            } else {
                0u64
            }
            &&& forall|r: PhysReg|
                #![trigger get(e.unwrap(), r)]
                r != dst ==> get(e.unwrap(), r) == get(c, r)
        }),
{
    let clear = AsmOp::MovRegImm { dst, imm: 0 };
    lemma_put(start, ops, clear, c, unit);
    let d = with_register(c, dst, 0);
    lemma_put(start, ops.push(clear), AsmOp::Setcc { cond, dst }, d, unit);
    assert((0u64 & 0xffff_ffff_ffff_ff00) | 1 == 1 && 0u64 & 0xffff_ffff_ffff_ff00 == 0)
        by (bit_vector);
    assert((0i64 as u64) == 0);
}

} // verus!
