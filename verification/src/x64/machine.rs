//! Registers, selected instructions, and the operations of an assembler.
use crate::ir::{Block, CmpOp, LibFunc, Ty, Value};
use vstd::prelude::*;

verus! {

// ---------------------------------------------------------------------------
// Registers

/// A physical register. The sixteen general-purpose registers stand in the
/// order of their encodings.
#[derive(Clone, Copy, Debug, PartialEq, Eq, Structural)]
pub enum PhysReg {
    Rax,
    Rcx,
    Rdx,
    Rbx,
    Rsp,
    Rbp,
    Rsi,
    Rdi,
    R8,
    R9,
    R10,
    R11,
    R12,
    R13,
    R14,
    R15,
    Xmm(u8),
}

/// How many registers there are.
pub const REGISTERS: usize = 48;

/// The `i`-th register: the general-purpose ones come first, each bank in the
/// order of the encodings.
pub open spec fn register(i: int) -> PhysReg {
    if i == 0 {
        PhysReg::Rax
    } else if i == 1 {
        PhysReg::Rcx
    } else if i == 2 {
        PhysReg::Rdx
    } else if i == 3 {
        PhysReg::Rbx
    } else if i == 4 {
        PhysReg::Rsp
    } else if i == 5 {
        PhysReg::Rbp
    } else if i == 6 {
        PhysReg::Rsi
    } else if i == 7 {
        PhysReg::Rdi
    } else if i == 8 {
        PhysReg::R8
    } else if i == 9 {
        PhysReg::R9
    } else if i == 10 {
        PhysReg::R10
    } else if i == 11 {
        PhysReg::R11
    } else if i == 12 {
        PhysReg::R12
    } else if i == 13 {
        PhysReg::R13
    } else if i == 14 {
        PhysReg::R14
    } else if i == 15 {
        PhysReg::R15
    } else {
        PhysReg::Xmm((i - 16) as u8)
    }
}

pub fn register_at(i: usize) -> (r: PhysReg)
    requires
        i < REGISTERS,
    ensures
        r == register(i as int),
{
    match i {
        0 => PhysReg::Rax,
        1 => PhysReg::Rcx,
        2 => PhysReg::Rdx,
        3 => PhysReg::Rbx,
        4 => PhysReg::Rsp,
        5 => PhysReg::Rbp,
        6 => PhysReg::Rsi,
        7 => PhysReg::Rdi,
        8 => PhysReg::R8,
        9 => PhysReg::R9,
        10 => PhysReg::R10,
        11 => PhysReg::R11,
        12 => PhysReg::R12,
        13 => PhysReg::R13,
        14 => PhysReg::R14,
        15 => PhysReg::R15,
        _ => PhysReg::Xmm((i - 16) as u8),
    }
}

pub fn is_xmm(reg: PhysReg) -> (r: bool)
    ensures
        r == (reg is Xmm),
{
    match reg {
        PhysReg::Xmm(_) => true,
        _ => false,
    }
}

/// Where the allocator keeps a value: in a register, or in the spill slot with
/// this number.
#[derive(Clone, Copy, Debug, PartialEq, Eq, Structural)]
pub enum Location {
    Reg(PhysReg),
    Spill(u32),
}

/// The conventions that the allocator and the caller follow.
pub struct Abi {
    /// The calling convention of Windows, or that of the other systems.
    pub windows: bool,
    pub int_args: Vec<PhysReg>,
    pub float_args: Vec<PhysReg>,
    pub callee_saved: Vec<PhysReg>,
    /// Registers that never hold a value across instructions.
    pub scratch_gpr: Vec<PhysReg>,
    pub scratch_xmm: Vec<PhysReg>,
    /// Where the functions of the mathematical library are.
    pub libm: Vec<(LibFunc, i64)>,
}

// ---------------------------------------------------------------------------
// Selected instructions

/// An instruction on values that have no registers yet.
#[allow(inconsistent_fields)]
#[derive(Debug)]
pub enum MachineInst {
    LoadImmI64 { dst: Value, imm: i64 },
    LoadImmF64 { dst: Value, pool_index: usize },
    IntAdd { dst: Value, lhs: Value, rhs: Value },
    IntSub { dst: Value, lhs: Value, rhs: Value },
    And { dst: Value, lhs: Value, rhs: Value },
    Or { dst: Value, lhs: Value, rhs: Value },
    Xor { dst: Value, lhs: Value, rhs: Value },
    IntMul { dst: Value, lhs: Value, rhs: Value },
    IntDiv { dst: Value, lhs: Value, rhs: Value },
    IntRem { dst: Value, lhs: Value, rhs: Value },
    IntNeg { dst: Value, src: Value },
    Not { dst: Value, src: Value },
    Shl { dst: Value, lhs: Value, rhs: Value },
    Shr { dst: Value, lhs: Value, rhs: Value },
    Sar { dst: Value, lhs: Value, rhs: Value },
    Lea { dst: Value, base: Value, index: Value, scale: u8, disp: i32 },
    FloatAdd { dst: Value, lhs: Value, rhs: Value },
    FloatSub { dst: Value, lhs: Value, rhs: Value },
    FloatMul { dst: Value, lhs: Value, rhs: Value },
    FloatDiv { dst: Value, lhs: Value, rhs: Value },
    FloatMin { dst: Value, lhs: Value, rhs: Value },
    FloatMax { dst: Value, lhs: Value, rhs: Value },
    FloatFma { dst: Value, a: Value, b: Value, addend: Value },
    FloatSqrt { dst: Value, src: Value },
    FloatRound { dst: Value, src: Value, mode: u8 },
    FloatAbs { dst: Value, src: Value, mask_pool: usize },
    FloatNeg { dst: Value, src: Value, mask_pool: usize },
    IntToFloat { dst: Value, src: Value },
    FloatToInt { dst: Value, src: Value },
    IntCmp { op: CmpOp, dst: Value, lhs: Value, rhs: Value },
    FloatCmp { op: CmpOp, dst: Value, lhs: Value, rhs: Value },
    IntCmov { dst: Value, cond: Value, then_val: Value, else_val: Value },
    Param { dst: Value, index: u32 },
    CallLibm { dst: Value, func: LibFunc, args: Vec<Value> },
    ExternalCall { dst: Value, address: i64, args: Vec<Value> },
    Jump { target: Block },
    Branch { cond: Value, then_: Block, else_: Block },
    Return { value: Value },
}

/// The selected instructions of a function: where its blocks start, its
/// constants, and the types of values that selection made up.
#[derive(Debug)]
pub struct SelectedFunction {
    pub insts: Vec<MachineInst>,
    pub block_starts: Vec<(Block, usize)>,
    pub pool: Vec<u64>,
    pub synthetic_types: Vec<(Value, Ty)>,
}

/// The instruction computes `dst` from two integers or two doubles, from one
/// operand, or in another way.
#[allow(inconsistent_fields)]
#[derive(Clone, Copy, Debug, PartialEq, Eq, Structural)]
pub enum Shape {
    Alu { op: AluOp, dst: Value, lhs: Value, rhs: Value },
    Sse { op: SseOp, dst: Value, lhs: Value, rhs: Value },
    Shift { op: ShiftOp, dst: Value, lhs: Value, rhs: Value },
    Other,
}

pub open spec fn shape(inst: MachineInst) -> Shape {
    match inst {
        MachineInst::IntAdd { dst, lhs, rhs } => Shape::Alu { op: AluOp::Add, dst, lhs, rhs },
        MachineInst::IntSub { dst, lhs, rhs } => Shape::Alu { op: AluOp::Sub, dst, lhs, rhs },
        MachineInst::And { dst, lhs, rhs } => Shape::Alu { op: AluOp::And, dst, lhs, rhs },
        MachineInst::Or { dst, lhs, rhs } => Shape::Alu { op: AluOp::Or, dst, lhs, rhs },
        MachineInst::Xor { dst, lhs, rhs } => Shape::Alu { op: AluOp::Xor, dst, lhs, rhs },
        MachineInst::FloatAdd { dst, lhs, rhs } => Shape::Sse { op: SseOp::Add, dst, lhs, rhs },
        MachineInst::FloatSub { dst, lhs, rhs } => Shape::Sse { op: SseOp::Sub, dst, lhs, rhs },
        MachineInst::FloatMul { dst, lhs, rhs } => Shape::Sse { op: SseOp::Mul, dst, lhs, rhs },
        MachineInst::FloatDiv { dst, lhs, rhs } => Shape::Sse { op: SseOp::Div, dst, lhs, rhs },
        MachineInst::FloatMin { dst, lhs, rhs } => Shape::Sse { op: SseOp::Min, dst, lhs, rhs },
        MachineInst::FloatMax { dst, lhs, rhs } => Shape::Sse { op: SseOp::Max, dst, lhs, rhs },
        MachineInst::Shl { dst, lhs, rhs } => Shape::Shift { op: ShiftOp::Shl, dst, lhs, rhs },
        MachineInst::Shr { dst, lhs, rhs } => Shape::Shift { op: ShiftOp::Shr, dst, lhs, rhs },
        MachineInst::Sar { dst, lhs, rhs } => Shape::Shift { op: ShiftOp::Sar, dst, lhs, rhs },
        _ => Shape::Other,
    }
}

pub fn shape_of(inst: &MachineInst) -> (r: Shape)
    ensures
        r == shape(*inst),
{
    match inst {
        MachineInst::IntAdd { dst, lhs, rhs } => {
            Shape::Alu { op: AluOp::Add, dst: *dst, lhs: *lhs, rhs: *rhs }
        },
        MachineInst::IntSub { dst, lhs, rhs } => {
            Shape::Alu { op: AluOp::Sub, dst: *dst, lhs: *lhs, rhs: *rhs }
        },
        MachineInst::And { dst, lhs, rhs } => {
            Shape::Alu { op: AluOp::And, dst: *dst, lhs: *lhs, rhs: *rhs }
        },
        MachineInst::Or { dst, lhs, rhs } => {
            Shape::Alu { op: AluOp::Or, dst: *dst, lhs: *lhs, rhs: *rhs }
        },
        MachineInst::Xor { dst, lhs, rhs } => {
            Shape::Alu { op: AluOp::Xor, dst: *dst, lhs: *lhs, rhs: *rhs }
        },
        MachineInst::FloatAdd { dst, lhs, rhs } => {
            Shape::Sse { op: SseOp::Add, dst: *dst, lhs: *lhs, rhs: *rhs }
        },
        MachineInst::FloatSub { dst, lhs, rhs } => {
            Shape::Sse { op: SseOp::Sub, dst: *dst, lhs: *lhs, rhs: *rhs }
        },
        MachineInst::FloatMul { dst, lhs, rhs } => {
            Shape::Sse { op: SseOp::Mul, dst: *dst, lhs: *lhs, rhs: *rhs }
        },
        MachineInst::FloatDiv { dst, lhs, rhs } => {
            Shape::Sse { op: SseOp::Div, dst: *dst, lhs: *lhs, rhs: *rhs }
        },
        MachineInst::FloatMin { dst, lhs, rhs } => {
            Shape::Sse { op: SseOp::Min, dst: *dst, lhs: *lhs, rhs: *rhs }
        },
        MachineInst::FloatMax { dst, lhs, rhs } => {
            Shape::Sse { op: SseOp::Max, dst: *dst, lhs: *lhs, rhs: *rhs }
        },
        MachineInst::Shl { dst, lhs, rhs } => {
            Shape::Shift { op: ShiftOp::Shl, dst: *dst, lhs: *lhs, rhs: *rhs }
        },
        MachineInst::Shr { dst, lhs, rhs } => {
            Shape::Shift { op: ShiftOp::Shr, dst: *dst, lhs: *lhs, rhs: *rhs }
        },
        MachineInst::Sar { dst, lhs, rhs } => {
            Shape::Shift { op: ShiftOp::Sar, dst: *dst, lhs: *lhs, rhs: *rhs }
        },
        _ => Shape::Other,
    }
}

/// The values that an instruction reads, in the order of its operands.
pub open spec fn reads(inst: MachineInst) -> Seq<Value> {
    match inst {
        MachineInst::LoadImmI64 { .. } | MachineInst::LoadImmF64 { .. } => Seq::empty(),
        MachineInst::Param { .. } | MachineInst::Jump { .. } => Seq::empty(),
        MachineInst::IntMul { lhs, rhs, .. } => seq![lhs, rhs],
        MachineInst::IntDiv { lhs, rhs, .. } => seq![lhs, rhs],
        MachineInst::IntRem { lhs, rhs, .. } => seq![lhs, rhs],
        MachineInst::IntCmp { lhs, rhs, .. } => seq![lhs, rhs],
        MachineInst::FloatCmp { lhs, rhs, .. } => seq![lhs, rhs],
        MachineInst::IntNeg { src, .. } => seq![src],
        MachineInst::Not { src, .. } => seq![src],
        MachineInst::FloatSqrt { src, .. } => seq![src],
        MachineInst::FloatRound { src, .. } => seq![src],
        MachineInst::FloatAbs { src, .. } => seq![src],
        MachineInst::FloatNeg { src, .. } => seq![src],
        MachineInst::IntToFloat { src, .. } => seq![src],
        MachineInst::FloatToInt { src, .. } => seq![src],
        MachineInst::Lea { base, index, .. } => seq![base, index],
        MachineInst::IntCmov { cond, then_val, else_val, .. } => seq![cond, then_val, else_val],
        MachineInst::FloatFma { a, b, addend, .. } => seq![a, b, addend],
        MachineInst::CallLibm { args, .. } => args@,
        MachineInst::ExternalCall { args, .. } => args@,
        MachineInst::Branch { cond, .. } => seq![cond],
        MachineInst::Return { value } => seq![value],
        _ => match shape(inst) {
            Shape::Alu { lhs, rhs, .. } => seq![lhs, rhs],
            Shape::Sse { lhs, rhs, .. } => seq![lhs, rhs],
            Shape::Shift { lhs, rhs, .. } => seq![lhs, rhs],
            Shape::Other => Seq::empty(),
        },
    }
}

/// The value that an instruction computes.
pub open spec fn defines(inst: MachineInst) -> Option<Value> {
    match inst {
        MachineInst::LoadImmI64 { dst, .. } => Some(dst),
        MachineInst::LoadImmF64 { dst, .. } => Some(dst),
        MachineInst::IntMul { dst, .. } => Some(dst),
        MachineInst::IntDiv { dst, .. } => Some(dst),
        MachineInst::IntRem { dst, .. } => Some(dst),
        MachineInst::IntNeg { dst, .. } => Some(dst),
        MachineInst::Not { dst, .. } => Some(dst),
        MachineInst::Lea { dst, .. } => Some(dst),
        MachineInst::FloatFma { dst, .. } => Some(dst),
        MachineInst::FloatSqrt { dst, .. } => Some(dst),
        MachineInst::FloatRound { dst, .. } => Some(dst),
        MachineInst::FloatAbs { dst, .. } => Some(dst),
        MachineInst::FloatNeg { dst, .. } => Some(dst),
        MachineInst::IntToFloat { dst, .. } => Some(dst),
        MachineInst::FloatToInt { dst, .. } => Some(dst),
        MachineInst::IntCmp { dst, .. } => Some(dst),
        MachineInst::FloatCmp { dst, .. } => Some(dst),
        MachineInst::IntCmov { dst, .. } => Some(dst),
        MachineInst::Param { dst, .. } => Some(dst),
        MachineInst::CallLibm { dst, .. } => Some(dst),
        MachineInst::ExternalCall { dst, .. } => Some(dst),
        MachineInst::Jump { .. } => None,
        MachineInst::Branch { .. } => None,
        MachineInst::Return { .. } => None,
        _ => match shape(inst) {
            Shape::Alu { dst, .. } => Some(dst),
            Shape::Sse { dst, .. } => Some(dst),
            Shape::Shift { dst, .. } => Some(dst),
            Shape::Other => None,
        },
    }
}

/// The result of an instruction is the value that it names as its result, and
/// nothing else has one.
pub proof fn lemma_defines(inst: MachineInst, v: Value)
    ensures
        defines(inst) == Some(v) <==> match inst {
            MachineInst::LoadImmI64 { dst, .. } => dst == v,
            MachineInst::LoadImmF64 { dst, .. } => dst == v,
            MachineInst::IntAdd { dst, .. } => dst == v,
            MachineInst::IntSub { dst, .. } => dst == v,
            MachineInst::And { dst, .. } => dst == v,
            MachineInst::Or { dst, .. } => dst == v,
            MachineInst::Xor { dst, .. } => dst == v,
            MachineInst::IntMul { dst, .. } => dst == v,
            MachineInst::IntDiv { dst, .. } => dst == v,
            MachineInst::IntRem { dst, .. } => dst == v,
            MachineInst::IntNeg { dst, .. } => dst == v,
            MachineInst::Not { dst, .. } => dst == v,
            MachineInst::Shl { dst, .. } => dst == v,
            MachineInst::Shr { dst, .. } => dst == v,
            MachineInst::Sar { dst, .. } => dst == v,
            MachineInst::Lea { dst, .. } => dst == v,
            MachineInst::FloatAdd { dst, .. } => dst == v,
            MachineInst::FloatSub { dst, .. } => dst == v,
            MachineInst::FloatMul { dst, .. } => dst == v,
            MachineInst::FloatDiv { dst, .. } => dst == v,
            MachineInst::FloatMin { dst, .. } => dst == v,
            MachineInst::FloatMax { dst, .. } => dst == v,
            MachineInst::FloatFma { dst, .. } => dst == v,
            MachineInst::FloatSqrt { dst, .. } => dst == v,
            MachineInst::FloatRound { dst, .. } => dst == v,
            MachineInst::FloatAbs { dst, .. } => dst == v,
            MachineInst::FloatNeg { dst, .. } => dst == v,
            MachineInst::IntToFloat { dst, .. } => dst == v,
            MachineInst::FloatToInt { dst, .. } => dst == v,
            MachineInst::IntCmp { dst, .. } => dst == v,
            MachineInst::FloatCmp { dst, .. } => dst == v,
            MachineInst::IntCmov { dst, .. } => dst == v,
            MachineInst::Param { dst, .. } => dst == v,
            MachineInst::CallLibm { dst, .. } => dst == v,
            MachineInst::ExternalCall { dst, .. } => dst == v,
            _ => false,
        },
{
}

fn list1(a: Value) -> (r: Vec<Value>)
    ensures
        r@ == seq![a],
{
    let mut r: Vec<Value> = Vec::new();
    r.push(a);
    assert(r@ =~= seq![a]);
    r
}

fn list2(a: Value, b: Value) -> (r: Vec<Value>)
    ensures
        r@ == seq![a, b],
{
    let mut r: Vec<Value> = list1(a);
    r.push(b);
    assert(r@ =~= seq![a, b]);
    r
}

fn copy_list(values: &Vec<Value>) -> (r: Vec<Value>)
    ensures
        r@ == values@,
{
    let mut r: Vec<Value> = Vec::new();
    let mut i: usize = 0;
    while i < values.len()
        invariant
            i <= values@.len(),
            r@ == values@.take(i as int),
        decreases values@.len() - i,
    {
        r.push(values[i]);
        assert(r@ =~= values@.take(i + 1));
        i += 1;
    }
    assert(values@.take(i as int) =~= values@);
    r
}

pub fn reads_of(inst: &MachineInst) -> (r: Vec<Value>)
    ensures
        r@ == reads(*inst),
{
    match inst {
        MachineInst::LoadImmI64 { .. }
        | MachineInst::LoadImmF64 { .. }
        | MachineInst::Param { .. }
        | MachineInst::Jump { .. } => {
            let none: Vec<Value> = Vec::new();
            assert(none@ =~= Seq::empty());
            none
        },
        MachineInst::IntMul { lhs, rhs, .. } => list2(*lhs, *rhs),
        MachineInst::IntDiv { lhs, rhs, .. } => list2(*lhs, *rhs),
        MachineInst::IntRem { lhs, rhs, .. } => list2(*lhs, *rhs),
        MachineInst::IntCmp { lhs, rhs, .. } => list2(*lhs, *rhs),
        MachineInst::FloatCmp { lhs, rhs, .. } => list2(*lhs, *rhs),
        MachineInst::IntNeg { src, .. } => list1(*src),
        MachineInst::Not { src, .. } => list1(*src),
        MachineInst::FloatSqrt { src, .. } => list1(*src),
        MachineInst::FloatRound { src, .. } => list1(*src),
        MachineInst::FloatAbs { src, .. } => list1(*src),
        MachineInst::FloatNeg { src, .. } => list1(*src),
        MachineInst::IntToFloat { src, .. } => list1(*src),
        MachineInst::FloatToInt { src, .. } => list1(*src),
        MachineInst::Lea { base, index, .. } => list2(*base, *index),
        MachineInst::IntCmov { cond, then_val, else_val, .. } => {
            let mut r: Vec<Value> = list2(*cond, *then_val);
            r.push(*else_val);
            assert(r@ =~= seq![*cond, *then_val, *else_val]);
            r
        },
        MachineInst::FloatFma { a, b, addend, .. } => {
            let mut r: Vec<Value> = list2(*a, *b);
            r.push(*addend);
            assert(r@ =~= seq![*a, *b, *addend]);
            r
        },
        MachineInst::CallLibm { args, .. } => copy_list(args),
        MachineInst::ExternalCall { args, .. } => copy_list(args),
        MachineInst::Branch { cond, .. } => list1(*cond),
        MachineInst::Return { value } => list1(*value),
        _ => match shape_of(inst) {
            Shape::Alu { lhs, rhs, .. } => list2(lhs, rhs),
            Shape::Sse { lhs, rhs, .. } => list2(lhs, rhs),
            Shape::Shift { lhs, rhs, .. } => list2(lhs, rhs),
            Shape::Other => {
                let none: Vec<Value> = Vec::new();
                assert(none@ =~= Seq::empty());
                none
            },
        },
    }
}

pub fn def_of(inst: &MachineInst) -> (r: Option<Value>)
    ensures
        r == defines(*inst),
{
    match inst {
        MachineInst::LoadImmI64 { dst, .. }
        | MachineInst::LoadImmF64 { dst, .. }
        | MachineInst::IntMul { dst, .. }
        | MachineInst::IntDiv { dst, .. }
        | MachineInst::IntRem { dst, .. }
        | MachineInst::IntNeg { dst, .. }
        | MachineInst::Not { dst, .. }
        | MachineInst::Lea { dst, .. }
        | MachineInst::FloatFma { dst, .. }
        | MachineInst::FloatSqrt { dst, .. }
        | MachineInst::FloatRound { dst, .. }
        | MachineInst::FloatAbs { dst, .. }
        | MachineInst::FloatNeg { dst, .. }
        | MachineInst::IntToFloat { dst, .. }
        | MachineInst::FloatToInt { dst, .. }
        | MachineInst::IntCmp { dst, .. }
        | MachineInst::FloatCmp { dst, .. }
        | MachineInst::IntCmov { dst, .. }
        | MachineInst::Param { dst, .. }
        | MachineInst::CallLibm { dst, .. }
        | MachineInst::ExternalCall { dst, .. } => Some(*dst),
        MachineInst::Jump { .. } | MachineInst::Branch { .. } | MachineInst::Return { .. } => None,
        _ => match shape_of(inst) {
            Shape::Alu { dst, .. } => Some(dst),
            Shape::Sse { dst, .. } => Some(dst),
            Shape::Shift { dst, .. } => Some(dst),
            Shape::Other => None,
        },
    }
}

// ---------------------------------------------------------------------------
// Assembler operations

#[derive(Clone, Copy, Debug, PartialEq, Eq, Structural)]
pub enum AluOp {
    Add,
    Sub,
    And,
    Or,
    Xor,
    Cmp,
}

#[derive(Clone, Copy, Debug, PartialEq, Eq, Structural)]
pub enum SseOp {
    Add,
    Sub,
    Mul,
    Div,
    Min,
    Max,
    Sqrt,
}

#[derive(Clone, Copy, Debug, PartialEq, Eq, Structural)]
pub enum ShiftOp {
    Shl,
    Shr,
    Sar,
}

#[derive(Clone, Copy, Debug, PartialEq, Eq, Structural)]
pub enum ConditionCode {
    Equal,
    NotEqual,
    Less,
    LessOrEqual,
    Greater,
    GreaterOrEqual,
    Below,
    BelowOrEqual,
    Above,
    AboveOrEqual,
}

/// A place in the code that jumps and loads refer to.
#[derive(Clone, Copy, Debug, PartialEq, Eq, Structural)]
pub struct Label(pub usize);

/// One operation of the assembler.
#[allow(inconsistent_fields)]
#[derive(Clone, Copy, Debug, PartialEq, Eq, Structural)]
pub enum AsmOp {
    MovRegReg { dst: PhysReg, src: PhysReg },
    MovRegImm { dst: PhysReg, imm: i64 },
    MovRegMem { dst: PhysReg, base: PhysReg, offset: i32 },
    MovMemReg { base: PhysReg, offset: i32, src: PhysReg },
    MovsdRegReg { dst: PhysReg, src: PhysReg },
    MovsdRegMem { dst: PhysReg, base: PhysReg, offset: i32 },
    MovsdMemReg { base: PhysReg, offset: i32, src: PhysReg },
    MovsdRegRiprel { dst: PhysReg, label: Label },
    AluRegReg { op: AluOp, dst: PhysReg, src: PhysReg },
    AluRegImm { op: AluOp, dst: PhysReg, imm: i32 },
    /// An operation on doubles. The minimum and the maximum come with a guard:
    /// where one operand is no number, the other one is the result.
    SseRegReg { op: SseOp, dst: PhysReg, src: PhysReg },
    /// The bare instruction, without a guard.
    SseBare { op: SseOp, dst: PhysReg, src: PhysReg },
    /// Jumps over the next operations.
    Skip { count: u8 },
    /// The same, if the doubles compared last have no order.
    SkipIfUnordered { count: u8 },
    ShiftRegCl { op: ShiftOp, dst: PhysReg },
    ImulRegReg { dst: PhysReg, src: PhysReg },
    Cqo,
    IdivReg { src: PhysReg },
    NegReg { dst: PhysReg },
    NotReg { dst: PhysReg },
    LeaRegScaled { dst: PhysReg, base: PhysReg, index: PhysReg, scale: u8, disp: i32 },
    Roundsd { mode: u8, dst: PhysReg, src: PhysReg },
    AndpdRegReg { dst: PhysReg, src: PhysReg },
    XorpdRegReg { dst: PhysReg, src: PhysReg },
    Cvtsi2sd { dst: PhysReg, src: PhysReg },
    Cvttsd2si { dst: PhysReg, src: PhysReg },
    UcomisdRegReg { lhs: PhysReg, rhs: PhysReg },
    TestRegReg { lhs: PhysReg, rhs: PhysReg },
    Setcc { cond: ConditionCode, dst: PhysReg },
    Cmovcc { cond: ConditionCode, dst: PhysReg, src: PhysReg },
    CallReg { target: PhysReg },
    Jmp { label: Label },
    Jcc { cond: ConditionCode, label: Label },
    Ret,
    Bind { label: Label },
    EmitU64 { bits: u64 },
    /// Makes the frame of the function.
    Prologue,
    /// Takes the frame down and returns.
    Epilogue,
}

/// The instructions of a guarded operation. Each operand is compared with
/// itself, which tells whether it is a number.
pub open spec fn guard(op: SseOp, dst: PhysReg, src: PhysReg) -> Seq<AsmOp> {
    seq![
        AsmOp::UcomisdRegReg { lhs: dst, rhs: dst },
        AsmOp::SkipIfUnordered { count: 4 },
        AsmOp::UcomisdRegReg { lhs: src, rhs: src },
        AsmOp::SkipIfUnordered { count: 3 },
        AsmOp::SseBare { op, dst, src },
        AsmOp::Skip { count: 1 },
        AsmOp::MovsdRegReg { dst, src },
    ]
}

/// The instructions that an operation is made of.
pub open spec fn parts_of(op: AsmOp) -> Seq<AsmOp> {
    match op {
        AsmOp::SseRegReg { op: SseOp::Min, dst, src } => guard(SseOp::Min, dst, src),
        AsmOp::SseRegReg { op: SseOp::Max, dst, src } => guard(SseOp::Max, dst, src),
        AsmOp::SseRegReg { op, dst, src } => seq![AsmOp::SseBare { op, dst, src }],
        _ => seq![op],
    }
}

impl AsmOp {
    /// The instructions that the operation is made of.
    pub fn parts(self) -> (r: Vec<AsmOp>)
        ensures
            r@ == parts_of(self),
    {
        let mut r: Vec<AsmOp> = Vec::new();
        match self {
            AsmOp::SseRegReg { op, dst, src } => {
                if op == SseOp::Min || op == SseOp::Max {
                    r.push(AsmOp::UcomisdRegReg { lhs: dst, rhs: dst });
                    r.push(AsmOp::SkipIfUnordered { count: 4 });
                    r.push(AsmOp::UcomisdRegReg { lhs: src, rhs: src });
                    r.push(AsmOp::SkipIfUnordered { count: 3 });
                    r.push(AsmOp::SseBare { op, dst, src });
                    r.push(AsmOp::Skip { count: 1 });
                    r.push(AsmOp::MovsdRegReg { dst, src });
                } else {
                    r.push(AsmOp::SseBare { op, dst, src });
                }
            },
            _ => {
                r.push(self);
            },
        }
        assert(r@ =~= parts_of(self));
        r
    }
}

/// The operations so far; there are none once something could not be emitted.
pub type Ops = Option<Seq<AsmOp>>;

/// One more operation.
pub open spec fn put(acc: Ops, op: AsmOp) -> Ops {
    match acc {
        Some(ops) => Some(ops.push(op)),
        None => None,
    }
}

/// One more operation, if it is needed.
pub open spec fn put_if(acc: Ops, needed: bool, op: AsmOp) -> Ops {
    if needed {
        put(acc, op)
    } else {
        acc
    }
}

/// Collects operations.
pub struct Assembler {
    ops: Vec<AsmOp>,
    labels: usize,
    broken: bool,
}

impl View for Assembler {
    type V = Ops;

    closed spec fn view(&self) -> Ops {
        if self.broken {
            None
        } else {
            Some(self.ops@)
        }
    }
}

impl Assembler {
    /// How many labels have been made.
    pub closed spec fn made(&self) -> nat {
        self.labels as nat
    }

    pub fn new() -> (r: Assembler)
        ensures
            r@ == Some(Seq::<AsmOp>::empty()),
            r.made() == 0,
    {
        let r: Assembler = Assembler { ops: Vec::new(), labels: 0, broken: false };
        assert(r.ops@ =~= Seq::empty());
        r
    }

    pub fn put(&mut self, op: AsmOp)
        ensures
            final(self)@ == self::put(old(self)@, op),
            final(self).made() == old(self).made(),
    {
        if !self.broken {
            self.ops.push(op);
        }
    }

    pub fn put_if(&mut self, needed: bool, op: AsmOp)
        ensures
            final(self)@ == self::put_if(old(self)@, needed, op),
            final(self).made() == old(self).made(),
    {
        if needed {
            self.put(op);
        }
    }

    /// Nothing can be emitted any more.
    pub fn fail(&mut self)
        ensures
            final(self)@ == None::<Seq<AsmOp>>,
            final(self).made() == old(self).made(),
    {
        self.broken = true;
    }

    /// Makes a label.
    pub fn new_label(&mut self) -> (label: Label)
        requires
            old(self).made() < usize::MAX,
        ensures
            label.0 == old(self).made(),
            final(self).made() == old(self).made() + 1,
            final(self)@ == old(self)@,
    {
        let label: Label = Label(self.labels);
        self.labels = self.labels + 1;
        label
    }

    pub fn finish(self) -> (r: Option<Vec<AsmOp>>)
        ensures
            match r {
                Some(ops) => self@ == Some(ops@),
                None => self@ is None,
            },
    {
        if self.broken {
            None
        } else {
            Some(self.ops)
        }
    }
}

} // verus!
