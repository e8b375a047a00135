//! Machine instructions as the emitters think of them, before addresses are
//! known, and how they become bytes.
//!
//! Every instruction is one word. Branches name blocks and literal loads name
//! the literal; linking places the literals in an aligned pool behind the
//! code and turns both into displacements.
use crate::aarch64::encode::{
    add_reg, and_reg, asr, blr, cmp_reg, encode_add_sub_imm, encode_branch, encode_branch_cond,
    encode_ldr_literal_d, eor_reg, fabs_d, fadd_d, fcmp_d, fcvtzs, fdiv_d, fmadd_d, fmax_d, fmin_d,
    fmov_d, fmul_d, fneg_d, fsqrt_d, fsub_d, ldr, ldr_d, lsl, lsr, movk, movz, msub, mul, orr_reg,
    scvtf, sdiv, sp, str_, str_d, sub_reg, Condition, Gpr,
};
use crate::aarch64::encode::{
    add_sub_imm_word, branch_reach, branch_word, near_reach, near_word, reg, slot_offset_ok,
    wide_shift_ok, word2, word3, word4, word_imm12, word_pair, word_wide,
};
use crate::aarch64::decode::{lemma_word_decodes, reads_as, registers_ok};
use vstd::prelude::*;

verus! {

/// An operation on two X registers.
#[derive(Clone, Copy, Debug, PartialEq, Eq, Structural)]
pub enum IntOp {
    Add,
    Sub,
    Mul,
    Div,
    And,
    Or,
    Xor,
    Shl,
    Shr,
    Sar,
}

/// An operation on two D registers.
#[derive(Clone, Copy, Debug, PartialEq, Eq, Structural)]
pub enum FloatPairOp {
    Add,
    Sub,
    Mul,
    Div,
    Min,
    Max,
}

/// An operation on one D register.
#[derive(Clone, Copy, Debug, PartialEq, Eq, Structural)]
pub enum FloatUnaryOp {
    Move,
    Neg,
    Abs,
    Sqrt,
}

/// A machine instruction. Loads and stores address the stack frame.
#[derive(Clone, Copy, Debug, PartialEq, Eq, Structural)]
pub enum A64 {
    Int { op: IntOp, dst: Gpr, lhs: Gpr, rhs: Gpr },
    Float { pair: FloatPairOp, dst: Gpr, lhs: Gpr, rhs: Gpr },
    Unary { unary: FloatUnaryOp, dst: Gpr, src: Gpr },
    /// `dst = minuend - lhs * rhs`
    MulSub { dst: Gpr, lhs: Gpr, rhs: Gpr, minuend: Gpr },
    /// `dst = lhs * rhs + addend`
    FusedMulAdd { dst: Gpr, lhs: Gpr, rhs: Gpr, addend: Gpr },
    FromInt { dst: Gpr, src: Gpr },
    ToInt { dst: Gpr, src: Gpr },
    Compare { lhs: Gpr, rhs: Gpr },
    CompareFloat { lhs: Gpr, rhs: Gpr },
    Load { dst: Gpr, slot: u16 },
    Store { src: Gpr, slot: u16 },
    LoadFloat { dst: Gpr, slot: u16 },
    StoreFloat { src: Gpr, slot: u16 },
    MoveWide { dst: Gpr, imm: u16, shift: u8 },
    MoveKeep { dst: Gpr, imm: u16, shift: u8 },
    OpenFrame { bytes: u16 },
    CloseFrame { bytes: u16 },
    CallRegister { target: Gpr },
    Return,
    /// Loads a 64-bit literal from the pool.
    Literal { dst: Gpr, bits: u64 },
    Jump { block: usize },
    JumpIf { condition: Condition, block: usize },
}

impl IntOp {
    pub open spec fn base(self) -> u32 {
        match self {
            IntOp::Add => 0x8b00_0000,
            IntOp::Sub => 0xcb00_0000,
            IntOp::Mul => 0x9b00_7c00,
            IntOp::Div => 0x9ac0_0c00,
            IntOp::And => 0x8a00_0000,
            IntOp::Or => 0xaa00_0000,
            IntOp::Xor => 0xca00_0000,
            IntOp::Shl => 0x9ac0_2000,
            IntOp::Shr => 0x9ac0_2400,
            IntOp::Sar => 0x9ac0_2800,
        }
    }

    fn word(self, dst: Gpr, lhs: Gpr, rhs: Gpr) -> (r: u32)
        ensures
            r == word3(self.base(), dst, lhs, rhs),
            dst.number() < 32,
            lhs.number() < 32,
            rhs.number() < 32,
    {
        match self {
            IntOp::Add => add_reg(dst, lhs, rhs),
            IntOp::Sub => sub_reg(dst, lhs, rhs),
            IntOp::Mul => crate::aarch64::encode::mul(dst, lhs, rhs),
            IntOp::Div => sdiv(dst, lhs, rhs),
            IntOp::And => and_reg(dst, lhs, rhs),
            IntOp::Or => orr_reg(dst, lhs, rhs),
            IntOp::Xor => eor_reg(dst, lhs, rhs),
            IntOp::Shl => lsl(dst, lhs, rhs),
            IntOp::Shr => lsr(dst, lhs, rhs),
            IntOp::Sar => asr(dst, lhs, rhs),
        }
    }
}

impl FloatPairOp {
    pub open spec fn base(self) -> u32 {
        match self {
            FloatPairOp::Add => 0x1e60_2800,
            FloatPairOp::Sub => 0x1e60_3800,
            FloatPairOp::Mul => 0x1e60_0800,
            FloatPairOp::Div => 0x1e60_1800,
            FloatPairOp::Min => 0x1e60_7800,
            FloatPairOp::Max => 0x1e60_6800,
        }
    }

    fn word(self, dst: Gpr, lhs: Gpr, rhs: Gpr) -> (r: u32)
        ensures
            r == word3(self.base(), dst, lhs, rhs),
            dst.number() < 32,
            lhs.number() < 32,
            rhs.number() < 32,
    {
        match self {
            FloatPairOp::Add => fadd_d(dst, lhs, rhs),
            FloatPairOp::Sub => fsub_d(dst, lhs, rhs),
            FloatPairOp::Mul => fmul_d(dst, lhs, rhs),
            FloatPairOp::Div => fdiv_d(dst, lhs, rhs),
            FloatPairOp::Min => fmin_d(dst, lhs, rhs),
            FloatPairOp::Max => fmax_d(dst, lhs, rhs),
        }
    }
}

impl FloatUnaryOp {
    pub open spec fn base(self) -> u32 {
        match self {
            FloatUnaryOp::Move => 0x1e60_4000,
            FloatUnaryOp::Neg => 0x1e61_4000,
            FloatUnaryOp::Abs => 0x1e60_c000,
            FloatUnaryOp::Sqrt => 0x1e61_c000,
        }
    }

    fn word(self, dst: Gpr, src: Gpr) -> (r: u32)
        ensures
            r == word2(self.base(), dst, src),
            dst.number() < 32,
            src.number() < 32,
    {
        match self {
            FloatUnaryOp::Move => fmov_d(dst, src),
            FloatUnaryOp::Neg => fneg_d(dst, src),
            FloatUnaryOp::Abs => fabs_d(dst, src),
            FloatUnaryOp::Sqrt => fsqrt_d(dst, src),
        }
    }
}

/// The word of an instruction whose displacement, if it has one, is `offset`
/// bytes.
pub open spec fn word_of(i: A64, offset: i32) -> u32 {
    match i {
        A64::Int { op, dst, lhs, rhs } => word3(op.base(), dst, lhs, rhs),
        A64::Float { pair, dst, lhs, rhs } => word3(pair.base(), dst, lhs, rhs),
        A64::Unary { unary, dst, src } => word2(unary.base(), dst, src),
        A64::MulSub { dst, lhs, rhs, minuend } => word4(
            0x9b00_8000,
            rhs.number(),
            minuend.number(),
            lhs.number(),
            dst.number(),
        ),
        A64::FusedMulAdd { dst, lhs, rhs, addend } => word4(
            0x1f40_0000,
            rhs.number(),
            addend.number(),
            lhs.number(),
            dst.number(),
        ),
        A64::FromInt { dst, src } => word2(0x9e62_0000, dst, src),
        A64::ToInt { dst, src } => word2(0x9e78_0000, dst, src),
        A64::Compare { lhs, rhs } => word_pair(0xeb00_001f, lhs, rhs),
        A64::CompareFloat { lhs, rhs } => word_pair(0x1e60_2000, lhs, rhs),
        A64::Load { dst, slot } => word_imm12(0xf940_0000, (slot / 8) as u32, reg(31), dst),
        A64::Store { src, slot } => word_imm12(0xf900_0000, (slot / 8) as u32, reg(31), src),
        A64::LoadFloat { dst, slot } => word_imm12(0xfd40_0000, (slot / 8) as u32, reg(31), dst),
        A64::StoreFloat { src, slot } => word_imm12(0xfd00_0000, (slot / 8) as u32, reg(31), src),
        A64::MoveWide { dst, imm, shift } => word_wide(0xd280_0000, imm, shift, dst),
        A64::MoveKeep { dst, imm, shift } => word_wide(0xf280_0000, imm, shift, dst),
        A64::OpenFrame { bytes } => add_sub_imm_word(true, reg(31), reg(31), bytes, false),
        A64::CloseFrame { bytes } => add_sub_imm_word(false, reg(31), reg(31), bytes, false),
        A64::CallRegister { target } => 0xd63f_0000u32 | ((target.number() as u32) << 5u32),
        A64::Return => 0xd65f_03c0,
        A64::Literal { dst, .. } => near_word(0x5c00_0000, offset, dst.number() as u32),
        A64::Jump { .. } => branch_word(offset),
        A64::JumpIf { condition, .. } => near_word(0x5400_0000, offset, condition.field()),
    }
}

/// The instruction can be encoded, apart from its displacement.
pub open spec fn encodable(i: A64) -> bool {
    match i {
        A64::Load { slot, .. } => slot_offset_ok(slot),
        A64::Store { slot, .. } => slot_offset_ok(slot),
        A64::LoadFloat { slot, .. } => slot_offset_ok(slot),
        A64::StoreFloat { slot, .. } => slot_offset_ok(slot),
        A64::MoveWide { shift, .. } => wide_shift_ok(shift),
        A64::MoveKeep { shift, .. } => wide_shift_ok(shift),
        A64::OpenFrame { bytes } => bytes < 4096,
        A64::CloseFrame { bytes } => bytes < 4096,
        _ => true,
    }
}

pub open spec fn all_encodable(code: Seq<A64>) -> bool {
    forall|i: int| #![trigger code[i]] 0 <= i < code.len() ==> encodable(code[i])
}

/// The instruction can reach `offset` bytes away.
pub open spec fn in_reach(i: A64, offset: int) -> bool {
    match i {
        A64::Literal { .. } => near_reach(offset),
        A64::Jump { .. } => branch_reach(offset),
        A64::JumpIf { .. } => near_reach(offset),
        _ => true,
    }
}

/// The same of a displacement that is already an `i32`.
pub open spec fn reaches(i: A64, offset: i32) -> bool {
    in_reach(i, offset as int)
}

pub fn encode(i: A64, offset: i32) -> (r: u32)
    requires
        encodable(i),
        reaches(i, offset),
    ensures
        r == word_of(i, offset),
        registers_ok(i),
        reads_as(r, i, offset),
{
    let r: u32 = match i {
        A64::Int { op, dst, lhs, rhs } => op.word(dst, lhs, rhs),
        A64::Float { pair, dst, lhs, rhs } => pair.word(dst, lhs, rhs),
        A64::Unary { unary, dst, src } => unary.word(dst, src),
        A64::MulSub { dst, lhs, rhs, minuend } => msub(dst, lhs, rhs, minuend),
        A64::FusedMulAdd { dst, lhs, rhs, addend } => fmadd_d(dst, lhs, rhs, addend),
        A64::FromInt { dst, src } => scvtf(dst, src),
        A64::ToInt { dst, src } => fcvtzs(dst, src),
        A64::Compare { lhs, rhs } => cmp_reg(lhs, rhs),
        A64::CompareFloat { lhs, rhs } => fcmp_d(lhs, rhs),
        A64::Load { dst, slot } => ldr(dst, sp(), slot),
        A64::Store { src, slot } => str_(src, sp(), slot),
        A64::LoadFloat { dst, slot } => ldr_d(dst, sp(), slot),
        A64::StoreFloat { src, slot } => str_d(src, sp(), slot),
        A64::MoveWide { dst, imm, shift } => movz(dst, imm, shift),
        A64::MoveKeep { dst, imm, shift } => movk(dst, imm, shift),
        A64::OpenFrame { bytes } => encode_add_sub_imm(true, sp(), sp(), bytes, false),
        A64::CloseFrame { bytes } => encode_add_sub_imm(false, sp(), sp(), bytes, false),
        A64::CallRegister { target } => blr(target),
        A64::Return => 0xd65f_03c0,
        A64::Literal { dst, .. } => encode_ldr_literal_d(dst, offset),
        A64::Jump { .. } => encode_branch(offset),
        A64::JumpIf { condition, .. } => encode_branch_cond(condition, offset),
    };
    proof {
        lemma_word_decodes(i, offset);
    }
    r
}

// ---------------------------------------------------------------------------
// Constants

/// The 16 bits of `value` from bit `shift` on.
pub open spec fn half(value: u64, shift: int) -> u16 {
    ((value >> (shift as u64)) & 0xffff) as u16
}

/// Keeps the rest of the register and sets 16 bits, unless they are zero.
pub open spec fn keep_half(dst: Gpr, value: u64, shift: u8) -> Seq<A64> {
    if half(value, shift as int) != 0 {
        seq![A64::MoveKeep { dst, imm: half(value, shift as int), shift }]
    } else {
        Seq::empty()
    }
}

/// Puts `value` in a register, sixteen bits at a time: the lowest clear the
/// register, and zero halves above need nothing.
pub open spec fn constant(dst: Gpr, value: u64) -> Seq<A64> {
    seq![A64::MoveWide { dst, imm: half(value, 0), shift: 0 }] + keep_half(dst, value, 16)
        + keep_half(dst, value, 32) + keep_half(dst, value, 48)
}

pub fn emit_i64_constant(code: &mut Vec<A64>, dst: Gpr, value: u64)
    ensures
        final(code)@ == old(code)@ + constant(dst, value),
{
    let ghost start = code@;
    let low: u16 = (value & 0xffff) as u16;
    proof {
        assert((value >> 0u64) & 0xffff == value & 0xffff) by (bit_vector);
    }
    code.push(A64::MoveWide { dst, imm: low, shift: 0 });
    let a: u16 = ((value >> 16u64) & 0xffff) as u16;
    if a != 0 {
        code.push(A64::MoveKeep { dst, imm: a, shift: 16 });
    }
    let b: u16 = ((value >> 32u64) & 0xffff) as u16;
    if b != 0 {
        code.push(A64::MoveKeep { dst, imm: b, shift: 32 });
    }
    let c: u16 = ((value >> 48u64) & 0xffff) as u16;
    if c != 0 {
        code.push(A64::MoveKeep { dst, imm: c, shift: 48 });
    }
    assert(code@ =~= start + constant(dst, value));
}

/// What a register holds after MOVZ and MOVK instructions.
pub open spec fn wide_value(code: Seq<A64>, start: u64) -> u64
    decreases code.len(),
{
    if code.len() == 0 {
        start
    } else {
        let before = wide_value(code.drop_last(), start);
        match code.last() {
            A64::MoveWide { imm, shift, .. } => (imm as u64) << (shift as u64),
            A64::MoveKeep { imm, shift, .. } => (before & !(0xffffu64 << (shift as u64))) | ((
            imm as u64) << (shift as u64)),
            _ => before,
        }
    }
}

/// One more half set.
proof fn lemma_keep_half(code: Seq<A64>, dst: Gpr, value: u64, shift: u8, start: u64)
    requires
        shift == 16 || shift == 32 || shift == 48,
        wide_value(code, start) == value & (((1u64 << (shift as u64)) - 1) as u64),
    ensures
        wide_value(code + keep_half(dst, value, shift), start) == value & (if shift == 48 {
            u64::MAX
        } else {
            ((1u64 << ((shift + 16) as u64)) - 1) as u64
        }),
{
    let more = code + keep_half(dst, value, shift);
    let before = wide_value(code, start);
    let imm = half(value, shift as int);
    let s = shift as u64;
    assert(imm as u64 == (value >> s) & 0xffff) by {
        assert((value >> s) & 0xffff <= 0xffff) by (bit_vector);
    }
    let h = imm as u64;
    if imm != 0 {
        assert(more.drop_last() =~= code);
        assert(more.last() == A64::MoveKeep { dst, imm, shift });
    } else {
        assert(more =~= code);
    }
    assert((s == 16 || s == 32 || s == 48) && h == (value >> s) & 0xffff && before == value & (((
    1u64 << s) - 1) as u64) ==> (before & !(0xffffu64 << s)) | (h << s) == value & (if s == 48 {
        u64::MAX
    } else {
        ((1u64 << ((s + 16) as u64)) - 1) as u64
    }) && (h == 0 ==> before == value & (if s == 48 {
        u64::MAX
    } else {
        ((1u64 << ((s + 16) as u64)) - 1) as u64
    }))) by (bit_vector);
}

/// The code of a constant leaves the constant in the register, whatever was
/// there.
pub proof fn lemma_constant(dst: Gpr, value: u64, start: u64)
    ensures
        wide_value(constant(dst, value), start) == value,
{
    let c0 = seq![A64::MoveWide { dst, imm: half(value, 0), shift: 0 }];
    assert(c0.drop_last() =~= Seq::empty());
    let low = half(value, 0);
    assert(low as u64 == value & 0xffff) by {
        assert((value >> 0u64) & 0xffff == value & 0xffff && value & 0xffff <= 0xffff)
            by (bit_vector);
    }
    let l = low as u64;
    assert(l << 0u64 == l && ((1u64 << 16u64) - 1) as u64 == 0xffff) by (bit_vector);
    lemma_keep_half(c0, dst, value, 16, start);
    let c1 = c0 + keep_half(dst, value, 16);
    lemma_keep_half(c1, dst, value, 32, start);
    let c2 = c1 + keep_half(dst, value, 32);
    lemma_keep_half(c2, dst, value, 48, start);
    assert(value & u64::MAX == value) by (bit_vector);
}

} // verus!
