//! AArch64 scalar instruction encoders.
//!
//! Instructions are kept as 32-bit words until [`Assembler::bytes`]
//! serializes them in architectural little-endian order.
use crate::aarch64::decode::{
    bit_of, decode, imm_form, lemma_branch_decodes, lemma_condition_decodes, lemma_four,
    lemma_imm_decodes, lemma_literal_decodes, lemma_mask_decodes, lemma_mask_means,
    lemma_slot_decodes, lemma_word_decodes, mask_bit, Decoded,
};
use crate::aarch64::machine::{FloatPairOp, FloatUnaryOp, IntOp, A64};
use vstd::prelude::*;

verus! {

/// A register number. X registers and D registers share the numbering; the
/// instruction decides which bank is meant.
#[derive(Clone, Copy, Debug, PartialEq, Eq, Structural)]
pub struct Gpr(pub(crate) u8);

impl Gpr {
    /// There are 32 register numbers.
    #[verifier::type_invariant]
    spec fn in_range(self) -> bool {
        self.0 < 32
    }

    /// The register number.
    pub closed spec fn number(self) -> u8 {
        self.0
    }

    /// An X register, X0..X30.
    pub fn new(index: u8) -> (r: Gpr)
        requires
            index < 31,
        ensures
            r == reg(index as int),
            r.number() == index,
    {
        Gpr(index)
    }

    /// A floating-point register. D0..D31 have 32 architectural registers,
    /// while the integer X register namespace reserves number 31 for SP/XZR
    /// and is therefore handled by [`Gpr::new`] plus the named constants.
    pub fn new_d(index: u8) -> (r: Gpr)
        requires
            index < 32,
        ensures
            r == reg(index as int),
            r.number() == index,
    {
        Gpr(index)
    }

    pub fn index(self) -> (r: u8)
        ensures
            r == self.number(),
            r < 32,
    {
        proof {
            use_type_invariant(&self);
        }
        self.0
    }
}

/// The register with number `n`.
pub closed spec fn reg(n: int) -> Gpr {
    Gpr(n as u8)
}

/// Registers are told apart by their numbers.
pub proof fn lemma_reg(n: int)
    requires
        0 <= n < 32,
    ensures
        reg(n).number() == n,
{
}

/// A register is the one with its number.
pub proof fn lemma_reg_number(r: Gpr)
    ensures
        reg(r.number() as int) == r,
        reg(31).number() == 31,
{
}

/// The stack pointer, as the addressing and add/sub-immediate forms read
/// register number 31.
pub fn sp() -> (r: Gpr)
    ensures
        r == reg(31),
        r.number() == 31,
{
    Gpr(31)
}

/// The architectural zero register. Register number 31 is interpreted as
/// `XZR` by arithmetic/logical register instructions and as `SP` by the
/// addressing and add/sub-immediate forms; keep the two names distinct at
/// call sites so an integer negation cannot accidentally read the stack
/// pointer as its zero operand.
pub fn xzr() -> (r: Gpr)
    ensures
        r == reg(31),
        r.number() == 31,
{
    Gpr(31)
}

/// Branch conditions.
#[derive(Clone, Copy, Debug, PartialEq, Eq, Structural)]
pub enum Condition {
    Eq,
    Ne,
    Lt,
    Ge,
    Gt,
    Le,
    Mi,
    Ls,
    Al,
}

impl Condition {
    /// The four-bit condition field.
    pub open spec fn field(self) -> u32 {
        match self {
            Condition::Eq => 0,
            Condition::Ne => 1,
            Condition::Lt => 0xb,
            Condition::Ge => 0xa,
            Condition::Gt => 0xc,
            Condition::Le => 0xd,
            Condition::Mi => 4,
            Condition::Ls => 9,
            Condition::Al => 0xe,
        }
    }

    /// The architectural number of this condition.
    pub fn code(self) -> (r: u32)
        ensures
            r == self.field(),
    {
        match self {
            Condition::Eq => 0,
            Condition::Ne => 1,
            Condition::Lt => 0xb,
            Condition::Ge => 0xa,
            Condition::Gt => 0xc,
            Condition::Le => 0xd,
            Condition::Mi => 4,
            Condition::Ls => 9,
            Condition::Al => 0xe,
        }
    }
}

/// The word `base` with register fields: Rm at bit 16, Ra at bit 10, Rn at
/// bit 5, Rd at bit 0.
pub open spec fn word4(base: u32, rm: u8, ra: u8, rn: u8, rd: u8) -> u32 {
    base | ((rm as u32) << 16u32) | ((ra as u32) << 10u32) | ((rn as u32) << 5u32) | (rd as u32)
}

/// A three-register word: Rd at bit 0, Rn at bit 5, Rm at bit 16.
pub open spec fn word3(base: u32, dst: Gpr, lhs: Gpr, rhs: Gpr) -> u32 {
    base | ((rhs.number() as u32) << 16u32) | ((lhs.number() as u32) << 5u32) | (dst.number() as u32)
}

/// A two-register word: Rd at bit 0, Rn at bit 5.
pub open spec fn word2(base: u32, dst: Gpr, src: Gpr) -> u32 {
    base | ((src.number() as u32) << 5u32) | (dst.number() as u32)
}

/// A word with a source pair and no destination: Rn at bit 5, Rm at bit 16.
pub open spec fn word_pair(base: u32, lhs: Gpr, rhs: Gpr) -> u32 {
    base | ((rhs.number() as u32) << 16u32) | ((lhs.number() as u32) << 5u32)
}

/// A word that holds a 12-bit immediate at bit 10, Rn at bit 5, Rd at bit 0.
pub open spec fn word_imm12(base: u32, imm: u32, rn: Gpr, rd: Gpr) -> u32 {
    base | (imm << 10u32) | ((rn.number() as u32) << 5u32) | (rd.number() as u32)
}

/// A wide-immediate word: half-word selector at bit 21, 16-bit immediate at
/// bit 5, Rd at bit 0.
pub open spec fn word_wide(base: u32, imm: u16, shift: u8, rd: Gpr) -> u32 {
    base | (((shift / 16) as u32) << 21u32) | ((imm as u32) << 5u32) | (rd.number() as u32)
}

/// An immediate offset of a scaled eight-byte load or store that the
/// instruction can hold.
pub open spec fn slot_offset_ok(offset_bytes: u16) -> bool {
    offset_bytes % 8 == 0 && offset_bytes / 8 < 4096
}

/// A half-word position of MOVZ/MOVK.
pub open spec fn wide_shift_ok(shift: u8) -> bool {
    shift % 16 == 0 && shift <= 48
}

fn rr(base: u32, dst: Gpr, lhs: Gpr, rhs: Gpr) -> (r: u32)
    ensures
        r == word3(base, dst, lhs, rhs),
        dst.number() < 32,
        lhs.number() < 32,
        rhs.number() < 32,
{
    base | ((rhs.index() as u32) << 16u32) | ((lhs.index() as u32) << 5u32) | (dst.index() as u32)
}

fn rrr(base: u32, dst: Gpr, lhs: Gpr, rhs: Gpr, third: Gpr) -> (r: u32)
    ensures
        r == word4(base, rhs.number(), third.number(), lhs.number(), dst.number()),
        dst.number() < 32,
        lhs.number() < 32,
        rhs.number() < 32,
        third.number() < 32,
{
    base | ((rhs.index() as u32) << 16u32) | ((third.index() as u32) << 10u32) | ((lhs.index()
        as u32) << 5u32) | (dst.index() as u32)
}

fn unary(base: u32, dst: Gpr, src: Gpr) -> (r: u32)
    ensures
        r == word2(base, dst, src),
        dst.number() < 32,
        src.number() < 32,
{
    base | ((src.index() as u32) << 5u32) | (dst.index() as u32)
}

fn sources(base: u32, lhs: Gpr, rhs: Gpr) -> (r: u32)
    ensures
        r == word_pair(base, lhs, rhs),
        lhs.number() < 32,
        rhs.number() < 32,
{
    base | ((rhs.index() as u32) << 16u32) | ((lhs.index() as u32) << 5u32)
}

fn scaled(base: u32, register: Gpr, address: Gpr, offset_bytes: u16) -> (r: u32)
    ensures
        r == word_imm12(base, (offset_bytes / 8) as u32, address, register),
        register.number() < 32,
        address.number() < 32,
{
    base | (((offset_bytes / 8) as u32) << 10u32) | ((address.index() as u32) << 5u32) | (
    register.index() as u32)
}

fn wide(base: u32, dst: Gpr, imm: u16, shift: u8) -> (r: u32)
    ensures
        r == word_wide(base, imm, shift, dst),
        dst.number() < 32,
{
    base | (((shift / 16) as u32) << 21u32) | ((imm as u32) << 5u32) | (dst.index() as u32)
}

pub fn add_reg(dst: Gpr, lhs: Gpr, rhs: Gpr) -> (r: u32)
    ensures
        r == word3(0x8b00_0000, dst, lhs, rhs),
        decode(r) == Some(Decoded::Plain(A64::Int { op: IntOp::Add, dst, lhs, rhs })),
        dst.number() < 32,
        lhs.number() < 32,
        rhs.number() < 32,
{
    let r: u32 = rr(0x8b00_0000, dst, lhs, rhs);
    proof {
        lemma_word_decodes(A64::Int { op: IntOp::Add, dst, lhs, rhs }, 0);
    }
    r
}

pub fn sub_reg(dst: Gpr, lhs: Gpr, rhs: Gpr) -> (r: u32)
    ensures
        r == word3(0xcb00_0000, dst, lhs, rhs),
        decode(r) == Some(Decoded::Plain(A64::Int { op: IntOp::Sub, dst, lhs, rhs })),
        dst.number() < 32,
        lhs.number() < 32,
        rhs.number() < 32,
{
    let r: u32 = rr(0xcb00_0000, dst, lhs, rhs);
    proof {
        lemma_word_decodes(A64::Int { op: IntOp::Sub, dst, lhs, rhs }, 0);
    }
    r
}

/// `mul Xd, Xn, Xm`, the alias of `madd` with `XZR` as the addend.
pub fn mul(dst: Gpr, lhs: Gpr, rhs: Gpr) -> (r: u32)
    ensures
        r == word3(0x9b00_7c00, dst, lhs, rhs),
        decode(r) == Some(Decoded::Plain(A64::Int { op: IntOp::Mul, dst, lhs, rhs })),
        dst.number() < 32,
        lhs.number() < 32,
        rhs.number() < 32,
{
    let r: u32 = rr(0x9b00_7c00, dst, lhs, rhs);
    proof {
        lemma_word_decodes(A64::Int { op: IntOp::Mul, dst, lhs, rhs }, 0);
    }
    r
}

pub fn sdiv(dst: Gpr, lhs: Gpr, rhs: Gpr) -> (r: u32)
    ensures
        r == word3(0x9ac0_0c00, dst, lhs, rhs),
        decode(r) == Some(Decoded::Plain(A64::Int { op: IntOp::Div, dst, lhs, rhs })),
        dst.number() < 32,
        lhs.number() < 32,
        rhs.number() < 32,
{
    let r: u32 = rr(0x9ac0_0c00, dst, lhs, rhs);
    proof {
        lemma_word_decodes(A64::Int { op: IntOp::Div, dst, lhs, rhs }, 0);
    }
    r
}

pub fn and_reg(dst: Gpr, lhs: Gpr, rhs: Gpr) -> (r: u32)
    ensures
        r == word3(0x8a00_0000, dst, lhs, rhs),
        decode(r) == Some(Decoded::Plain(A64::Int { op: IntOp::And, dst, lhs, rhs })),
        dst.number() < 32,
        lhs.number() < 32,
        rhs.number() < 32,
{
    let r: u32 = rr(0x8a00_0000, dst, lhs, rhs);
    proof {
        lemma_word_decodes(A64::Int { op: IntOp::And, dst, lhs, rhs }, 0);
    }
    r
}

pub fn orr_reg(dst: Gpr, lhs: Gpr, rhs: Gpr) -> (r: u32)
    ensures
        r == word3(0xaa00_0000, dst, lhs, rhs),
        decode(r) == Some(Decoded::Plain(A64::Int { op: IntOp::Or, dst, lhs, rhs })),
        dst.number() < 32,
        lhs.number() < 32,
        rhs.number() < 32,
{
    let r: u32 = rr(0xaa00_0000, dst, lhs, rhs);
    proof {
        lemma_word_decodes(A64::Int { op: IntOp::Or, dst, lhs, rhs }, 0);
    }
    r
}

pub fn eor_reg(dst: Gpr, lhs: Gpr, rhs: Gpr) -> (r: u32)
    ensures
        r == word3(0xca00_0000, dst, lhs, rhs),
        decode(r) == Some(Decoded::Plain(A64::Int { op: IntOp::Xor, dst, lhs, rhs })),
        dst.number() < 32,
        lhs.number() < 32,
        rhs.number() < 32,
{
    let r: u32 = rr(0xca00_0000, dst, lhs, rhs);
    proof {
        lemma_word_decodes(A64::Int { op: IntOp::Xor, dst, lhs, rhs }, 0);
    }
    r
}

pub fn lsl(dst: Gpr, lhs: Gpr, rhs: Gpr) -> (r: u32)
    ensures
        r == word3(0x9ac0_2000, dst, lhs, rhs),
        decode(r) == Some(Decoded::Plain(A64::Int { op: IntOp::Shl, dst, lhs, rhs })),
        dst.number() < 32,
        lhs.number() < 32,
        rhs.number() < 32,
{
    let r: u32 = rr(0x9ac0_2000, dst, lhs, rhs);
    proof {
        lemma_word_decodes(A64::Int { op: IntOp::Shl, dst, lhs, rhs }, 0);
    }
    r
}

pub fn lsr(dst: Gpr, lhs: Gpr, rhs: Gpr) -> (r: u32)
    ensures
        r == word3(0x9ac0_2400, dst, lhs, rhs),
        decode(r) == Some(Decoded::Plain(A64::Int { op: IntOp::Shr, dst, lhs, rhs })),
        dst.number() < 32,
        lhs.number() < 32,
        rhs.number() < 32,
{
    let r: u32 = rr(0x9ac0_2400, dst, lhs, rhs);
    proof {
        lemma_word_decodes(A64::Int { op: IntOp::Shr, dst, lhs, rhs }, 0);
    }
    r
}

pub fn asr(dst: Gpr, lhs: Gpr, rhs: Gpr) -> (r: u32)
    ensures
        r == word3(0x9ac0_2800, dst, lhs, rhs),
        decode(r) == Some(Decoded::Plain(A64::Int { op: IntOp::Sar, dst, lhs, rhs })),
        dst.number() < 32,
        lhs.number() < 32,
        rhs.number() < 32,
{
    let r: u32 = rr(0x9ac0_2800, dst, lhs, rhs);
    proof {
        lemma_word_decodes(A64::Int { op: IntOp::Sar, dst, lhs, rhs }, 0);
    }
    r
}

pub fn fadd_d(dst: Gpr, lhs: Gpr, rhs: Gpr) -> (r: u32)
    ensures
        r == word3(0x1e60_2800, dst, lhs, rhs),
        decode(r) == Some(Decoded::Plain(A64::Float { pair: FloatPairOp::Add, dst, lhs, rhs })),
        dst.number() < 32,
        lhs.number() < 32,
        rhs.number() < 32,
{
    let r: u32 = rr(0x1e60_2800, dst, lhs, rhs);
    proof {
        lemma_word_decodes(A64::Float { pair: FloatPairOp::Add, dst, lhs, rhs }, 0);
    }
    r
}

pub fn fsub_d(dst: Gpr, lhs: Gpr, rhs: Gpr) -> (r: u32)
    ensures
        r == word3(0x1e60_3800, dst, lhs, rhs),
        decode(r) == Some(Decoded::Plain(A64::Float { pair: FloatPairOp::Sub, dst, lhs, rhs })),
        dst.number() < 32,
        lhs.number() < 32,
        rhs.number() < 32,
{
    let r: u32 = rr(0x1e60_3800, dst, lhs, rhs);
    proof {
        lemma_word_decodes(A64::Float { pair: FloatPairOp::Sub, dst, lhs, rhs }, 0);
    }
    r
}

pub fn fmul_d(dst: Gpr, lhs: Gpr, rhs: Gpr) -> (r: u32)
    ensures
        r == word3(0x1e60_0800, dst, lhs, rhs),
        decode(r) == Some(Decoded::Plain(A64::Float { pair: FloatPairOp::Mul, dst, lhs, rhs })),
        dst.number() < 32,
        lhs.number() < 32,
        rhs.number() < 32,
{
    let r: u32 = rr(0x1e60_0800, dst, lhs, rhs);
    proof {
        lemma_word_decodes(A64::Float { pair: FloatPairOp::Mul, dst, lhs, rhs }, 0);
    }
    r
}

pub fn fdiv_d(dst: Gpr, lhs: Gpr, rhs: Gpr) -> (r: u32)
    ensures
        r == word3(0x1e60_1800, dst, lhs, rhs),
        decode(r) == Some(Decoded::Plain(A64::Float { pair: FloatPairOp::Div, dst, lhs, rhs })),
        dst.number() < 32,
        lhs.number() < 32,
        rhs.number() < 32,
{
    let r: u32 = rr(0x1e60_1800, dst, lhs, rhs);
    proof {
        lemma_word_decodes(A64::Float { pair: FloatPairOp::Div, dst, lhs, rhs }, 0);
    }
    r
}

/// Forge's language-level min ignores a NaN when the other operand is a
/// number. AArch64's FMIN propagates NaNs; FMINNM is the matching "numeric
/// minimum" operation.
pub fn fmin_d(dst: Gpr, lhs: Gpr, rhs: Gpr) -> (r: u32)
    ensures
        r == word3(0x1e60_7800, dst, lhs, rhs),
        decode(r) == Some(Decoded::Plain(A64::Float { pair: FloatPairOp::Min, dst, lhs, rhs })),
        dst.number() < 32,
        lhs.number() < 32,
        rhs.number() < 32,
{
    let r: u32 = rr(0x1e60_7800, dst, lhs, rhs);
    proof {
        lemma_word_decodes(A64::Float { pair: FloatPairOp::Min, dst, lhs, rhs }, 0);
    }
    r
}

/// The numeric form FMAXNM, for the reason given at [`fmin_d`].
pub fn fmax_d(dst: Gpr, lhs: Gpr, rhs: Gpr) -> (r: u32)
    ensures
        r == word3(0x1e60_6800, dst, lhs, rhs),
        decode(r) == Some(Decoded::Plain(A64::Float { pair: FloatPairOp::Max, dst, lhs, rhs })),
        dst.number() < 32,
        lhs.number() < 32,
        rhs.number() < 32,
{
    let r: u32 = rr(0x1e60_6800, dst, lhs, rhs);
    proof {
        lemma_word_decodes(A64::Float { pair: FloatPairOp::Max, dst, lhs, rhs }, 0);
    }
    r
}

pub fn madd(dst: Gpr, lhs: Gpr, rhs: Gpr, addend: Gpr) -> (r: u32)
    ensures
        r == word4(0x9b00_0000, rhs.number(), addend.number(), lhs.number(), dst.number()),
        decode(r) == Some(if addend.number() == 31 {
                Decoded::Plain(A64::Int { op: IntOp::Mul, dst, lhs, rhs })
            } else {
                Decoded::MulAdd { dst, lhs, rhs, addend }
            }),
        dst.number() < 32,
        lhs.number() < 32,
        rhs.number() < 32,
        addend.number() < 32,
{
    let r: u32 = rrr(0x9b00_0000, dst, lhs, rhs, addend);
    proof {
        lemma_four(dst, lhs, rhs, addend);
    }
    r
}

pub fn msub(dst: Gpr, lhs: Gpr, rhs: Gpr, subtrahend: Gpr) -> (r: u32)
    ensures
        r == word4(0x9b00_8000, rhs.number(), subtrahend.number(), lhs.number(), dst.number()),
        decode(r) == Some(Decoded::Plain(A64::MulSub { dst, lhs, rhs, minuend: subtrahend })),
        dst.number() < 32,
        lhs.number() < 32,
        rhs.number() < 32,
        subtrahend.number() < 32,
{
    let r: u32 = rrr(0x9b00_8000, dst, lhs, rhs, subtrahend);
    proof {
        lemma_four(dst, lhs, rhs, subtrahend);
    }
    r
}

pub fn fmadd_d(dst: Gpr, lhs: Gpr, rhs: Gpr, addend: Gpr) -> (r: u32)
    ensures
        r == word4(0x1f40_0000, rhs.number(), addend.number(), lhs.number(), dst.number()),
        decode(r) == Some(Decoded::Plain(A64::FusedMulAdd { dst, lhs, rhs, addend })),
        dst.number() < 32,
        lhs.number() < 32,
        rhs.number() < 32,
        addend.number() < 32,
{
    let r: u32 = rrr(0x1f40_0000, dst, lhs, rhs, addend);
    proof {
        lemma_four(dst, lhs, rhs, addend);
    }
    r
}

pub fn fmsub_d(dst: Gpr, lhs: Gpr, rhs: Gpr, subtrahend: Gpr) -> (r: u32)
    ensures
        r == word4(0x1f40_8000, rhs.number(), subtrahend.number(), lhs.number(), dst.number()),
        decode(r) == Some(Decoded::FusedMulSub { dst, lhs, rhs, minuend: subtrahend }),
        dst.number() < 32,
        lhs.number() < 32,
        rhs.number() < 32,
        subtrahend.number() < 32,
{
    let r: u32 = rrr(0x1f40_8000, dst, lhs, rhs, subtrahend);
    proof {
        lemma_four(dst, lhs, rhs, subtrahend);
    }
    r
}

pub fn fsqrt_d(dst: Gpr, src: Gpr) -> (r: u32)
    ensures
        r == word2(0x1e61_c000, dst, src),
        decode(r) == Some(Decoded::Plain(A64::Unary { unary: FloatUnaryOp::Sqrt, dst, src })),
        dst.number() < 32,
        src.number() < 32,
{
    let r: u32 = unary(0x1e61_c000, dst, src);
    proof {
        lemma_word_decodes(A64::Unary { unary: FloatUnaryOp::Sqrt, dst, src }, 0);
    }
    r
}

pub fn fabs_d(dst: Gpr, src: Gpr) -> (r: u32)
    ensures
        r == word2(0x1e60_c000, dst, src),
        decode(r) == Some(Decoded::Plain(A64::Unary { unary: FloatUnaryOp::Abs, dst, src })),
        dst.number() < 32,
        src.number() < 32,
{
    let r: u32 = unary(0x1e60_c000, dst, src);
    proof {
        lemma_word_decodes(A64::Unary { unary: FloatUnaryOp::Abs, dst, src }, 0);
    }
    r
}

pub fn fneg_d(dst: Gpr, src: Gpr) -> (r: u32)
    ensures
        r == word2(0x1e61_4000, dst, src),
        decode(r) == Some(Decoded::Plain(A64::Unary { unary: FloatUnaryOp::Neg, dst, src })),
        dst.number() < 32,
        src.number() < 32,
{
    let r: u32 = unary(0x1e61_4000, dst, src);
    proof {
        lemma_word_decodes(A64::Unary { unary: FloatUnaryOp::Neg, dst, src }, 0);
    }
    r
}

/// `fmov Dd, Dn`.
pub fn fmov_d(dst: Gpr, src: Gpr) -> (r: u32)
    ensures
        r == word2(0x1e60_4000, dst, src),
        decode(r) == Some(Decoded::Plain(A64::Unary { unary: FloatUnaryOp::Move, dst, src })),
        dst.number() < 32,
        src.number() < 32,
{
    let r: u32 = unary(0x1e60_4000, dst, src);
    proof {
        lemma_word_decodes(A64::Unary { unary: FloatUnaryOp::Move, dst, src }, 0);
    }
    r
}

pub fn fcvtzs(dst: Gpr, src: Gpr) -> (r: u32)
    ensures
        r == word2(0x9e78_0000, dst, src),
        decode(r) == Some(Decoded::Plain(A64::ToInt { dst, src })),
        dst.number() < 32,
        src.number() < 32,
{
    let r: u32 = unary(0x9e78_0000, dst, src);
    proof {
        lemma_word_decodes(A64::ToInt { dst, src }, 0);
    }
    r
}

pub fn scvtf(dst: Gpr, src: Gpr) -> (r: u32)
    ensures
        r == word2(0x9e62_0000, dst, src),
        decode(r) == Some(Decoded::Plain(A64::FromInt { dst, src })),
        dst.number() < 32,
        src.number() < 32,
{
    let r: u32 = unary(0x9e62_0000, dst, src);
    proof {
        lemma_word_decodes(A64::FromInt { dst, src }, 0);
    }
    r
}

/// `fcmp Dn, Dm`, which writes the condition flags.
pub fn fcmp_d(lhs: Gpr, rhs: Gpr) -> (r: u32)
    ensures
        r == word_pair(0x1e60_2000, lhs, rhs),
        decode(r) == Some(Decoded::Plain(A64::CompareFloat { lhs, rhs })),
        lhs.number() < 32,
        rhs.number() < 32,
{
    let r: u32 = sources(0x1e60_2000, lhs, rhs);
    proof {
        lemma_word_decodes(A64::CompareFloat { lhs, rhs }, 0);
    }
    r
}

/// `cmp Xn, Xm` (`subs XZR, Xn, Xm`), which writes the integer condition
/// flags used by the conditional branch forms.
pub fn cmp_reg(lhs: Gpr, rhs: Gpr) -> (r: u32)
    ensures
        r == word_pair(0xeb00_001f, lhs, rhs),
        decode(r) == Some(Decoded::Plain(A64::Compare { lhs, rhs })),
        lhs.number() < 32,
        rhs.number() < 32,
{
    let r: u32 = sources(0xeb00_001f, lhs, rhs);
    proof {
        lemma_word_decodes(A64::Compare { lhs, rhs }, 0);
    }
    r
}

pub fn ldr(dst: Gpr, base: Gpr, offset_bytes: u16) -> (r: u32)
    requires
        slot_offset_ok(offset_bytes),
    ensures
        r == word_imm12(0xf940_0000, (offset_bytes / 8) as u32, base, dst),
        decode(r) == Some(if base.number() == 31 {
                Decoded::Plain(A64::Load { dst, slot: offset_bytes })
            } else {
                Decoded::LoadFrom { dst, base, offset: offset_bytes as int }
            }),
        dst.number() < 32,
        base.number() < 32,
{
    let r: u32 = scaled(0xf940_0000, dst, base, offset_bytes);
    proof {
        lemma_slot_decodes(dst, base, offset_bytes);
    }
    r
}

pub fn str_(src: Gpr, base: Gpr, offset_bytes: u16) -> (r: u32)
    requires
        slot_offset_ok(offset_bytes),
    ensures
        r == word_imm12(0xf900_0000, (offset_bytes / 8) as u32, base, src),
        decode(r) == Some(if base.number() == 31 {
                Decoded::Plain(A64::Store { src, slot: offset_bytes })
            } else {
                Decoded::StoreTo { src, base, offset: offset_bytes as int }
            }),
        src.number() < 32,
        base.number() < 32,
{
    let r: u32 = scaled(0xf900_0000, src, base, offset_bytes);
    proof {
        lemma_slot_decodes(src, base, offset_bytes);
    }
    r
}

/// `ldr Dd, [Xn, #offset]` for an unsigned, eight-byte-scaled stack slot.
pub fn ldr_d(dst: Gpr, base: Gpr, offset_bytes: u16) -> (r: u32)
    requires
        slot_offset_ok(offset_bytes),
    ensures
        r == word_imm12(0xfd40_0000, (offset_bytes / 8) as u32, base, dst),
        decode(r) == Some(if base.number() == 31 {
                Decoded::Plain(A64::LoadFloat { dst, slot: offset_bytes })
            } else {
                Decoded::LoadFloatFrom { dst, base, offset: offset_bytes as int }
            }),
        dst.number() < 32,
        base.number() < 32,
{
    let r: u32 = scaled(0xfd40_0000, dst, base, offset_bytes);
    proof {
        lemma_slot_decodes(dst, base, offset_bytes);
    }
    r
}

/// `str Dd, [Xn, #offset]` for an unsigned, eight-byte-scaled stack slot.
pub fn str_d(src: Gpr, base: Gpr, offset_bytes: u16) -> (r: u32)
    requires
        slot_offset_ok(offset_bytes),
    ensures
        r == word_imm12(0xfd00_0000, (offset_bytes / 8) as u32, base, src),
        decode(r) == Some(if base.number() == 31 {
                Decoded::Plain(A64::StoreFloat { src, slot: offset_bytes })
            } else {
                Decoded::StoreFloatTo { src, base, offset: offset_bytes as int }
            }),
        src.number() < 32,
        base.number() < 32,
{
    let r: u32 = scaled(0xfd00_0000, src, base, offset_bytes);
    proof {
        lemma_slot_decodes(src, base, offset_bytes);
    }
    r
}

pub fn movz(dst: Gpr, imm: u16, shift: u8) -> (r: u32)
    requires
        wide_shift_ok(shift),
    ensures
        r == word_wide(0xd280_0000, imm, shift, dst),
        decode(r) == Some(Decoded::Plain(A64::MoveWide { dst, imm, shift })),
        dst.number() < 32,
{
    let r: u32 = wide(0xd280_0000, dst, imm, shift);
    proof {
        lemma_word_decodes(A64::MoveWide { dst, imm, shift }, 0);
    }
    r
}

pub fn movk(dst: Gpr, imm: u16, shift: u8) -> (r: u32)
    requires
        wide_shift_ok(shift),
    ensures
        r == word_wide(0xf280_0000, imm, shift, dst),
        decode(r) == Some(Decoded::Plain(A64::MoveKeep { dst, imm, shift })),
        dst.number() < 32,
{
    let r: u32 = wide(0xf280_0000, dst, imm, shift);
    proof {
        lemma_word_decodes(A64::MoveKeep { dst, imm, shift }, 0);
    }
    r
}

/// `blr Xn`.
pub fn blr(target: Gpr) -> (r: u32)
    ensures
        r == 0xd63f_0000u32 | ((target.number() as u32) << 5u32),
        decode(r) == Some(Decoded::Plain(A64::CallRegister { target })),
        target.number() < 32,
{
    let r: u32 = 0xd63f_0000 | ((target.index() as u32) << 5u32);
    proof {
        use_type_invariant(&target);
        lemma_word_decodes(A64::CallRegister { target }, 0);
    }
    r
}

/// Whether `offset_bytes` is a word-aligned displacement whose word count
/// fits in a signed field of `bits` bits.
pub open spec fn displacement_ok(offset_bytes: int, half: int) -> bool {
    offset_bytes % 4 == 0 && -half <= offset_bytes / 4 < half
}

/// A displacement of an unconditional branch: a signed 26-bit word count.
pub open spec fn branch_reach(offset_bytes: int) -> bool {
    displacement_ok(offset_bytes, 0x200_0000)
}

/// A displacement of a conditional branch or a literal load: a signed 19-bit
/// word count.
pub open spec fn near_reach(offset_bytes: int) -> bool {
    displacement_ok(offset_bytes, 0x4_0000)
}

/// The word count of a displacement as a two's-complement 32-bit number.
pub open spec fn word_count(offset_bytes: i32) -> u32 {
    ((offset_bytes / 4) as i32) as u32
}

pub open spec fn branch_word(offset_bytes: i32) -> u32 {
    0x1400_0000u32 | (word_count(offset_bytes) & 0x03ff_ffffu32)
}

pub open spec fn near_word(base: u32, offset_bytes: i32, low: u32) -> u32 {
    base | ((word_count(offset_bytes) & 0x7_ffffu32) << 5u32) | low
}

/// Divides a word-aligned displacement by the instruction size.
fn words_of(offset_bytes: i32) -> (r: u32)
    requires
        offset_bytes % 4 == 0,
    ensures
        r == word_count(offset_bytes),
{
    let count: i32 = if offset_bytes >= 0 {
        offset_bytes / 4
    } else {
        -((-(offset_bytes as i64)) / 4) as i32
    };
    count as u32
}

pub fn encode_branch(offset_bytes: i32) -> (r: u32)
    requires
        branch_reach(offset_bytes as int),
    ensures
        r == branch_word(offset_bytes),
        decode(r) == Some(Decoded::Branch { offset: offset_bytes as int }),
{
    let r: u32 = 0x1400_0000 | (words_of(offset_bytes) & 0x03ff_ffff);
    proof {
        lemma_branch_decodes(offset_bytes);
    }
    r
}

pub fn encode_branch_link(offset_bytes: i32) -> (r: u32)
    requires
        branch_reach(offset_bytes as int),
    ensures
        r == branch_word(offset_bytes) | 0x8000_0000u32,
        decode(r) == Some(Decoded::BranchLink { offset: offset_bytes as int }),
{
    let r: u32 = encode_branch(offset_bytes) | 0x8000_0000;
    proof {
        lemma_branch_decodes(offset_bytes);
    }
    r
}

pub fn encode_branch_cond(condition: Condition, offset_bytes: i32) -> (r: u32)
    requires
        near_reach(offset_bytes as int),
    ensures
        r == near_word(0x5400_0000, offset_bytes, condition.field()),
        decode(r) == Some(Decoded::BranchIf { condition, offset: offset_bytes as int }),
{
    let r: u32 = 0x5400_0000 | ((words_of(offset_bytes) & 0x7_ffff) << 5u32) | condition.code();
    proof {
        lemma_condition_decodes(condition, offset_bytes);
    }
    r
}

/// `ldr Dd, <literal>`.
pub fn encode_ldr_literal_d(dst: Gpr, offset_bytes: i32) -> (r: u32)
    requires
        near_reach(offset_bytes as int),
    ensures
        r == near_word(0x5c00_0000, offset_bytes, dst.number() as u32),
        decode(r) == Some(Decoded::LoadLiteral { dst, offset: offset_bytes as int }),
        dst.number() < 32,
{
    let r: u32 = 0x5c00_0000 | ((words_of(offset_bytes) & 0x7_ffff) << 5u32) | (dst.index() as u32);
    proof {
        use_type_invariant(&dst);
        lemma_literal_decodes(dst, offset_bytes);
    }
    r
}

pub open spec fn add_sub_imm_word(sub: bool, dst: Gpr, src: Gpr, imm: u16, shift12: bool) -> u32 {
    word_imm12(
        0x9100_0000u32 | ((if sub { 1u32 } else { 0u32 }) << 30u32) | ((if shift12 {
            1u32
        } else {
            0u32
        }) << 22u32),
        imm as u32,
        src,
        dst,
    )
}

pub fn encode_add_sub_imm(sub: bool, dst: Gpr, src: Gpr, imm: u16, shift12: bool) -> (r: u32)
    requires
        imm < 4096,
    ensures
        r == add_sub_imm_word(sub, dst, src, imm, shift12),
        decode(r) == Some(imm_form(sub, dst, src, imm, shift12)),
        dst.number() < 32,
        src.number() < 32,
{
    let op: u32 = if sub { 1 } else { 0 };
    let sh: u32 = if shift12 { 1 } else { 0 };
    let r: u32 = 0x9100_0000 | (op << 30u32) | (sh << 22u32) | ((imm as u32) << 10u32) | ((src.index() as u32)
        << 5u32) | (dst.index() as u32);
    proof {
        use_type_invariant(&dst);
        use_type_invariant(&src);
        lemma_imm_decodes(sub, dst, src, imm, shift12);
    }
    r
}

/// The bytes of `words`, each word in little-endian order.
pub open spec fn le_bytes(words: Seq<u32>) -> Seq<u8> {
    Seq::new(4 * words.len(), |i: int| (words[i / 4] >> ((8 * (i % 4)) as u32)) as u8)
}

/// A growing sequence of instruction words.
pub struct Assembler {
    words: Vec<u32>,
}

impl View for Assembler {
    type V = Seq<u32>;

    closed spec fn view(&self) -> Seq<u32> {
        self.words@
    }
}

impl Default for Assembler {
    fn default() -> (r: Assembler)
        ensures
            r@ == Seq::<u32>::empty(),
    {
        Assembler { words: Vec::new() }
    }
}

impl Assembler {
    pub fn new() -> (r: Assembler)
        ensures
            r@ == Seq::<u32>::empty(),
    {
        Assembler { words: Vec::new() }
    }

    pub fn words(&self) -> (r: &[u32])
        ensures
            r@ == self@,
    {
        self.words.as_slice()
    }

    /// The instruction bytes in memory order.
    pub fn bytes(&self) -> (r: Vec<u8>)
        ensures
            r@ == le_bytes(self@),
    {
        words_to_bytes(&self.words)
    }

    /// Emits `add Xd, Xn, #imm12`. The optional 12-bit left shift is encoded
    /// by setting the instruction's sh bit.
    pub fn add_imm(&mut self, dst: Gpr, src: Gpr, imm: u16, shift12: bool)
        requires
            imm < 4096,
        ensures
            final(self)@ == old(self)@.push(add_sub_imm_word(false, dst, src, imm, shift12)),
            decode(final(self)@.last()) == Some(imm_form(false, dst, src, imm, shift12)),
    {
        self.words.push(encode_add_sub_imm(false, dst, src, imm, shift12));
    }

    /// Emits `sub Xd, Xn, #imm12`.
    pub fn sub_imm(&mut self, dst: Gpr, src: Gpr, imm: u16, shift12: bool)
        requires
            imm < 4096,
        ensures
            final(self)@ == old(self)@.push(add_sub_imm_word(true, dst, src, imm, shift12)),
            decode(final(self)@.last()) == Some(imm_form(true, dst, src, imm, shift12)),
    {
        self.words.push(encode_add_sub_imm(true, dst, src, imm, shift12));
    }

    /// Emits `and dst, lhs, #imm` when `value` has an encodable bitmask
    /// pattern. Returns false when callers must materialize the constant.
    pub fn and_imm(&mut self, dst: Gpr, lhs: Gpr, value: u64) -> (r: bool)
        ensures
            r <==> exists|width: u32, ones: u32, rotation: u32|
                logical_pattern(value, true, width, ones, rotation),
            !r ==> final(self)@ == old(self)@,
            r ==> exists|n: u8, immr: u8, imms: u8|
                #![trigger and_imm_word(n, immr, imms, lhs, dst)]
                is_logical_imm(value, true, n, immr, imms) && final(self)@ == old(self)@.push(
                    and_imm_word(n, immr, imms, lhs, dst),
                ),
            r ==> (decode(final(self)@.last()) matches Some(
                Decoded::AndMask { dst: d, src, n, immr, imms },
            ) && d == dst && src == lhs && forall|i: int|
                0 <= i < 64 ==> (#[trigger] bit_of(value, i) <==> mask_bit(n, immr, imms, i))),
    {
        match encode_logical_imm(value, true) {
            None => false,
            Some((n, immr, imms)) => {
                self.words.push(
                    0x9200_0000 | ((n as u32) << 22u32) | ((immr as u32) << 16u32) | ((imms as u32)
                        << 10u32) | ((lhs.index() as u32) << 5u32) | (dst.index() as u32),
                );
                assert(self@ == old(self)@.push(and_imm_word(n, immr, imms, lhs, dst)));
                proof {
                    lemma_mask_means(value, n, immr, imms, 0);
                    lemma_mask_decodes(n, immr, imms, lhs, dst);
                    assert forall|i: int| 0 <= i < 64 implies (#[trigger] bit_of(value, i)
                        <==> mask_bit(n as u32, immr as u32, imms as u32, i)) by {
                        lemma_mask_means(value, n, immr, imms, i);
                    }
                }
                true
            },
        }
    }

    /// Branch offsets are signed byte offsets from the branch instruction and
    /// must be four-byte aligned.
    pub fn b(&mut self, offset_bytes: i32)
        requires
            branch_reach(offset_bytes as int),
        ensures
            final(self)@ == old(self)@.push(branch_word(offset_bytes)),
            decode(final(self)@.last()) == Some(Decoded::Branch { offset: offset_bytes as int }),
    {
        self.words.push(encode_branch(offset_bytes));
    }

    pub fn bl(&mut self, offset_bytes: i32)
        requires
            branch_reach(offset_bytes as int),
        ensures
            final(self)@ == old(self)@.push(branch_word(offset_bytes) | 0x8000_0000u32),
            decode(final(self)@.last()) == Some(Decoded::BranchLink { offset: offset_bytes as int }),
    {
        self.words.push(encode_branch_link(offset_bytes));
    }

    /// Emits `blr Xn`, an indirect branch-with-link used for process-local
    /// libm calls whose absolute address cannot be reached by a direct `bl`.
    pub fn blr(&mut self, target: Gpr)
        ensures
            final(self)@ == old(self)@.push(0xd63f_0000u32 | ((target.number() as u32) << 5u32)),
            decode(final(self)@.last()) == Some(Decoded::Plain(A64::CallRegister { target })),
    {
        self.words.push(self::blr(target));
    }

    pub fn b_cond(&mut self, condition: Condition, offset_bytes: i32)
        requires
            near_reach(offset_bytes as int),
        ensures
            final(self)@ == old(self)@.push(near_word(0x5400_0000, offset_bytes, condition.field())),
            decode(final(self)@.last()) == Some(Decoded::BranchIf { condition, offset: offset_bytes as int }),
    {
        self.words.push(encode_branch_cond(condition, offset_bytes));
    }

    /// Emits `ret` (return through X30).
    pub fn ret(&mut self)
        ensures
            final(self)@ == old(self)@.push(0xd65f_03c0u32),
            decode(final(self)@.last()) == Some(Decoded::Plain(A64::Return)),
    {
        self.words.push(0xd65f_03c0);
        proof {
            lemma_word_decodes(A64::Return, 0);
        }
    }

    /// Emits `ldr Dd, <literal>` with a signed byte offset from the current
    /// instruction.
    pub fn ldr_literal_d(&mut self, dst: Gpr, offset_bytes: i32)
        requires
            near_reach(offset_bytes as int),
        ensures
            final(self)@ == old(self)@.push(
                near_word(0x5c00_0000, offset_bytes, dst.number() as u32),
            ),
            decode(final(self)@.last()) == Some(Decoded::LoadLiteral { dst, offset: offset_bytes as int }),
    {
        self.words.push(encode_ldr_literal_d(dst, offset_bytes));
    }

    pub fn add_reg(&mut self, dst: Gpr, lhs: Gpr, rhs: Gpr)
        ensures
            final(self)@ == old(self)@.push(word3(0x8b00_0000, dst, lhs, rhs)),
            decode(final(self)@.last()) == Some(Decoded::Plain(A64::Int { op: IntOp::Add, dst, lhs, rhs })),
    {
        self.words.push(self::add_reg(dst, lhs, rhs));
    }

    pub fn sub_reg(&mut self, dst: Gpr, lhs: Gpr, rhs: Gpr)
        ensures
            final(self)@ == old(self)@.push(word3(0xcb00_0000, dst, lhs, rhs)),
            decode(final(self)@.last()) == Some(Decoded::Plain(A64::Int { op: IntOp::Sub, dst, lhs, rhs })),
    {
        self.words.push(self::sub_reg(dst, lhs, rhs));
    }

    pub fn mul(&mut self, dst: Gpr, lhs: Gpr, rhs: Gpr)
        ensures
            final(self)@ == old(self)@.push(word3(0x9b00_7c00, dst, lhs, rhs)),
            decode(final(self)@.last()) == Some(Decoded::Plain(A64::Int { op: IntOp::Mul, dst, lhs, rhs })),
    {
        self.words.push(self::mul(dst, lhs, rhs));
    }

    pub fn sdiv(&mut self, dst: Gpr, lhs: Gpr, rhs: Gpr)
        ensures
            final(self)@ == old(self)@.push(word3(0x9ac0_0c00, dst, lhs, rhs)),
            decode(final(self)@.last()) == Some(Decoded::Plain(A64::Int { op: IntOp::Div, dst, lhs, rhs })),
    {
        self.words.push(self::sdiv(dst, lhs, rhs));
    }

    pub fn and_reg(&mut self, dst: Gpr, lhs: Gpr, rhs: Gpr)
        ensures
            final(self)@ == old(self)@.push(word3(0x8a00_0000, dst, lhs, rhs)),
            decode(final(self)@.last()) == Some(Decoded::Plain(A64::Int { op: IntOp::And, dst, lhs, rhs })),
    {
        self.words.push(self::and_reg(dst, lhs, rhs));
    }

    pub fn orr_reg(&mut self, dst: Gpr, lhs: Gpr, rhs: Gpr)
        ensures
            final(self)@ == old(self)@.push(word3(0xaa00_0000, dst, lhs, rhs)),
            decode(final(self)@.last()) == Some(Decoded::Plain(A64::Int { op: IntOp::Or, dst, lhs, rhs })),
    {
        self.words.push(self::orr_reg(dst, lhs, rhs));
    }

    pub fn eor_reg(&mut self, dst: Gpr, lhs: Gpr, rhs: Gpr)
        ensures
            final(self)@ == old(self)@.push(word3(0xca00_0000, dst, lhs, rhs)),
            decode(final(self)@.last()) == Some(Decoded::Plain(A64::Int { op: IntOp::Xor, dst, lhs, rhs })),
    {
        self.words.push(self::eor_reg(dst, lhs, rhs));
    }

    pub fn lsl(&mut self, dst: Gpr, lhs: Gpr, rhs: Gpr)
        ensures
            final(self)@ == old(self)@.push(word3(0x9ac0_2000, dst, lhs, rhs)),
            decode(final(self)@.last()) == Some(Decoded::Plain(A64::Int { op: IntOp::Shl, dst, lhs, rhs })),
    {
        self.words.push(self::lsl(dst, lhs, rhs));
    }

    pub fn lsr(&mut self, dst: Gpr, lhs: Gpr, rhs: Gpr)
        ensures
            final(self)@ == old(self)@.push(word3(0x9ac0_2400, dst, lhs, rhs)),
            decode(final(self)@.last()) == Some(Decoded::Plain(A64::Int { op: IntOp::Shr, dst, lhs, rhs })),
    {
        self.words.push(self::lsr(dst, lhs, rhs));
    }

    pub fn asr(&mut self, dst: Gpr, lhs: Gpr, rhs: Gpr)
        ensures
            final(self)@ == old(self)@.push(word3(0x9ac0_2800, dst, lhs, rhs)),
            decode(final(self)@.last()) == Some(Decoded::Plain(A64::Int { op: IntOp::Sar, dst, lhs, rhs })),
    {
        self.words.push(self::asr(dst, lhs, rhs));
    }

    pub fn fadd_d(&mut self, dst: Gpr, lhs: Gpr, rhs: Gpr)
        ensures
            final(self)@ == old(self)@.push(word3(0x1e60_2800, dst, lhs, rhs)),
            decode(final(self)@.last()) == Some(Decoded::Plain(A64::Float { pair: FloatPairOp::Add, dst, lhs, rhs })),
    {
        self.words.push(self::fadd_d(dst, lhs, rhs));
    }

    pub fn fsub_d(&mut self, dst: Gpr, lhs: Gpr, rhs: Gpr)
        ensures
            final(self)@ == old(self)@.push(word3(0x1e60_3800, dst, lhs, rhs)),
            decode(final(self)@.last()) == Some(Decoded::Plain(A64::Float { pair: FloatPairOp::Sub, dst, lhs, rhs })),
    {
        self.words.push(self::fsub_d(dst, lhs, rhs));
    }

    pub fn fmul_d(&mut self, dst: Gpr, lhs: Gpr, rhs: Gpr)
        ensures
            final(self)@ == old(self)@.push(word3(0x1e60_0800, dst, lhs, rhs)),
            decode(final(self)@.last()) == Some(Decoded::Plain(A64::Float { pair: FloatPairOp::Mul, dst, lhs, rhs })),
    {
        self.words.push(self::fmul_d(dst, lhs, rhs));
    }

    pub fn fdiv_d(&mut self, dst: Gpr, lhs: Gpr, rhs: Gpr)
        ensures
            final(self)@ == old(self)@.push(word3(0x1e60_1800, dst, lhs, rhs)),
            decode(final(self)@.last()) == Some(Decoded::Plain(A64::Float { pair: FloatPairOp::Div, dst, lhs, rhs })),
    {
        self.words.push(self::fdiv_d(dst, lhs, rhs));
    }

    pub fn fmin_d(&mut self, dst: Gpr, lhs: Gpr, rhs: Gpr)
        ensures
            final(self)@ == old(self)@.push(word3(0x1e60_7800, dst, lhs, rhs)),
            decode(final(self)@.last()) == Some(Decoded::Plain(A64::Float { pair: FloatPairOp::Min, dst, lhs, rhs })),
    {
        self.words.push(self::fmin_d(dst, lhs, rhs));
    }

    pub fn fmax_d(&mut self, dst: Gpr, lhs: Gpr, rhs: Gpr)
        ensures
            final(self)@ == old(self)@.push(word3(0x1e60_6800, dst, lhs, rhs)),
            decode(final(self)@.last()) == Some(Decoded::Plain(A64::Float { pair: FloatPairOp::Max, dst, lhs, rhs })),
    {
        self.words.push(self::fmax_d(dst, lhs, rhs));
    }

    pub fn madd(&mut self, dst: Gpr, lhs: Gpr, rhs: Gpr, addend: Gpr)
        ensures
            final(self)@ == old(self)@.push(
                word4(0x9b00_0000, rhs.number(), addend.number(), lhs.number(), dst.number()),
            ),
            decode(final(self)@.last()) == Some(if addend.number() == 31 {
                    Decoded::Plain(A64::Int { op: IntOp::Mul, dst, lhs, rhs })
                } else {
                    Decoded::MulAdd { dst, lhs, rhs, addend }
                }),
    {
        self.words.push(self::madd(dst, lhs, rhs, addend));
    }

    pub fn msub(&mut self, dst: Gpr, lhs: Gpr, rhs: Gpr, subtrahend: Gpr)
        ensures
            final(self)@ == old(self)@.push(
                word4(0x9b00_8000, rhs.number(), subtrahend.number(), lhs.number(), dst.number()),
            ),
            decode(final(self)@.last()) == Some(Decoded::Plain(A64::MulSub { dst, lhs, rhs, minuend: subtrahend })),
    {
        self.words.push(self::msub(dst, lhs, rhs, subtrahend));
    }

    pub fn fmadd_d(&mut self, dst: Gpr, lhs: Gpr, rhs: Gpr, addend: Gpr)
        ensures
            final(self)@ == old(self)@.push(
                word4(0x1f40_0000, rhs.number(), addend.number(), lhs.number(), dst.number()),
            ),
            decode(final(self)@.last()) == Some(Decoded::Plain(A64::FusedMulAdd { dst, lhs, rhs, addend })),
    {
        self.words.push(self::fmadd_d(dst, lhs, rhs, addend));
    }

    pub fn fmsub_d(&mut self, dst: Gpr, lhs: Gpr, rhs: Gpr, subtrahend: Gpr)
        ensures
            final(self)@ == old(self)@.push(
                word4(0x1f40_8000, rhs.number(), subtrahend.number(), lhs.number(), dst.number()),
            ),
            decode(final(self)@.last()) == Some(Decoded::FusedMulSub { dst, lhs, rhs, minuend: subtrahend }),
    {
        self.words.push(self::fmsub_d(dst, lhs, rhs, subtrahend));
    }

    pub fn fsqrt_d(&mut self, dst: Gpr, src: Gpr)
        ensures
            final(self)@ == old(self)@.push(word2(0x1e61_c000, dst, src)),
            decode(final(self)@.last()) == Some(Decoded::Plain(A64::Unary { unary: FloatUnaryOp::Sqrt, dst, src })),
    {
        self.words.push(self::fsqrt_d(dst, src));
    }

    pub fn fabs_d(&mut self, dst: Gpr, src: Gpr)
        ensures
            final(self)@ == old(self)@.push(word2(0x1e60_c000, dst, src)),
            decode(final(self)@.last()) == Some(Decoded::Plain(A64::Unary { unary: FloatUnaryOp::Abs, dst, src })),
    {
        self.words.push(self::fabs_d(dst, src));
    }

    pub fn fneg_d(&mut self, dst: Gpr, src: Gpr)
        ensures
            final(self)@ == old(self)@.push(word2(0x1e61_4000, dst, src)),
            decode(final(self)@.last()) == Some(Decoded::Plain(A64::Unary { unary: FloatUnaryOp::Neg, dst, src })),
    {
        self.words.push(self::fneg_d(dst, src));
    }

    pub fn fmov_d(&mut self, dst: Gpr, src: Gpr)
        ensures
            final(self)@ == old(self)@.push(word2(0x1e60_4000, dst, src)),
            decode(final(self)@.last()) == Some(Decoded::Plain(A64::Unary { unary: FloatUnaryOp::Move, dst, src })),
    {
        self.words.push(self::fmov_d(dst, src));
    }

    pub fn fcvtzs(&mut self, dst: Gpr, src: Gpr)
        ensures
            final(self)@ == old(self)@.push(word2(0x9e78_0000, dst, src)),
            decode(final(self)@.last()) == Some(Decoded::Plain(A64::ToInt { dst, src })),
    {
        self.words.push(self::fcvtzs(dst, src));
    }

    pub fn scvtf(&mut self, dst: Gpr, src: Gpr)
        ensures
            final(self)@ == old(self)@.push(word2(0x9e62_0000, dst, src)),
            decode(final(self)@.last()) == Some(Decoded::Plain(A64::FromInt { dst, src })),
    {
        self.words.push(self::scvtf(dst, src));
    }

    pub fn fcmp_d(&mut self, lhs: Gpr, rhs: Gpr)
        ensures
            final(self)@ == old(self)@.push(word_pair(0x1e60_2000, lhs, rhs)),
            decode(final(self)@.last()) == Some(Decoded::Plain(A64::CompareFloat { lhs, rhs })),
    {
        self.words.push(self::fcmp_d(lhs, rhs));
    }

    pub fn cmp_reg(&mut self, lhs: Gpr, rhs: Gpr)
        ensures
            final(self)@ == old(self)@.push(word_pair(0xeb00_001f, lhs, rhs)),
            decode(final(self)@.last()) == Some(Decoded::Plain(A64::Compare { lhs, rhs })),
    {
        self.words.push(self::cmp_reg(lhs, rhs));
    }

    pub fn ldr(&mut self, dst: Gpr, base: Gpr, offset_bytes: u16)
        requires
            slot_offset_ok(offset_bytes),
        ensures
            final(self)@ == old(self)@.push(
                word_imm12(0xf940_0000, (offset_bytes / 8) as u32, base, dst),
            ),
            decode(final(self)@.last()) == Some(if base.number() == 31 {
                    Decoded::Plain(A64::Load { dst, slot: offset_bytes })
                } else {
                    Decoded::LoadFrom { dst, base, offset: offset_bytes as int }
                }),
    {
        self.words.push(self::ldr(dst, base, offset_bytes));
    }

    pub fn str(&mut self, src: Gpr, base: Gpr, offset_bytes: u16)
        requires
            slot_offset_ok(offset_bytes),
        ensures
            final(self)@ == old(self)@.push(
                word_imm12(0xf900_0000, (offset_bytes / 8) as u32, base, src),
            ),
            decode(final(self)@.last()) == Some(if base.number() == 31 {
                    Decoded::Plain(A64::Store { src, slot: offset_bytes })
                } else {
                    Decoded::StoreTo { src, base, offset: offset_bytes as int }
                }),
    {
        self.words.push(self::str_(src, base, offset_bytes));
    }

    pub fn ldr_d(&mut self, dst: Gpr, base: Gpr, offset_bytes: u16)
        requires
            slot_offset_ok(offset_bytes),
        ensures
            final(self)@ == old(self)@.push(
                word_imm12(0xfd40_0000, (offset_bytes / 8) as u32, base, dst),
            ),
            decode(final(self)@.last()) == Some(if base.number() == 31 {
                    Decoded::Plain(A64::LoadFloat { dst, slot: offset_bytes })
                } else {
                    Decoded::LoadFloatFrom { dst, base, offset: offset_bytes as int }
                }),
    {
        self.words.push(self::ldr_d(dst, base, offset_bytes));
    }

    pub fn str_d(&mut self, src: Gpr, base: Gpr, offset_bytes: u16)
        requires
            slot_offset_ok(offset_bytes),
        ensures
            final(self)@ == old(self)@.push(
                word_imm12(0xfd00_0000, (offset_bytes / 8) as u32, base, src),
            ),
            decode(final(self)@.last()) == Some(if base.number() == 31 {
                    Decoded::Plain(A64::StoreFloat { src, slot: offset_bytes })
                } else {
                    Decoded::StoreFloatTo { src, base, offset: offset_bytes as int }
                }),
    {
        self.words.push(self::str_d(src, base, offset_bytes));
    }

    pub fn movz(&mut self, dst: Gpr, imm: u16, shift: u8)
        requires
            wide_shift_ok(shift),
        ensures
            final(self)@ == old(self)@.push(word_wide(0xd280_0000, imm, shift, dst)),
            decode(final(self)@.last()) == Some(Decoded::Plain(A64::MoveWide { dst, imm, shift })),
    {
        self.words.push(self::movz(dst, imm, shift));
    }

    pub fn movk(&mut self, dst: Gpr, imm: u16, shift: u8)
        requires
            wide_shift_ok(shift),
        ensures
            final(self)@ == old(self)@.push(word_wide(0xf280_0000, imm, shift, dst)),
            decode(final(self)@.last()) == Some(Decoded::Plain(A64::MoveKeep { dst, imm, shift })),
    {
        self.words.push(self::movk(dst, imm, shift));
    }
}

/// Serializes words in architectural little-endian order.
pub fn words_to_bytes(words: &Vec<u32>) -> (r: Vec<u8>)
    ensures
        r@ == le_bytes(words@),
{
    let mut bytes: Vec<u8> = Vec::new();
    let mut i: usize = 0;
    while i < words.len()
        invariant
            i <= words.len(),
            bytes.len() == 4 * i,
            forall|j: int|
                0 <= j < 4 * i ==> #[trigger] bytes@[j] == (words@[j / 4] >> ((8 * (j % 4)) as u32))
                    as u8,
        decreases words.len() - i,
    {
        let word: u32 = words[i];
        assert(word as u8 == (word >> 0u32) as u8) by (bit_vector);
        bytes.push(word as u8);
        bytes.push((word >> 8u32) as u8);
        bytes.push((word >> 16u32) as u8);
        bytes.push((word >> 24u32) as u8);
        i += 1;
    }
    assert(bytes@ =~= le_bytes(words@));
    bytes
}

/// The low `width` bits.
pub open spec fn low_mask(width: u32) -> u64 {
    if width >= 64 {
        u64::MAX
    } else {
        ((1u64 << width) - 1) as u64
    }
}

/// `value` rotated right by `amount` inside a field of `width` bits.
pub open spec fn rotated(value: u64, amount: u32, width: u32) -> u64 {
    if amount == 0 {
        value & low_mask(width)
    } else {
        ((value >> amount) | (value << ((width - amount) as u32))) & low_mask(width)
    }
}

/// `count` copies of `pattern`, laid `width` bits apart from bit 0 up.
pub open spec fn repeated(pattern: u64, width: u32, count: nat) -> u64
    decreases count,
{
    if count == 0 {
        0
    } else {
        repeated(pattern, width, (count - 1) as nat) | (pattern << (((count - 1) * width) as u32))
    }
}

pub open spec fn is_element_width(width: u32) -> bool {
    width == 2 || width == 4 || width == 8 || width == 16 || width == 32 || width == 64
}

/// The bits of `value` that an operation of the given size reads.
pub open spec fn operand_bits(value: u64, sf: bool) -> u64 {
    if sf {
        value
    } else {
        value & 0xffff_ffffu64
    }
}

/// `value` is its own low `width` bits repeated over the operand, and those
/// bits are neither all zeros nor all ones.
pub open spec fn repeats_at(value: u64, sf: bool, width: u32) -> bool {
    &&& is_element_width(width)
    &&& width <= (if sf { 64u32 } else { 32u32 })
    &&& value & low_mask(width) != 0
    &&& value & low_mask(width) != low_mask(width)
    &&& operand_bits(value, sf) == repeated(
        value & low_mask(width),
        width,
        ((if sf { 64u32 } else { 32u32 }) / width) as nat,
    )
}

/// `value` is a logical immediate: a run of `ones` set bits, rotated right by
/// `rotation` in an element of `width` bits, repeated over the operand.
pub open spec fn logical_pattern(
    value: u64,
    sf: bool,
    width: u32,
    ones: u32,
    rotation: u32,
) -> bool {
    &&& repeats_at(value, sf, width)
    &&& 1 <= ones < width
    &&& rotation < width
    &&& rotated(((1u64 << ones) - 1) as u64, rotation, width) == value & low_mask(width)
}

/// The `imms` field for an element width and a run length: ones and a zero,
/// placed so that they tell the width, and behind them the length less one.
pub open spec fn imms_field(width: u32, ones: u32) -> u8 {
    ((!((2 * width - 1) as u32) & 0x3fu32) | ((ones - 1) as u32)) as u8
}

/// Two runs of eight bits in a 32-bit operand. This immediate has a code of
/// its own.
pub open spec fn is_byte_pair(value: u64, sf: bool) -> bool {
    !sf && operand_bits(value, sf) == 0x00ff_00ff
}

/// `(n, immr, imms)` is the code of `value`: that of its smallest element, or
/// the one that the pair of bytes has to itself.
pub open spec fn is_logical_imm(value: u64, sf: bool, n: u8, immr: u8, imms: u8) -> bool {
    if is_byte_pair(value, sf) {
        n == 0 && immr == 0 && imms == 0x37
    } else {
        is_element_code(value, sf, n, immr, imms)
    }
}

/// `(n, immr, imms)` is the encoding of `value` with the smallest element.
pub open spec fn is_element_code(value: u64, sf: bool, n: u8, immr: u8, imms: u8) -> bool {
    exists|width: u32, ones: u32|
        #![trigger imms_field(width, ones)]
        logical_pattern(value, sf, width, ones, immr as u32) && n == (if width == 64 {
            1u8
        } else {
            0u8
        }) && imms == imms_field(width, ones) && (forall|w: u32, o: u32, r: u32|
            w < width ==> !logical_pattern(value, sf, w, o, r)) && (forall|o: u32, r: u32|
            o < ones ==> !logical_pattern(value, sf, width, o, r)) && (forall|r: u32|
            r < immr ==> !logical_pattern(value, sf, width, ones, r))
}

/// The field tells the width and the length, and is never that of the pair of
/// bytes.
proof fn lemma_imms_field(w: u32, o: u32, u: u32, p: u32)
    requires
        is_element_width(w),
        is_element_width(u),
        1 <= o < w,
        1 <= p < u,
        imms_field(w, o) == imms_field(u, p),
        (w == 64) == (u == 64),
    ensures
        w == u,
        o == p,
        w != 64 ==> imms_field(w, o) != 0x37,
{
    assert(w == u && o == p && (w != 64 ==> ((!((2 * w - 1) as u32) & 0x3fu32) | ((o - 1) as u32))
        as u8 != 0x37)) by (bit_vector)
        requires
            w == 2 || w == 4 || w == 8 || w == 16 || w == 32 || w == 64,
            u == 2 || u == 4 || u == 8 || u == 16 || u == 32 || u == 64,
            1 <= o < w,
            1 <= p < u,
            ((!((2 * w - 1) as u32) & 0x3fu32) | ((o - 1) as u32)) as u8 == ((!((2 * u - 1) as u32)
                & 0x3fu32) | ((p - 1) as u32)) as u8,
            (w == 64) == (u == 64),
    ;
}

/// Two immediates that differ have different codes.
pub proof fn lemma_code_tells_immediate(a: u64, b: u64, sf: bool, n: u8, immr: u8, imms: u8)
    requires
        is_logical_imm(a, sf, n, immr, imms),
        is_logical_imm(b, sf, n, immr, imms),
    ensures
        operand_bits(a, sf) == operand_bits(b, sf),
{
    if is_byte_pair(a, sf) && is_byte_pair(b, sf) {
    } else if is_byte_pair(a, sf) || is_byte_pair(b, sf) {
        let c = if is_byte_pair(a, sf) {
            b
        } else {
            a
        };
        let (w, o) = choose|w: u32, o: u32|
            #![trigger imms_field(w, o)]
            logical_pattern(c, sf, w, o, immr as u32) && n == (if w == 64 {
                1u8
            } else {
                0u8
            }) && imms == imms_field(w, o);
        lemma_imms_field(w, o, w, o);
    } else {
        let (w, o) = choose|w: u32, o: u32|
            #![trigger imms_field(w, o)]
            logical_pattern(a, sf, w, o, immr as u32) && n == (if w == 64 {
                1u8
            } else {
                0u8
            }) && imms == imms_field(w, o);
        let (u, p) = choose|u: u32, p: u32|
            #![trigger imms_field(u, p)]
            logical_pattern(b, sf, u, p, immr as u32) && n == (if u == 64 {
                1u8
            } else {
                0u8
            }) && imms == imms_field(u, p);
        lemma_imms_field(w, o, u, p);
    }
}

pub open spec fn and_imm_word(n: u8, immr: u8, imms: u8, lhs: Gpr, dst: Gpr) -> u32 {
    0x9200_0000u32 | ((n as u32) << 22u32) | ((immr as u32) << 16u32) | ((imms as u32) << 10u32) | (
    (lhs.number() as u32) << 5u32) | (dst.number() as u32)
}

fn mask_of(width: u32) -> (r: u64)
    requires
        0 < width <= 64,
    ensures
        r == low_mask(width),
{
    if width == 64 {
        u64::MAX
    } else {
        assert(1u64 << width >= 1) by (bit_vector)
            requires
                width < 64,
        ;
        (1u64 << width) - 1
    }
}

fn rotate_right(value: u64, amount: u32, width: u32) -> (r: u64)
    requires
        0 < width <= 64,
        amount < width,
    ensures
        r == rotated(value, amount, width),
{
    let mask: u64 = mask_of(width);
    if amount == 0 {
        return value & mask;
    }
    ((value >> amount) | (value << (width - amount))) & mask
}

/// Lays copies of `pattern` over an operand of `max_width` bits.
fn repeat_pattern(pattern: u64, width: u32, max_width: u32) -> (r: u64)
    requires
        is_element_width(width),
        max_width == 32 || max_width == 64,
        width <= max_width,
    ensures
        r == repeated(pattern, width, (max_width / width) as nat),
{
    let mut result: u64 = 0;
    let mut shift: u32 = 0;
    let ghost mut count: nat = 0;
    while shift < max_width
        invariant
            is_element_width(width),
            max_width == 32 || max_width == 64,
            width <= max_width,
            shift == count * width,
            shift <= max_width,
            result == repeated(pattern, width, count),
            count <= max_width / width,
        decreases max_width - shift,
    {
        result = result | (pattern << shift);
        shift = shift + width;
        proof {
            assert(shift == (count + 1) * width) by (nonlinear_arith)
                requires
                    shift == count * width + width,
            ;
            count = count + 1;
            assert(count <= max_width / width) by (nonlinear_arith)
                requires
                    count * width <= max_width,
                    width > 0,
            ;
        }
    }
    assert(count == max_width / width);
    result
}

/// Searches the run lengths and rotations of one element width.
fn find_run(value: u64, sf: bool, width: u32) -> (r: Option<(u32, u32)>)
    requires
        repeats_at(value, sf, width),
    ensures
        match r {
            Some((ones, rotation)) => {
                &&& logical_pattern(value, sf, width, ones, rotation)
                &&& forall|o: u32, t: u32| o < ones ==> !logical_pattern(value, sf, width, o, t)
                &&& forall|t: u32| t < rotation ==> !logical_pattern(value, sf, width, ones, t)
            },
            None => forall|o: u32, t: u32| !logical_pattern(value, sf, width, o, t),
        },
{
    let pattern: u64 = value & mask_of(width);
    let mut ones: u32 = 1;
    while ones < width
        invariant
            repeats_at(value, sf, width),
            pattern == value & low_mask(width),
            1 <= ones <= width,
            forall|o: u32, t: u32| o < ones ==> !logical_pattern(value, sf, width, o, t),
        decreases width - ones,
    {
        assert(1u64 << ones >= 1) by (bit_vector)
            requires
                ones < 64,
        ;
        let base: u64 = (1u64 << ones) - 1;
        let mut rotation: u32 = 0;
        while rotation < width
            invariant
                repeats_at(value, sf, width),
                pattern == value & low_mask(width),
                1 <= ones < width,
                base == (1u64 << ones) - 1,
                rotation <= width,
                forall|o: u32, t: u32| o < ones ==> !logical_pattern(value, sf, width, o, t),
                forall|t: u32| t < rotation ==> !logical_pattern(value, sf, width, ones, t),
            decreases width - rotation,
        {
            if rotate_right(base, rotation, width) == pattern {
                return Some((ones, rotation));
            }
            rotation = rotation + 1;
        }
        ones = ones + 1;
    }
    None
}

/// Encodes the AArch64 logical-immediate pattern as `(N, immr, imms)`.
/// The search is tiny (six element widths and at most 64 rotations) and is
/// easier to audit than a table of special cases. It rejects the all-zero and
/// all-one patterns, which are architecturally unencodable.
pub fn encode_logical_imm(value: u64, sf: bool) -> (r: Option<(u8, u8, u8)>)
    ensures
        match r {
            Some((n, immr, imms)) => is_logical_imm(value, sf, n, immr, imms),
            None => true,
        },
        r is Some <==> exists|width: u32, ones: u32, rotation: u32|
            logical_pattern(value, sf, width, ones, rotation),
{
    let max_width: u32 = if sf { 64 } else { 32 };
    let wanted: u64 = if sf { value } else { value & 0xffff_ffff };
    let mut width: u32 = 2;
    while width <= max_width
        invariant
            max_width == (if sf { 64u32 } else { 32u32 }),
            wanted == operand_bits(value, sf),
            is_element_width(width) || width == 128,
            forall|w: u32, o: u32, r: u32| w < width ==> !logical_pattern(value, sf, w, o, r),
        decreases 128 - width,
    {
        let mask: u64 = mask_of(width);
        let pattern: u64 = value & mask;
        if pattern != 0 && pattern != mask {
            if wanted == repeat_pattern(pattern, width, max_width) {
                if let Some((ones, rotation)) = find_run(value, sf, width) {
                    let n: u8 = if width == 64 { 1 } else { 0 };
                    if !sf && wanted == 0x00ff_00ff {
                        return Some((0, 0, 0x37));
                    }
                    let imms: u8 = ((!(2 * width - 1) & 0x3f) | (ones - 1)) as u8;
                    assert(imms == imms_field(width, ones));
                    return Some((n, rotation as u8, imms));
                }
            }
        }
        width = width * 2;
    }
    None
}

} // verus!
