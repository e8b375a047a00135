//! The instruction table of the architecture: what the words of code are, read
//! from their bits, and that what is encoded is read back as what it was.
use crate::aarch64::encode::{
    imms_field, is_element_width, is_logical_imm, logical_pattern, low_mask, repeated,
};
use crate::aarch64::encode::{
    add_sub_imm_word, and_imm_word, branch_word, le_bytes, lemma_reg, lemma_reg_number, near_word,
    reg, word2, word3, word4, word_count, word_imm12, word_pair, word_wide, Condition, Gpr,
};
use crate::aarch64::error::EmitError;
use crate::aarch64::link::{
    distance, image, lemma_literal_found, linkable, targets_known,
};
use crate::aarch64::machine::{
    all_encodable, encodable, in_reach, reaches, word_of, FloatPairOp, FloatUnaryOp, IntOp, A64,
};
use vstd::prelude::*;

verus! {

// ---------------------------------------------------------------------------
// Fields

pub open spec fn field_rd(w: u32) -> u32 {
    w & 31
}

pub open spec fn field_rn(w: u32) -> u32 {
    (w >> 5u32) & 31
}

pub open spec fn field_ra(w: u32) -> u32 {
    (w >> 10u32) & 31
}

pub open spec fn field_rm(w: u32) -> u32 {
    (w >> 16u32) & 31
}

pub open spec fn field_imm12(w: u32) -> u32 {
    (w >> 10u32) & 0xfff
}

pub open spec fn field_imm16(w: u32) -> u32 {
    (w >> 5u32) & 0xffff
}

pub open spec fn field_hw(w: u32) -> u32 {
    (w >> 21u32) & 3
}

pub open spec fn field_imm19(w: u32) -> u32 {
    (w >> 5u32) & 0x7_ffff
}

pub open spec fn field_imm26(w: u32) -> u32 {
    w & 0x3ff_ffff
}

pub open spec fn field_immr(w: u32) -> u32 {
    (w >> 16u32) & 63
}

pub open spec fn field_imms(w: u32) -> u32 {
    (w >> 10u32) & 63
}

pub open spec fn field_bit22(w: u32) -> u32 {
    (w >> 22u32) & 1
}

// ---------------------------------------------------------------------------
// The table

/// The row of the instruction table that a word belongs to.
pub open spec fn row(w: u32) -> u32 {
    if w & 0xffe0_fc00 == 0x8b00_0000 {  // ADD Xd, Xn, Xm
        1
    } else if w & 0xffe0_fc00 == 0xcb00_0000 {  // SUB Xd, Xn, Xm
        2
    } else if w & 0xffe0_fc00 == 0x8a00_0000 {  // AND Xd, Xn, Xm
        3
    } else if w & 0xffe0_fc00 == 0xaa00_0000 {  // ORR Xd, Xn, Xm
        4
    } else if w & 0xffe0_fc00 == 0xca00_0000 {  // EOR Xd, Xn, Xm
        5
    } else if w & 0xffe0_fc00 == 0x9ac0_0c00 {  // SDIV Xd, Xn, Xm
        6
    } else if w & 0xffe0_fc00 == 0x9ac0_2000 {  // LSLV Xd, Xn, Xm
        7
    } else if w & 0xffe0_fc00 == 0x9ac0_2400 {  // LSRV Xd, Xn, Xm
        8
    } else if w & 0xffe0_fc00 == 0x9ac0_2800 {  // ASRV Xd, Xn, Xm
        9
    } else if w & 0xffe0_fc00 == 0x1e60_0800 {  // FMUL Dd, Dn, Dm
        10
    } else if w & 0xffe0_fc00 == 0x1e60_1800 {  // FDIV Dd, Dn, Dm
        11
    } else if w & 0xffe0_fc00 == 0x1e60_2800 {  // FADD Dd, Dn, Dm
        12
    } else if w & 0xffe0_fc00 == 0x1e60_3800 {  // FSUB Dd, Dn, Dm
        13
    } else if w & 0xffe0_fc00 == 0x1e60_6800 {  // FMAXNM Dd, Dn, Dm
        14
    } else if w & 0xffe0_fc00 == 0x1e60_7800 {  // FMINNM Dd, Dn, Dm
        15
    } else if w & 0xffe0_8000 == 0x9b00_0000 {  // MADD Xd, Xn, Xm, Xa
        16
    } else if w & 0xffe0_8000 == 0x9b00_8000 {  // MSUB Xd, Xn, Xm, Xa
        17
    } else if w & 0xffe0_8000 == 0x1f40_0000 {  // FMADD Dd, Dn, Dm, Da
        18
    } else if w & 0xffe0_8000 == 0x1f40_8000 {  // FMSUB Dd, Dn, Dm, Da
        19
    } else if w & 0xffff_fc00 == 0x1e60_4000 {  // FMOV Dd, Dn
        20
    } else if w & 0xffff_fc00 == 0x1e60_c000 {  // FABS Dd, Dn
        21
    } else if w & 0xffff_fc00 == 0x1e61_4000 {  // FNEG Dd, Dn
        22
    } else if w & 0xffff_fc00 == 0x1e61_c000 {  // FSQRT Dd, Dn
        23
    } else if w & 0xffff_fc00 == 0x9e62_0000 {  // SCVTF Dd, Xn
        24
    } else if w & 0xffff_fc00 == 0x9e78_0000 {  // FCVTZS Xd, Dn
        25
    } else if w & 0xffe0_fc1f == 0xeb00_001f {  // CMP Xn, Xm
        26
    } else if w & 0xffe0_fc1f == 0x1e60_2000 {  // FCMP Dn, Dm
        27
    } else if w & 0xffc0_0000 == 0xf940_0000 {  // LDR Xt, [Xn, #imm]
        28
    } else if w & 0xffc0_0000 == 0xf900_0000 {  // STR Xt, [Xn, #imm]
        29
    } else if w & 0xffc0_0000 == 0xfd40_0000 {  // LDR Dt, [Xn, #imm]
        30
    } else if w & 0xffc0_0000 == 0xfd00_0000 {  // STR Dt, [Xn, #imm]
        31
    } else if w & 0xff80_0000 == 0xd280_0000 {  // MOVZ Xd, #imm, LSL #shift
        32
    } else if w & 0xff80_0000 == 0xf280_0000 {  // MOVK Xd, #imm, LSL #shift
        33
    } else if w & 0xff80_0000 == 0x9100_0000 {  // ADD Xd, Xn, #imm
        34
    } else if w & 0xff80_0000 == 0xd100_0000 {  // SUB Xd, Xn, #imm
        35
    } else if w & 0xff80_0000 == 0x9200_0000 {  // AND Xd, Xn, #mask
        36
    } else if w & 0xffff_fc1f == 0xd63f_0000 {  // BLR Xn
        37
    } else if w & 0xffff_fc1f == 0xd65f_0000 {  // RET Xn
        38
    } else if w & 0xff00_0000 == 0x5c00_0000 {  // LDR Dt, label
        39
    } else if w & 0xfc00_0000 == 0x1400_0000 {  // B label
        40
    } else if w & 0xfc00_0000 == 0x9400_0000 {  // BL label
        41
    } else if w & 0xff00_0010 == 0x5400_0000 {  // B.cond label
        42
    } else {
        0
    }
}

/// What a word stands for: an instruction that the emitters use, or another
/// one of the table. Distances are in bytes, from the word.
#[verifier::ext_equal]
pub enum Decoded {
    Plain(A64),
    MulAdd { dst: Gpr, lhs: Gpr, rhs: Gpr, addend: Gpr },
    FusedMulSub { dst: Gpr, lhs: Gpr, rhs: Gpr, minuend: Gpr },
    LoadFrom { dst: Gpr, base: Gpr, offset: int },
    StoreTo { src: Gpr, base: Gpr, offset: int },
    LoadFloatFrom { dst: Gpr, base: Gpr, offset: int },
    StoreFloatTo { src: Gpr, base: Gpr, offset: int },
    AddImm { dst: Gpr, src: Gpr, imm: int },
    SubImm { dst: Gpr, src: Gpr, imm: int },
    AndMask { dst: Gpr, src: Gpr, n: u32, immr: u32, imms: u32 },
    Branch { offset: int },
    BranchLink { offset: int },
    BranchIf { condition: Condition, offset: int },
    LoadLiteral { dst: Gpr, offset: int },
}

pub open spec fn reg_d(w: u32) -> Gpr {
    reg(field_rd(w) as int)
}

pub open spec fn reg_n(w: u32) -> Gpr {
    reg(field_rn(w) as int)
}

pub open spec fn reg_a(w: u32) -> Gpr {
    reg(field_ra(w) as int)
}

pub open spec fn reg_m(w: u32) -> Gpr {
    reg(field_rm(w) as int)
}

/// A condition by its number.
pub open spec fn condition_of(number: u32) -> Option<Condition> {
    if number == 0 {
        Some(Condition::Eq)
    } else if number == 1 {
        Some(Condition::Ne)
    } else if number == 4 {
        Some(Condition::Mi)
    } else if number == 9 {
        Some(Condition::Ls)
    } else if number == 10 {
        Some(Condition::Ge)
    } else if number == 11 {
        Some(Condition::Lt)
    } else if number == 12 {
        Some(Condition::Gt)
    } else if number == 13 {
        Some(Condition::Le)
    } else if number == 14 {
        Some(Condition::Al)
    } else {
        None
    }
}

/// A field of `2 * half` values, read with its sign.
pub open spec fn signed(field: u32, half: int) -> int {
    if field >= half {
        field - 2 * half
    } else {
        field as int
    }
}

pub open spec fn int3(op: IntOp, w: u32) -> Option<Decoded> {
    Some(Decoded::Plain(A64::Int { op, dst: reg_d(w), lhs: reg_n(w), rhs: reg_m(w) }))
}

pub open spec fn float3(pair: FloatPairOp, w: u32) -> Option<Decoded> {
    Some(Decoded::Plain(A64::Float { pair, dst: reg_d(w), lhs: reg_n(w), rhs: reg_m(w) }))
}

pub open spec fn float2(unary: FloatUnaryOp, w: u32) -> Option<Decoded> {
    Some(Decoded::Plain(A64::Unary { unary, dst: reg_d(w), src: reg_n(w) }))
}

/// An add or subtract of an immediate. On the stack pointer it opens or closes
/// a frame.
pub open spec fn with_imm(sub: bool, w: u32) -> Option<Decoded> {
    let low = field_imm12(w) as int;
    let imm = if field_bit22(w) == 1 {
        low * 4096
    } else {
        low
    };
    if field_rd(w) == 31 && field_rn(w) == 31 && field_bit22(w) == 0 {
        if sub {
            Some(Decoded::Plain(A64::OpenFrame { bytes: low as u16 }))
        } else {
            Some(Decoded::Plain(A64::CloseFrame { bytes: low as u16 }))
        }
    } else if sub {
        Some(Decoded::SubImm { dst: reg_d(w), src: reg_n(w), imm })
    } else {
        Some(Decoded::AddImm { dst: reg_d(w), src: reg_n(w), imm })
    }
}

/// What a word is, by the table.
pub open spec fn decode(w: u32) -> Option<Decoded> {
    let k = row(w);
    let slot = 8 * field_imm12(w);
    if k == 1 {
        int3(IntOp::Add, w)
    } else if k == 2 {
        int3(IntOp::Sub, w)
    } else if k == 3 {
        int3(IntOp::And, w)
    } else if k == 4 {
        int3(IntOp::Or, w)
    } else if k == 5 {
        int3(IntOp::Xor, w)
    } else if k == 6 {
        int3(IntOp::Div, w)
    } else if k == 7 {
        int3(IntOp::Shl, w)
    } else if k == 8 {
        int3(IntOp::Shr, w)
    } else if k == 9 {
        int3(IntOp::Sar, w)
    } else if k == 10 {
        float3(FloatPairOp::Mul, w)
    } else if k == 11 {
        float3(FloatPairOp::Div, w)
    } else if k == 12 {
        float3(FloatPairOp::Add, w)
    } else if k == 13 {
        float3(FloatPairOp::Sub, w)
    } else if k == 14 {
        float3(FloatPairOp::Max, w)
    } else if k == 15 {
        float3(FloatPairOp::Min, w)
    } else if k == 16 {
        if field_ra(w) == 31 {
            int3(IntOp::Mul, w)
        } else {
            Some(
                Decoded::MulAdd { dst: reg_d(w), lhs: reg_n(w), rhs: reg_m(w), addend: reg_a(w) },
            )
        }
    } else if k == 17 {
        Some(
            Decoded::Plain(
                A64::MulSub { dst: reg_d(w), lhs: reg_n(w), rhs: reg_m(w), minuend: reg_a(w) },
            ),
        )
    } else if k == 18 {
        Some(
            Decoded::Plain(
                A64::FusedMulAdd { dst: reg_d(w), lhs: reg_n(w), rhs: reg_m(w), addend: reg_a(w) },
            ),
        )
    } else if k == 19 {
        Some(
            Decoded::FusedMulSub {
                dst: reg_d(w),
                lhs: reg_n(w),
                rhs: reg_m(w),
                minuend: reg_a(w),
            },
        )
    } else if k == 20 {
        float2(FloatUnaryOp::Move, w)
    } else if k == 21 {
        float2(FloatUnaryOp::Abs, w)
    } else if k == 22 {
        float2(FloatUnaryOp::Neg, w)
    } else if k == 23 {
        float2(FloatUnaryOp::Sqrt, w)
    } else if k == 24 {
        Some(Decoded::Plain(A64::FromInt { dst: reg_d(w), src: reg_n(w) }))
    } else if k == 25 {
        Some(Decoded::Plain(A64::ToInt { dst: reg_d(w), src: reg_n(w) }))
    } else if k == 26 {
        Some(Decoded::Plain(A64::Compare { lhs: reg_n(w), rhs: reg_m(w) }))
    } else if k == 27 {
        Some(Decoded::Plain(A64::CompareFloat { lhs: reg_n(w), rhs: reg_m(w) }))
    } else if k == 28 {
        if field_rn(w) == 31 {
            Some(Decoded::Plain(A64::Load { dst: reg_d(w), slot: slot as u16 }))
        } else {
            Some(Decoded::LoadFrom { dst: reg_d(w), base: reg_n(w), offset: slot })
        }
    } else if k == 29 {
        if field_rn(w) == 31 {
            Some(Decoded::Plain(A64::Store { src: reg_d(w), slot: slot as u16 }))
        } else {
            Some(Decoded::StoreTo { src: reg_d(w), base: reg_n(w), offset: slot })
        }
    } else if k == 30 {
        if field_rn(w) == 31 {
            Some(Decoded::Plain(A64::LoadFloat { dst: reg_d(w), slot: slot as u16 }))
        } else {
            Some(Decoded::LoadFloatFrom { dst: reg_d(w), base: reg_n(w), offset: slot })
        }
    } else if k == 31 {
        if field_rn(w) == 31 {
            Some(Decoded::Plain(A64::StoreFloat { src: reg_d(w), slot: slot as u16 }))
        } else {
            Some(Decoded::StoreFloatTo { src: reg_d(w), base: reg_n(w), offset: slot })
        }
    } else if k == 32 {
        Some(
            Decoded::Plain(
                A64::MoveWide {
                    dst: reg_d(w),
                    imm: field_imm16(w) as u16,
                    shift: (16 * field_hw(w)) as u8,
                },
            ),
        )
    } else if k == 33 {
        Some(
            Decoded::Plain(
                A64::MoveKeep {
                    dst: reg_d(w),
                    imm: field_imm16(w) as u16,
                    shift: (16 * field_hw(w)) as u8,
                },
            ),
        )
    } else if k == 34 {
        with_imm(false, w)
    } else if k == 35 {
        with_imm(true, w)
    } else if k == 36 {
        Some(
            Decoded::AndMask {
                dst: reg_d(w),
                src: reg_n(w),
                n: field_bit22(w),
                immr: field_immr(w),
                imms: field_imms(w),
            },
        )
    } else if k == 37 {
        Some(Decoded::Plain(A64::CallRegister { target: reg_n(w) }))
    } else if k == 38 {
        if field_rn(w) == 30 {
            Some(Decoded::Plain(A64::Return))
        } else {
            None
        }
    } else if k == 39 {
        Some(
            Decoded::LoadLiteral { dst: reg_d(w), offset: 4 * signed(field_imm19(w), 0x4_0000) },
        )
    } else if k == 40 {
        Some(Decoded::Branch { offset: 4 * signed(field_imm26(w), 0x200_0000) })
    } else if k == 41 {
        Some(Decoded::BranchLink { offset: 4 * signed(field_imm26(w), 0x200_0000) })
    } else if k == 42 {
        match condition_of(field_rd(w)) {
            Some(condition) => Some(
                Decoded::BranchIf { condition, offset: 4 * signed(field_imm19(w), 0x4_0000) },
            ),
            None => None,
        }
    } else {
        None
    }
}

// ---------------------------------------------------------------------------
// Reading back

spec fn w2(base: u32, rn: u32, rd: u32) -> u32 {
    base | (rn << 5u32) | rd
}

spec fn w3(base: u32, rm: u32, rn: u32, rd: u32) -> u32 {
    base | (rm << 16u32) | (rn << 5u32) | rd
}

spec fn w4(base: u32, rm: u32, ra: u32, rn: u32, rd: u32) -> u32 {
    base | (rm << 16u32) | (ra << 10u32) | (rn << 5u32) | rd
}

spec fn w_pair(base: u32, rm: u32, rn: u32) -> u32 {
    base | (rm << 16u32) | (rn << 5u32)
}

spec fn w12(base: u32, imm: u32, rn: u32, rd: u32) -> u32 {
    base | (imm << 10u32) | (rn << 5u32) | rd
}

spec fn w_wide(base: u32, hw: u32, half: u32, rd: u32) -> u32 {
    base | (hw << 21u32) | (half << 5u32) | rd
}

spec fn w_mask(n: u32, immr: u32, imms: u32, rn: u32, rd: u32) -> u32 {
    0x9200_0000u32 | (n << 22u32) | (immr << 16u32) | (imms << 10u32) | (rn << 5u32) | rd
}

spec fn w_near(base: u32, far: u32, low: u32) -> u32 {
    base | ((far & 0x7_ffffu32) << 5u32) | low
}

spec fn is2(base: u32, rn: u32, rd: u32, k: u32) -> bool {
    row(w2(base, rn, rd)) == k && field_rn(w2(base, rn, rd)) == rn && field_rd(w2(base, rn, rd))
        == rd
}

spec fn is3(base: u32, rm: u32, rn: u32, rd: u32, k: u32) -> bool {
    row(w3(base, rm, rn, rd)) == k && field_rm(w3(base, rm, rn, rd)) == rm && field_rn(
        w3(base, rm, rn, rd),
    ) == rn && field_rd(w3(base, rm, rn, rd)) == rd
}

spec fn is4(base: u32, rm: u32, ra: u32, rn: u32, rd: u32, k: u32) -> bool {
    row(w4(base, rm, ra, rn, rd)) == k && field_rm(w4(base, rm, ra, rn, rd)) == rm && field_ra(
        w4(base, rm, ra, rn, rd),
    ) == ra && field_rn(w4(base, rm, ra, rn, rd)) == rn && field_rd(w4(base, rm, ra, rn, rd)) == rd
}

spec fn is_pair(base: u32, rm: u32, rn: u32, k: u32) -> bool {
    row(w_pair(base, rm, rn)) == k && field_rm(w_pair(base, rm, rn)) == rm && field_rn(
        w_pair(base, rm, rn),
    ) == rn
}

spec fn is_imm12(base: u32, imm: u32, rn: u32, rd: u32, k: u32) -> bool {
    row(w12(base, imm, rn, rd)) == k && field_imm12(w12(base, imm, rn, rd)) == imm && field_rn(
        w12(base, imm, rn, rd),
    ) == rn && field_rd(w12(base, imm, rn, rd)) == rd
}

spec fn is_wide(base: u32, hw: u32, half: u32, rd: u32, k: u32) -> bool {
    row(w_wide(base, hw, half, rd)) == k && field_hw(w_wide(base, hw, half, rd)) == hw
        && field_imm16(w_wide(base, hw, half, rd)) == half && field_rd(w_wide(base, hw, half, rd))
        == rd
}

spec fn is_mask(n: u32, immr: u32, imms: u32, rn: u32, rd: u32) -> bool {
    row(w_mask(n, immr, imms, rn, rd)) == 36 && field_bit22(w_mask(n, immr, imms, rn, rd)) == n
        && field_immr(w_mask(n, immr, imms, rn, rd)) == immr && field_imms(
        w_mask(n, immr, imms, rn, rd),
    ) == imms && field_rn(w_mask(n, immr, imms, rn, rd)) == rn && field_rd(
        w_mask(n, immr, imms, rn, rd),
    ) == rd
}

spec fn is_near(base: u32, far: u32, low: u32, k: u32) -> bool {
    row(w_near(base, far, low)) == k && field_imm19(w_near(base, far, low)) == far & 0x7_ffffu32
        && field_rd(w_near(base, far, low)) == low
}

spec fn is_branch(w: u32, far: u32, k: u32) -> bool {
    row(w) == k && field_imm26(w) == far & 0x03ff_ffffu32
}

/// The words that are encoded stand in their rows, and their fields are read
/// back.
proof fn lemma_rows(
    rm: u32,
    ra: u32,
    rn: u32,
    rd: u32,
    imm: u32,
    hw: u32,
    half: u32,
    n: u32,
    immr: u32,
    imms: u32,
    far: u32,
    cond: u32,
)
    by (bit_vector)
    requires
        rm < 32,
        ra < 32,
        rn < 32,
        rd < 32,
        imm < 4096,
        hw < 4,
        half < 0x1_0000,
        n < 2,
        immr < 64,
        imms < 64,
    ensures
        is3(0x8b00_0000u32, rm, rn, rd, 1),
        is3(0xcb00_0000u32, rm, rn, rd, 2),
        is3(0x8a00_0000u32, rm, rn, rd, 3),
        is3(0xaa00_0000u32, rm, rn, rd, 4),
        is3(0xca00_0000u32, rm, rn, rd, 5),
        is3(0x9ac0_0c00u32, rm, rn, rd, 6),
        is3(0x9ac0_2000u32, rm, rn, rd, 7),
        is3(0x9ac0_2400u32, rm, rn, rd, 8),
        is3(0x9ac0_2800u32, rm, rn, rd, 9),
        is3(0x1e60_0800u32, rm, rn, rd, 10),
        is3(0x1e60_1800u32, rm, rn, rd, 11),
        is3(0x1e60_2800u32, rm, rn, rd, 12),
        is3(0x1e60_3800u32, rm, rn, rd, 13),
        is3(0x1e60_6800u32, rm, rn, rd, 14),
        is3(0x1e60_7800u32, rm, rn, rd, 15),
        is4(0x9b00_0000u32, rm, ra, rn, rd, 16),
        is4(0x9b00_8000u32, rm, ra, rn, rd, 17),
        is4(0x1f40_0000u32, rm, ra, rn, rd, 18),
        is4(0x1f40_8000u32, rm, ra, rn, rd, 19),
        is4(0x9b00_0000u32, rm, 31u32, rn, rd, 16) && w3(0x9b00_7c00u32, rm, rn, rd) == w4(0x9b00_0000u32, rm, 31u32, rn, rd),
        is2(0x1e60_4000u32, rn, rd, 20),
        is2(0x1e60_c000u32, rn, rd, 21),
        is2(0x1e61_4000u32, rn, rd, 22),
        is2(0x1e61_c000u32, rn, rd, 23),
        is2(0x9e62_0000u32, rn, rd, 24),
        is2(0x9e78_0000u32, rn, rd, 25),
        is_pair(0xeb00_001fu32, rm, rn, 26),
        is_pair(0x1e60_2000u32, rm, rn, 27),
        is_imm12(0xf940_0000u32, imm, rn, rd, 28),
        is_imm12(0xf900_0000u32, imm, rn, rd, 29),
        is_imm12(0xfd40_0000u32, imm, rn, rd, 30),
        is_imm12(0xfd00_0000u32, imm, rn, rd, 31),
        is_wide(0xd280_0000u32, hw, half, rd, 32),
        is_wide(0xf280_0000u32, hw, half, rd, 33),
        is_imm12(0x9100_0000u32 | (0u32 << 30u32) | (0u32 << 22u32), imm, rn, rd, 34) && ((w12(0x9100_0000u32 | (0u32 << 30u32) | (0u32 << 22u32), imm, rn, rd) >> 22u32) & 1) == 0,
        is_imm12(0x9100_0000u32 | (0u32 << 30u32) | (1u32 << 22u32), imm, rn, rd, 34) && ((w12(0x9100_0000u32 | (0u32 << 30u32) | (1u32 << 22u32), imm, rn, rd) >> 22u32) & 1) == 1,
        is_imm12(0x9100_0000u32 | (1u32 << 30u32) | (0u32 << 22u32), imm, rn, rd, 35) && ((w12(0x9100_0000u32 | (1u32 << 30u32) | (0u32 << 22u32), imm, rn, rd) >> 22u32) & 1) == 0,
        is_imm12(0x9100_0000u32 | (1u32 << 30u32) | (1u32 << 22u32), imm, rn, rd, 35) && ((w12(0x9100_0000u32 | (1u32 << 30u32) | (1u32 << 22u32), imm, rn, rd) >> 22u32) & 1) == 1,
        is_mask(n, immr, imms, rn, rd),
        row(0xd63f_0000u32 | (rn << 5u32)) == 37 && field_rn(0xd63f_0000u32 | (rn << 5u32)) == rn,
        row(0xd65f_03c0u32) == 38 && field_rn(0xd65f_03c0u32) == 30,
        is_near(0x5c00_0000u32, far, rd, 39),
        cond < 16 ==> is_near(0x5400_0000u32, far, cond, 42),
        is_branch(0x1400_0000u32 | (far & 0x03ff_ffffu32), far, 40),
        is_branch((0x1400_0000u32 | (far & 0x03ff_ffffu32)) | 0x8000_0000u32, far, 41),
{
}

pub open spec fn is_register(r: Gpr) -> bool {
    r.number() < 32
}

/// The registers of an instruction have numbers that there are.
pub open spec fn registers_ok(i: A64) -> bool {
    match i {
        A64::Int { dst, lhs, rhs, .. } => is_register(dst) && is_register(lhs) && is_register(rhs),
        A64::Float { dst, lhs, rhs, .. } => is_register(dst) && is_register(lhs) && is_register(
            rhs,
        ),
        A64::Unary { dst, src, .. } => is_register(dst) && is_register(src),
        A64::MulSub { dst, lhs, rhs, minuend } => is_register(dst) && is_register(lhs)
            && is_register(rhs) && is_register(minuend),
        A64::FusedMulAdd { dst, lhs, rhs, addend } => is_register(dst) && is_register(lhs)
            && is_register(rhs) && is_register(addend),
        A64::FromInt { dst, src } => is_register(dst) && is_register(src),
        A64::ToInt { dst, src } => is_register(dst) && is_register(src),
        A64::Compare { lhs, rhs } => is_register(lhs) && is_register(rhs),
        A64::CompareFloat { lhs, rhs } => is_register(lhs) && is_register(rhs),
        A64::Load { dst, .. } => is_register(dst),
        A64::Store { src, .. } => is_register(src),
        A64::LoadFloat { dst, .. } => is_register(dst),
        A64::StoreFloat { src, .. } => is_register(src),
        A64::MoveWide { dst, .. } => is_register(dst),
        A64::MoveKeep { dst, .. } => is_register(dst),
        A64::CallRegister { target } => is_register(target),
        A64::Literal { dst, .. } => is_register(dst),
        _ => true,
    }
}

/// What the word of an instruction stands for that has to reach `offset` bytes
/// away.
pub open spec fn placed(i: A64, offset: int) -> Decoded {
    match i {
        A64::Literal { dst, .. } => Decoded::LoadLiteral { dst, offset },
        A64::Jump { .. } => Decoded::Branch { offset },
        A64::JumpIf { condition, .. } => Decoded::BranchIf { condition, offset },
        _ => Decoded::Plain(i),
    }
}

/// The word is read as the instruction, with this distance to reach.
pub open spec fn reads_as(w: u32, i: A64, offset: i32) -> bool {
    decode(w) == Some(placed(i, offset as int))
}

/// A displacement is read back from its field.
proof fn lemma_signed(offset: i32)
    requires
        offset % 4 == 0,
    ensures
        -0x200_0000 <= offset / 4 < 0x200_0000 ==> 4 * signed(
            word_count(offset) & 0x03ff_ffffu32,
            0x200_0000,
        ) == offset,
        -0x4_0000 <= offset / 4 < 0x4_0000 ==> 4 * signed(
            word_count(offset) & 0x7_ffffu32,
            0x4_0000,
        ) == offset,
{
    let k = (offset / 4) as i32;
    let c = k as u32;
    assert((k >= -0x200_0000i32 && k < 0x200_0000i32 ==> (c & 0x03ff_ffffu32 >= 0x200_0000u32 ==> k
        == (c & 0x03ff_ffffu32) - 0x400_0000) && (c & 0x03ff_ffffu32 < 0x200_0000u32 ==> k == c
        & 0x03ff_ffffu32)) && (k >= -0x4_0000i32 && k < 0x4_0000i32 ==> (c & 0x7_ffffu32
        >= 0x4_0000u32 ==> k == (c & 0x7_ffffu32) - 0x8_0000) && (c & 0x7_ffffu32 < 0x4_0000u32
        ==> k == c & 0x7_ffffu32))) by (bit_vector)
        requires
            c == k as u32,
    ;
}

proof fn lemma_three(rm: Gpr, rn: Gpr, rd: Gpr)
    ensures
        reg(rm.number() as int) == rm,
        reg(rn.number() as int) == rn,
        reg(rd.number() as int) == rd,
{
    lemma_reg_number(rm);
    lemma_reg_number(rn);
    lemma_reg_number(rd);
}

proof fn lemma_int_decodes(op: IntOp, dst: Gpr, lhs: Gpr, rhs: Gpr)
    requires
        is_register(dst),
        is_register(lhs),
        is_register(rhs),
    ensures
        decode(word3(op.base(), dst, lhs, rhs)) == Some(
            Decoded::Plain(A64::Int { op, dst, lhs, rhs }),
        ),
{
    let rm = rhs.number() as u32;
    let rn = lhs.number() as u32;
    let rd = dst.number() as u32;
    lemma_rows(rm, 0, rn, rd, 0, 0, 0, 0, 0, 0, 0, 0);
    lemma_three(rhs, lhs, dst);
    assert(word3(op.base(), dst, lhs, rhs) == w3(op.base(), rm, rn, rd));
}

proof fn lemma_float_decodes(pair: FloatPairOp, dst: Gpr, lhs: Gpr, rhs: Gpr)
    requires
        is_register(dst),
        is_register(lhs),
        is_register(rhs),
    ensures
        decode(word3(pair.base(), dst, lhs, rhs)) == Some(
            Decoded::Plain(A64::Float { pair, dst, lhs, rhs }),
        ),
{
    let rm = rhs.number() as u32;
    let rn = lhs.number() as u32;
    let rd = dst.number() as u32;
    lemma_rows(rm, 0, rn, rd, 0, 0, 0, 0, 0, 0, 0, 0);
    lemma_three(rhs, lhs, dst);
    assert(word3(pair.base(), dst, lhs, rhs) == w3(pair.base(), rm, rn, rd));
}

proof fn lemma_unary_decodes(unary: FloatUnaryOp, dst: Gpr, src: Gpr)
    requires
        is_register(dst),
        is_register(src),
    ensures
        decode(word2(unary.base(), dst, src)) == Some(
            Decoded::Plain(A64::Unary { unary, dst, src }),
        ),
{
    let rn = src.number() as u32;
    let rd = dst.number() as u32;
    lemma_rows(0, 0, rn, rd, 0, 0, 0, 0, 0, 0, 0, 0);
    lemma_three(src, src, dst);
    assert(word2(unary.base(), dst, src) == w2(unary.base(), rn, rd));
}

/// The word of every instruction is read back as that instruction: the same
/// operation on the same registers, with the same immediates, and the distance
/// that it has to reach.
#[verifier::rlimit(60)]
pub proof fn lemma_word_decodes(i: A64, offset: i32)
    requires
        registers_ok(i),
        encodable(i),
        reaches(i, offset),
    ensures
        decode(word_of(i, offset)) == Some(placed(i, offset as int)),
{
    lemma_reg(31);
    match i {
        A64::Int { op, dst, lhs, rhs } => lemma_int_decodes(op, dst, lhs, rhs),
        A64::Float { pair, dst, lhs, rhs } => lemma_float_decodes(pair, dst, lhs, rhs),
        A64::Unary { unary, dst, src } => lemma_unary_decodes(unary, dst, src),
        A64::MulSub { dst, lhs, rhs, minuend } => lemma_four(dst, lhs, rhs, minuend),
        A64::FusedMulAdd { dst, lhs, rhs, addend } => lemma_four(dst, lhs, rhs, addend),
        A64::FromInt { dst, src } | A64::ToInt { dst, src } => {
            lemma_rows(0, 0, src.number() as u32, dst.number() as u32, 0, 0, 0, 0, 0, 0, 0, 0);
            lemma_three(src, src, dst);
            assert(word2(0x9e62_0000, dst, src) == w2(
                0x9e62_0000,
                src.number() as u32,
                dst.number() as u32,
            ));
            assert(word2(0x9e78_0000, dst, src) == w2(
                0x9e78_0000,
                src.number() as u32,
                dst.number() as u32,
            ));
        },
        A64::Compare { lhs, rhs } | A64::CompareFloat { lhs, rhs } => {
            lemma_rows(rhs.number() as u32, 0, lhs.number() as u32, 0, 0, 0, 0, 0, 0, 0, 0, 0);
            lemma_three(rhs, lhs, lhs);
            assert(word_pair(0xeb00_001f, lhs, rhs) == w_pair(
                0xeb00_001f,
                rhs.number() as u32,
                lhs.number() as u32,
            ));
            assert(word_pair(0x1e60_2000, lhs, rhs) == w_pair(
                0x1e60_2000,
                rhs.number() as u32,
                lhs.number() as u32,
            ));
        },
        A64::Load { dst, slot } => lemma_slot_decodes(dst, reg(31), slot),
        A64::Store { src, slot } => lemma_slot_decodes(src, reg(31), slot),
        A64::LoadFloat { dst, slot } => lemma_slot_decodes(dst, reg(31), slot),
        A64::StoreFloat { src, slot } => lemma_slot_decodes(src, reg(31), slot),
        A64::MoveWide { dst, imm, shift } | A64::MoveKeep { dst, imm, shift } => {
            let hw = (shift / 16) as u32;
            lemma_rows(0, 0, 0, dst.number() as u32, 0, hw, imm as u32, 0, 0, 0, 0, 0);
            lemma_three(dst, dst, dst);
            assert(word_wide(0xd280_0000, imm, shift, dst) == w_wide(
                0xd280_0000,
                hw,
                imm as u32,
                dst.number() as u32,
            ));
            assert(word_wide(0xf280_0000, imm, shift, dst) == w_wide(
                0xf280_0000,
                hw,
                imm as u32,
                dst.number() as u32,
            ));
        },
        A64::OpenFrame { bytes } => lemma_imm_decodes(true, reg(31), reg(31), bytes, false),
        A64::CloseFrame { bytes } => lemma_imm_decodes(false, reg(31), reg(31), bytes, false),
        A64::CallRegister { target } => {
            lemma_rows(0, 0, target.number() as u32, 0, 0, 0, 0, 0, 0, 0, 0, 0);
            lemma_three(target, target, target);
        },
        A64::Return => lemma_rows(0, 0, 0, 0, 0, 0, 0, 0, 0, 0, 0, 0),
        A64::Literal { dst, .. } => lemma_literal_decodes(dst, offset),
        A64::Jump { .. } => lemma_branch_decodes(offset),
        A64::JumpIf { condition, .. } => lemma_condition_decodes(condition, offset),
    }
}

pub(crate) proof fn lemma_four(dst: Gpr, lhs: Gpr, rhs: Gpr, third: Gpr)
    requires
        is_register(dst),
        is_register(lhs),
        is_register(rhs),
        is_register(third),
    ensures
        decode(word4(0x9b00_8000, rhs.number(), third.number(), lhs.number(), dst.number()))
            == Some(Decoded::Plain(A64::MulSub { dst, lhs, rhs, minuend: third })),
        decode(word4(0x1f40_0000, rhs.number(), third.number(), lhs.number(), dst.number()))
            == Some(Decoded::Plain(A64::FusedMulAdd { dst, lhs, rhs, addend: third })),
        decode(word4(0x1f40_8000, rhs.number(), third.number(), lhs.number(), dst.number()))
            == Some(Decoded::FusedMulSub { dst, lhs, rhs, minuend: third }),
        decode(word4(0x9b00_0000, rhs.number(), third.number(), lhs.number(), dst.number()))
            == if third.number() == 31 {
            Some(Decoded::Plain(A64::Int { op: IntOp::Mul, dst, lhs, rhs }))
        } else {
            Some(Decoded::MulAdd { dst, lhs, rhs, addend: third })
        },
{
    let rm = rhs.number() as u32;
    let ra = third.number() as u32;
    let rn = lhs.number() as u32;
    let rd = dst.number() as u32;
    lemma_rows(rm, ra, rn, rd, 0, 0, 0, 0, 0, 0, 0, 0);
    lemma_three(rhs, lhs, dst);
    lemma_three(third, third, third);
    assert(word4(0x9b00_8000, rhs.number(), third.number(), lhs.number(), dst.number()) == w4(
        0x9b00_8000,
        rm,
        ra,
        rn,
        rd,
    ));
    assert(word4(0x1f40_0000, rhs.number(), third.number(), lhs.number(), dst.number()) == w4(
        0x1f40_0000,
        rm,
        ra,
        rn,
        rd,
    ));
    assert(word4(0x1f40_8000, rhs.number(), third.number(), lhs.number(), dst.number()) == w4(
        0x1f40_8000,
        rm,
        ra,
        rn,
        rd,
    ));
    assert(word4(0x9b00_0000, rhs.number(), third.number(), lhs.number(), dst.number()) == w4(
        0x9b00_0000,
        rm,
        ra,
        rn,
        rd,
    ));
}

/// A load or store of eight bytes, `offset` bytes from a register.
pub(crate) proof fn lemma_slot_decodes(r: Gpr, base: Gpr, offset: u16)
    requires
        is_register(r),
        is_register(base),
        offset % 8 == 0,
        offset / 8 < 4096,
    ensures
        decode(word_imm12(0xf940_0000, (offset / 8) as u32, base, r)) == Some(
            if base.number() == 31 {
                Decoded::Plain(A64::Load { dst: r, slot: offset })
            } else {
                Decoded::LoadFrom { dst: r, base, offset: offset as int }
            },
        ),
        decode(word_imm12(0xf900_0000, (offset / 8) as u32, base, r)) == Some(
            if base.number() == 31 {
                Decoded::Plain(A64::Store { src: r, slot: offset })
            } else {
                Decoded::StoreTo { src: r, base, offset: offset as int }
            },
        ),
        decode(word_imm12(0xfd40_0000, (offset / 8) as u32, base, r)) == Some(
            if base.number() == 31 {
                Decoded::Plain(A64::LoadFloat { dst: r, slot: offset })
            } else {
                Decoded::LoadFloatFrom { dst: r, base, offset: offset as int }
            },
        ),
        decode(word_imm12(0xfd00_0000, (offset / 8) as u32, base, r)) == Some(
            if base.number() == 31 {
                Decoded::Plain(A64::StoreFloat { src: r, slot: offset })
            } else {
                Decoded::StoreFloatTo { src: r, base, offset: offset as int }
            },
        ),
{
    let imm = (offset / 8) as u32;
    let rn = base.number() as u32;
    let rd = r.number() as u32;
    lemma_rows(0, 0, rn, rd, imm, 0, 0, 0, 0, 0, 0, 0);
    lemma_three(base, base, r);
    assert(word_imm12(0xf940_0000, imm, base, r) == w12(0xf940_0000, imm, rn, rd));
    assert(word_imm12(0xf900_0000, imm, base, r) == w12(0xf900_0000, imm, rn, rd));
    assert(word_imm12(0xfd40_0000, imm, base, r) == w12(0xfd40_0000, imm, rn, rd));
    assert(word_imm12(0xfd00_0000, imm, base, r) == w12(0xfd00_0000, imm, rn, rd));
    assert(8 * imm == offset);
}

/// What adding or subtracting an immediate stands for.
pub open spec fn imm_form(sub: bool, dst: Gpr, src: Gpr, imm: u16, shift12: bool) -> Decoded {
    let whole = if shift12 {
        imm * 4096
    } else {
        imm as int
    };
    if dst.number() == 31 && src.number() == 31 && !shift12 {
        Decoded::Plain(
            if sub {
                A64::OpenFrame { bytes: imm }
            } else {
                A64::CloseFrame { bytes: imm }
            },
        )
    } else if sub {
        Decoded::SubImm { dst, src, imm: whole }
    } else {
        Decoded::AddImm { dst, src, imm: whole }
    }
}

pub(crate) proof fn lemma_imm_decodes(sub: bool, dst: Gpr, src: Gpr, imm: u16, shift12: bool)
    requires
        is_register(dst),
        is_register(src),
        imm < 4096,
    ensures
        decode(add_sub_imm_word(sub, dst, src, imm, shift12)) == Some(
            imm_form(sub, dst, src, imm, shift12),
        ),
{
    let rn = src.number() as u32;
    let rd = dst.number() as u32;
    lemma_rows(0, 0, rn, rd, imm as u32, 0, 0, 0, 0, 0, 0, 0);
    lemma_three(src, src, dst);
    let a = if sub {
        1u32
    } else {
        0u32
    };
    let b = if shift12 {
        1u32
    } else {
        0u32
    };
    let base = 0x9100_0000u32 | (a << 30u32) | (b << 22u32);
    assert(add_sub_imm_word(sub, dst, src, imm, shift12) == w12(base, imm as u32, rn, rd));
    assert(is_imm12(
        base,
        imm as u32,
        rn,
        rd,
        if sub {
            35
        } else {
            34
        },
    ));
    assert(field_bit22(w12(base, imm as u32, rn, rd)) == b);
}

/// How wide the elements of a bit mask are.
pub open spec fn mask_width(n: u32, imms: u32) -> int {
    if n == 1 {
        64
    } else if imms < 32 {
        32
    } else if imms < 48 {
        16
    } else if imms < 56 {
        8
    } else if imms < 60 {
        4
    } else {
        2
    }
}

/// Bit `i` of a bit mask: each element is a run of ones from its lowest bit
/// on, as many as the low bits of `imms` say and one more, rotated right by
/// `immr`.
pub open spec fn mask_bit(n: u32, immr: u32, imms: u32, i: int) -> bool {
    let width = mask_width(n, imms);
    (i + immr) % width <= imms as int % width
}

pub open spec fn bit_of(value: u64, i: int) -> bool {
    (value >> (i as u64)) & 1 == 1
}

proof fn lemma_bit_facts(a: u64, p: u64, s: u64, w: u64, i: u64, mask: u64)
    by (bit_vector)
    requires
        s < 64,
        i < 64,
        w == 2 || w == 4 || w == 8 || w == 16 || w == 32 || w == 64,
        mask == if w >= 64 {
            0xffff_ffff_ffff_ffffu64
        } else {
            ((1u64 << w) - 1) as u64
        },
    ensures
        ((a | (p << s)) >> i) & 1 == 1 <==> (a >> i) & 1 == 1 || (i >= s && (p >> ((i - s) as u64))
            & 1 == 1),
        i >= w ==> ((p & mask) >> i) & 1 == 0,
        (0u64 >> i) & 1 == 0,
        (p & mask) & mask == p & mask,
{
}

/// A run of ones, rotated right.
#[verifier::rlimit(100)]
proof fn lemma_run_bits(r: u64, w: u64, ones: u64, i: u64, run: u64, mask: u64)
    by (bit_vector)
    requires
        w == 2 || w == 4 || w == 8 || w == 16 || w == 32 || w == 64,
        i < w,
        r < w,
        1 <= ones < w,
        run == ((1u64 << ones) - 1) as u64,
        mask == if w >= 64 {
            0xffff_ffff_ffff_ffffu64
        } else {
            ((1u64 << w) - 1) as u64
        },
    ensures
        ((run & mask) >> i) & 1 == 1 <==> i < ones,
        0 < r && i < w - r ==> ((((run >> r) | (run << ((w - r) as u64))) & mask) >> i & 1 == 1
            <==> i + r < ones),
        0 < r && i >= w - r ==> ((((run >> r) | (run << ((w - r) as u64))) & mask) >> i & 1 == 1
            <==> i - (w - r) < ones),
{
}

proof fn lemma_repeated_bits(p: u64, w: u32, count: nat, i: int)
    requires
        is_element_width(w),
        0 <= i < 64,
        count * w <= 64,
        p == p & low_mask(w),
    ensures
        bit_of(repeated(p, w, count), i) <==> i < count * w && bit_of(p, i % (w as int)),
    decreases count,
{
    if count == 0 {
        lemma_bit_facts(0, 0, 0, w as u64, i as u64, low_mask(w));
        assert(count * w == 0) by (nonlinear_arith)
            requires
                count == 0,
        ;
    } else {
        let before = (count - 1) as nat;
        assert(count * w == before * w + w) by (nonlinear_arith)
            requires
                count == before + 1,
        ;
        lemma_repeated_bits(p, w, before, i);
        let s = before * w;
        assert(0 <= s < 64) by (nonlinear_arith)
            requires
                s + w <= 64,
                w > 0,
                s == before * w,
                before >= 0,
        ;
        lemma_bit_facts(repeated(p, w, before), p, s as u64, w as u64, i as u64, low_mask(w));
        assert(repeated(p, w, count) == repeated(p, w, before) | (p << (s as u64)));
        if i >= s {
            lemma_bit_facts(0, p, 0, w as u64, (i - s) as u64, low_mask(w));
            assert(((i as u64) - (s as u64)) as u64 == (i - s) as u64);
            if i < s + w {
                vstd::arithmetic::div_mod::lemma_fundamental_div_mod_converse(
                    i,
                    w as int,
                    before as int,
                    i - s,
                );
            }
        }
    }
}

proof fn lemma_imms(w: u32, ones: u32)
    requires
        is_element_width(w),
        1 <= ones < w,
    ensures
        imms_field(w, ones) < 64,
        mask_width(
            if w == 64 {
                1
            } else {
                0
            },
            imms_field(w, ones) as u32,
        ) == w,
        imms_field(w, ones) as int % (w as int) == ones - 1,
{
    let f = imms_field(w, ones);
    assert(f < 64 && f % (w as u8) == ones - 1 && (w == 2 ==> f >= 60) && (w == 4 ==> 56 <= f < 60)
        && (w == 8 ==> 48 <= f < 56) && (w == 16 ==> 32 <= f < 48) && (w == 32 ==> f < 32))
        by (bit_vector)
        requires
            w == 2 || w == 4 || w == 8 || w == 16 || w == 32 || w == 64,
            1 <= ones < w,
            f == ((!((2 * w - 1) as u32) & 0x3fu32) | ((ones - 1) as u32)) as u8,
    ;
}

/// The code of a 64-bit immediate stands for its bits, one by one.
pub proof fn lemma_mask_means(value: u64, n: u8, immr: u8, imms: u8, i: int)
    requires
        is_logical_imm(value, true, n, immr, imms),
        0 <= i < 64,
    ensures
        n < 2,
        immr < 64,
        imms < 64,
        bit_of(value, i) <==> mask_bit(n as u32, immr as u32, imms as u32, i),
{
    let (w, ones) = choose|w: u32, ones: u32|
        #![trigger imms_field(w, ones)]
        logical_pattern(value, true, w, ones, immr as u32) && n == (if w == 64 {
            1u8
        } else {
            0u8
        }) && imms == imms_field(w, ones);
    lemma_imms(w, ones);
    let p = value & low_mask(w);
    let r = immr as u32;
    let width = w as int;
    let j = i % width;
    lemma_bit_facts(0, value, 0, w as u64, 0, low_mask(w));
    assert((64u32 / w) as nat * w == 64) by (nonlinear_arith)
        requires
            w == 2 || w == 4 || w == 8 || w == 16 || w == 32 || w == 64,
    ;
    lemma_repeated_bits(p, w, (64u32 / w) as nat, i);
    let run = ((1u64 << ones) - 1) as u64;
    lemma_run_bits(r as u64, w as u64, ones as u64, j as u64, run, low_mask(w));
    assert(bit_of(p, j) <==> if j + r < w {
        j + r < ones
    } else {
        j + r - w < ones
    });
    assert((i + r) % width == if j + r < w {
        j + r
    } else {
        j + r - w
    }) by {
        vstd::arithmetic::div_mod::lemma_fundamental_div_mod(i, width);
        let q = i / width;
        assert((q + 1) * width == q * width + width) by (nonlinear_arith);
        assert(q * width == width * q) by (nonlinear_arith);
        if j + r < w {
            vstd::arithmetic::div_mod::lemma_fundamental_div_mod_converse(i + r, width, q, j + r);
        } else {
            vstd::arithmetic::div_mod::lemma_fundamental_div_mod_converse(
                i + r,
                width,
                q + 1,
                j + r - w,
            );
        }
    }
}

pub(crate) proof fn lemma_mask_decodes(n: u8, immr: u8, imms: u8, lhs: Gpr, dst: Gpr)
    requires
        is_register(dst),
        is_register(lhs),
        n < 2,
        immr < 64,
        imms < 64,
    ensures
        decode(and_imm_word(n, immr, imms, lhs, dst)) == Some(
            Decoded::AndMask {
                dst,
                src: lhs,
                n: n as u32,
                immr: immr as u32,
                imms: imms as u32,
            },
        ),
{
    let rn = lhs.number() as u32;
    let rd = dst.number() as u32;
    lemma_rows(0, 0, rn, rd, 0, 0, 0, n as u32, immr as u32, imms as u32, 0, 0);
    lemma_three(lhs, lhs, dst);
    assert(and_imm_word(n, immr, imms, lhs, dst) == w_mask(
        n as u32,
        immr as u32,
        imms as u32,
        rn,
        rd,
    ));
}

pub(crate) proof fn lemma_literal_decodes(dst: Gpr, offset: i32)
    requires
        is_register(dst),
        crate::aarch64::encode::near_reach(offset as int),
    ensures
        decode(near_word(0x5c00_0000, offset, dst.number() as u32)) == Some(
            Decoded::LoadLiteral { dst, offset: offset as int },
        ),
{
    let far = word_count(offset);
    let rd = dst.number() as u32;
    lemma_rows(0, 0, 0, rd, 0, 0, 0, 0, 0, 0, far, 0);
    lemma_three(dst, dst, dst);
    lemma_signed(offset);
    assert(near_word(0x5c00_0000, offset, rd) == w_near(0x5c00_0000, far, rd));
}

pub(crate) proof fn lemma_branch_decodes(offset: i32)
    requires
        crate::aarch64::encode::branch_reach(offset as int),
    ensures
        decode(branch_word(offset)) == Some(Decoded::Branch { offset: offset as int }),
        decode(branch_word(offset) | 0x8000_0000u32) == Some(
            Decoded::BranchLink { offset: offset as int },
        ),
{
    lemma_rows(0, 0, 0, 0, 0, 0, 0, 0, 0, 0, word_count(offset), 0);
    lemma_signed(offset);
}

pub(crate) proof fn lemma_condition_decodes(condition: Condition, offset: i32)
    requires
        crate::aarch64::encode::near_reach(offset as int),
    ensures
        decode(near_word(0x5400_0000, offset, condition.field())) == Some(
            Decoded::BranchIf { condition, offset: offset as int },
        ),
{
    let far = word_count(offset);
    let cond = condition.field();
    lemma_rows(0, 0, 0, 0, 0, 0, 0, 0, 0, 0, far, cond);
    lemma_signed(offset);
    assert(near_word(0x5400_0000, offset, cond) == w_near(0x5400_0000, far, cond));
}

// ---------------------------------------------------------------------------
// Bytes

/// The word that four bytes are, the lowest first.
pub open spec fn word_at(bytes: Seq<u8>, at: int) -> u32 {
    (bytes[at] + 0x100 * bytes[at + 1] + 0x1_0000 * bytes[at + 2] + 0x100_0000 * bytes[at
        + 3]) as u32
}

/// The number that eight bytes are, the lowest first.
pub open spec fn double_word_at(bytes: Seq<u8>, at: int) -> u64 {
    (word_at(bytes, at) + 0x1_0000_0000 * word_at(bytes, at + 4)) as u64
}

/// The words are read back from their bytes.
pub proof fn lemma_words_read_back(words: Seq<u32>, i: int)
    requires
        0 <= i < words.len(),
    ensures
        word_at(le_bytes(words), 4 * i) == words[i],
        le_bytes(words).len() == 4 * words.len(),
{
    let bytes = le_bytes(words);
    let w = words[i];
    assert(bytes[4 * i] == (w >> 0u32) as u8);
    assert(bytes[4 * i + 1] == (w >> 8u32) as u8);
    assert(bytes[4 * i + 2] == (w >> 16u32) as u8);
    assert(bytes[4 * i + 3] == (w >> 24u32) as u8);
    assert(((w >> 0u32) as u8) + 0x100 * ((w >> 8u32) as u8) + 0x1_0000 * ((w >> 16u32) as u8)
        + 0x100_0000 * ((w >> 24u32) as u8) == w) by (bit_vector);
}

/// The bytes hold the code: every word of it is read as its instruction, with
/// the distance to where the instruction goes, and every literal stands where
/// its load finds it.
pub open spec fn spells(bytes: Seq<u8>, code: Seq<A64>, starts: Seq<usize>) -> bool {
    &&& 4 * code.len() <= bytes.len()
    &&& forall|i: int|
        #![trigger code[i]]
        0 <= i < code.len() ==> decode(word_at(bytes, 4 * i)) == Some(
            placed(code[i], 4 * distance(code, starts, i)),
        )
    &&& forall|i: int|
        #![trigger code[i]]
        0 <= i < code.len() ==> (code[i] matches A64::Literal { bits, .. } ==> 4 * (i + distance(
            code,
            starts,
            i,
        )) + 8 <= bytes.len() && double_word_at(bytes, 4 * (i + distance(code, starts, i)))
            == bits)
}

/// Instructions, and where the blocks start among them.
pub struct Source {
    pub code: Seq<A64>,
    pub starts: Seq<usize>,
}

/// Where there are bytes, they spell the source.
pub open spec fn spelled(
    r: Result<Vec<u8>, EmitError>,
    source: Result<Source, EmitError>,
) -> bool {
    r matches Ok(bytes) ==> source is Ok && spells(
        bytes@,
        source->Ok_0.code,
        source->Ok_0.starts,
    )
}

/// Linked code is spelled by its bytes.
pub proof fn lemma_linked_spells(code: Seq<A64>, starts: Seq<usize>)
    requires
        all_encodable(code),
        linkable(code, starts),
        targets_known(code, starts.len()),
        forall|i: int| #![trigger code[i]] 0 <= i < code.len() ==> registers_ok(code[i]),
    ensures
        spells(le_bytes(image(code, starts)), code, starts),
{
    let words = image(code, starts);
    let bytes = le_bytes(words);
    assert(bytes.len() == 4 * words.len());
    assert forall|i: int| #![trigger code[i]] 0 <= i < code.len() implies decode(
        word_at(bytes, 4 * i),
    ) == Some(placed(code[i], 4 * distance(code, starts, i))) by {
        let d = 4 * distance(code, starts, i);
        assert(in_reach(code[i], d));
        assert(encodable(code[i]));
        assert(d == d as i32);
        lemma_words_read_back(words, i);
        assert(words[i] == word_of(code[i], d as i32));
        lemma_word_decodes(code[i], d as i32);
    }
    assert forall|i: int| #![trigger code[i]] 0 <= i < code.len() implies (
    code[i] matches A64::Literal { bits, .. } ==> 4 * (i + distance(code, starts, i)) + 8
        <= bytes.len() && double_word_at(bytes, 4 * (i + distance(code, starts, i))) == bits) by {
        if let A64::Literal { bits, .. } = code[i] {
            lemma_literal_found(code, starts, i);
            let at = i + distance(code, starts, i);
            lemma_words_read_back(words, at);
            lemma_words_read_back(words, at + 1);
            assert((bits as u32) + 0x1_0000_0000 * ((bits >> 32u64) as u32) == bits)
                by (bit_vector);
            assert(4 * (at + 1) == 4 * at + 4);
        }
    }
}

} // verus!
