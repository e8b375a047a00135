//! The x86-64 backend. Emitted operations are compared as text, in the
//! notation of an assembler.
use forge::builder::Builder;
use forge::collections::EdgeList;
use forge::ir::{CmpOp, Function, Inst, LibFunc, Span, Terminator, Ty, Value};
use forge::x64::body::{alloc_pool_labels, emit_body, param_register, place_pool, Body};
use forge::x64::copies::{emit_parallel_copies, spill_offset, CopyFrame, PhiCopy};
use forge::x64::machine::{
    Abi, AluOp, AsmOp, Assembler, ConditionCode, Label, Location, MachineInst, PhysReg,
    SelectedFunction, ShiftOp, SseOp,
};
use forge::x64::translate::{translate_inst, Registers};
use forge::ir::Block;

fn abi() -> Abi {
    Abi {
        windows: false,
        int_args: vec![
            PhysReg::Rdi,
            PhysReg::Rsi,
            PhysReg::Rdx,
            PhysReg::Rcx,
            PhysReg::R8,
            PhysReg::R9,
        ],
        float_args: (0..8).map(PhysReg::Xmm).collect(),
        callee_saved: vec![
            PhysReg::Rbx,
            PhysReg::R12,
            PhysReg::R13,
            PhysReg::R14,
            PhysReg::R15,
        ],
        scratch_gpr: vec![PhysReg::R10, PhysReg::R11, PhysReg::Rdi],
        scratch_xmm: vec![PhysReg::Xmm(13), PhysReg::Xmm(14), PhysReg::Xmm(15)],
        libm: vec![(LibFunc::Sin, 0x1234)],
    }
}

fn reg(r: PhysReg) -> String {
    match r {
        PhysReg::Xmm(n) => format!("xmm{n}"),
        other => format!("{other:?}").to_lowercase(),
    }
}

fn cc(c: ConditionCode) -> &'static str {
    match c {
        ConditionCode::Equal => "e",
        ConditionCode::NotEqual => "ne",
        ConditionCode::Less => "l",
        ConditionCode::LessOrEqual => "le",
        ConditionCode::Greater => "g",
        ConditionCode::GreaterOrEqual => "ge",
        ConditionCode::Below => "b",
        ConditionCode::BelowOrEqual => "be",
        ConditionCode::Above => "a",
        ConditionCode::AboveOrEqual => "ae",
    }
}

fn at(base: PhysReg, offset: i32) -> String {
    if offset < 0 {
        format!("[{}-{}]", reg(base), -offset)
    } else {
        format!("[{}+{offset}]", reg(base))
    }
}

/// One operation, or nothing for a label.
fn line(op: &AsmOp) -> Option<String> {
    Some(match *op {
        AsmOp::MovRegReg { dst, src } => format!("mov {},{}", reg(dst), reg(src)),
        AsmOp::MovRegImm { dst, imm } => format!("mov {},{imm}", reg(dst)),
        AsmOp::MovRegMem { dst, base, offset } => format!("mov {},{}", reg(dst), at(base, offset)),
        AsmOp::MovMemReg { base, offset, src } => format!("mov {},{}", at(base, offset), reg(src)),
        AsmOp::MovsdRegReg { dst, src } => format!("movsd {},{}", reg(dst), reg(src)),
        AsmOp::MovsdRegMem { dst, base, offset } => {
            format!("movsd {},{}", reg(dst), at(base, offset))
        }
        AsmOp::MovsdMemReg { base, offset, src } => {
            format!("movsd {},{}", at(base, offset), reg(src))
        }
        AsmOp::MovsdRegRiprel { dst, label } => format!("movsd {},[rel L{}]", reg(dst), label.0),
        AsmOp::AluRegReg { op, dst, src } => {
            let name = match op {
                AluOp::Add => "add",
                AluOp::Sub => "sub",
                AluOp::And => "and",
                AluOp::Or => "or",
                AluOp::Xor => "xor",
                AluOp::Cmp => "cmp",
            };
            format!("{name} {},{}", reg(dst), reg(src))
        }
        AsmOp::AluRegImm { op, dst, imm } => {
            format!("{} {},{imm}", format!("{op:?}").to_lowercase(), reg(dst))
        }
        AsmOp::SseRegReg { op, dst, src } | AsmOp::SseBare { op, dst, src } => {
            let name = match op {
                SseOp::Add => "addsd",
                SseOp::Sub => "subsd",
                SseOp::Mul => "mulsd",
                SseOp::Div => "divsd",
                SseOp::Min => "minsd",
                SseOp::Max => "maxsd",
                SseOp::Sqrt => "sqrtsd",
            };
            format!("{name} {},{}", reg(dst), reg(src))
        }
        AsmOp::Skip { count } => format!("jmp over {count}"),
        AsmOp::SkipIfUnordered { count } => format!("jp near over {count}"),
        AsmOp::ShiftRegCl { op, dst } => {
            let name = match op {
                ShiftOp::Shl => "shl",
                ShiftOp::Shr => "shr",
                ShiftOp::Sar => "sar",
            };
            format!("{name} {},cl", reg(dst))
        }
        AsmOp::ImulRegReg { dst, src } => format!("imul {},{}", reg(dst), reg(src)),
        AsmOp::Cqo => "cqo".to_string(),
        AsmOp::IdivReg { src } => format!("idiv {}", reg(src)),
        AsmOp::NegReg { dst } => format!("neg {}", reg(dst)),
        AsmOp::NotReg { dst } => format!("not {}", reg(dst)),
        AsmOp::LeaRegScaled { dst, base, index, scale, disp } => {
            format!("lea {},[{}+{}*{scale}+{disp}]", reg(dst), reg(base), reg(index))
        }
        AsmOp::Roundsd { mode, dst, src } => format!("roundsd {},{},{mode}", reg(dst), reg(src)),
        AsmOp::AndpdRegReg { dst, src } => format!("andpd {},{}", reg(dst), reg(src)),
        AsmOp::XorpdRegReg { dst, src } => format!("xorpd {},{}", reg(dst), reg(src)),
        AsmOp::Cvtsi2sd { dst, src } => format!("cvtsi2sd {},{}", reg(dst), reg(src)),
        AsmOp::Cvttsd2si { dst, src } => format!("cvttsd2si {},{}", reg(dst), reg(src)),
        AsmOp::UcomisdRegReg { lhs, rhs } => format!("ucomisd {},{}", reg(lhs), reg(rhs)),
        AsmOp::TestRegReg { lhs, rhs } => format!("test {},{}", reg(lhs), reg(rhs)),
        AsmOp::Setcc { cond, dst } => format!("set{} {}", cc(cond), reg(dst)),
        AsmOp::Cmovcc { cond, dst, src } => format!("cmov{} {},{}", cc(cond), reg(dst), reg(src)),
        AsmOp::CallReg { target } => format!("call {}", reg(target)),
        AsmOp::Jmp { label } => format!("jmp L{}", label.0),
        AsmOp::Jcc { cond, label } => format!("j{} L{}", cc(cond), label.0),
        AsmOp::Ret => "ret".to_string(),
        AsmOp::Bind { .. } => return None,
        AsmOp::EmitU64 { bits } => format!("dq {bits:#x}"),
        AsmOp::Prologue => "push rbp".to_string(),
        AsmOp::Epilogue => "leave".to_string(),
    })
}

fn lines(ops: &[AsmOp]) -> Vec<String> {
    ops.iter().flat_map(|op| op.parts()).filter_map(|op| line(&op)).collect()
}

fn registers(list: &[(Value, PhysReg)]) -> Registers {
    Registers { entries: list.to_vec() }
}

fn translated(inst: MachineInst, list: &[(Value, PhysReg)]) -> Vec<String> {
    let mut code = Assembler::new();
    translate_inst(&mut code, &abi(), &inst, &registers(list), &vec![]);
    lines(&code.finish().expect("the instruction can be translated"))
}

fn refused(inst: MachineInst, list: &[(Value, PhysReg)]) -> bool {
    let mut code = Assembler::new();
    translate_inst(&mut code, &abi(), &inst, &registers(list), &vec![]);
    code.finish().is_none()
}

/// Translates with one constant in the pool, and places the pool.
fn with_pool(inst: MachineInst, list: &[(Value, PhysReg)], bits: u64) -> Vec<String> {
    let pool = vec![bits];
    let mut code = Assembler::new();
    let labels = alloc_pool_labels(&mut code, &pool);
    translate_inst(&mut code, &abi(), &inst, &registers(list), &labels);
    place_pool(&mut code, &pool, &labels);
    lines(&code.finish().expect("the instruction can be translated"))
}

const A: Value = Value(0);
const B: Value = Value(1);
const C: Value = Value(2);
const D: Value = Value(3);

fn three(dst: PhysReg, lhs: PhysReg, rhs: PhysReg) -> Vec<(Value, PhysReg)> {
    vec![(A, dst), (B, lhs), (C, rhs)]
}

const RAX: PhysReg = PhysReg::Rax;
const RCX: PhysReg = PhysReg::Rcx;
const RDX: PhysReg = PhysReg::Rdx;
const RSI: PhysReg = PhysReg::Rsi;
const RBX: PhysReg = PhysReg::Rbx;

fn xmm(n: u8) -> PhysReg {
    PhysReg::Xmm(n)
}

// ---------------------------------------------------------------------------
// Comparisons

#[test]
fn int_cmp_lt_emits_cmp_zero_setl() {
    let inst = MachineInst::IntCmp { op: CmpOp::Lt, dst: A, lhs: B, rhs: C };
    assert_eq!(translated(inst, &three(RAX, RCX, RDX)), vec!["cmp rcx,rdx", "mov rax,0", "setl rax"]);
}

#[test]
fn int_cmp_dst_aliases_lhs_is_still_correct() {
    let inst = MachineInst::IntCmp { op: CmpOp::Eq, dst: A, lhs: B, rhs: C };
    assert_eq!(translated(inst, &three(RCX, RCX, RDX)), vec!["cmp rcx,rdx", "mov rcx,0", "sete rcx"]);
}

#[test]
fn int_cmp_ne_emits_setne_not_sete() {
    let inst = MachineInst::IntCmp { op: CmpOp::Ne, dst: A, lhs: B, rhs: C };
    assert_eq!(
        translated(inst, &three(RAX, RCX, RDX)),
        vec!["cmp rcx,rdx", "mov rax,0", "setne rax"]
    );
}

#[test]
fn float_cmp_lt_uses_unsigned_below_condition() {
    let inst = MachineInst::FloatCmp { op: CmpOp::Lt, dst: A, lhs: B, rhs: C };
    assert_eq!(
        translated(inst, &three(RAX, xmm(0), xmm(1))),
        vec!["ucomisd xmm0,xmm1", "mov rax,0", "setb rax"]
    );
}

#[test]
fn float_cmp_ne_emits_setne_not_sete() {
    let inst = MachineInst::FloatCmp { op: CmpOp::Ne, dst: A, lhs: B, rhs: C };
    assert_eq!(
        translated(inst, &three(RAX, xmm(0), xmm(1))),
        vec!["ucomisd xmm0,xmm1", "mov rax,0", "setne rax"]
    );
}

#[test]
fn int_cmov_picks_then_val_when_cond_true() {
    let inst = MachineInst::IntCmov { dst: A, cond: B, then_val: C, else_val: D };
    assert_eq!(
        translated(inst, &[(A, RAX), (B, RCX), (C, RAX), (D, RDX)]),
        vec!["test rcx,rcx", "cmove rax,rdx"]
    );
}

#[test]
fn int_cmov_emits_mov_when_dst_differs_from_then_val() {
    let inst = MachineInst::IntCmov { dst: A, cond: B, then_val: C, else_val: D };
    assert_eq!(
        translated(inst, &[(A, RAX), (B, RCX), (C, RSI), (D, RDX)]),
        vec!["mov rax,rsi", "test rcx,rcx", "cmove rax,rdx"]
    );
}

// ---------------------------------------------------------------------------
// One instruction at a time

#[test]
fn int_add_emits_two_addr_mov_then_add() {
    let inst = MachineInst::IntAdd { dst: A, lhs: B, rhs: C };
    assert_eq!(translated(inst, &three(RAX, RCX, RDX)), vec!["mov rax,rcx", "add rax,rdx"]);
}

#[test]
fn int_add_elides_mov_when_dst_already_equals_lhs() {
    let inst = MachineInst::IntAdd { dst: A, lhs: B, rhs: C };
    assert_eq!(translated(inst, &three(RAX, RAX, RDX)), vec!["add rax,rdx"]);
}

#[test]
fn int_sub_emits_two_addr_mov_then_sub() {
    let inst = MachineInst::IntSub { dst: A, lhs: B, rhs: C };
    assert_eq!(translated(inst, &three(RAX, RCX, RDX)), vec!["mov rax,rcx", "sub rax,rdx"]);
}

#[test]
fn and_or_xor_use_the_matching_alu_op() {
    let regs = three(RAX, RAX, RDX);
    assert_eq!(translated(MachineInst::And { dst: A, lhs: B, rhs: C }, &regs), vec!["and rax,rdx"]);
    assert_eq!(translated(MachineInst::Or { dst: A, lhs: B, rhs: C }, &regs), vec!["or rax,rdx"]);
    assert_eq!(translated(MachineInst::Xor { dst: A, lhs: B, rhs: C }, &regs), vec!["xor rax,rdx"]);
}

#[test]
fn int_mul_uses_imul() {
    let inst = MachineInst::IntMul { dst: A, lhs: B, rhs: C };
    assert_eq!(translated(inst, &three(RAX, RAX, RBX)), vec!["imul rax,rbx"]);
}

#[test]
fn int_div_places_dividend_in_rax_and_result_out() {
    let inst = MachineInst::IntDiv { dst: A, lhs: B, rhs: C };
    assert_eq!(
        translated(inst, &three(RBX, RCX, RSI)),
        vec!["mov rax,rcx", "cqo", "idiv rsi", "mov rbx,rax"]
    );
}

#[test]
fn int_rem_reads_result_from_rdx() {
    let inst = MachineInst::IntRem { dst: A, lhs: B, rhs: C };
    assert_eq!(translated(inst, &three(RAX, RAX, RSI)), vec!["cqo", "idiv rsi", "mov rax,rdx"]);
}

#[test]
fn int_neg_uses_dst_as_src_and_negates() {
    let inst = MachineInst::IntNeg { dst: A, src: B };
    assert_eq!(translated(inst, &[(A, RAX), (B, RCX)]), vec!["mov rax,rcx", "neg rax"]);
}

#[test]
fn not_emits_bitwise_not() {
    let inst = MachineInst::Not { dst: A, src: B };
    assert_eq!(translated(inst, &[(A, RAX), (B, RCX)]), vec!["mov rax,rcx", "not rax"]);
}

#[test]
fn shr_and_sar_use_the_matching_shift_op() {
    let regs = three(RAX, RAX, RCX);
    assert_eq!(translated(MachineInst::Shr { dst: A, lhs: B, rhs: C }, &regs), vec!["shr rax,cl"]);
    assert_eq!(translated(MachineInst::Sar { dst: A, lhs: B, rhs: C }, &regs), vec!["sar rax,cl"]);
}

#[test]
fn shl_with_amount_already_in_rcx_emits_shift_cl() {
    let inst = MachineInst::Shl { dst: A, lhs: B, rhs: C };
    assert_eq!(translated(inst, &three(RAX, RAX, RCX)), vec!["shl rax,cl"]);
}

#[test]
fn shl_moves_amount_into_rcx_before_shifting() {
    let inst = MachineInst::Shl { dst: A, lhs: B, rhs: C };
    assert_eq!(translated(inst, &three(RAX, RAX, RDX)), vec!["mov rcx,rdx", "shl rax,cl"]);
}

#[test]
fn lea_encodes_scaled_addressing() {
    let inst = MachineInst::Lea { dst: A, base: B, index: C, scale: 4, disp: 8 };
    assert_eq!(translated(inst, &three(RAX, RCX, RDX)), vec!["lea rax,[rcx+rdx*4+8]"]);
}

#[test]
fn float_add_emits_two_addr_movsd_then_addsd() {
    let inst = MachineInst::FloatAdd { dst: A, lhs: B, rhs: C };
    assert_eq!(
        translated(inst, &three(xmm(0), xmm(1), xmm(2))),
        vec!["movsd xmm0,xmm1", "addsd xmm0,xmm2"]
    );
}

#[test]
fn float_binops_use_the_matching_sse_op() {
    let regs = three(xmm(0), xmm(0), xmm(2));
    for (inst, expected) in [
        (MachineInst::FloatSub { dst: A, lhs: B, rhs: C }, "subsd xmm0,xmm2"),
        (MachineInst::FloatMul { dst: A, lhs: B, rhs: C }, "mulsd xmm0,xmm2"),
        (MachineInst::FloatDiv { dst: A, lhs: B, rhs: C }, "divsd xmm0,xmm2"),
    ] {
        assert_eq!(translated(inst, &regs), vec![expected.to_string()]);
    }
    for (inst, op) in [
        (MachineInst::FloatMin { dst: A, lhs: B, rhs: C }, "minsd xmm0,xmm2"),
        (MachineInst::FloatMax { dst: A, lhs: B, rhs: C }, "maxsd xmm0,xmm2"),
    ] {
        let actual = translated(inst, &regs);
        assert_eq!(actual.len(), 7);
        assert_eq!(actual[0], "ucomisd xmm0,xmm0");
        assert!(actual[1].starts_with("jp near "));
        assert_eq!(actual[2], "ucomisd xmm2,xmm2");
        assert!(actual[3].starts_with("jp near "));
        assert_eq!(actual[4], op);
        assert!(actual[5].starts_with("jmp "));
        assert_eq!(actual[6], "movsd xmm0,xmm2");
    }
}

#[test]
fn sse_binop_elides_movsd_when_dst_already_equals_lhs() {
    let inst = MachineInst::FloatAdd { dst: A, lhs: B, rhs: C };
    assert_eq!(translated(inst, &three(xmm(3), xmm(3), xmm(4))), vec!["addsd xmm3,xmm4"]);
}

#[test]
fn float_sqrt_uses_dst_as_both_operands() {
    let inst = MachineInst::FloatSqrt { dst: A, src: B };
    assert_eq!(
        translated(inst, &[(A, xmm(0)), (B, xmm(1))]),
        vec!["movsd xmm0,xmm1", "sqrtsd xmm0,xmm0"]
    );
}

#[test]
fn load_imm_f64_reads_from_pool_via_riprel() {
    let inst = MachineInst::LoadImmF64 { dst: A, pool_index: 0 };
    let lines = with_pool(inst, &[(A, xmm(0))], 0x3ff0000000000000);
    assert!(lines[0].starts_with("movsd xmm0,"), "got: {}", lines[0]);
    assert_eq!(lines.last().unwrap(), "dq 0x3ff0000000000000");
}

#[test]
fn float_abs_clears_sign_bit_via_pool_mask() {
    let inst = MachineInst::FloatAbs { dst: A, src: B, mask_pool: 0 };
    let lines = with_pool(inst, &[(A, xmm(0)), (B, xmm(1))], 0x7fffffffffffffff);
    assert_eq!(lines[0], "movsd xmm0,xmm1");
    assert!(lines[1].starts_with("movsd xmm13,"), "got: {}", lines[1]);
    assert_eq!(lines[2], "andpd xmm0,xmm13");
}

#[test]
fn float_neg_flips_sign_bit_via_pool_mask() {
    let inst = MachineInst::FloatNeg { dst: A, src: B, mask_pool: 0 };
    let lines = with_pool(inst, &[(A, xmm(0)), (B, xmm(1))], 0x8000000000000000);
    assert_eq!(lines[0], "movsd xmm0,xmm1");
    assert!(lines[1].starts_with("movsd xmm13,"), "got: {}", lines[1]);
    assert_eq!(lines[2], "xorpd xmm0,xmm13");
}

#[test]
fn float_round_passes_mode_through_to_roundsd() {
    let inst = MachineInst::FloatRound { dst: A, src: B, mode: 1 };
    let lines = translated(inst, &[(A, xmm(0)), (B, xmm(1))]);
    assert_eq!(lines.len(), 2);
    assert!(lines[0] == "movsd xmm0,xmm1", "got: {}", lines[0]);
    assert!(lines[1].starts_with("roundsd xmm0,xmm0,"), "got: {}", lines[1]);
}

#[test]
fn int_to_float_and_float_to_int_use_the_matching_convert_op() {
    let inst = MachineInst::IntToFloat { dst: A, src: B };
    assert_eq!(translated(inst, &[(A, xmm(0)), (B, RAX)]), vec!["cvtsi2sd xmm0,rax"]);
    let inst = MachineInst::FloatToInt { dst: C, src: D };
    assert_eq!(translated(inst, &[(C, RAX), (D, xmm(0))]), vec!["cvttsd2si rax,xmm0"]);
}

#[test]
fn load_imm_i64_moves_the_immediate_into_dst() {
    let inst = MachineInst::LoadImmI64 { dst: A, imm: 42 };
    assert_eq!(translated(inst, &[(A, RAX)]), vec!["mov rax,42"]);
}

#[test]
fn param_is_copied_from_the_integer_abi_register() {
    let inst = MachineInst::Param { dst: A, index: 0 };
    assert_eq!(translated(inst, &[(A, RAX)]), vec!["mov rax,rdi"]);
}

#[test]
fn call_libm_emits_aligned_indirect_call() {
    let inst = MachineInst::CallLibm { dst: A, func: LibFunc::Sin, args: vec![A] };
    let lines = translated(inst, &[(A, xmm(0))]);
    assert!(lines.iter().any(|line| line == "sub rsp,8"));
    assert!(lines.iter().any(|line| line.starts_with("call ")));
    assert!(lines.iter().any(|line| line == "add rsp,8"));
}

#[test]
fn the_second_argument_of_a_call_survives_the_first() {
    let call = |lhs: PhysReg, rhs: PhysReg| {
        let inst = MachineInst::CallLibm { dst: A, func: LibFunc::Pow, args: vec![B, C] };
        let mut abi = abi();
        abi.libm.push((LibFunc::Pow, 0x5678));
        let mut code = Assembler::new();
        let regs = registers(&three(xmm(0), lhs, rhs));
        translate_inst(&mut code, &abi, &inst, &regs, &vec![]);
        let out = lines(&code.finish().unwrap());
        let end = out.iter().position(|l| l == "sub rsp,8").unwrap();
        out[..end].to_vec()
    };
    let through = ["movsd xmm15,xmm0", "movsd xmm0,xmm2", "movsd xmm1,xmm15"];
    assert_eq!(call(xmm(2), xmm(0)), through);
    let swapped = ["movsd xmm15,xmm0", "movsd xmm0,xmm1", "movsd xmm1,xmm15"];
    assert_eq!(call(xmm(1), xmm(0)), swapped);
    assert_eq!(call(xmm(0), xmm(0)), ["movsd xmm1,xmm0"]);
    assert_eq!(call(xmm(2), xmm(3)), ["movsd xmm0,xmm2", "movsd xmm1,xmm3"]);
}

#[test]
fn the_mask_does_not_overwrite_the_double() {
    let inst = MachineInst::FloatNeg { dst: A, src: B, mask_pool: 0 };
    let out = with_pool(inst, &[(A, xmm(13)), (B, xmm(2))], 1 << 63);
    assert_eq!(out[0], "movsd xmm13,xmm2");
    assert!(out[1].starts_with("movsd xmm14,"), "got: {}", out[1]);
    assert_eq!(out[2], "xorpd xmm13,xmm14");
    let inst = MachineInst::FloatAbs { dst: A, src: B, mask_pool: 0 };
    let out = with_pool(inst, &[(A, xmm(13)), (B, xmm(2))], !(1 << 63));
    assert_eq!(out[2], "andpd xmm13,xmm14");
}

#[test]
fn what_cannot_be_translated_gives_nothing() {
    assert!(refused(MachineInst::Return { value: A }, &[(A, RAX)]));
    assert!(refused(MachineInst::IntDiv { dst: A, lhs: B, rhs: C }, &three(RBX, RCX, RDX)));
    assert!(refused(MachineInst::LoadImmF64 { dst: A, pool_index: 3 }, &[(A, xmm(0))]));
    assert!(refused(
        MachineInst::CallLibm { dst: A, func: LibFunc::Pow, args: vec![A] },
        &[(A, xmm(0))]
    ));
}

// ---------------------------------------------------------------------------
// Copies

fn copy(src: Location, dst: Location) -> PhiCopy {
    PhiCopy { src, dst, ty: Ty::I64 }
}

fn copied(wanted: Vec<PhiCopy>) -> Vec<String> {
    let frame = CopyFrame { gpr: PhysReg::R10, xmm: xmm(13), spill_bias: 0 };
    let mut code = Assembler::new();
    emit_parallel_copies(wanted, &mut code, &frame);
    lines(&code.finish().unwrap())
}

#[test]
fn copies_that_wait_for_each_other_go_through_a_scratch_register() {
    let swap = vec![
        copy(Location::Reg(RAX), Location::Reg(RCX)),
        copy(Location::Reg(RCX), Location::Reg(RAX)),
    ];
    let out = copied(swap);
    assert_eq!(out.len(), 3);
    assert!(out.iter().any(|l| l.contains("r10")));
}

#[test]
fn a_copy_is_made_before_its_source_is_overwritten() {
    let chain = vec![
        copy(Location::Reg(RAX), Location::Reg(RCX)),
        copy(Location::Reg(RCX), Location::Reg(RDX)),
    ];
    assert_eq!(copied(chain), vec!["mov rdx,rcx", "mov rcx,rax"]);
    let slot = vec![copy(Location::Spill(1), Location::Reg(RAX))];
    assert_eq!(copied(slot), vec!["mov rax,[rbp-16]"]);
    assert_eq!(spill_offset(0, 0), Some(-8));
    assert_eq!(spill_offset(u32::MAX, 0), None);
}

// ---------------------------------------------------------------------------
// Functions

fn span() -> Span {
    Span::new(0, 0)
}

fn emitted(
    f: &Function,
    insts: Vec<MachineInst>,
    starts: &[usize],
    pool: Vec<u64>,
    places: &[(Value, Location)],
) -> Body {
    let starts: Vec<(Block, usize)> =
        starts.iter().enumerate().map(|(b, s)| (Block(b as u32), *s)).collect();
    emitted_in_order(f, insts, &starts, pool, places)
}

fn emitted_in_order(
    f: &Function,
    insts: Vec<MachineInst>,
    starts: &[(Block, usize)],
    pool: Vec<u64>,
    places: &[(Value, Location)],
) -> Body {
    let selected = SelectedFunction {
        insts,
        block_starts: starts.to_vec(),
        pool,
        synthetic_types: vec![],
    };
    let mut assignment = vec![None; f.insts.len()];
    for (v, place) in places {
        assignment[v.0 as usize] = Some(*place);
    }
    emit_body(f, &selected, &assignment, &vec![], &abi()).expect("the function can be emitted")
}

#[test]
fn straight_line_function_returns_a_constant() {
    let mut b = Builder::new();
    let entry = b.create_block();
    b.seal_block(entry);
    let c = b.emit(entry, Inst::ConstF64(2.5f64.to_bits()), Ty::F64, span());
    b.f.blocks[entry.0 as usize].term = Some(Terminator::Return(c));
    let insts = vec![
        MachineInst::LoadImmF64 { dst: c, pool_index: 0 },
        MachineInst::Return { value: c },
    ];
    let body =
        emitted(&b.f, insts, &[0], vec![2.5f64.to_bits()], &[(c, Location::Reg(xmm(0)))]);
    let lines = lines(&body.ops);
    assert!(lines[0].starts_with("movsd xmm0,"), "got: {}", lines[0]);
    assert_eq!(lines[1], "ret");
}

#[test]
fn return_moves_value_into_abi_register_when_not_already_there() {
    let mut b = Builder::new();
    let entry = b.create_block();
    b.seal_block(entry);
    let c = b.emit(entry, Inst::ConstI64(7), Ty::I64, span());
    b.f.blocks[entry.0 as usize].term = Some(Terminator::Return(c));
    let insts =
        vec![MachineInst::LoadImmI64 { dst: c, imm: 7 }, MachineInst::Return { value: c }];
    let body = emitted(&b.f, insts, &[0], vec![], &[(c, Location::Reg(RCX))]);
    assert_eq!(lines(&body.ops), vec!["mov rcx,7", "mov rax,rcx", "ret"]);
}

#[test]
fn jump_only_multi_block_function_resolves_labels() {
    let mut b = Builder::new();
    let entry = b.create_block();
    let next = b.create_block();
    b.seal_block(entry);
    b.f.blocks[entry.0 as usize].term = Some(Terminator::Jump(next));
    b.add_pred(next, entry);
    b.seal_block(next);
    let c = b.emit(next, Inst::ConstI64(1), Ty::I64, span());
    b.f.blocks[next.0 as usize].term = Some(Terminator::Return(c));
    let insts = vec![
        MachineInst::Jump { target: next },
        MachineInst::LoadImmI64 { dst: c, imm: 1 },
        MachineInst::Return { value: c },
    ];
    let body = emitted(&b.f, insts, &[0, 1], vec![], &[(c, Location::Reg(RAX))]);
    let out = lines(&body.ops);
    assert_eq!(out.len(), 3);
    assert!(out[0].starts_with("jmp "));
    assert_eq!(&out[1..], &["mov rax,1", "ret"]);
    let AsmOp::Jmp { label } = *body.ops.iter().find(|o| matches!(o, AsmOp::Jmp { .. })).unwrap()
    else {
        unreachable!()
    };
    let bound = body.ops.iter().position(|o| *o == AsmOp::Bind { label }).unwrap();
    assert_eq!(body.ops[bound + 1], AsmOp::MovRegImm { dst: RAX, imm: 1 });
}

#[test]
fn constant_pool_is_placed_after_every_block_not_just_the_first() {
    let mut b = Builder::new();
    let entry = b.create_block();
    let next = b.create_block();
    b.seal_block(entry);
    b.f.blocks[entry.0 as usize].term = Some(Terminator::Jump(next));
    b.add_pred(next, entry);
    b.seal_block(next);
    let bits = 2.5f64.to_bits();
    let c = b.emit(next, Inst::ConstF64(bits), Ty::F64, span());
    b.f.blocks[next.0 as usize].term = Some(Terminator::Return(c));
    let insts = vec![
        MachineInst::Jump { target: next },
        MachineInst::LoadImmF64 { dst: c, pool_index: 0 },
        MachineInst::Return { value: c },
    ];
    let body = emitted(&b.f, insts, &[0, 1], vec![bits], &[(c, Location::Reg(xmm(0)))]);
    assert_eq!(body.ops.last(), Some(&AsmOp::EmitU64 { bits }));
}

#[test]
fn branch_diamond_emits_test_jcc_jmp() {
    let mut b = Builder::new();
    let entry = b.create_block();
    let then_blk = b.create_block();
    let else_blk = b.create_block();
    b.seal_block(entry);
    let cond = b.emit(entry, Inst::ConstBool(true), Ty::Bool, span());
    b.f.blocks[entry.0 as usize].term =
        Some(Terminator::Branch { cond, then_: then_blk, else_: else_blk });
    b.add_pred(then_blk, entry);
    b.add_pred(else_blk, entry);
    b.seal_block(then_blk);
    b.seal_block(else_blk);
    let then_val = b.emit(then_blk, Inst::ConstI64(1), Ty::I64, span());
    b.f.blocks[then_blk.0 as usize].term = Some(Terminator::Return(then_val));
    let else_val = b.emit(else_blk, Inst::ConstI64(2), Ty::I64, span());
    b.f.blocks[else_blk.0 as usize].term = Some(Terminator::Return(else_val));
    // The blocks stand in reverse postorder.
    let insts = vec![
        MachineInst::LoadImmI64 { dst: cond, imm: 1 },
        MachineInst::Branch { cond, then_: then_blk, else_: else_blk },
        MachineInst::LoadImmI64 { dst: else_val, imm: 2 },
        MachineInst::Return { value: else_val },
        MachineInst::LoadImmI64 { dst: then_val, imm: 1 },
        MachineInst::Return { value: then_val },
    ];
    let rax = Location::Reg(RAX);
    let body = emitted_in_order(
        &b.f,
        insts,
        &[(entry, 0), (else_blk, 2), (then_blk, 4)],
        vec![],
        &[(cond, rax), (then_val, rax), (else_val, rax)],
    );
    let out = lines(&body.ops);
    assert_eq!(out[0], "mov rax,1");
    assert_eq!(out[1], "test rax,rax");
    assert!(out[2].starts_with("jne "), "got: {}", out[2]);
    assert!(out[3].starts_with("jmp "), "got: {}", out[3]);
    assert_eq!(out[4], "mov rax,2");
    assert_eq!(out[5], "ret");
    assert_eq!(out[6], "mov rax,1");
    assert_eq!(out[7], "ret");
    // Where the jumps land.
    let Some(AsmOp::Jcc { label: taken, .. }) =
        body.ops.iter().find(|o| matches!(o, AsmOp::Jcc { .. })).copied()
    else {
        unreachable!()
    };
    let Some(AsmOp::Jmp { label: other }) =
        body.ops.iter().find(|o| matches!(o, AsmOp::Jmp { .. })).copied()
    else {
        unreachable!()
    };
    let then_at = body.ops.iter().position(|o| *o == AsmOp::Bind { label: taken }).unwrap();
    assert_eq!(body.ops[then_at + 1], AsmOp::MovRegImm { dst: RAX, imm: 1 });
    let else_at = body.ops.iter().position(|o| *o == AsmOp::Bind { label: other }).unwrap();
    assert_eq!(body.ops[else_at + 1], AsmOp::MovRegImm { dst: RAX, imm: 2 });
}

#[test]
fn the_copies_of_an_edge_are_made_only_if_it_is_taken() {
    let mut b = Builder::new();
    let entry = b.create_block();
    let other = b.create_block();
    let merge = b.create_block();
    b.seal_block(entry);
    let x = b.emit(entry, Inst::ConstI64(5), Ty::I64, span());
    let y = b.emit(entry, Inst::ConstI64(2), Ty::I64, span());
    let cond =
        b.emit(entry, Inst::Cmp { op: CmpOp::Gt, lhs: x, rhs: y }, Ty::Bool, span());
    b.f.blocks[entry.0 as usize].term =
        Some(Terminator::Branch { cond, then_: merge, else_: other });
    b.add_pred(merge, entry);
    b.add_pred(other, entry);
    b.seal_block(other);
    b.write_variable("result", entry, x);
    b.write_variable("result", other, y);
    b.f.blocks[other.0 as usize].term = Some(Terminator::Jump(merge));
    b.add_pred(merge, other);
    b.seal_block(merge);
    let result = b.read_variable("result", merge, Ty::I64);
    b.f.blocks[merge.0 as usize].term = Some(Terminator::Return(result));
    let insts = vec![
        MachineInst::LoadImmI64 { dst: x, imm: 5 },
        MachineInst::LoadImmI64 { dst: y, imm: 2 },
        MachineInst::IntCmp { op: CmpOp::Gt, dst: cond, lhs: x, rhs: y },
        MachineInst::Branch { cond, then_: merge, else_: other },
        MachineInst::Jump { target: merge },
        MachineInst::Return { value: result },
    ];
    let body = emitted(
        &b.f,
        insts,
        &[0, 4, 5],
        vec![],
        &[
            (x, Location::Reg(RDX)),
            (y, Location::Reg(RCX)),
            (cond, Location::Reg(RAX)),
            // The phi takes the register of the bit.
            (result, Location::Reg(RAX)),
        ],
    );
    let out = lines(&body.ops);
    let test = out.iter().position(|l| l == "test rax,rax").unwrap();
    assert_eq!(&out[test + 1..test + 5], ["jne L3", "jmp L1", "mov rax,rdx", "jmp L2"]);
    let edge = body.ops.iter().position(|o| *o == AsmOp::Bind { label: Label(3) }).unwrap();
    assert_eq!(body.ops[edge + 1], AsmOp::MovRegReg { dst: RAX, src: RDX });
    let next = body.ops.iter().position(|o| *o == AsmOp::Bind { label: Label(1) }).unwrap();
    assert_eq!(body.ops[next + 1], AsmOp::MovRegReg { dst: RAX, src: RCX });
}

#[test]
fn float_neg_flips_sign_bit() {
    let mut b = Builder::new();
    let entry = b.create_block();
    b.seal_block(entry);
    let c = b.emit(entry, Inst::ConstF64(3.0f64.to_bits()), Ty::F64, span());
    let negated = b.emit(entry, Inst::Neg(c), Ty::F64, span());
    b.f.blocks[entry.0 as usize].term = Some(Terminator::Return(negated));
    let insts = vec![
        MachineInst::LoadImmF64 { dst: c, pool_index: 0 },
        MachineInst::FloatNeg { dst: negated, src: c, mask_pool: 1 },
        MachineInst::Return { value: negated },
    ];
    let body = emitted(
        &b.f,
        insts,
        &[0],
        vec![3.0f64.to_bits(), 1 << 63],
        &[(c, Location::Reg(xmm(0))), (negated, Location::Reg(xmm(0)))],
    );
    assert!(lines(&body.ops).iter().any(|l| l == "xorpd xmm0,xmm13"));
}

#[test]
fn int_cmp_and_cmov_diamond_selects_correct_branch() {
    let mut b = Builder::new();
    let entry = b.create_block();
    let then_blk = b.create_block();
    let else_blk = b.create_block();
    let merge = b.create_block();
    b.seal_block(entry);
    let x = b.emit(entry, Inst::ConstI64(5), Ty::I64, span());
    let y = b.emit(entry, Inst::ConstI64(2), Ty::I64, span());
    let cond =
        b.emit(entry, Inst::Cmp { op: CmpOp::Gt, lhs: x, rhs: y }, Ty::Bool, span());
    b.f.blocks[entry.0 as usize].term =
        Some(Terminator::Branch { cond, then_: then_blk, else_: else_blk });
    b.add_pred(then_blk, entry);
    b.add_pred(else_blk, entry);
    b.seal_block(then_blk);
    b.seal_block(else_blk);
    b.write_variable("result", then_blk, x);
    b.f.blocks[then_blk.0 as usize].term = Some(Terminator::Jump(merge));
    b.write_variable("result", else_blk, y);
    b.f.blocks[else_blk.0 as usize].term = Some(Terminator::Jump(merge));
    b.add_pred(merge, then_blk);
    b.add_pred(merge, else_blk);
    b.seal_block(merge);
    let result = b.read_variable("result", merge, Ty::I64);
    assert!(matches!(b.f.insts[result.0 as usize], Inst::Phi { .. }));
    b.f.blocks[merge.0 as usize].term = Some(Terminator::Return(result));
    // The empty arms are fused into a conditional move.
    let insts = vec![
        MachineInst::LoadImmI64 { dst: x, imm: 5 },
        MachineInst::LoadImmI64 { dst: y, imm: 2 },
        MachineInst::IntCmp { op: CmpOp::Gt, dst: cond, lhs: x, rhs: y },
        MachineInst::IntCmov { dst: result, cond, then_val: x, else_val: y },
        MachineInst::Return { value: result },
    ];
    let body = emitted_in_order(
        &b.f,
        insts,
        &[(entry, 0)],
        vec![],
        &[
            (x, Location::Reg(RAX)),
            (y, Location::Reg(RCX)),
            (cond, Location::Reg(RDX)),
            (result, Location::Reg(RAX)),
        ],
    );
    let out = lines(&body.ops);
    assert!(out.iter().any(|l| l.starts_with("cmove")));
    assert!(out.iter().any(|l| l.starts_with("test")));
}

#[test]
fn floating_phi_is_copied_on_both_control_flow_edges() {
    let mut b = Builder::new();
    let entry = b.create_block();
    let then_blk = b.create_block();
    let else_blk = b.create_block();
    let merge = b.create_block();
    b.f.params = vec![
        ("condition".to_string(), Ty::Bool),
        ("then_input".to_string(), Ty::F64),
        ("else_input".to_string(), Ty::F64),
    ];
    b.seal_block(entry);
    let condition = b.emit(entry, Inst::Param { index: 0, ty: Ty::Bool }, Ty::Bool, span());
    let then_input = b.emit(entry, Inst::Param { index: 1, ty: Ty::F64 }, Ty::F64, span());
    let else_input = b.emit(entry, Inst::Param { index: 2, ty: Ty::F64 }, Ty::F64, span());
    b.f.blocks[entry.0 as usize].term =
        Some(Terminator::Branch { cond: condition, then_: then_blk, else_: else_blk });
    b.add_pred(then_blk, entry);
    b.add_pred(else_blk, entry);
    b.seal_block(then_blk);
    b.seal_block(else_blk);
    let then_value = b.emit(then_blk, Inst::Neg(then_input), Ty::F64, span());
    b.f.blocks[then_blk.0 as usize].term = Some(Terminator::Jump(merge));
    let else_value = b.emit(else_blk, Inst::Neg(else_input), Ty::F64, span());
    b.f.blocks[else_blk.0 as usize].term = Some(Terminator::Jump(merge));
    b.add_pred(merge, then_blk);
    b.add_pred(merge, else_blk);
    b.seal_block(merge);
    let mut incoming = EdgeList::new();
    incoming.push((then_blk, then_value));
    incoming.push((else_blk, else_value));
    let result = b.emit(merge, Inst::Phi { incoming }, Ty::F64, span());
    b.f.blocks[merge.0 as usize].term = Some(Terminator::Return(result));
    let insts = vec![
        MachineInst::Param { dst: condition, index: 0 },
        MachineInst::Param { dst: then_input, index: 1 },
        MachineInst::Param { dst: else_input, index: 2 },
        MachineInst::Branch { cond: condition, then_: then_blk, else_: else_blk },
        MachineInst::FloatNeg { dst: then_value, src: then_input, mask_pool: 0 },
        MachineInst::Jump { target: merge },
        MachineInst::FloatNeg { dst: else_value, src: else_input, mask_pool: 0 },
        MachineInst::Jump { target: merge },
        MachineInst::Return { value: result },
    ];
    let body = emitted(
        &b.f,
        insts,
        &[0, 4, 6, 8],
        vec![1 << 63],
        &[
            (condition, Location::Reg(RAX)),
            (then_input, Location::Reg(xmm(0))),
            (else_input, Location::Reg(xmm(1))),
            (then_value, Location::Reg(xmm(2))),
            (else_value, Location::Reg(xmm(3))),
            (result, Location::Reg(xmm(4))),
        ],
    );
    let out = lines(&body.ops);
    assert!(out.iter().any(|line| line == "movsd xmm4,xmm2"));
    assert!(out.iter().any(|line| line == "movsd xmm4,xmm3"));
}

#[test]
fn spilled_operand_is_reloaded_and_stored_in_a_frame() {
    let mut b = Builder::new();
    let entry = b.create_block();
    b.seal_block(entry);
    let c = b.emit(entry, Inst::ConstI64(1), Ty::I64, span());
    b.f.blocks[entry.0 as usize].term = Some(Terminator::Return(c));
    let insts =
        vec![MachineInst::LoadImmI64 { dst: c, imm: 1 }, MachineInst::Return { value: c }];
    let body = emitted(&b.f, insts, &[0], vec![], &[(c, Location::Spill(0))]);
    let out = lines(&body.ops);
    assert!(body.frame.is_some());
    assert!(out.iter().any(|line| line.starts_with("push rbp")));
    assert!(out.iter().any(|line| line.starts_with("mov [rbp-8]")));
}

#[test]
fn parameters_arrive_in_the_registers_of_their_kind() {
    let params = vec![
        ("x".to_string(), Ty::F64),
        ("n".to_string(), Ty::I64),
        ("y".to_string(), Ty::F64),
    ];
    assert_eq!(param_register(&abi(), &params, 0), Some(xmm(0)));
    assert_eq!(param_register(&abi(), &params, 1), Some(PhysReg::Rdi));
    assert_eq!(param_register(&abi(), &params, 2), Some(xmm(1)));
    let windows = Abi { windows: true, ..abi() };
    assert_eq!(param_register(&windows, &params, 2), Some(xmm(2)));
}

/// The registers after some moves and integer operations.
fn after(ops: &[AsmOp], values: &[(PhysReg, i64)]) -> Vec<(PhysReg, i64)> {
    let mut now = values.to_vec();
    for op in ops {
        let read = |r: PhysReg| now.iter().rev().find(|e| e.0 == r).map(|e| e.1).unwrap();
        let written = match *op {
            AsmOp::MovRegReg { dst, src } => (dst, read(src)),
            AsmOp::MovRegImm { dst, imm } => (dst, imm),
            AsmOp::AluRegReg { op: AluOp::Sub, dst, src } => {
                (dst, read(dst).wrapping_sub(read(src)))
            }
            AsmOp::ImulRegReg { dst, src } => (dst, read(dst).wrapping_mul(read(src))),
            AsmOp::NegReg { dst } => (dst, read(dst).wrapping_neg()),
            AsmOp::ShiftRegCl { op: ShiftOp::Shl, dst } => {
                (dst, read(dst) << (read(PhysReg::Rcx) & 63))
            }
            other => panic!("not modelled: {other:?}"),
        };
        now.push(written);
    }
    now
}

#[test]
fn translated_instructions_compute_and_keep_other_registers() {
    let (dst, lhs, rhs) = (Value(0), Value(1), Value(2));
    let insts = [
        (MachineInst::IntSub { dst, lhs, rhs }, 7 - 5),
        (MachineInst::IntMul { dst, lhs, rhs }, 7 * 5),
        (MachineInst::IntNeg { dst, src: lhs }, -7),
        (MachineInst::Shl { dst, lhs, rhs }, 7 << 5),
    ];
    for (inst, expected) in insts {
        let list = &[(dst, PhysReg::Rax), (lhs, PhysReg::Rbx), (rhs, PhysReg::Rsi)];
        let mut code = Assembler::new();
        translate_inst(&mut code, &abi(), &inst, &registers(list), &vec![]);
        let ops = code.finish().unwrap();
        let start = [(PhysReg::Rax, 1), (PhysReg::Rbx, 7), (PhysReg::Rsi, 5), (PhysReg::R8, 9)];
        let end = after(&ops, &start);
        let read = |r: PhysReg| end.iter().rev().find(|e| e.0 == r).unwrap().1;
        assert_eq!(read(PhysReg::Rax), expected);
        assert_eq!(read(PhysReg::Rbx), 7);
        assert_eq!(read(PhysReg::Rsi), 5);
        assert_eq!(read(PhysReg::R8), 9);
    }
}
