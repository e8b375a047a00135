//! One instruction at a time.
use crate::ir::{CmpOp, LibFunc, Value};
use crate::x64::machine::{
    defines, put, put_if, reads, shape, Ops,
};
use crate::x64::machine::{
    is_xmm, shape_of, Abi, AluOp, AsmOp, Assembler, ConditionCode, Label, MachineInst, PhysReg,
    Shape, ShiftOp, SseOp,
};
use vstd::prelude::*;

verus! {

/// The registers of the values that an instruction mentions.
pub struct Registers {
    pub entries: Vec<(Value, PhysReg)>,
}

/// The register of `v`: its first entry.
pub open spec fn lookup(entries: Seq<(Value, PhysReg)>, v: Value) -> Option<PhysReg>
    decreases entries.len(),
{
    if entries.len() == 0 {
        None
    } else if entries[0].0 == v {
        Some(entries[0].1)
    } else {
        lookup(entries.skip(1), v)
    }
}

/// The value has a register.
pub open spec fn has(regs: Seq<(Value, PhysReg)>, v: Value) -> bool {
    lookup(regs, v) is Some
}

/// The register of a value that has one.
pub open spec fn at(regs: Seq<(Value, PhysReg)>, v: Value) -> PhysReg {
    lookup(regs, v).unwrap()
}

impl View for Registers {
    type V = Seq<(Value, PhysReg)>;

    open spec fn view(&self) -> Seq<(Value, PhysReg)> {
        self.entries@
    }
}

impl Registers {
    pub fn find(&self, v: Value) -> (r: Option<PhysReg>)
        ensures
            r == lookup(self.entries@, v),
    {
        let mut i: usize = 0;
        assert(self.entries@.skip(0) =~= self.entries@);
        while i < self.entries.len()
            invariant
                i <= self.entries@.len(),
                lookup(self.entries@, v) == lookup(self.entries@.skip(i as int), v),
            decreases self.entries@.len() - i,
        {
            let ghost rest = self.entries@.skip(i as int);
            assert(rest.skip(1) =~= self.entries@.skip(i + 1));
            if self.entries[i].0 == v {
                return Some(self.entries[i].1);
            }
            i += 1;
        }
        None
    }

    pub fn get(&self, v: Value) -> (r: PhysReg)
        requires
            has(self@, v),
        ensures
            r == at(self@, v),
    {
        self.find(v).unwrap()
    }
}

/// Every value that the instruction mentions has a register.
pub open spec fn located(regs: Seq<(Value, PhysReg)>, inst: MachineInst) -> bool {
    &&& forall|i: int|
        #![trigger reads(inst)[i]]
        0 <= i < reads(inst).len() ==> has(regs, reads(inst)[i])
    &&& defines(inst) matches Some(v) ==> has(regs, v)
}

// ---------------------------------------------------------------------------
// The operations

/// Moves an integer, unless it is there already.
pub open spec fn move_int(acc: Ops, dst: PhysReg, src: PhysReg) -> Ops {
    put_if(acc, dst != src, AsmOp::MovRegReg { dst, src })
}

/// Moves a double, unless it is there already.
pub open spec fn move_float(acc: Ops, dst: PhysReg, src: PhysReg) -> Ops {
    put_if(acc, dst != src, AsmOp::MovsdRegReg { dst, src })
}

/// The label of a constant, if there is one.
pub open spec fn pool_load(acc: Ops, dst: PhysReg, labels: Seq<Label>, index: usize) -> Ops {
    if index < labels.len() {
        put(acc, AsmOp::MovsdRegRiprel { dst, label: labels[index as int] })
    } else {
        None
    }
}

/// Division: the dividend goes to RAX, the quotient comes out of RAX and the
/// remainder out of RDX. The divisor cannot be in either.
pub open spec fn divide(acc: Ops, dst: PhysReg, lhs: PhysReg, rhs: PhysReg, out: PhysReg) -> Ops {
    if rhs == PhysReg::Rax || rhs == PhysReg::Rdx {
        None
    } else {
        move_int(
            put(put(move_int(acc, PhysReg::Rax, lhs), AsmOp::Cqo), AsmOp::IdivReg { src: rhs }),
            dst,
            out,
        )
    }
}

/// A shift by a variable amount, which has to be in RCX.
pub open spec fn shift(acc: Ops, op: ShiftOp, dst: PhysReg, lhs: PhysReg, rhs: PhysReg) -> Ops {
    if rhs != PhysReg::Rcx && dst == PhysReg::Rcx {
        None
    } else {
        put(
            move_int(move_int(acc, dst, lhs), PhysReg::Rcx, rhs),
            AsmOp::ShiftRegCl { op, dst },
        )
    }
}

pub open spec fn int_condition(op: CmpOp) -> ConditionCode {
    match op {
        CmpOp::Eq => ConditionCode::Equal,
        CmpOp::Ne => ConditionCode::NotEqual,
        CmpOp::Lt => ConditionCode::Less,
        CmpOp::Le => ConditionCode::LessOrEqual,
        CmpOp::Gt => ConditionCode::Greater,
        CmpOp::Ge => ConditionCode::GreaterOrEqual,
    }
}

/// Doubles compare like unsigned numbers.
pub open spec fn float_condition(op: CmpOp) -> ConditionCode {
    match op {
        CmpOp::Eq => ConditionCode::Equal,
        CmpOp::Ne => ConditionCode::NotEqual,
        CmpOp::Lt => ConditionCode::Below,
        CmpOp::Le => ConditionCode::BelowOrEqual,
        CmpOp::Gt => ConditionCode::Above,
        CmpOp::Ge => ConditionCode::AboveOrEqual,
    }
}

/// The bit of a comparison, in a register that was zero.
pub open spec fn flag(acc: Ops, dst: PhysReg, cond: ConditionCode) -> Ops {
    put(put(acc, AsmOp::MovRegImm { dst, imm: 0 }), AsmOp::Setcc { cond, dst })
}

/// The register for the mask of a double: not the one that holds the double.
pub open spec fn mask_register(dst: PhysReg) -> PhysReg {
    if dst == PhysReg::Xmm(13) {
        PhysReg::Xmm(14)
    } else {
        PhysReg::Xmm(13)
    }
}

/// The arguments of a call of one or two doubles, in XMM0 and XMM1. A second
/// one that the first would overwrite goes through `scratch`.
pub open spec fn call_arguments(acc: Ops, regs: Seq<PhysReg>, scratch: PhysReg) -> Ops {
    let first = PhysReg::Xmm(0);
    let second = PhysReg::Xmm(1);
    if regs.len() == 2 && regs[0] != first && regs[1] == first {
        put(
            put(
                put(acc, AsmOp::MovsdRegReg { dst: scratch, src: first }),
                AsmOp::MovsdRegReg { dst: first, src: regs[0] },
            ),
            AsmOp::MovsdRegReg { dst: second, src: scratch },
        )
    } else if regs.len() == 2 {
        move_float(move_float(acc, first, regs[0]), second, regs[1])
    } else if regs.len() == 1 {
        move_float(acc, first, regs[0])
    } else {
        acc
    }
}

/// Where a function of the mathematical library is.
pub open spec fn libm_entry(libm: Seq<(LibFunc, i64)>, func: LibFunc) -> Option<i64>
    decreases libm.len(),
{
    if libm.len() == 0 {
        None
    } else if libm[0].0 == func {
        Some(libm[0].1)
    } else {
        libm_entry(libm.skip(1), func)
    }
}

/// A call from a function without a frame: the stack is kept aligned.
pub open spec fn plain_call(acc: Ops, args: Seq<PhysReg>, dst: PhysReg, address: i64) -> Ops {
    let rsp = PhysReg::Rsp;
    let placed = call_arguments(acc, args, PhysReg::Xmm(15));
    let called = put(
        put(
            put(placed, AsmOp::AluRegImm { op: AluOp::Sub, dst: rsp, imm: 8 }),
            AsmOp::MovRegImm { dst: PhysReg::R11, imm: address },
        ),
        AsmOp::CallReg { target: PhysReg::R11 },
    );
    if dst is Xmm {
        move_float(
            put(called, AsmOp::AluRegImm { op: AluOp::Add, dst: rsp, imm: 8 }),
            dst,
            PhysReg::Xmm(0),
        )
    } else {
        None
    }
}

/// A parameter is copied from the register that it comes in.
pub open spec fn param_move(acc: Ops, abi: Abi, dst: PhysReg, index: u32) -> Ops {
    if dst is Xmm {
        if index < abi.float_args@.len() {
            move_float(acc, dst, abi.float_args@[index as int])
        } else {
            None
        }
    } else if index < abi.int_args@.len() {
        move_int(acc, dst, abi.int_args@[index as int])
    } else {
        None
    }
}

/// The registers of several values.
pub open spec fn all_at(regs: Seq<(Value, PhysReg)>, values: Seq<Value>) -> Seq<PhysReg> {
    Seq::new(values.len(), |i: int| at(regs, values[i]))
}

/// The operations of an instruction that is no terminator, behind `acc`.
pub open spec fn translated(
    acc: Ops,
    abi: Abi,
    inst: MachineInst,
    regs: Seq<(Value, PhysReg)>,
    labels: Seq<Label>,
) -> Ops {
    match inst {
        MachineInst::LoadImmI64 { dst, imm } => put(
            acc,
            AsmOp::MovRegImm { dst: at(regs, dst), imm },
        ),
        MachineInst::LoadImmF64 { dst, pool_index } => pool_load(
            acc,
            at(regs, dst),
            labels,
            pool_index,
        ),
        MachineInst::IntMul { dst, lhs, rhs } => put(
            move_int(acc, at(regs, dst), at(regs, lhs)),
            AsmOp::ImulRegReg { dst: at(regs, dst), src: at(regs, rhs) },
        ),
        MachineInst::IntDiv { dst, lhs, rhs } => divide(
            acc,
            at(regs, dst),
            at(regs, lhs),
            at(regs, rhs),
            PhysReg::Rax,
        ),
        MachineInst::IntRem { dst, lhs, rhs } => divide(
            acc,
            at(regs, dst),
            at(regs, lhs),
            at(regs, rhs),
            PhysReg::Rdx,
        ),
        MachineInst::IntNeg { dst, src } => put(
            move_int(acc, at(regs, dst), at(regs, src)),
            AsmOp::NegReg { dst: at(regs, dst) },
        ),
        MachineInst::Not { dst, src } => put(
            move_int(acc, at(regs, dst), at(regs, src)),
            AsmOp::NotReg { dst: at(regs, dst) },
        ),
        MachineInst::Lea { dst, base, index, scale, disp } => put(
            acc,
            AsmOp::LeaRegScaled {
                dst: at(regs, dst),
                base: at(regs, base),
                index: at(regs, index),
                scale,
                disp,
            },
        ),
        MachineInst::FloatSqrt { dst, src } => put(
            move_float(acc, at(regs, dst), at(regs, src)),
            AsmOp::SseRegReg { op: SseOp::Sqrt, dst: at(regs, dst), src: at(regs, dst) },
        ),
        MachineInst::FloatRound { dst, src, mode } => put(
            move_float(acc, at(regs, dst), at(regs, src)),
            AsmOp::Roundsd { mode, dst: at(regs, dst), src: at(regs, dst) },
        ),
        MachineInst::FloatAbs { dst, src, mask_pool } => put(
            pool_load(
                move_float(acc, at(regs, dst), at(regs, src)),
                mask_register(at(regs, dst)),
                labels,
                mask_pool,
            ),
            AsmOp::AndpdRegReg { dst: at(regs, dst), src: mask_register(at(regs, dst)) },
        ),
        MachineInst::FloatNeg { dst, src, mask_pool } => put(
            pool_load(
                move_float(acc, at(regs, dst), at(regs, src)),
                mask_register(at(regs, dst)),
                labels,
                mask_pool,
            ),
            AsmOp::XorpdRegReg { dst: at(regs, dst), src: mask_register(at(regs, dst)) },
        ),
        MachineInst::IntToFloat { dst, src } => put(
            acc,
            AsmOp::Cvtsi2sd { dst: at(regs, dst), src: at(regs, src) },
        ),
        MachineInst::FloatToInt { dst, src } => put(
            acc,
            AsmOp::Cvttsd2si { dst: at(regs, dst), src: at(regs, src) },
        ),
        MachineInst::IntCmp { op, dst, lhs, rhs } => flag(
            put(
                acc,
                AsmOp::AluRegReg { op: AluOp::Cmp, dst: at(regs, lhs), src: at(regs, rhs) },
            ),
            at(regs, dst),
            int_condition(op),
        ),
        MachineInst::FloatCmp { op, dst, lhs, rhs } => flag(
            put(acc, AsmOp::UcomisdRegReg { lhs: at(regs, lhs), rhs: at(regs, rhs) }),
            at(regs, dst),
            float_condition(op),
        ),
        MachineInst::IntCmov { dst, cond, then_val, else_val } => put(
            put(
                move_int(acc, at(regs, dst), at(regs, then_val)),
                AsmOp::TestRegReg { lhs: at(regs, cond), rhs: at(regs, cond) },
            ),
            AsmOp::Cmovcc {
                cond: ConditionCode::Equal,
                dst: at(regs, dst),
                src: at(regs, else_val),
            },
        ),
        MachineInst::Param { dst, index } => param_move(acc, abi, at(regs, dst), index),
        MachineInst::CallLibm { dst, func, args } => match libm_entry(abi.libm@, func) {
            Some(address) => if args@.len() == 1 || args@.len() == 2 {
                plain_call(acc, all_at(regs, args@), at(regs, dst), address)
            } else {
                None
            },
            None => None,
        },
        MachineInst::FloatFma { .. } => None,
        MachineInst::ExternalCall { .. } => None,
        MachineInst::Jump { .. } => None,
        MachineInst::Branch { .. } => None,
        MachineInst::Return { .. } => None,
        _ => match shape(inst) {
            Shape::Alu { op, dst, lhs, rhs } => put(
                move_int(acc, at(regs, dst), at(regs, lhs)),
                AsmOp::AluRegReg { op, dst: at(regs, dst), src: at(regs, rhs) },
            ),
            Shape::Sse { op, dst, lhs, rhs } => put(
                move_float(acc, at(regs, dst), at(regs, lhs)),
                AsmOp::SseRegReg { op, dst: at(regs, dst), src: at(regs, rhs) },
            ),
            Shape::Shift { op, dst, lhs, rhs } => shift(
                acc,
                op,
                at(regs, dst),
                at(regs, lhs),
                at(regs, rhs),
            ),
            Shape::Other => None,
        },
    }
}

fn mask_for(dst: PhysReg) -> (r: PhysReg)
    ensures
        r == mask_register(dst),
{
    if dst == PhysReg::Xmm(13) {
        PhysReg::Xmm(14)
    } else {
        PhysReg::Xmm(13)
    }
}

impl Assembler {
    pub fn move_int(&mut self, dst: PhysReg, src: PhysReg)
        ensures
            final(self)@ == move_int(old(self)@, dst, src),
            final(self).made() == old(self).made(),
    {
        self.put_if(dst != src, AsmOp::MovRegReg { dst, src });
    }

    pub fn move_float(&mut self, dst: PhysReg, src: PhysReg)
        ensures
            final(self)@ == move_float(old(self)@, dst, src),
            final(self).made() == old(self).made(),
    {
        self.put_if(dst != src, AsmOp::MovsdRegReg { dst, src });
    }

    fn pool_load(&mut self, dst: PhysReg, labels: &Vec<Label>, index: usize)
        ensures
            final(self)@ == pool_load(old(self)@, dst, labels@, index),
            final(self).made() == old(self).made(),
    {
        if index < labels.len() {
            self.put(AsmOp::MovsdRegRiprel { dst, label: labels[index] });
        } else {
            self.fail();
        }
    }

    fn divide(&mut self, dst: PhysReg, lhs: PhysReg, rhs: PhysReg, out: PhysReg)
        ensures
            final(self)@ == divide(old(self)@, dst, lhs, rhs, out),
            final(self).made() == old(self).made(),
    {
        if rhs == PhysReg::Rax || rhs == PhysReg::Rdx {
            self.fail();
            return ;
        }
        self.move_int(PhysReg::Rax, lhs);
        self.put(AsmOp::Cqo);
        self.put(AsmOp::IdivReg { src: rhs });
        self.move_int(dst, out);
    }

    fn shift(&mut self, op: ShiftOp, dst: PhysReg, lhs: PhysReg, rhs: PhysReg)
        ensures
            final(self)@ == shift(old(self)@, op, dst, lhs, rhs),
            final(self).made() == old(self).made(),
    {
        if rhs != PhysReg::Rcx && dst == PhysReg::Rcx {
            self.fail();
            return ;
        }
        self.move_int(dst, lhs);
        self.move_int(PhysReg::Rcx, rhs);
        self.put(AsmOp::ShiftRegCl { op, dst });
    }

    fn flag(&mut self, dst: PhysReg, cond: ConditionCode)
        ensures
            final(self)@ == flag(old(self)@, dst, cond),
            final(self).made() == old(self).made(),
    {
        self.put(AsmOp::MovRegImm { dst, imm: 0 });
        self.put(AsmOp::Setcc { cond, dst });
    }

    pub fn call_arguments(&mut self, regs: &Vec<PhysReg>, scratch: PhysReg)
        requires
            regs@.len() <= 2,
        ensures
            final(self)@ == call_arguments(old(self)@, regs@, scratch),
            final(self).made() == old(self).made(),
    {
        let first: PhysReg = PhysReg::Xmm(0);
        let second: PhysReg = PhysReg::Xmm(1);
        if regs.len() == 2 && regs[0] != first && regs[1] == first {
            self.put(AsmOp::MovsdRegReg { dst: scratch, src: first });
            self.put(AsmOp::MovsdRegReg { dst: first, src: regs[0] });
            self.put(AsmOp::MovsdRegReg { dst: second, src: scratch });
        } else if regs.len() > 0 {
            self.move_float(first, regs[0]);
            if regs.len() == 2 {
                self.move_float(second, regs[1]);
            }
        }
    }

    fn plain_call(&mut self, args: &Vec<PhysReg>, dst: PhysReg, address: i64)
        requires
            args@.len() == 1 || args@.len() == 2,
        ensures
            final(self)@ == plain_call(old(self)@, args@, dst, address),
            final(self).made() == old(self).made(),
    {
        let rsp: PhysReg = PhysReg::Rsp;
        self.call_arguments(args, PhysReg::Xmm(15));
        self.put(AsmOp::AluRegImm { op: AluOp::Sub, dst: rsp, imm: 8 });
        self.put(AsmOp::MovRegImm { dst: PhysReg::R11, imm: address });
        self.put(AsmOp::CallReg { target: PhysReg::R11 });
        if is_xmm(dst) {
            self.put(AsmOp::AluRegImm { op: AluOp::Add, dst: rsp, imm: 8 });
            self.move_float(dst, PhysReg::Xmm(0));
        } else {
            self.fail();
        }
    }

    fn param_move(&mut self, abi: &Abi, dst: PhysReg, index: u32)
        ensures
            final(self)@ == param_move(old(self)@, *abi, dst, index),
            final(self).made() == old(self).made(),
    {
        if is_xmm(dst) {
            if (index as usize) < abi.float_args.len() {
                self.move_float(dst, abi.float_args[index as usize]);
            } else {
                self.fail();
            }
        } else if (index as usize) < abi.int_args.len() {
            self.move_int(dst, abi.int_args[index as usize]);
        } else {
            self.fail();
        }
    }
}

pub fn find_libm(libm: &Vec<(LibFunc, i64)>, func: LibFunc) -> (r: Option<i64>)
    ensures
        r == libm_entry(libm@, func),
{
    let mut i: usize = 0;
    assert(libm@.skip(0) =~= libm@);
    while i < libm.len()
        invariant
            i <= libm@.len(),
            libm_entry(libm@, func) == libm_entry(libm@.skip(i as int), func),
        decreases libm@.len() - i,
    {
        assert(libm@.skip(i as int).skip(1) =~= libm@.skip(i + 1));
        if libm[i].0 == func {
            return Some(libm[i].1);
        }
        i += 1;
    }
    None
}

pub fn int_condition_code(op: CmpOp) -> (r: ConditionCode)
    ensures
        r == int_condition(op),
{
    match op {
        CmpOp::Eq => ConditionCode::Equal,
        CmpOp::Ne => ConditionCode::NotEqual,
        CmpOp::Lt => ConditionCode::Less,
        CmpOp::Le => ConditionCode::LessOrEqual,
        CmpOp::Gt => ConditionCode::Greater,
        CmpOp::Ge => ConditionCode::GreaterOrEqual,
    }
}

pub fn float_condition_code(op: CmpOp) -> (r: ConditionCode)
    ensures
        r == float_condition(op),
{
    match op {
        CmpOp::Eq => ConditionCode::Equal,
        CmpOp::Ne => ConditionCode::NotEqual,
        CmpOp::Lt => ConditionCode::Below,
        CmpOp::Le => ConditionCode::BelowOrEqual,
        CmpOp::Gt => ConditionCode::Above,
        CmpOp::Ge => ConditionCode::AboveOrEqual,
    }
}

pub fn find_all(regs: &Registers, values: &Vec<Value>) -> (r: Vec<PhysReg>)
    requires
        forall|i: int| #![trigger values@[i]] 0 <= i < values@.len() ==> has(regs@, values@[i]),
    ensures
        r@ == all_at(regs@, values@),
{
    let mut r: Vec<PhysReg> = Vec::new();
    let mut i: usize = 0;
    while i < values.len()
        invariant
            i <= values@.len(),
            r@.len() == i,
            forall|j: int| #![trigger values@[j]] 0 <= j < values@.len() ==> has(regs@, values@[j]),
            forall|j: int| #![trigger r@[j]] 0 <= j < i ==> r@[j] == at(regs@, values@[j]),
        decreases values@.len() - i,
    {
        r.push(regs.get(values[i]));
        i += 1;
    }
    assert(r@ =~= all_at(regs@, values@));
    r
}

/// Translates one instruction whose values are in registers. The label of a
/// constant is given by its index. Nothing comes out for a terminator, for an
/// external call and a fused multiplication, for a divisor in RAX or RDX, for a
/// shift that would overwrite its count, and for a constant, parameter or
/// library function that does not exist.
pub fn translate_inst(
    code: &mut Assembler,
    abi: &Abi,
    inst: &MachineInst,
    regs: &Registers,
    pool_labels: &Vec<Label>,
)
    requires
        located(regs@, *inst),
    ensures
        final(code)@ == translated(old(code)@, *abi, *inst, regs@, pool_labels@),
        final(code).made() == old(code).made(),
{
    let ghost values = reads(*inst);
    match inst {
        MachineInst::LoadImmI64 { dst, imm } => {
            let dst: PhysReg = regs.get(*dst);
            code.put(AsmOp::MovRegImm { dst, imm: *imm });
        },
        MachineInst::LoadImmF64 { dst, pool_index } => {
            code.pool_load(regs.get(*dst), pool_labels, *pool_index);
        },
        MachineInst::IntMul { dst, lhs, rhs } => {
            assert(values[0] == *lhs && values[1] == *rhs);
            let dst: PhysReg = regs.get(*dst);
            code.move_int(dst, regs.get(*lhs));
            code.put(AsmOp::ImulRegReg { dst, src: regs.get(*rhs) });
        },
        MachineInst::IntDiv { dst, lhs, rhs } => {
            assert(values[0] == *lhs && values[1] == *rhs);
            code.divide(regs.get(*dst), regs.get(*lhs), regs.get(*rhs), PhysReg::Rax);
        },
        MachineInst::IntRem { dst, lhs, rhs } => {
            assert(values[0] == *lhs && values[1] == *rhs);
            code.divide(regs.get(*dst), regs.get(*lhs), regs.get(*rhs), PhysReg::Rdx);
        },
        MachineInst::IntNeg { dst, src } => {
            assert(values[0] == *src);
            let dst: PhysReg = regs.get(*dst);
            code.move_int(dst, regs.get(*src));
            code.put(AsmOp::NegReg { dst });
        },
        MachineInst::Not { dst, src } => {
            assert(values[0] == *src);
            let dst: PhysReg = regs.get(*dst);
            code.move_int(dst, regs.get(*src));
            code.put(AsmOp::NotReg { dst });
        },
        MachineInst::Lea { dst, base, index, scale, disp } => {
            assert(values[0] == *base && values[1] == *index);
            code.put(
                AsmOp::LeaRegScaled {
                    dst: regs.get(*dst),
                    base: regs.get(*base),
                    index: regs.get(*index),
                    scale: *scale,
                    disp: *disp,
                },
            );
        },
        MachineInst::FloatSqrt { dst, src } => {
            assert(values[0] == *src);
            let dst: PhysReg = regs.get(*dst);
            code.move_float(dst, regs.get(*src));
            code.put(AsmOp::SseRegReg { op: SseOp::Sqrt, dst, src: dst });
        },
        MachineInst::FloatRound { dst, src, mode } => {
            assert(values[0] == *src);
            let dst: PhysReg = regs.get(*dst);
            code.move_float(dst, regs.get(*src));
            code.put(AsmOp::Roundsd { mode: *mode, dst, src: dst });
        },
        MachineInst::FloatAbs { dst, src, mask_pool } => {
            assert(values[0] == *src);
            let dst: PhysReg = regs.get(*dst);
            code.move_float(dst, regs.get(*src));
            let mask: PhysReg = mask_for(dst);
            code.pool_load(mask, pool_labels, *mask_pool);
            code.put(AsmOp::AndpdRegReg { dst, src: mask });
        },
        MachineInst::FloatNeg { dst, src, mask_pool } => {
            assert(values[0] == *src);
            let dst: PhysReg = regs.get(*dst);
            code.move_float(dst, regs.get(*src));
            let mask: PhysReg = mask_for(dst);
            code.pool_load(mask, pool_labels, *mask_pool);
            code.put(AsmOp::XorpdRegReg { dst, src: mask });
        },
        MachineInst::IntToFloat { dst, src } => {
            assert(values[0] == *src);
            code.put(AsmOp::Cvtsi2sd { dst: regs.get(*dst), src: regs.get(*src) });
        },
        MachineInst::FloatToInt { dst, src } => {
            assert(values[0] == *src);
            code.put(AsmOp::Cvttsd2si { dst: regs.get(*dst), src: regs.get(*src) });
        },
        MachineInst::IntCmp { op, dst, lhs, rhs } => {
            assert(values[0] == *lhs && values[1] == *rhs);
            let lhs: PhysReg = regs.get(*lhs);
            code.put(AsmOp::AluRegReg { op: AluOp::Cmp, dst: lhs, src: regs.get(*rhs) });
            code.flag(regs.get(*dst), int_condition_code(*op));
        },
        MachineInst::FloatCmp { op, dst, lhs, rhs } => {
            assert(values[0] == *lhs && values[1] == *rhs);
            code.put(AsmOp::UcomisdRegReg { lhs: regs.get(*lhs), rhs: regs.get(*rhs) });
            code.flag(regs.get(*dst), float_condition_code(*op));
        },
        MachineInst::IntCmov { dst, cond, then_val, else_val } => {
            assert(values[0] == *cond && values[1] == *then_val && values[2] == *else_val);
            let dst: PhysReg = regs.get(*dst);
            let bit: PhysReg = regs.get(*cond);
            code.move_int(dst, regs.get(*then_val));
            code.put(AsmOp::TestRegReg { lhs: bit, rhs: bit });
            code.put(
                AsmOp::Cmovcc { cond: ConditionCode::Equal, dst, src: regs.get(*else_val) },
            );
        },
        MachineInst::Param { dst, index } => code.param_move(abi, regs.get(*dst), *index),
        MachineInst::CallLibm { dst, func, args } => match find_libm(&abi.libm, *func) {
            Some(address) => {
                if args.len() == 1 || args.len() == 2 {
                    assert forall|i: int| #![trigger args@[i]] 0 <= i < args@.len() implies has(regs@, 
                        args@[i],
                    ) by {
                        assert(values[i] == args@[i]);
                    }
                    let sources: Vec<PhysReg> = find_all(regs, args);
                    code.plain_call(&sources, regs.get(*dst), address);
                } else {
                    code.fail();
                }
            },
            None => code.fail(),
        },
        MachineInst::FloatFma { .. }
        | MachineInst::ExternalCall { .. }
        | MachineInst::Jump { .. }
        | MachineInst::Branch { .. }
        | MachineInst::Return { .. } => code.fail(),
        _ => match shape_of(inst) {
            Shape::Alu { op, dst, lhs, rhs } => {
                assert(values[0] == lhs && values[1] == rhs);
                let dst: PhysReg = regs.get(dst);
                code.move_int(dst, regs.get(lhs));
                code.put(AsmOp::AluRegReg { op, dst, src: regs.get(rhs) });
            },
            Shape::Sse { op, dst, lhs, rhs } => {
                assert(values[0] == lhs && values[1] == rhs);
                let dst: PhysReg = regs.get(dst);
                code.move_float(dst, regs.get(lhs));
                code.put(AsmOp::SseRegReg { op, dst, src: regs.get(rhs) });
            },
            Shape::Shift { op, dst, lhs, rhs } => {
                assert(values[0] == lhs && values[1] == rhs);
                code.shift(op, regs.get(dst), regs.get(lhs), regs.get(rhs));
            },
            Shape::Other => code.fail(),
        },
    }
}

} // verus!
