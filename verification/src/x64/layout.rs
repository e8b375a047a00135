//! Whole functions: frames, parameters, spilled values, calls and edges.
use crate::ir::{Function, LibFunc, Ty, Value};
use crate::x64::machine::{
    def_of, is_xmm, reads_of, register_at, Abi, AluOp, AsmOp, Assembler, Label, Location,
    MachineInst, PhysReg, SelectedFunction, REGISTERS,
};
use crate::x64::machine::{defines, put, reads, register, Ops};
use crate::x64::translate::{
    all_at, at, call_arguments, has, libm_entry, located, lookup, move_float, move_int, translated,
};
use crate::x64::translate::{find_all, find_libm, translate_inst, Registers};
use vstd::prelude::*;

verus! {

/// What the code of a function is made from.
pub struct EmitContext<'a> {
    pub func: &'a Function,
    pub selected: &'a SelectedFunction,
    /// Where the allocator keeps each value.
    pub assignment: &'a Vec<Option<Location>>,
    /// Where each value is live: from its definition to its last use.
    pub intervals: &'a Vec<(Value, u32, u32)>,
    pub abi: &'a Abi,
    pub framed: bool,
    pub spill_bias: i32,
}

/// The type that selection gave to a value it made up.
pub open spec fn synthetic_type(types: Seq<(Value, Ty)>, v: Value) -> Option<Ty>
    decreases types.len(),
{
    if types.len() == 0 {
        None
    } else if types[0].0 == v {
        Some(types[0].1)
    } else {
        synthetic_type(types.skip(1), v)
    }
}

pub open spec fn value_type(cx: EmitContext, v: Value) -> Option<Ty> {
    match synthetic_type(cx.selected.synthetic_types@, v) {
        Some(ty) => Some(ty),
        None => if v.0 < cx.func.types@.len() {
            Some(cx.func.types@[v.0 as int])
        } else {
            None
        },
    }
}

pub open spec fn location(cx: EmitContext, v: Value) -> Option<Location> {
    if v.0 < cx.assignment@.len() {
        cx.assignment@[v.0 as int]
    } else {
        None
    }
}

fn find_synthetic(types: &Vec<(Value, Ty)>, v: Value) -> (r: Option<Ty>)
    ensures
        r == synthetic_type(types@, v),
{
    let mut i: usize = 0;
    assert(types@.skip(0) =~= types@);
    while i < types.len()
        invariant
            i <= types@.len(),
            synthetic_type(types@, v) == synthetic_type(types@.skip(i as int), v),
        decreases types@.len() - i,
    {
        assert(types@.skip(i as int).skip(1) =~= types@.skip(i + 1));
        if types[i].0 == v {
            return Some(types[i].1);
        }
        i += 1;
    }
    None
}

pub fn value_ty(cx: &EmitContext, v: Value) -> (r: Option<Ty>)
    ensures
        r == value_type(*cx, v),
{
    match find_synthetic(&cx.selected.synthetic_types, v) {
        Some(ty) => Some(ty),
        None => if (v.0 as usize) < cx.func.types.len() {
            Some(cx.func.types[v.0 as usize])
        } else {
            None
        },
    }
}

pub fn find_location(cx: &EmitContext, v: Value) -> (r: Option<Location>)
    ensures
        r == location(*cx, v),
{
    if (v.0 as usize) < cx.assignment.len() {
        cx.assignment[v.0 as usize]
    } else {
        None
    }
}

// ---------------------------------------------------------------------------
// The registers of one instruction

/// The registers found so far, and how many scratch registers are taken.
#[verifier::ext_equal]
pub struct Resolved {
    pub entries: Seq<(Value, PhysReg)>,
    pub gprs: int,
    pub xmms: int,
}

/// A spilled result that shares the scratch register of an operand: the
/// instruction reads the operand before it writes the result.
pub open spec fn shared_scratch(cx: EmitContext, inst: MachineInst) -> Option<(Value, Value)> {
    match inst {
        MachineInst::IntCmov { dst, then_val, .. } => if location(cx, dst) matches Some(
            Location::Spill(_),
        ) && location(cx, then_val) matches Some(Location::Spill(_)) {
            Some((dst, then_val))
        } else {
            None
        },
        MachineInst::FloatFma { dst, addend, .. } => if location(cx, dst) matches Some(
            Location::Spill(_),
        ) && location(cx, addend) matches Some(Location::Spill(_)) {
            Some((dst, addend))
        } else {
            None
        },
        _ => None,
    }
}

/// A spilled value takes the next scratch register of its bank.
pub open spec fn take_scratch(cx: EmitContext, v: Value, s: Resolved) -> Option<Resolved> {
    match value_type(cx, v) {
        None => None,
        Some(Ty::F64) => if s.xmms < cx.abi.scratch_xmm@.len() {
            Some(
                Resolved {
                    entries: s.entries.push((v, cx.abi.scratch_xmm@[s.xmms])),
                    xmms: s.xmms + 1,
                    ..s
                },
            )
        } else {
            None
        },
        Some(_) => if s.gprs < cx.abi.scratch_gpr@.len() {
            Some(
                Resolved {
                    entries: s.entries.push((v, cx.abi.scratch_gpr@[s.gprs])),
                    gprs: s.gprs + 1,
                    ..s
                },
            )
        } else {
            None
        },
    }
}

pub open spec fn resolve_one(
    cx: EmitContext,
    inst: MachineInst,
    v: Value,
    s: Resolved,
) -> Option<Resolved> {
    match location(cx, v) {
        None => None,
        Some(l) => if lookup(s.entries, v) is Some {
            Some(s)
        } else {
            match l {
                Location::Reg(r) => Some(Resolved { entries: s.entries.push((v, r)), ..s }),
                Location::Spill(_) => match shared_scratch(cx, inst) {
                    Some((dst, source)) => if v == dst {
                        match lookup(s.entries, source) {
                            Some(r) => Some(
                                Resolved { entries: s.entries.push((v, r)), ..s },
                            ),
                            None => None,
                        }
                    } else {
                        take_scratch(cx, v, s)
                    },
                    None => take_scratch(cx, v, s),
                },
            }
        },
    }
}

/// The values that an instruction mentions: what it reads, and its result.
pub open spec fn mentioned(inst: MachineInst) -> Seq<Value> {
    match defines(inst) {
        Some(v) => reads(inst).push(v),
        None => reads(inst),
    }
}

/// The registers of the first `k` values that the instruction mentions.
pub open spec fn resolve(cx: EmitContext, inst: MachineInst, k: nat) -> Option<Resolved>
    decreases k,
{
    if k == 0 {
        Some(Resolved { entries: Seq::empty(), gprs: 0, xmms: 0 })
    } else {
        match resolve(cx, inst, (k - 1) as nat) {
            Some(s) => resolve_one(cx, inst, mentioned(inst)[k - 1], s),
            None => None,
        }
    }
}

pub(crate) proof fn lemma_lookup_push(entries: Seq<(Value, PhysReg)>, e: (Value, PhysReg), v: Value)
    ensures
        lookup(entries.push(e), v) == match lookup(entries, v) {
            Some(r) => Some(r),
            None => if e.0 == v {
                Some(e.1)
            } else {
                None
            },
        },
    decreases entries.len(),
{
    let more = entries.push(e);
    if entries.len() > 0 {
        assert(more.skip(1) =~= entries.skip(1).push(e));
        lemma_lookup_push(entries.skip(1), e, v);
    } else {
        assert(more.skip(1) =~= Seq::empty());
        assert(lookup(more.skip(1), v) is None);
    }
}

struct Scratch {
    entries: Registers,
    gprs: usize,
    xmms: usize,
}

impl View for Scratch {
    type V = Resolved;

    closed spec fn view(&self) -> Resolved {
        Resolved {
            entries: self.entries.entries@,
            gprs: self.gprs as int,
            xmms: self.xmms as int,
        }
    }
}

fn find_shared(cx: &EmitContext, inst: &MachineInst) -> (r: Option<(Value, Value)>)
    ensures
        r == shared_scratch(*cx, *inst),
{
    match inst {
        MachineInst::IntCmov { dst, then_val, .. } => {
            match (find_location(cx, *dst), find_location(cx, *then_val)) {
                (Some(Location::Spill(_)), Some(Location::Spill(_))) => Some((*dst, *then_val)),
                _ => None,
            }
        },
        MachineInst::FloatFma { dst, addend, .. } => {
            match (find_location(cx, *dst), find_location(cx, *addend)) {
                (Some(Location::Spill(_)), Some(Location::Spill(_))) => Some((*dst, *addend)),
                _ => None,
            }
        },
        _ => None,
    }
}

impl Scratch {
    fn add(&mut self, v: Value, r: PhysReg)
        ensures
            final(self)@ == (Resolved { entries: old(self)@.entries.push((v, r)), ..old(self)@ }),
            forall|w: Value|
                #![trigger lookup(final(self)@.entries, w)]
                lookup(old(self)@.entries, w) is Some || w == v ==> lookup(
                    final(self)@.entries,
                    w,
                ) is Some,
    {
        let ghost before = self.entries.entries@;
        self.entries.entries.push((v, r));
        proof {
            assert forall|w: Value|
                #![trigger lookup(self@.entries, w)]
                lookup(before, w) is Some || w == v implies lookup(self@.entries, w) is Some by {
                lemma_lookup_push(before, (v, r), w);
            }
        }
    }

    fn take(&mut self, cx: &EmitContext, v: Value) -> (ok: bool)
        ensures
            ok ==> take_scratch(*cx, v, old(self)@) == Some(final(self)@),
            !ok ==> take_scratch(*cx, v, old(self)@) is None,
            ok ==> forall|w: Value|
                #![trigger lookup(final(self)@.entries, w)]
                lookup(old(self)@.entries, w) is Some || w == v ==> lookup(
                    final(self)@.entries,
                    w,
                ) is Some,
    {
        match value_ty(cx, v) {
            None => false,
            Some(Ty::F64) => {
                if self.xmms < cx.abi.scratch_xmm.len() {
                    self.add(v, cx.abi.scratch_xmm[self.xmms]);
                    self.xmms = self.xmms + 1;
                    true
                } else {
                    false
                }
            },
            Some(_) => {
                if self.gprs < cx.abi.scratch_gpr.len() {
                    self.add(v, cx.abi.scratch_gpr[self.gprs]);
                    self.gprs = self.gprs + 1;
                    true
                } else {
                    false
                }
            },
        }
    }

    fn resolve_one(&mut self, cx: &EmitContext, inst: &MachineInst, v: Value) -> (ok: bool)
        ensures
            ok ==> resolve_one(*cx, *inst, v, old(self)@) == Some(final(self)@),
            !ok ==> resolve_one(*cx, *inst, v, old(self)@) is None,
            ok ==> forall|w: Value|
                #![trigger lookup(final(self)@.entries, w)]
                lookup(old(self)@.entries, w) is Some || w == v ==> lookup(
                    final(self)@.entries,
                    w,
                ) is Some,
    {
        let l: Location = match find_location(cx, v) {
            Some(l) => l,
            None => return false,
        };
        if self.entries.find(v).is_some() {
            return true;
        }
        match l {
            Location::Reg(r) => {
                self.add(v, r);
                true
            },
            Location::Spill(_) => match find_shared(cx, inst) {
                Some((dst, source)) => {
                    if v == dst {
                        match self.entries.find(source) {
                            Some(r) => {
                                self.add(v, r);
                                true
                            },
                            None => false,
                        }
                    } else {
                        self.take(cx, v)
                    }
                },
                None => self.take(cx, v),
            },
        }
    }
}

proof fn lemma_resolve_none(cx: EmitContext, inst: MachineInst, k: nat, n: nat)
    requires
        k <= n,
        resolve(cx, inst, k) is None,
    ensures
        resolve(cx, inst, n) is None,
    decreases n - k,
{
    if k < n {
        lemma_resolve_none(cx, inst, k + 1, n);
    }
}

/// Finds a register for every value that an instruction mentions. Spilled ones
/// get scratch registers.
pub fn assign_spill_scratch(cx: &EmitContext, inst: &MachineInst) -> (r: Option<Registers>)
    ensures
        match r {
            Some(regs) => {
                &&& resolve(*cx, *inst, mentioned(*inst).len()) matches Some(s)
                &&& s.entries == regs@
                &&& located(regs@, *inst)
            },
            None => resolve(*cx, *inst, mentioned(*inst).len()) is None,
        },
{
    let mut values: Vec<Value> = reads_of(inst);
    match def_of(inst) {
        Some(v) => values.push(v),
        None => {},
    }
    assert(values@ =~= mentioned(*inst));
    let mut s: Scratch = Scratch {
        entries: Registers { entries: Vec::new() },
        gprs: 0,
        xmms: 0,
    };
    assert(s@ =~= Resolved { entries: Seq::empty(), gprs: 0, xmms: 0 });
    let mut k: usize = 0;
    while k < values.len()
        invariant
            values@ == mentioned(*inst),
            k <= values@.len(),
            resolve(*cx, *inst, k as nat) == Some(s@),
            forall|j: int|
                #![trigger values@[j]]
                0 <= j < k ==> lookup(s@.entries, values@[j]) is Some,
        decreases values@.len() - k,
    {
        let ghost before = s@;
        if !s.resolve_one(cx, inst, values[k]) {
            proof {
                lemma_resolve_none(*cx, *inst, (k + 1) as nat, values@.len());
            }
            return None;
        }
        proof {
            assert forall|j: int| #![trigger values@[j]] 0 <= j < k + 1 implies lookup(
                s@.entries,
                values@[j],
            ) is Some by {
                if j < k {
                    assert(lookup(before.entries, values@[j]) is Some);
                }
            }
        }
        k += 1;
    }
    let regs: Registers = s.entries;
    proof {
        let rs = reads(*inst);
        assert forall|i: int| #![trigger rs[i]] 0 <= i < rs.len() implies has(regs@, rs[i]) by {
            assert(values@[i] == rs[i]);
        }
        if defines(*inst) is Some {
            assert(values@[rs.len() as int] == defines(*inst).unwrap());
        }
    }
    Some(regs)
}

// ---------------------------------------------------------------------------
// Registers that a call or an instruction overwrites

/// The interval covers the position: the value is needed before and after.
pub open spec fn spans(interval: (Value, u32, u32), position: u32) -> bool {
    interval.1 < position && interval.2 > position
}

/// Every value that is live at the position has a place.
pub open spec fn live_known(cx: EmitContext, position: u32) -> bool {
    forall|i: int|
        #![trigger cx.intervals@[i]]
        0 <= i < cx.intervals@.len() && spans(cx.intervals@[i], position) ==> location(
            cx,
            cx.intervals@[i].0,
        ) is Some
}

/// The register holds a value that is live at the position.
pub open spec fn is_live(cx: EmitContext, position: u32, reg: PhysReg) -> bool {
    exists|i: int|
        #![trigger cx.intervals@[i]]
        0 <= i < cx.intervals@.len() && spans(cx.intervals@[i], position) && location(
            cx,
            cx.intervals@[i].0,
        ) == Some(Location::Reg(reg))
}

/// What overwrites registers.
#[derive(Clone, Copy, Debug, PartialEq, Eq, Structural)]
pub enum Clobber {
    Division,
    Shift,
    Call,
}

/// The register is overwritten.
pub open spec fn clobbers(what: Clobber, reg: PhysReg) -> bool {
    match what {
        Clobber::Division => reg == PhysReg::Rax || reg == PhysReg::Rdx,
        Clobber::Shift => reg == PhysReg::Rcx,
        Clobber::Call => match reg {
            PhysReg::Rax
            | PhysReg::Rcx
            | PhysReg::Rdx
            | PhysReg::Rsi
            | PhysReg::Rdi
            | PhysReg::R8
            | PhysReg::R9
            | PhysReg::R10
            | PhysReg::R11
            | PhysReg::Xmm(_) => true,
            _ => false,
        },
    }
}

/// The registers among the first `n` that have to be saved.
pub open spec fn saved_registers(cx: EmitContext, position: u32, what: Clobber, n: nat) -> Seq<
    PhysReg,
>
    decreases n,
{
    if n == 0 {
        Seq::empty()
    } else {
        let before = saved_registers(cx, position, what, (n - 1) as nat);
        let reg = register(n - 1);
        if clobbers(what, reg) && is_live(cx, position, reg) {
            before.push(reg)
        } else {
            before
        }
    }
}

pub open spec fn to_save(cx: EmitContext, position: u32, what: Clobber) -> Seq<PhysReg> {
    saved_registers(cx, position, what, REGISTERS as nat)
}

fn knows_live(cx: &EmitContext, position: u32) -> (r: bool)
    ensures
        r == live_known(*cx, position),
{
    let mut i: usize = 0;
    while i < cx.intervals.len()
        invariant
            i <= cx.intervals@.len(),
            forall|j: int|
                #![trigger cx.intervals@[j]]
                0 <= j < i && spans(cx.intervals@[j], position) ==> location(
                    *cx,
                    cx.intervals@[j].0,
                ) is Some,
        decreases cx.intervals@.len() - i,
    {
        let (v, start, end): (Value, u32, u32) = cx.intervals[i];
        if start < position && end > position && find_location(cx, v).is_none() {
            return false;
        }
        i += 1;
    }
    true
}

fn live_at(cx: &EmitContext, position: u32, reg: PhysReg) -> (r: bool)
    ensures
        r == is_live(*cx, position, reg),
{
    let mut i: usize = 0;
    while i < cx.intervals.len()
        invariant
            i <= cx.intervals@.len(),
            forall|j: int|
                #![trigger cx.intervals@[j]]
                0 <= j < i && spans(cx.intervals@[j], position) ==> location(
                    *cx,
                    cx.intervals@[j].0,
                ) != Some(Location::Reg(reg)),
        decreases cx.intervals@.len() - i,
    {
        let (v, start, end): (Value, u32, u32) = cx.intervals[i];
        if start < position && end > position && find_location(cx, v) == Some(
            Location::Reg(reg),
        ) {
            assert(spans(cx.intervals@[i as int], position));
            return true;
        }
        i += 1;
    }
    false
}

fn is_clobbered(what: Clobber, reg: PhysReg) -> (r: bool)
    ensures
        r == clobbers(what, reg),
{
    match what {
        Clobber::Division => reg == PhysReg::Rax || reg == PhysReg::Rdx,
        Clobber::Shift => reg == PhysReg::Rcx,
        Clobber::Call => match reg {
            PhysReg::Rax
            | PhysReg::Rcx
            | PhysReg::Rdx
            | PhysReg::Rsi
            | PhysReg::Rdi
            | PhysReg::R8
            | PhysReg::R9
            | PhysReg::R10
            | PhysReg::R11
            | PhysReg::Xmm(_) => true,
            _ => false,
        },
    }
}

fn find_saved(cx: &EmitContext, position: u32, what: Clobber) -> (r: Vec<PhysReg>)
    ensures
        r@ == to_save(*cx, position, what),
        r@.len() <= REGISTERS,
{
    let mut r: Vec<PhysReg> = Vec::new();
    assert(r@ =~= Seq::empty());
    let mut i: usize = 0;
    while i < REGISTERS
        invariant
            i <= REGISTERS,
            r@ == saved_registers(*cx, position, what, i as nat),
            r@.len() <= i,
        decreases REGISTERS - i,
    {
        let reg: PhysReg = register_at(i);
        if is_clobbered(what, reg) && live_at(cx, position, reg) {
            r.push(reg);
        }
        i += 1;
    }
    r
}

/// What has to be added for the stack to be aligned: on entry the return
/// address is on it, unless a frame was made.
pub open spec fn aligned(raw: int, framed: bool) -> int {
    raw + ((if framed {
        0int
    } else {
        8
    }) + 16 - raw % 16) % 16
}

/// The stack is aligned to sixteen bytes at every call.
pub proof fn lemma_aligned(raw: int, framed: bool)
    requires
        raw >= 0,
        raw % 8 == 0,
    ensures
        raw <= aligned(raw, framed) < raw + 16,
        framed ==> aligned(raw, framed) % 16 == 0,
        !framed ==> (aligned(raw, framed) + 8) % 16 == 0,
{
}

fn align(raw: i64, framed: bool) -> (r: i64)
    requires
        0 <= raw <= 0x1_0000_0000_0000,
    ensures
        r == aligned(raw as int, framed),
{
    let desired: i64 = if framed {
        0
    } else {
        8
    };
    raw + (desired + 16 - raw % 16) % 16
}

pub open spec fn save_one(acc: Ops, reg: PhysReg, offset: int) -> Ops {
    put(
        acc,
        if reg is Xmm {
            AsmOp::MovsdMemReg { base: PhysReg::Rsp, offset: offset as i32, src: reg }
        } else {
            AsmOp::MovMemReg { base: PhysReg::Rsp, offset: offset as i32, src: reg }
        },
    )
}

pub open spec fn restore_one(acc: Ops, reg: PhysReg, offset: int) -> Ops {
    put(
        acc,
        if reg is Xmm {
            AsmOp::MovsdRegMem { dst: reg, base: PhysReg::Rsp, offset: offset as i32 }
        } else {
            AsmOp::MovRegMem { dst: reg, base: PhysReg::Rsp, offset: offset as i32 }
        },
    )
}

/// The first `n` registers are saved, upwards from `base`.
pub open spec fn save_all(acc: Ops, regs: Seq<PhysReg>, base: int, n: nat) -> Ops
    decreases n,
{
    if n == 0 {
        acc
    } else {
        save_one(save_all(acc, regs, base, (n - 1) as nat), regs[n - 1], base + 8 * (n - 1))
    }
}

/// The first `n` registers are restored, the last one first.
pub open spec fn restore_all(acc: Ops, regs: Seq<PhysReg>, base: int, n: nat) -> Ops
    decreases n,
{
    if n == 0 {
        acc
    } else {
        restore_all(restore_one(acc, regs[n - 1], base + 8 * (n - 1)), regs, base, (n - 1) as nat)
    }
}

pub open spec fn move_stack(acc: Ops, op: AluOp, bytes: int) -> Ops {
    put(acc, AsmOp::AluRegImm { op, dst: PhysReg::Rsp, imm: bytes as i32 })
}

impl Assembler {
    fn move_stack(&mut self, op: AluOp, bytes: i64)
        requires
            0 <= bytes <= i32::MAX,
        ensures
            final(self)@ == move_stack(old(self)@, op, bytes as int),
            final(self).made() == old(self).made(),
    {
        self.put(AsmOp::AluRegImm { op, dst: PhysReg::Rsp, imm: bytes as i32 });
    }

    fn save_all(&mut self, regs: &Vec<PhysReg>, base: i64)
        requires
            0 <= base,
            base + 8 * regs@.len() <= i32::MAX,
        ensures
            final(self)@ == save_all(old(self)@, regs@, base as int, regs@.len()),
            final(self).made() == old(self).made(),
    {
        let ghost start = self@;
        let mut i: usize = 0;
        while i < regs.len()
            invariant
                0 <= base,
                base + 8 * regs@.len() <= i32::MAX,
                i <= regs@.len(),
                self@ == save_all(start, regs@, base as int, i as nat),
                self.made() == old(self).made(),
            decreases regs@.len() - i,
        {
            let reg: PhysReg = regs[i];
            let offset: i32 = (base + 8 * i as i64) as i32;
            if is_xmm(reg) {
                self.put(AsmOp::MovsdMemReg { base: PhysReg::Rsp, offset, src: reg });
            } else {
                self.put(AsmOp::MovMemReg { base: PhysReg::Rsp, offset, src: reg });
            }
            i += 1;
        }
    }

    fn restore_all(&mut self, regs: &Vec<PhysReg>, base: i64)
        requires
            0 <= base,
            base + 8 * regs@.len() <= i32::MAX,
        ensures
            final(self)@ == restore_all(old(self)@, regs@, base as int, regs@.len()),
            final(self).made() == old(self).made(),
    {
        let ghost goal = restore_all(self@, regs@, base as int, regs@.len());
        let mut n: usize = regs.len();
        while n > 0
            invariant
                0 <= base,
                base + 8 * regs@.len() <= i32::MAX,
                n <= regs@.len(),
                goal == restore_all(self@, regs@, base as int, n as nat),
                self.made() == old(self).made(),
            decreases n,
        {
            n -= 1;
            let reg: PhysReg = regs[n];
            let offset: i32 = (base + 8 * n as i64) as i32;
            if is_xmm(reg) {
                self.put(AsmOp::MovsdRegMem { dst: reg, base: PhysReg::Rsp, offset });
            } else {
                self.put(AsmOp::MovRegMem { dst: reg, base: PhysReg::Rsp, offset });
            }
        }
    }
}

/// An instruction that overwrites registers: those that are live are saved
/// around it.
pub open spec fn with_saved(
    acc: Ops,
    cx: EmitContext,
    inst: MachineInst,
    regs: Seq<(Value, PhysReg)>,
    labels: Seq<Label>,
    position: u32,
    what: Clobber,
) -> Ops {
    let saved = to_save(cx, position, what);
    let bytes = aligned(8 * saved.len() as int, cx.framed);
    if !live_known(cx, position) {
        None
    } else if saved.len() == 0 {
        translated(acc, *cx.abi, inst, regs, labels)
    } else {
        let kept = save_all(move_stack(acc, AluOp::Sub, bytes), saved, 0, saved.len());
        let done = translated(kept, *cx.abi, inst, regs, labels);
        move_stack(restore_all(done, saved, 0, saved.len()), AluOp::Add, bytes)
    }
}

pub fn emit_with_saved(
    code: &mut Assembler,
    cx: &EmitContext,
    inst: &MachineInst,
    regs: &Registers,
    labels: &Vec<Label>,
    position: u32,
    what: Clobber,
)
    requires
        located(regs@, *inst),
    ensures
        final(code)@ == with_saved(old(code)@, *cx, *inst, regs@, labels@, position, what),
        final(code).made() == old(code).made(),
{
    if !knows_live(cx, position) {
        code.fail();
        return ;
    }
    let saved: Vec<PhysReg> = find_saved(cx, position, what);
    if saved.len() == 0 {
        translate_inst(code, cx.abi, inst, regs, labels);
        return ;
    }
    let bytes: i64 = align(8 * saved.len() as i64, cx.framed);
    code.move_stack(AluOp::Sub, bytes);
    code.save_all(&saved, 0);
    translate_inst(code, cx.abi, inst, regs, labels);
    code.restore_all(&saved, 0);
    code.move_stack(AluOp::Add, bytes);
}

// ---------------------------------------------------------------------------
// Calls

/// The space that a callee may use, on Windows.
pub open spec fn shadow(windows: bool) -> int {
    if windows {
        32
    } else {
        0
    }
}

/// A call of the mathematical library.
pub open spec fn libm_call(
    acc: Ops,
    cx: EmitContext,
    address: i64,
    args: Seq<PhysReg>,
    dst: PhysReg,
    position: u32,
) -> Ops {
    let saved = to_save(cx, position, Clobber::Call);
    let base = shadow(cx.abi.windows);
    let bytes = aligned(base + 8 * saved.len(), cx.framed);
    let scratch = cx.abi.scratch_xmm@[2];
    let kept = save_all(move_stack(acc, AluOp::Sub, bytes), saved, base, saved.len());
    let called = put(
        put(
            call_arguments(kept, args, scratch),
            AsmOp::MovRegImm { dst: PhysReg::R11, imm: address },
        ),
        AsmOp::CallReg { target: PhysReg::R11 },
    );
    let result = put(called, AsmOp::MovsdRegReg { dst: scratch, src: PhysReg::Xmm(0) });
    move_stack(
        move_float(restore_all(result, saved, base, saved.len()), dst, scratch),
        AluOp::Add,
        bytes,
    )
}

/// What a call of the mathematical library needs.
pub open spec fn libm_ok(cx: EmitContext, func: LibFunc, args: Seq<Value>, position: u32) -> bool {
    &&& live_known(cx, position)
    &&& libm_entry(cx.abi.libm@, func) is Some
    &&& args.len() <= 2
    &&& cx.abi.scratch_xmm@.len() > 2
}

pub fn emit_libm_call(
    code: &mut Assembler,
    cx: &EmitContext,
    func: LibFunc,
    args: &Vec<Value>,
    regs: &Registers,
    dst: PhysReg,
    position: u32,
)
    requires
        forall|i: int| #![trigger args@[i]] 0 <= i < args@.len() ==> has(regs@, args@[i]),
    ensures
        final(code)@ == if libm_ok(*cx, func, args@, position) {
            libm_call(
                old(code)@,
                *cx,
                libm_entry(cx.abi.libm@, func).unwrap(),
                all_at(regs@, args@),
                dst,
                position,
            )
        } else {
            None
        },
        final(code).made() == old(code).made(),
{
    let address: i64 = match find_libm(&cx.abi.libm, func) {
        Some(address) => address,
        None => {
            code.fail();
            return ;
        },
    };
    if !knows_live(cx, position) || args.len() > 2 || cx.abi.scratch_xmm.len() <= 2 {
        code.fail();
        return ;
    }
    let saved: Vec<PhysReg> = find_saved(cx, position, Clobber::Call);
    let base: i64 = if cx.abi.windows {
        32
    } else {
        0
    };
    let bytes: i64 = align(base + 8 * saved.len() as i64, cx.framed);
    let scratch: PhysReg = cx.abi.scratch_xmm[2];
    let sources: Vec<PhysReg> = find_all(regs, args);
    code.move_stack(AluOp::Sub, bytes);
    code.save_all(&saved, base);
    code.call_arguments(&sources, scratch);
    code.put(AsmOp::MovRegImm { dst: PhysReg::R11, imm: address });
    code.put(AsmOp::CallReg { target: PhysReg::R11 });
    code.put(AsmOp::MovsdRegReg { dst: scratch, src: PhysReg::Xmm(0) });
    code.restore_all(&saved, base);
    code.move_float(dst, scratch);
    code.move_stack(AluOp::Add, bytes);
}

/// Where an argument of an external call goes.
#[derive(Clone, Copy, Debug, PartialEq, Eq, Structural)]
pub enum Place {
    Register(PhysReg),
    /// The slot with this number in the outgoing area.
    Stack(usize),
}

/// The places of the arguments so far, and what they have taken.
#[verifier::ext_equal]
pub struct Placement {
    pub places: Seq<Place>,
    pub gprs: int,
    pub xmms: int,
    pub stack: int,
}

pub open spec fn on_stack(s: Placement) -> Placement {
    Placement { places: s.places.push(Place::Stack(s.stack as usize)), stack: s.stack + 1, ..s }
}

/// The registers of the first four arguments, on Windows.
pub open spec fn windows_register(float: bool, index: int) -> PhysReg {
    if float {
        PhysReg::Xmm(index as u8)
    } else if index == 0 {
        PhysReg::Rcx
    } else if index == 1 {
        PhysReg::Rdx
    } else if index == 2 {
        PhysReg::R8
    } else {
        PhysReg::R9
    }
}

pub open spec fn place_one(abi: Abi, ty: Ty, index: int, s: Placement) -> Placement {
    let float = ty == Ty::F64;
    if abi.windows {
        if index < 4 {
            Placement { places: s.places.push(Place::Register(windows_register(float, index))), ..s }
        } else {
            on_stack(s)
        }
    } else if float {
        if s.xmms < abi.float_args@.len() {
            Placement {
                places: s.places.push(Place::Register(abi.float_args@[s.xmms])),
                xmms: s.xmms + 1,
                ..s
            }
        } else {
            on_stack(s)
        }
    } else if s.gprs < abi.int_args@.len() {
        Placement {
            places: s.places.push(Place::Register(abi.int_args@[s.gprs])),
            gprs: s.gprs + 1,
            ..s
        }
    } else {
        on_stack(s)
    }
}

/// The places of the first `n` arguments.
pub open spec fn place_args(cx: EmitContext, args: Seq<Value>, n: nat) -> Option<Placement>
    decreases n,
{
    if n == 0 {
        Some(Placement { places: Seq::empty(), gprs: 0, xmms: 0, stack: 0 })
    } else {
        match (place_args(cx, args, (n - 1) as nat), value_type(cx, args[n - 1])) {
            (Some(s), Some(ty)) => Some(place_one(*cx.abi, ty, n - 1, s)),
            _ => None,
        }
    }
}

struct Placed {
    places: Vec<Place>,
    types: Vec<Ty>,
    gprs: usize,
    xmms: usize,
    stack: usize,
}

impl View for Placed {
    type V = Placement;

    closed spec fn view(&self) -> Placement {
        Placement {
            places: self.places@,
            gprs: self.gprs as int,
            xmms: self.xmms as int,
            stack: self.stack as int,
        }
    }
}

proof fn lemma_place_none(cx: EmitContext, args: Seq<Value>, k: nat, n: nat)
    requires
        k <= n,
        place_args(cx, args, k) is None,
    ensures
        place_args(cx, args, n) is None,
    decreases n - k,
{
    if k < n {
        lemma_place_none(cx, args, k + 1, n);
    }
}

fn pick_windows_register(float: bool, index: usize) -> (r: PhysReg)
    requires
        index < 4,
    ensures
        r == windows_register(float, index as int),
{
    if float {
        PhysReg::Xmm(index as u8)
    } else if index == 0 {
        PhysReg::Rcx
    } else if index == 1 {
        PhysReg::Rdx
    } else if index == 2 {
        PhysReg::R8
    } else {
        PhysReg::R9
    }
}

impl Placed {
    /// What holds of the places of the first `n` arguments.
    spec fn fits(&self, cx: EmitContext, args: Seq<Value>, n: nat) -> bool {
        &&& place_args(cx, args, n) == Some(self@)
        &&& self.places@.len() == n
        &&& self.types@.len() == n
        &&& self.gprs <= n
        &&& self.xmms <= n
        &&& self.stack <= n
        &&& forall|i: int|
            #![trigger self.types@[i]]
            0 <= i < n ==> value_type(cx, args[i]) == Some(self.types@[i])
        &&& forall|i: int|
            #![trigger self.places@[i]]
            0 <= i < n ==> (self.places@[i] matches Place::Stack(k) ==> k < self.stack)
    }

    fn add(&mut self, cx: &EmitContext, args: &Vec<Value>, index: usize, ty: Ty)
        requires
            index < args@.len(),
            old(self).fits(*cx, args@, index as nat),
            value_type(*cx, args@[index as int]) == Some(ty),
        ensures
            final(self).fits(*cx, args@, (index + 1) as nat),
    {
        let ghost before = self@;
        let float: bool = ty == Ty::F64;
        assert(self.stack <= index < args.len());
        self.types.push(ty);
        if cx.abi.windows {
            if index < 4 {
                self.places.push(Place::Register(pick_windows_register(float, index)));
            } else {
                self.places.push(Place::Stack(self.stack));
                self.stack = self.stack + 1;
            }
        } else if float {
            if self.xmms < cx.abi.float_args.len() {
                self.places.push(Place::Register(cx.abi.float_args[self.xmms]));
                self.xmms = self.xmms + 1;
            } else {
                self.places.push(Place::Stack(self.stack));
                self.stack = self.stack + 1;
            }
        } else if self.gprs < cx.abi.int_args.len() {
            self.places.push(Place::Register(cx.abi.int_args[self.gprs]));
            self.gprs = self.gprs + 1;
        } else {
            self.places.push(Place::Stack(self.stack));
            self.stack = self.stack + 1;
        }
        assert(self@ =~= place_one(*cx.abi, ty, index as int, before));
    }
}

fn external_arg_placements(cx: &EmitContext, args: &Vec<Value>) -> (r: Option<Placed>)
    ensures
        match r {
            Some(p) => p.fits(*cx, args@, args@.len()),
            None => place_args(*cx, args@, args@.len()) is None,
        },
{
    let mut p: Placed = Placed {
        places: Vec::new(),
        types: Vec::new(),
        gprs: 0,
        xmms: 0,
        stack: 0,
    };
    assert(p@ =~= Placement { places: Seq::empty(), gprs: 0, xmms: 0, stack: 0 });
    let mut i: usize = 0;
    while i < args.len()
        invariant
            i <= args@.len(),
            p.fits(*cx, args@, i as nat),
        decreases args@.len() - i,
    {
        match value_ty(cx, args[i]) {
            Some(ty) => p.add(cx, args, i, ty),
            None => {
                proof {
                    lemma_place_none(*cx, args@, (i + 1) as nat, args@.len());
                }
                return None;
            },
        }
        i += 1;
    }
    Some(p)
}

pub open spec fn to_stack(acc: Ops, ty: Ty, offset: int, src: PhysReg) -> Ops {
    put(
        acc,
        if ty == Ty::F64 {
            AsmOp::MovsdMemReg { base: PhysReg::Rsp, offset: offset as i32, src }
        } else {
            AsmOp::MovMemReg { base: PhysReg::Rsp, offset: offset as i32, src }
        },
    )
}

pub open spec fn from_stack(acc: Ops, ty: Ty, dst: PhysReg, offset: int) -> Ops {
    put(
        acc,
        if ty == Ty::F64 {
            AsmOp::MovsdRegMem { dst, base: PhysReg::Rsp, offset: offset as i32 }
        } else {
            AsmOp::MovRegMem { dst, base: PhysReg::Rsp, offset: offset as i32 }
        },
    )
}

/// The first `n` arguments are written to the staging area, so that no
/// argument is overwritten before it is moved.
pub open spec fn stage_args(
    acc: Ops,
    cx: EmitContext,
    args: Seq<Value>,
    regs: Seq<(Value, PhysReg)>,
    base: int,
    n: nat,
) -> Ops
    decreases n,
{
    if n == 0 {
        acc
    } else {
        to_stack(
            stage_args(acc, cx, args, regs, base, (n - 1) as nat),
            value_type(cx, args[n - 1]).unwrap(),
            base + 8 * (n - 1),
            at(regs, args[n - 1]),
        )
    }
}

/// One argument goes from the staging area to its place.
pub open spec fn unstage_one(
    acc: Ops,
    cx: EmitContext,
    ty: Ty,
    place: Place,
    offset: int,
) -> Ops {
    let scratch = if ty == Ty::F64 {
        cx.abi.scratch_xmm@[2]
    } else {
        cx.abi.scratch_gpr@[1]
    };
    match place {
        Place::Register(r) => from_stack(acc, ty, r, offset),
        Place::Stack(k) => to_stack(
            from_stack(acc, ty, scratch, offset),
            ty,
            shadow(cx.abi.windows) + 8 * k,
            scratch,
        ),
    }
}

pub open spec fn unstage_args(
    acc: Ops,
    cx: EmitContext,
    args: Seq<Value>,
    places: Seq<Place>,
    base: int,
    n: nat,
) -> Ops
    decreases n,
{
    if n == 0 {
        acc
    } else {
        unstage_one(
            unstage_args(acc, cx, args, places, base, (n - 1) as nat),
            cx,
            value_type(cx, args[n - 1]).unwrap(),
            places[n - 1],
            base + 8 * (n - 1),
        )
    }
}

/// Where the staging area of a call starts: behind the outgoing arguments.
pub open spec fn stage_base(cx: EmitContext, s: Placement) -> int {
    shadow(cx.abi.windows) + 8 * s.stack
}

/// How far a call moves the stack.
pub open spec fn call_bytes(cx: EmitContext, s: Placement, saved: nat) -> int {
    aligned(stage_base(cx, s) + 8 * s.places.len() + 8 * saved, cx.framed)
}

/// A call by the conventions of the platform.
pub open spec fn external_call(
    acc: Ops,
    cx: EmitContext,
    address: i64,
    args: Seq<Value>,
    regs: Seq<(Value, PhysReg)>,
    dst: Value,
    position: u32,
) -> Ops {
    let s = place_args(cx, args, args.len()).unwrap();
    let saved = to_save(cx, position, Clobber::Call);
    let stage = stage_base(cx, s);
    let base = stage + 8 * args.len() as int;
    let bytes = call_bytes(cx, s, saved.len());
    let kept = save_all(move_stack(acc, AluOp::Sub, bytes), saved, base, saved.len());
    let staged = stage_args(kept, cx, args, regs, stage, args.len());
    let ready = unstage_args(staged, cx, args, s.places, stage, args.len());
    let called = put(
        put(ready, AsmOp::MovRegImm { dst: PhysReg::R11, imm: address }),
        AsmOp::CallReg { target: PhysReg::R11 },
    );
    let float = value_type(cx, dst) == Some(Ty::F64);
    let result = if float {
        move_float(
            restore_all(
                put(
                    called,
                    AsmOp::MovsdRegReg { dst: cx.abi.scratch_xmm@[2], src: PhysReg::Xmm(0) },
                ),
                saved,
                base,
                saved.len(),
            ),
            at(regs, dst),
            cx.abi.scratch_xmm@[2],
        )
    } else {
        move_int(
            restore_all(
                put(
                    called,
                    AsmOp::MovRegReg { dst: cx.abi.scratch_gpr@[1], src: PhysReg::Rax },
                ),
                saved,
                base,
                saved.len(),
            ),
            at(regs, dst),
            cx.abi.scratch_gpr@[1],
        )
    };
    move_stack(result, AluOp::Add, bytes)
}

/// What an external call needs: types, scratch registers, and a frame whose
/// offsets fit a displacement.
pub open spec fn external_ok(cx: EmitContext, args: Seq<Value>, dst: Value, position: u32) -> bool {
    &&& live_known(cx, position)
    &&& cx.abi.scratch_xmm@.len() > 2
    &&& cx.abi.scratch_gpr@.len() > 1
    &&& value_type(cx, dst) is Some
    &&& place_args(cx, args, args.len()) matches Some(s)
    &&& call_bytes(cx, s, to_save(cx, position, Clobber::Call).len()) <= i32::MAX
}

impl Assembler {
    fn to_stack(&mut self, ty: Ty, offset: i64, src: PhysReg)
        requires
            0 <= offset <= i32::MAX,
        ensures
            final(self)@ == to_stack(old(self)@, ty, offset as int, src),
            final(self).made() == old(self).made(),
    {
        let offset: i32 = offset as i32;
        if ty == Ty::F64 {
            self.put(AsmOp::MovsdMemReg { base: PhysReg::Rsp, offset, src });
        } else {
            self.put(AsmOp::MovMemReg { base: PhysReg::Rsp, offset, src });
        }
    }

    fn from_stack(&mut self, ty: Ty, dst: PhysReg, offset: i64)
        requires
            0 <= offset <= i32::MAX,
        ensures
            final(self)@ == from_stack(old(self)@, ty, dst, offset as int),
            final(self).made() == old(self).made(),
    {
        let offset: i32 = offset as i32;
        if ty == Ty::F64 {
            self.put(AsmOp::MovsdRegMem { dst, base: PhysReg::Rsp, offset });
        } else {
            self.put(AsmOp::MovRegMem { dst, base: PhysReg::Rsp, offset });
        }
    }

    fn stage_args(
        &mut self,
        cx: &EmitContext,
        args: &Vec<Value>,
        p: &Placed,
        regs: &Registers,
        base: i64,
    )
        requires
            p.fits(*cx, args@, args@.len()),
            forall|i: int| #![trigger args@[i]] 0 <= i < args@.len() ==> has(regs@, args@[i]),
            0 <= base,
            base + 8 * args@.len() <= i32::MAX,
        ensures
            final(self)@ == stage_args(
                old(self)@,
                *cx,
                args@,
                regs@,
                base as int,
                args@.len(),
            ),
            final(self).made() == old(self).made(),
    {
        let ghost start = self@;
        let mut i: usize = 0;
        while i < args.len()
            invariant
                p.fits(*cx, args@, args@.len()),
                forall|j: int| #![trigger args@[j]] 0 <= j < args@.len() ==> has(regs@, args@[j]),
                0 <= base,
                base + 8 * args@.len() <= i32::MAX,
                i <= args@.len(),
                self@ == stage_args(start, *cx, args@, regs@, base as int, i as nat),
                self.made() == old(self).made(),
            decreases args@.len() - i,
        {
            let ty: Ty = p.types[i];
            let src: PhysReg = regs.get(args[i]);
            self.to_stack(ty, base + 8 * i as i64, src);
            i += 1;
        }
    }

    fn unstage_args(&mut self, cx: &EmitContext, args: &Vec<Value>, p: &Placed, base: i64)
        requires
            p.fits(*cx, args@, args@.len()),
            cx.abi.scratch_xmm@.len() > 2,
            cx.abi.scratch_gpr@.len() > 1,
            base == stage_base(*cx, p@),
            base + 8 * args@.len() <= i32::MAX,
        ensures
            final(self)@ == unstage_args(
                old(self)@,
                *cx,
                args@,
                p@.places,
                base as int,
                args@.len(),
            ),
            final(self).made() == old(self).made(),
    {
        let ghost start = self@;
        let shadow: i64 = if cx.abi.windows {
            32
        } else {
            0
        };
        let mut i: usize = 0;
        while i < args.len()
            invariant
                p.fits(*cx, args@, args@.len()),
                cx.abi.scratch_xmm@.len() > 2,
                cx.abi.scratch_gpr@.len() > 1,
                base == stage_base(*cx, p@),
                base + 8 * args@.len() <= i32::MAX,
                shadow == self::shadow(cx.abi.windows),
                i <= args@.len(),
                self@ == unstage_args(start, *cx, args@, p@.places, base as int, i as nat),
                self.made() == old(self).made(),
            decreases args@.len() - i,
        {
            let ty: Ty = p.types[i];
            let offset: i64 = base + 8 * i as i64;
            let scratch: PhysReg = if ty == Ty::F64 {
                cx.abi.scratch_xmm[2]
            } else {
                cx.abi.scratch_gpr[1]
            };
            match p.places[i] {
                Place::Register(r) => self.from_stack(ty, r, offset),
                Place::Stack(k) => {
                    assert(k < p.stack);
                    self.from_stack(ty, scratch, offset);
                    self.to_stack(ty, shadow + 8 * k as i64, scratch);
                },
            }
            i += 1;
        }
    }
}

pub fn emit_external_call(
    code: &mut Assembler,
    cx: &EmitContext,
    address: i64,
    args: &Vec<Value>,
    regs: &Registers,
    dst: Value,
    position: u32,
)
    requires
        forall|i: int| #![trigger args@[i]] 0 <= i < args@.len() ==> has(regs@, args@[i]),
        has(regs@, dst),
    ensures
        final(code)@ == if external_ok(*cx, args@, dst, position) {
            external_call(old(code)@, *cx, address, args@, regs@, dst, position)
        } else {
            None
        },
        final(code).made() == old(code).made(),
{
    let result_ty: Ty = match value_ty(cx, dst) {
        Some(ty) => ty,
        None => {
            code.fail();
            return ;
        },
    };
    if !knows_live(cx, position) || cx.abi.scratch_xmm.len() <= 2 || cx.abi.scratch_gpr.len()
        <= 1 {
        code.fail();
        return ;
    }
    let p: Placed = match external_arg_placements(cx, args) {
        Some(p) => p,
        None => {
            code.fail();
            return ;
        },
    };
    let saved: Vec<PhysReg> = find_saved(cx, position, Clobber::Call);
    if args.len() > 0x1000_0000 {
        proof {
            lemma_aligned(
                stage_base(*cx, p@) + 8 * args@.len() + 8 * saved@.len(),
                cx.framed,
            );
        }
        code.fail();
        return ;
    }
    let shadow: i64 = if cx.abi.windows {
        32
    } else {
        0
    };
    let stage: i64 = shadow + 8 * p.stack as i64;
    let base: i64 = stage + 8 * args.len() as i64;
    let bytes: i64 = align(base + 8 * saved.len() as i64, cx.framed);
    if bytes > i32::MAX as i64 {
        code.fail();
        return ;
    }
    proof {
        lemma_aligned(base + 8 * saved@.len(), cx.framed);
    }
    code.move_stack(AluOp::Sub, bytes);
    code.save_all(&saved, base);
    code.stage_args(cx, args, &p, regs, stage);
    code.unstage_args(cx, args, &p, stage);
    code.put(AsmOp::MovRegImm { dst: PhysReg::R11, imm: address });
    code.put(AsmOp::CallReg { target: PhysReg::R11 });
    let out: PhysReg = regs.get(dst);
    if result_ty == Ty::F64 {
        let scratch: PhysReg = cx.abi.scratch_xmm[2];
        code.put(AsmOp::MovsdRegReg { dst: scratch, src: PhysReg::Xmm(0) });
        code.restore_all(&saved, base);
        code.move_float(out, scratch);
    } else {
        let scratch: PhysReg = cx.abi.scratch_gpr[1];
        code.put(AsmOp::MovRegReg { dst: scratch, src: PhysReg::Rax });
        code.restore_all(&saved, base);
        code.move_int(out, scratch);
    }
    code.move_stack(AluOp::Add, bytes);
}

} // verus!
