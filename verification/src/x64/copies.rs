//! Copies that happen at the same time: the values of phis on an edge, and
//! the parameters on entry.
use crate::ir::Ty;
use crate::x64::machine::{put, Ops};
use crate::x64::machine::{AsmOp, Assembler, Location, PhysReg};
use crate::x64::translate::{move_float, move_int};
use vstd::prelude::*;

verus! {

/// A value of type `ty` goes from `src` to `dst`.
#[derive(Clone, Copy, Debug, PartialEq, Eq, Structural)]
pub struct PhiCopy {
    pub src: Location,
    pub dst: Location,
    pub ty: Ty,
}

/// The registers that copies may overwrite, and where the slots are.
#[derive(Clone, Copy, Debug, PartialEq, Eq, Structural)]
pub struct CopyFrame {
    pub gpr: PhysReg,
    pub xmm: PhysReg,
    pub spill_bias: i32,
}

impl CopyFrame {
    /// The scratch register for a type.
    pub open spec fn scratch(self, ty: Ty) -> PhysReg {
        if ty == Ty::F64 {
            self.xmm
        } else {
            self.gpr
        }
    }

    pub fn phi_scratch(&self, ty: Ty) -> (r: PhysReg)
        ensures
            r == self.scratch(ty),
    {
        if ty == Ty::F64 {
            self.xmm
        } else {
            self.gpr
        }
    }
}

// ---------------------------------------------------------------------------
// Slots

/// How far below the frame pointer a slot is, if that fits a displacement.
pub open spec fn slot_offset(slot: u32, spill_bias: i32) -> Option<i32> {
    let bytes = (slot + 1) * 8;
    if bytes <= i32::MAX && i32::MIN <= bytes + spill_bias <= i32::MAX && bytes + spill_bias
        != i32::MIN {
        Some((-(bytes + spill_bias)) as i32)
    } else {
        None
    }
}

pub fn spill_offset(slot: u32, spill_bias: i32) -> (r: Option<i32>)
    ensures
        r == slot_offset(slot, spill_bias),
{
    let bytes: i64 = (slot as i64 + 1) * 8;
    if bytes > i32::MAX as i64 {
        return None;
    }
    let biased: i64 = bytes + spill_bias as i64;
    if biased > i32::MAX as i64 {
        return None;
    }
    Some((-biased) as i32)
}

pub open spec fn load_slot(acc: Ops, ty: Ty, dst: PhysReg, slot: u32, spill_bias: i32) -> Ops {
    match slot_offset(slot, spill_bias) {
        Some(offset) => put(
            acc,
            if ty == Ty::F64 {
                AsmOp::MovsdRegMem { dst, base: PhysReg::Rbp, offset }
            } else {
                AsmOp::MovRegMem { dst, base: PhysReg::Rbp, offset }
            },
        ),
        None => None,
    }
}

pub open spec fn store_slot(acc: Ops, ty: Ty, slot: u32, src: PhysReg, spill_bias: i32) -> Ops {
    match slot_offset(slot, spill_bias) {
        Some(offset) => put(
            acc,
            if ty == Ty::F64 {
                AsmOp::MovsdMemReg { base: PhysReg::Rbp, offset, src }
            } else {
                AsmOp::MovMemReg { base: PhysReg::Rbp, offset, src }
            },
        ),
        None => None,
    }
}

impl Assembler {
    pub fn load_slot(&mut self, ty: Ty, dst: PhysReg, slot: u32, spill_bias: i32)
        ensures
            final(self)@ == load_slot(old(self)@, ty, dst, slot, spill_bias),
            final(self).made() == old(self).made(),
    {
        match spill_offset(slot, spill_bias) {
            Some(offset) => if ty == Ty::F64 {
                self.put(AsmOp::MovsdRegMem { dst, base: PhysReg::Rbp, offset });
            } else {
                self.put(AsmOp::MovRegMem { dst, base: PhysReg::Rbp, offset });
            },
            None => self.fail(),
        }
    }

    pub fn store_slot(&mut self, ty: Ty, slot: u32, src: PhysReg, spill_bias: i32)
        ensures
            final(self)@ == store_slot(old(self)@, ty, slot, src, spill_bias),
            final(self).made() == old(self).made(),
    {
        match spill_offset(slot, spill_bias) {
            Some(offset) => if ty == Ty::F64 {
                self.put(AsmOp::MovsdMemReg { base: PhysReg::Rbp, offset, src });
            } else {
                self.put(AsmOp::MovMemReg { base: PhysReg::Rbp, offset, src });
            },
            None => self.fail(),
        }
    }
}

// ---------------------------------------------------------------------------
// Scheduling

/// One copy. From slot to slot it goes through the scratch register.
pub open spec fn one_copy(acc: Ops, src: Location, dst: Location, ty: Ty, frame: CopyFrame) -> Ops {
    match (src, dst) {
        (Location::Reg(s), Location::Reg(d)) => if ty == Ty::F64 {
            move_float(acc, d, s)
        } else {
            move_int(acc, d, s)
        },
        (Location::Spill(s), Location::Reg(d)) => load_slot(acc, ty, d, s, frame.spill_bias),
        (Location::Reg(s), Location::Spill(d)) => store_slot(acc, ty, d, s, frame.spill_bias),
        (Location::Spill(s), Location::Spill(d)) => store_slot(
            load_slot(acc, ty, frame.scratch(ty), s, frame.spill_bias),
            ty,
            d,
            frame.scratch(ty),
            frame.spill_bias,
        ),
    }
}

/// No other copy still reads what this one overwrites.
pub open spec fn is_safe(copies: Seq<PhiCopy>, i: int) -> bool {
    forall|j: int|
        #![trigger copies[j]]
        0 <= j < copies.len() && j != i ==> copies[j].src != copies[i].dst
}

/// The first copy from `i` on that is safe.
pub open spec fn safe_from(copies: Seq<PhiCopy>, i: int) -> Option<int>
    decreases copies.len() - i,
{
    if i < 0 || i >= copies.len() {
        None
    } else if is_safe(copies, i) {
        Some(i)
    } else {
        safe_from(copies, i + 1)
    }
}

/// Some copy mentions the register.
pub open spec fn mentions(copies: Seq<PhiCopy>, reg: PhysReg) -> bool {
    exists|i: int|
        #![trigger copies[i]]
        0 <= i < copies.len() && (copies[i].src == Location::Reg(reg) || copies[i].dst
            == Location::Reg(reg))
}

/// The copies that read `from` read the register instead.
pub open spec fn redirected(copies: Seq<PhiCopy>, from: Location, reg: PhysReg) -> Seq<PhiCopy> {
    Seq::new(
        copies.len(),
        |i: int|
            if copies[i].src == from {
                PhiCopy { src: Location::Reg(reg), ..copies[i] }
            } else {
                copies[i]
            },
    )
}

/// Whether the first copy has to wait for nothing but its cycle.
pub open spec fn waiting(copies: Seq<PhiCopy>, frame: CopyFrame) -> int {
    if copies.len() > 0 && copies[0].src == Location::Reg(frame.scratch(copies[0].ty)) {
        0
    } else {
        1
    }
}

/// All copies, as if they happened at once: first the ones that nothing waits
/// for; a cycle is opened by keeping one of its values in a scratch register.
pub open spec fn parallel(acc: Ops, copies: Seq<PhiCopy>, frame: CopyFrame) -> Ops
    decreases copies.len(), waiting(copies, frame),
{
    if copies.len() == 0 {
        acc
    } else {
        match safe_from(copies, 0) {
            Some(i) => if 0 <= i < copies.len() {
                let c = copies[i];
                parallel(one_copy(acc, c.src, c.dst, c.ty, frame), copies.remove(i), frame)
            } else {
                None
            },
            None => {
                let c = copies[0];
                let scratch = frame.scratch(c.ty);
                if mentions(copies, scratch) {
                    None
                } else {
                    proof {
                        assert(copies[0].src != Location::Reg(scratch));
                    }
                    parallel(
                        one_copy(acc, c.src, Location::Reg(scratch), c.ty, frame),
                        redirected(copies, c.src, scratch),
                        frame,
                    )
                }
            },
        }
    }
}

impl Assembler {
    pub fn emit_copy(&mut self, src: Location, dst: Location, ty: Ty, frame: &CopyFrame)
        ensures
            final(self)@ == one_copy(old(self)@, src, dst, ty, *frame),
            final(self).made() == old(self).made(),
    {
        match (src, dst) {
            (Location::Reg(s), Location::Reg(d)) => if ty == Ty::F64 {
                self.move_float(d, s);
            } else {
                self.move_int(d, s);
            },
            (Location::Spill(s), Location::Reg(d)) => self.load_slot(ty, d, s, frame.spill_bias),
            (Location::Reg(s), Location::Spill(d)) => self.store_slot(ty, d, s, frame.spill_bias),
            (Location::Spill(s), Location::Spill(d)) => {
                let scratch: PhysReg = frame.phi_scratch(ty);
                self.load_slot(ty, scratch, s, frame.spill_bias);
                self.store_slot(ty, d, scratch, frame.spill_bias);
            },
        }
    }
}

fn safe_at(copies: &Vec<PhiCopy>, i: usize) -> (r: bool)
    requires
        i < copies@.len(),
    ensures
        r == is_safe(copies@, i as int),
{
    let mut j: usize = 0;
    while j < copies.len()
        invariant
            i < copies@.len(),
            j <= copies@.len(),
            forall|k: int|
                #![trigger copies@[k]]
                0 <= k < j && k != i ==> copies@[k].src != copies@[i as int].dst,
        decreases copies@.len() - j,
    {
        if j != i && copies[j].src == copies[i].dst {
            return false;
        }
        j += 1;
    }
    true
}

fn find_safe(copies: &Vec<PhiCopy>) -> (r: Option<usize>)
    ensures
        match r {
            Some(i) => safe_from(copies@, 0) == Some(i as int) && i < copies@.len(),
            None => safe_from(copies@, 0) is None,
        },
{
    let mut i: usize = 0;
    while i < copies.len()
        invariant
            i <= copies@.len(),
            safe_from(copies@, 0) == safe_from(copies@, i as int),
        decreases copies@.len() - i,
    {
        if safe_at(copies, i) {
            return Some(i);
        }
        i += 1;
    }
    None
}

fn mentions_register(copies: &Vec<PhiCopy>, reg: PhysReg) -> (r: bool)
    ensures
        r == mentions(copies@, reg),
{
    let mut i: usize = 0;
    while i < copies.len()
        invariant
            i <= copies@.len(),
            forall|k: int|
                #![trigger copies@[k]]
                0 <= k < i ==> copies@[k].src != Location::Reg(reg) && copies@[k].dst
                    != Location::Reg(reg),
        decreases copies@.len() - i,
    {
        if copies[i].src == Location::Reg(reg) || copies[i].dst == Location::Reg(reg) {
            return true;
        }
        i += 1;
    }
    false
}

fn redirect(copies: &mut Vec<PhiCopy>, from: Location, reg: PhysReg)
    ensures
        final(copies)@ == redirected(old(copies)@, from, reg),
{
    let ghost start = copies@;
    let mut i: usize = 0;
    while i < copies.len()
        invariant
            i <= copies@.len(),
            copies@.len() == start.len(),
            forall|k: int|
                #![trigger copies@[k]]
                0 <= k < copies@.len() ==> copies@[k] == if k < i {
                    redirected(start, from, reg)[k]
                } else {
                    start[k]
                },
        decreases copies@.len() - i,
    {
        let c: PhiCopy = copies[i];
        if c.src == from {
            copies.set(i, PhiCopy { src: Location::Reg(reg), dst: c.dst, ty: c.ty });
        }
        i += 1;
    }
    assert(copies@ =~= redirected(start, from, reg));
}

/// Emits the copies as if they happened at once. Nothing comes out if a cycle
/// has to be opened and the scratch register is taken.
pub fn emit_parallel_copies(wanted: Vec<PhiCopy>, code: &mut Assembler, frame: &CopyFrame)
    ensures
        final(code)@ == parallel(old(code)@, wanted@, *frame),
        final(code).made() == old(code).made(),
{
    let ghost goal = parallel(code@, wanted@, *frame);
    let mut copies: Vec<PhiCopy> = wanted;
    while copies.len() > 0
        invariant
            parallel(code@, copies@, *frame) == goal,
            goal == parallel(old(code)@, wanted@, *frame),
            code.made() == old(code).made(),
        decreases copies@.len(), waiting(copies@, *frame),
    {
        match find_safe(&copies) {
            Some(i) => {
                let c: PhiCopy = copies.remove(i);
                code.emit_copy(c.src, c.dst, c.ty, frame);
            },
            None => {
                let c: PhiCopy = copies[0];
                let scratch: PhysReg = frame.phi_scratch(c.ty);
                if mentions_register(&copies, scratch) {
                    code.fail();
                    return ;
                }
                assert(copies@[0].src != Location::Reg(scratch));
                code.emit_copy(c.src, Location::Reg(scratch), c.ty, frame);
                redirect(&mut copies, c.src, scratch);
            },
        }
    }
}

// ---------------------------------------------------------------------------
// What the copies do

/// Registers, and the memory below the frame pointer.
pub struct Machine {
    pub regs: spec_fn(PhysReg) -> u64,
    pub slots: spec_fn(i32) -> u64,
}

/// The machine after an operation that moves a value.
pub open spec fn step(m: Machine, op: AsmOp) -> Machine {
    match op {
        AsmOp::MovRegReg { dst, src } => with_reg(m, dst, (m.regs)(src)),
        AsmOp::MovsdRegReg { dst, src } => with_reg(m, dst, (m.regs)(src)),
        AsmOp::MovRegMem { dst, offset, .. } => with_reg(m, dst, (m.slots)(offset)),
        AsmOp::MovsdRegMem { dst, offset, .. } => with_reg(m, dst, (m.slots)(offset)),
        AsmOp::MovMemReg { offset, src, .. } => with_slot(m, offset, (m.regs)(src)),
        AsmOp::MovsdMemReg { offset, src, .. } => with_slot(m, offset, (m.regs)(src)),
        _ => m,
    }
}

pub open spec fn with_reg(m: Machine, reg: PhysReg, value: u64) -> Machine {
    Machine {
        regs: |r: PhysReg|
            if r == reg {
                value
            } else {
                (m.regs)(r)
            },
        slots: m.slots,
    }
}

pub open spec fn with_slot(m: Machine, offset: i32, value: u64) -> Machine {
    Machine {
        regs: m.regs,
        slots: |o: i32|
            if o == offset {
                value
            } else {
                (m.slots)(o)
            },
    }
}

/// The machine after all the operations but the first `from`.
pub open spec fn run(m: Machine, from: nat, ops: Seq<AsmOp>) -> Machine
    decreases ops.len(),
{
    if ops.len() <= from {
        m
    } else {
        step(run(m, from, ops.drop_last()), ops.last())
    }
}

/// What a location holds.
pub open spec fn held(m: Machine, l: Location, spill_bias: i32) -> u64 {
    match l {
        Location::Reg(r) => (m.regs)(r),
        Location::Spill(s) => (m.slots)(slot_offset(s, spill_bias).unwrap()),
    }
}

/// The location can be addressed.
pub open spec fn reachable(l: Location, spill_bias: i32) -> bool {
    l matches Location::Spill(s) ==> slot_offset(s, spill_bias) is Some
}

pub open spec fn is_scratch(l: Location, frame: CopyFrame) -> bool {
    l == Location::Reg(frame.gpr) || l == Location::Reg(frame.xmm)
}

/// Every location gets at most one value, none is a scratch register, and all
/// can be addressed.
pub open spec fn well_formed(copies: Seq<PhiCopy>, frame: CopyFrame) -> bool {
    &&& forall|i: int, j: int|
        #![trigger copies[i], copies[j]]
        0 <= i < j < copies.len() ==> copies[i].dst != copies[j].dst
    &&& forall|i: int|
        #![trigger copies[i]]
        0 <= i < copies.len() ==> !is_scratch(copies[i].dst, frame) && reachable(
            copies[i].dst,
            frame.spill_bias,
        ) && reachable(copies[i].src, frame.spill_bias)
}

pub open spec fn slot_to_slot(c: PhiCopy) -> bool {
    c.src is Spill && c.dst is Spill
}

/// Some copy but the `i`-th reads the register.
pub open spec fn awaited(copies: Seq<PhiCopy>, i: int, reg: PhysReg) -> bool {
    exists|j: int|
        #![trigger copies[j]]
        0 <= j < copies.len() && j != i && copies[j].src == Location::Reg(reg)
}

/// No copy from slot to slot has its turn while the scratch register that it
/// overwrites keeps the value of a cycle.
pub open spec fn undisturbed(copies: Seq<PhiCopy>, frame: CopyFrame) -> bool
    decreases copies.len(), waiting(copies, frame),
{
    if copies.len() == 0 {
        true
    } else {
        match safe_from(copies, 0) {
            Some(i) => if 0 <= i < copies.len() {
                &&& slot_to_slot(copies[i]) ==> !awaited(
                    copies,
                    i,
                    frame.scratch(copies[i].ty),
                )
                &&& undisturbed(copies.remove(i), frame)
            } else {
                true
            },
            None => {
                let scratch = frame.scratch(copies[0].ty);
                if mentions(copies, scratch) {
                    true
                } else {
                    proof {
                        assert(copies[0].src != Location::Reg(scratch));
                    }
                    undisturbed(redirected(copies, copies[0].src, scratch), frame)
                }
            },
        }
    }
}

proof fn lemma_safe(copies: Seq<PhiCopy>, i: int)
    requires
        0 <= i,
    ensures
        match safe_from(copies, i) {
            Some(k) => i <= k < copies.len() && is_safe(copies, k),
            None => forall|k: int| i <= k < copies.len() ==> !#[trigger] is_safe(copies, k),
        },
    decreases copies.len() - i,
{
    if i < copies.len() && !is_safe(copies, i) {
        lemma_safe(copies, i + 1);
    }
}

/// When every copy waits for another, each source is also a destination.
proof fn lemma_cycle(copies: Seq<PhiCopy>, i: int)
    requires
        forall|a: int, b: int|
            #![trigger copies[a], copies[b]]
            0 <= a < b < copies.len() ==> copies[a].dst != copies[b].dst,
        forall|k: int| 0 <= k < copies.len() ==> !#[trigger] is_safe(copies, k),
        0 <= i < copies.len(),
    ensures
        exists|k: int|
            #![trigger copies[k]]
            0 <= k < copies.len() && copies[k].dst == copies[i].src,
{
    let dsts = copies.map_values(|c: PhiCopy| c.dst);
    let srcs = copies.map_values(|c: PhiCopy| c.src);
    assert(dsts.no_duplicates()) by {
        assert forall|a: int, b: int|
            0 <= a < dsts.len() && 0 <= b < dsts.len() && a != b implies dsts[a] != dsts[b] by {
            if a < b {
                assert(copies[a].dst != copies[b].dst);
            } else {
                assert(copies[b].dst != copies[a].dst);
            }
        }
    }
    dsts.unique_seq_to_set();
    srcs.lemma_cardinality_of_set();
    let d = dsts.to_set();
    let s = srcs.to_set();
    assert(d.subset_of(s)) by {
        assert forall|l: Location| d.contains(l) implies s.contains(l) by {
            let k = choose|k: int| 0 <= k < dsts.len() && dsts[k] == l;
            assert(!is_safe(copies, k));
            let j = choose|j: int|
                #![trigger copies[j]]
                0 <= j < copies.len() && j != k && copies[j].src == copies[k].dst;
            assert(srcs[j] == l);
        }
    }
    vstd::set_lib::lemma_len_subset(d, s);
    vstd::set_lib::lemma_subset_equality(d, s);
    assert(s.contains(srcs[i]));
    assert(d.contains(copies[i].src));
    let k = choose|k: int| 0 <= k < dsts.len() && dsts[k] == copies[i].src;
    assert(copies[k].dst == copies[i].src);
}

proof fn lemma_removed(copies: Seq<PhiCopy>, i: int, frame: CopyFrame)
    requires
        well_formed(copies, frame),
        0 <= i < copies.len(),
    ensures
        well_formed(copies.remove(i), frame),
        forall|j: int|
            #![trigger copies[j]]
            0 <= j < copies.len() && j != i ==> copies.remove(i)[if j < i {
                j
            } else {
                j - 1
            }] == copies[j],
{
    let rest = copies.remove(i);
    assert forall|a: int, b: int|
        #![trigger rest[a], rest[b]]
        0 <= a < b < rest.len() implies rest[a].dst != rest[b].dst by {
        let x = if a < i {
            a
        } else {
            a + 1
        };
        let y = if b < i {
            b
        } else {
            b + 1
        };
        assert(rest[a] == copies[x] && rest[b] == copies[y]);
    }
    assert forall|a: int| #![trigger rest[a]] 0 <= a < rest.len() implies !is_scratch(
        rest[a].dst,
        frame,
    ) && reachable(rest[a].dst, frame.spill_bias) && reachable(
        rest[a].src,
        frame.spill_bias,
    ) by {
        let x = if a < i {
            a
        } else {
            a + 1
        };
        assert(rest[a] == copies[x]);
    }
}

proof fn lemma_redirected(copies: Seq<PhiCopy>, from: Location, reg: PhysReg, frame: CopyFrame)
    requires
        well_formed(copies, frame),
    ensures
        well_formed(redirected(copies, from, reg), frame),
{
    let rest = redirected(copies, from, reg);
    assert forall|a: int, b: int|
        #![trigger rest[a], rest[b]]
        0 <= a < b < rest.len() implies rest[a].dst != rest[b].dst by {
        assert(rest[a].dst == copies[a].dst && rest[b].dst == copies[b].dst);
    }
    assert forall|a: int| #![trigger rest[a]] 0 <= a < rest.len() implies !is_scratch(
        rest[a].dst,
        frame,
    ) && reachable(rest[a].dst, frame.spill_bias) && reachable(
        rest[a].src,
        frame.spill_bias,
    ) by {
        assert(rest[a].dst == copies[a].dst);
        assert(copies[a].src == copies[a].src);
    }
}

/// Distinct slots are at distinct places.
pub(crate) proof fn lemma_slots_apart(a: u32, b: u32, spill_bias: i32)
    requires
        slot_offset(a, spill_bias) is Some,
        slot_offset(b, spill_bias) is Some,
        a != b,
    ensures
        slot_offset(a, spill_bias) != slot_offset(b, spill_bias),
{
    let x = (a + 1) * 8 + spill_bias;
    let y = (b + 1) * 8 + spill_bias;
    assert((-x) as i32 == -x);
    assert((-y) as i32 == -y);
}

/// One copy was made between two machines: its value is written, and nothing
/// else changed but the scratch register of a copy from slot to slot.
pub open spec fn copied_one(before: Machine, now: Machine, c: PhiCopy, frame: CopyFrame) -> bool {
    &&& held(now, c.dst, frame.spill_bias) == held(before, c.src, frame.spill_bias)
    &&& forall|l: Location|
        #![trigger held(now, l, frame.spill_bias)]
        reachable(l, frame.spill_bias) && l != c.dst && !(slot_to_slot(c) && l == Location::Reg(
            frame.scratch(c.ty),
        )) ==> held(now, l, frame.spill_bias) == held(before, l, frame.spill_bias)
}

/// All copies were made at once between two machines: every destination has
/// what its source held, and every other location but the scratch registers
/// keeps what it held.
pub open spec fn copied(before: Machine, now: Machine, copies: Seq<PhiCopy>, frame: CopyFrame) -> bool {
    &&& forall|i: int|
        #![trigger copies[i]]
        0 <= i < copies.len() ==> held(now, copies[i].dst, frame.spill_bias) == held(
            before,
            copies[i].src,
            frame.spill_bias,
        )
    &&& forall|l: Location|
        #![trigger held(now, l, frame.spill_bias)]
        reachable(l, frame.spill_bias) && !is_scratch(l, frame) && !written(copies, l) ==> held(
            now,
            l,
            frame.spill_bias,
        ) == held(before, l, frame.spill_bias)
}

/// Some copy writes the location.
pub open spec fn written(copies: Seq<PhiCopy>, l: Location) -> bool {
    exists|i: int| #![trigger copies[i]] 0 <= i < copies.len() && copies[i].dst == l
}

/// A store writes one slot.
proof fn lemma_stored(m: Machine, slot: u32, value: u64, spill_bias: i32)
    requires
        slot_offset(slot, spill_bias) is Some,
    ensures
        ({
            let now = with_slot(m, slot_offset(slot, spill_bias).unwrap(), value);
            &&& held(now, Location::Spill(slot), spill_bias) == value
            &&& forall|l: Location|
                #![trigger held(now, l, spill_bias)]
                reachable(l, spill_bias) && l != Location::Spill(slot) ==> held(now, l, spill_bias)
                    == held(m, l, spill_bias)
        }),
{
    let now = with_slot(m, slot_offset(slot, spill_bias).unwrap(), value);
    assert forall|l: Location|
        #![trigger held(now, l, spill_bias)]
        reachable(l, spill_bias) && l != Location::Spill(slot) implies held(now, l, spill_bias)
        == held(m, l, spill_bias) by {
        match l {
            Location::Spill(s) => lemma_slots_apart(slot, s, spill_bias),
            Location::Reg(_) => {},
        }
    }
}

proof fn lemma_one_copy(
    ops: Seq<AsmOp>,
    c: PhiCopy,
    frame: CopyFrame,
    m: Machine,
    from: nat,
)
    requires
        from <= ops.len(),
        reachable(c.src, frame.spill_bias),
        reachable(c.dst, frame.spill_bias),
    ensures
        one_copy(Some(ops), c.src, c.dst, c.ty, frame) is Some,
        ops.len() <= one_copy(Some(ops), c.src, c.dst, c.ty, frame).unwrap().len(),
        copied_one(
            run(m, from, ops),
            run(m, from, one_copy(Some(ops), c.src, c.dst, c.ty, frame).unwrap()),
            c,
            frame,
        ),
{
    let done = one_copy(Some(ops), c.src, c.dst, c.ty, frame).unwrap();
    let before = run(m, from, ops);
    match (c.src, c.dst) {
        (Location::Reg(s), Location::Reg(d)) => {
            if s != d {
                assert(done.drop_last() =~= ops);
                assert(run(m, from, done) == with_reg(before, d, (before.regs)(s)));
            }
        },
        (Location::Spill(s), Location::Reg(d)) => {
            assert(done.drop_last() =~= ops);
            assert(run(m, from, done) == with_reg(
                before,
                d,
                (before.slots)(slot_offset(s, frame.spill_bias).unwrap()),
            ));
        },
        (Location::Reg(s), Location::Spill(d)) => {
            assert(done.drop_last() =~= ops);
            assert(run(m, from, done) == with_slot(
                before,
                slot_offset(d, frame.spill_bias).unwrap(),
                (before.regs)(s),
            ));
            lemma_stored(before, d, (before.regs)(s), frame.spill_bias);
        },
        (Location::Spill(s), Location::Spill(d)) => {
            let scratch = frame.scratch(c.ty);
            let mid = load_slot(Some(ops), c.ty, scratch, s, frame.spill_bias).unwrap();
            assert(mid.drop_last() =~= ops);
            assert(done.drop_last() =~= mid);
            let value = (before.slots)(slot_offset(s, frame.spill_bias).unwrap());
            let loaded = with_reg(before, scratch, value);
            assert(run(m, from, mid) == loaded);
            assert(run(m, from, done) == with_slot(
                loaded,
                slot_offset(d, frame.spill_bias).unwrap(),
                value,
            ));
            lemma_stored(loaded, d, value, frame.spill_bias);
        },
    }
}

proof fn lemma_after_safe(
    copies: Seq<PhiCopy>,
    i: int,
    frame: CopyFrame,
    before: Machine,
    mid: Machine,
    now: Machine,
)
    requires
        well_formed(copies, frame),
        0 <= i < copies.len(),
        is_safe(copies, i),
        slot_to_slot(copies[i]) ==> !awaited(copies, i, frame.scratch(copies[i].ty)),
        copied_one(before, mid, copies[i], frame),
        copied(mid, now, copies.remove(i), frame),
    ensures
        copied(before, now, copies, frame),
{
    let c = copies[i];
    let rest = copies.remove(i);
    let bias = frame.spill_bias;
    assert forall|l: Location| written(rest, l) implies exists|k: int|
        #![trigger copies[k]]
        0 <= k < copies.len() && k != i && copies[k].dst == l by {
        let k = choose|k: int| #![trigger rest[k]] 0 <= k < rest.len() && rest[k].dst == l;
        let x = if k < i {
            k
        } else {
            k + 1
        };
        assert(rest[k] == copies[x]);
    }
    assert forall|j: int| #![trigger copies[j]] 0 <= j < copies.len() implies held(
        now,
        copies[j].dst,
        bias,
    ) == held(before, copies[j].src, bias) by {
        if j == i {
            assert(!written(rest, c.dst)) by {
                if written(rest, c.dst) {
                    let k = choose|k: int|
                        #![trigger copies[k]]
                        0 <= k < copies.len() && k != i && copies[k].dst == c.dst;
                    if k < i {
                        assert(copies[k].dst != copies[i].dst);
                    } else {
                        assert(copies[i].dst != copies[k].dst);
                    }
                }
            }
            assert(held(now, c.dst, bias) == held(mid, c.dst, bias));
        } else {
            let k = if j < i {
                j
            } else {
                j - 1
            };
            assert(rest[k] == copies[j]);
            assert(copies[j].src != c.dst);
            assert(held(mid, copies[j].src, bias) == held(before, copies[j].src, bias));
        }
    }
    assert forall|l: Location|
        #![trigger held(now, l, bias)]
        reachable(l, bias) && !is_scratch(l, frame) && !written(copies, l) implies held(
        now,
        l,
        bias,
    ) == held(before, l, bias) by {
        assert(copies[i].dst != l);
        assert(!written(rest, l));
        assert(held(now, l, bias) == held(mid, l, bias));
        assert(held(mid, l, bias) == held(before, l, bias));
    }
}

proof fn lemma_after_opening(
    copies: Seq<PhiCopy>,
    frame: CopyFrame,
    before: Machine,
    mid: Machine,
    now: Machine,
)
    requires
        well_formed(copies, frame),
        copies.len() > 0,
        !mentions(copies, frame.scratch(copies[0].ty)),
        copied_one(
            before,
            mid,
            (PhiCopy {
                src: copies[0].src,
                dst: Location::Reg(frame.scratch(copies[0].ty)),
                ty: copies[0].ty,
            }),
            frame,
        ),
        copied(mid, now, redirected(copies, copies[0].src, frame.scratch(copies[0].ty)), frame),
    ensures
        copied(before, now, copies, frame),
{
    let c = copies[0];
    let scratch = frame.scratch(c.ty);
    let rest = redirected(copies, c.src, scratch);
    let bias = frame.spill_bias;
    assert forall|j: int| #![trigger copies[j]] 0 <= j < copies.len() implies held(
        now,
        copies[j].dst,
        bias,
    ) == held(before, copies[j].src, bias) by {
        assert(rest[j].dst == copies[j].dst);
        assert(copies[j].src != Location::Reg(scratch));
        assert(held(mid, rest[j].src, bias) == held(before, copies[j].src, bias));
    }
    assert forall|l: Location|
        #![trigger held(now, l, bias)]
        reachable(l, bias) && !is_scratch(l, frame) && !written(copies, l) implies held(
        now,
        l,
        bias,
    ) == held(before, l, bias) by {
        assert(!written(rest, l)) by {
            if written(rest, l) {
                let k = choose|k: int| #![trigger rest[k]] 0 <= k < rest.len() && rest[k].dst == l;
                assert(copies[k].dst == l);
            }
        }
        assert(held(now, l, bias) == held(mid, l, bias));
        assert(held(mid, l, bias) == held(before, l, bias));
    }
}

/// Copies in parallel: nothing goes wrong, every destination gets what its
/// source held before, and every other location but the scratch registers
/// keeps what it held. This fails where a copy from slot to slot overwrites
/// the scratch register that keeps a value of a cycle.
pub proof fn lemma_parallel(
    ops: Seq<AsmOp>,
    copies: Seq<PhiCopy>,
    frame: CopyFrame,
    m: Machine,
    from: nat,
)
    requires
        from <= ops.len(),
        well_formed(copies, frame),
        undisturbed(copies, frame),
    ensures
        parallel(Some(ops), copies, frame) is Some,
        copied(
            run(m, from, ops),
            run(m, from, parallel(Some(ops), copies, frame).unwrap()),
            copies,
            frame,
        ),
    decreases copies.len(), waiting(copies, frame),
{
    if copies.len() > 0 {
        lemma_safe(copies, 0);
        let c = copies[0];
        match safe_from(copies, 0) {
            Some(i) => {
                let c = copies[i];
                let next = one_copy(Some(ops), c.src, c.dst, c.ty, frame).unwrap();
                lemma_removed(copies, i, frame);
                lemma_one_copy(ops, c, frame, m, from);
                lemma_parallel(next, copies.remove(i), frame, m, from);
                lemma_after_safe(
                    copies,
                    i,
                    frame,
                    run(m, from, ops),
                    run(m, from, next),
                    run(m, from, parallel(Some(ops), copies, frame).unwrap()),
                );
            },
            None => {
                let scratch = frame.scratch(c.ty);
                lemma_unmentioned(copies, frame, scratch);
                let saved = PhiCopy { src: c.src, dst: Location::Reg(scratch), ty: c.ty };
                let next = one_copy(Some(ops), c.src, Location::Reg(scratch), c.ty, frame).unwrap();
                lemma_redirected(copies, c.src, scratch, frame);
                lemma_one_copy(ops, saved, frame, m, from);
                assert(copies[0].src != Location::Reg(scratch));
                lemma_parallel(next, redirected(copies, c.src, scratch), frame, m, from);
                lemma_after_opening(
                    copies,
                    frame,
                    run(m, from, ops),
                    run(m, from, next),
                    run(m, from, parallel(Some(ops), copies, frame).unwrap()),
                );
            },
        }
    }
}

/// When every copy waits for another, none mentions a scratch register.
proof fn lemma_unmentioned(copies: Seq<PhiCopy>, frame: CopyFrame, reg: PhysReg)
    requires
        well_formed(copies, frame),
        forall|k: int| 0 <= k < copies.len() ==> !#[trigger] is_safe(copies, k),
        reg == frame.gpr || reg == frame.xmm,
    ensures
        !mentions(copies, reg),
{
    assert forall|i: int| #![trigger copies[i]] 0 <= i < copies.len() implies copies[i].src
        != Location::Reg(reg) && copies[i].dst != Location::Reg(reg) by {
        lemma_cycle(copies, i);
    }
}

/// Copies of which none goes from slot to slot never disturb each other.
pub proof fn lemma_undisturbed(copies: Seq<PhiCopy>, frame: CopyFrame)
    requires
        forall|i: int| #![trigger copies[i]] 0 <= i < copies.len() ==> !slot_to_slot(copies[i]),
    ensures
        undisturbed(copies, frame),
    decreases copies.len(), waiting(copies, frame),
{
    if copies.len() > 0 {
        lemma_safe(copies, 0);
        match safe_from(copies, 0) {
            Some(i) => {
                let rest = copies.remove(i);
                assert forall|k: int|
                    #![trigger rest[k]]
                    0 <= k < rest.len() implies !slot_to_slot(rest[k]) by {
                    let x = if k < i {
                        k
                    } else {
                        k + 1
                    };
                    assert(rest[k] == copies[x]);
                }
                lemma_undisturbed(rest, frame);
            },
            None => {
                let scratch = frame.scratch(copies[0].ty);
                if !mentions(copies, scratch) {
                    assert(copies[0].src != Location::Reg(scratch));
                    let rest = redirected(copies, copies[0].src, scratch);
                    assert forall|k: int|
                        #![trigger rest[k]]
                        0 <= k < rest.len() implies !slot_to_slot(rest[k]) by {
                        assert(!slot_to_slot(copies[k]));
                    }
                    lemma_undisturbed(rest, frame);
                }
            },
        }
    }
}

} // verus!
