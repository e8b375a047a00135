//! Calls, and the registers that are saved around them.
use crate::ir::{LibFunc, Ty, Value};
use crate::x64::execute::{
    alu, arity, computed, get, keeps_operands, lemma_put, lemma_translated_computes, meaning, run,
    step, takes, with_register, with_word, word, Cpu, Start, Unit,
};
use crate::x64::layout::{
    aligned, call_bytes, clobbers, external_call, external_ok, is_live, lemma_aligned, libm_call,
    location, move_stack, place_args, place_one, restore_all, restore_one, save_all,
    saved_registers, shadow, spans, stage_args, stage_base, to_save, unstage_args,
    value_type, windows_register, with_saved, Clobber, EmitContext, Place, Placement,
};
use crate::x64::machine::{defines, put, reads};
use crate::x64::machine::{Abi, AluOp, AsmOp, Label, Location, MachineInst, PhysReg, REGISTERS};
use crate::x64::translate::{
    at, call_arguments, libm_entry, move_float, move_int, plain_call, translated,
};
use vstd::prelude::*;

verus! {

// ---------------------------------------------------------------------------
// Conventions

/// The registers that point to the stack and to the frame.
pub open spec fn is_pointer(r: PhysReg) -> bool {
    r == PhysReg::Rsp || r == PhysReg::Rbp
}

/// The register is one of those that stand in for slots.
pub open spec fn is_scratch(abi: Abi, r: PhysReg) -> bool {
    abi.scratch_gpr@.contains(r) || abi.scratch_xmm@.contains(r)
}

/// The stack is a few gigabytes above the first address, and aligned as a
/// function finds it, or as its frame leaves it.
pub open spec fn roomy(c: Cpu, framed: bool) -> bool {
    &&& 0x1_0000_0000 <= get(c, PhysReg::Rsp) < 0x4000_0000_0000_0000
    &&& get(c, PhysReg::Rsp) % 16 == if framed {
        0int
    } else {
        8
    }
}

/// The register of a result.
pub open spec fn answer(float: bool) -> PhysReg {
    if float {
        PhysReg::Xmm(0)
    } else {
        PhysReg::Rax
    }
}

/// The places of the first `n` arguments of the given types.
pub open spec fn places_of(abi: Abi, types: Seq<Ty>, n: nat) -> Placement
    decreases n,
{
    if n == 0 {
        Placement { places: Seq::empty(), gprs: 0, xmms: 0, stack: 0 }
    } else {
        place_one(abi, types[n - 1], n - 1, places_of(abi, types, (n - 1) as nat))
    }
}

/// What a callee finds in a place.
pub open spec fn passed(c: Cpu, abi: Abi, place: Place) -> u64 {
    match place {
        Place::Register(r) => get(c, r),
        Place::Stack(k) => word(c, get(c, PhysReg::Rsp) + shadow(abi.windows) + 8 * k),
    }
}

/// What a callee leaves alone: the registers that calls do not overwrite, and
/// the memory above its arguments.
pub open spec fn kept_by_call(c: Cpu, e: Cpu, abi: Abi, stack: int) -> bool {
    &&& forall|r: PhysReg|
        #![trigger get(e, r)]
        !clobbers(Clobber::Call, r) ==> get(e, r) == get(c, r)
    &&& forall|a: int|
        #![trigger word(e, a)]
        a >= get(c, PhysReg::Rsp) + shadow(abi.windows) + 8 * stack ==> word(e, a) == word(c, a)
}

/// A function of the mathematical library takes doubles in XMM0 and XMM1 and
/// gives one in XMM0.
pub open spec fn libm_conforms(abi: Abi, unit: Unit, func: LibFunc, c: Cpu) -> bool {
    libm_entry(abi.libm@, func) is Some && get(c, PhysReg::Rsp) % 16 == 0 ==> {
        let e = (unit.call)(libm_entry(abi.libm@, func).unwrap() as u64, c);
        &&& get(e, PhysReg::Xmm(0)) == (unit.libm)(
            func,
            get(c, PhysReg::Xmm(0)),
            if arity(func) == 2 {
                get(c, PhysReg::Xmm(1))
            } else {
                0
            },
        )
        &&& kept_by_call(c, e, abi, 0)
    }
}

/// An external function finds its arguments in their places, and gives its
/// result in XMM0 or RAX.
pub open spec fn external_conforms(abi: Abi, unit: Unit, address: i64, c: Cpu) -> bool {
    let (types, ty) = (unit.signature)(address);
    let s = places_of(abi, types, types.len());
    get(c, PhysReg::Rsp) % 16 == 0 ==> {
        let e = (unit.call)(address as u64, c);
        &&& get(e, answer(ty == Ty::F64)) == (unit.external)(
            address,
            Seq::new(types.len(), |i: int| passed(c, abi, s.places[i])),
        )
        &&& kept_by_call(c, e, abi, s.stack)
    }
}

/// What is called follows the conventions of the platform.
pub open spec fn calls_ok(abi: Abi, unit: Unit) -> bool {
    &&& forall|func: LibFunc, c: Cpu| #[trigger] libm_conforms(abi, unit, func, c)
    &&& forall|address: i64, c: Cpu| #[trigger] external_conforms(abi, unit, address, c)
}

/// The register may carry an argument.
pub open spec fn is_argument(abi: Abi, r: PhysReg) -> bool {
    if abi.windows {
        exists|float: bool, i: int| 0 <= i < 4 && r == #[trigger] windows_register(float, i)
    } else {
        abi.int_args@.contains(r) || abi.float_args@.contains(r)
    }
}

/// The registers of the arguments are different ones that calls overwrite, and
/// none is a register through which a call moves values.
pub open spec fn convention_ok(abi: Abi) -> bool {
    let g = abi.int_args@;
    let x = abi.float_args@;
    &&& forall|i: int, j: int| #![trigger g[i], g[j]] 0 <= i < j < g.len() ==> g[i] != g[j]
    &&& forall|i: int, j: int| #![trigger x[i], x[j]] 0 <= i < j < x.len() ==> x[i] != x[j]
    &&& forall|i: int, j: int|
        #![trigger g[i], x[j]]
        0 <= i < g.len() && 0 <= j < x.len() ==> g[i] != x[j]
    &&& forall|r: PhysReg| #[trigger]
        is_argument(abi, r) ==> clobbers(Clobber::Call, r) && r != PhysReg::R11 && (abi.scratch_gpr@.len() > 1 ==> r
            != abi.scratch_gpr@[1]) && (abi.scratch_xmm@.len() > 2 ==> r != abi.scratch_xmm@[2])
    &&& abi.scratch_xmm@.len() > 2 ==> abi.scratch_xmm@[2] != PhysReg::Xmm(0)
        && abi.scratch_xmm@[2] != PhysReg::Xmm(1)
    &&& forall|r: PhysReg| #[trigger] is_scratch(abi, r) ==> !is_pointer(r)
}

/// What an instruction overwrites beside its result, if registers are saved
/// around it.
pub open spec fn overwrites(inst: MachineInst) -> Option<Clobber> {
    match inst {
        MachineInst::CallLibm { .. } | MachineInst::ExternalCall { .. } => Some(Clobber::Call),
        MachineInst::IntDiv { .. } | MachineInst::IntRem { .. } => Some(Clobber::Division),
        MachineInst::Shl { .. } | MachineInst::Shr { .. } | MachineInst::Sar { .. } => Some(
            Clobber::Shift,
        ),
        _ => None,
    }
}

/// The register does not keep its value over the instruction.
pub open spec fn lost(cx: EmitContext, inst: MachineInst, position: u32, r: PhysReg) -> bool {
    match overwrites(inst) {
        Some(what) => clobbers(what, r) && !to_save(cx, position, what).contains(r),
        None => takes(inst, r),
    }
}

/// An instruction was carried out: its result is in its register, the stack
/// is where it was, and everything else is kept but the scratch registers and
/// what the instruction loses.
pub open spec fn carried_out(
    cx: EmitContext,
    inst: MachineInst,
    position: u32,
    c: Cpu,
    e: Cpu,
    dst: PhysReg,
    z: u64,
) -> bool {
    &&& get(e, dst) == z
    &&& get(e, PhysReg::Rsp) == get(c, PhysReg::Rsp)
    &&& get(e, PhysReg::Rbp) == get(c, PhysReg::Rbp)
    &&& forall|a: int|
        #![trigger word(e, a)]
        a >= get(c, PhysReg::Rsp) ==> word(e, a) == word(c, a)
    &&& forall|r: PhysReg|
        #![trigger get(e, r)]
        r != dst && !is_scratch(*cx.abi, r) && !lost(cx, inst, position, r) ==> get(e, r) == get(
            c,
            r,
        )
}

// ---------------------------------------------------------------------------
// Saved registers

proof fn lemma_saved_some(cx: EmitContext, position: u32, what: Clobber, n: nat, r: PhysReg)
    ensures
        saved_registers(cx, position, what, n).len() <= n,
        saved_registers(cx, position, what, n).contains(r) ==> clobbers(what, r) && is_live(
            cx,
            position,
            r,
        ),
    decreases n,
{
    if n > 0 {
        lemma_saved_some(cx, position, what, (n - 1) as nat, r);
        let before = saved_registers(cx, position, what, (n - 1) as nat);
        let now = saved_registers(cx, position, what, n);
        if now.contains(r) {
            let i = now.index_of(r);
            if i < before.len() {
                assert(before[i] == r);
            }
        }
    }
}

/// No value lives in a scratch register, or in one that points to the stack or
/// to the frame.
pub open spec fn places_free(cx: EmitContext) -> bool {
    forall|v: Value|
        (#[trigger] location(cx, v)) matches Some(Location::Reg(r)) ==> !is_scratch(*cx.abi, r)
            && !is_pointer(r)
}

/// What is saved is no scratch register.
pub(crate) proof fn lemma_saved_free(cx: EmitContext, position: u32, what: Clobber)
    requires
        places_free(cx),
    ensures
        to_save(cx, position, what).len() <= REGISTERS,
        forall|r: PhysReg| #[trigger]
            to_save(cx, position, what).contains(r) ==> clobbers(what, r) && !is_scratch(*cx.abi, r)
                && !is_pointer(r),
{
    lemma_saved_some(cx, position, what, REGISTERS as nat, PhysReg::Rax);
    assert forall|r: PhysReg| #[trigger] to_save(cx, position, what).contains(r) implies clobbers(
        what,
        r,
    ) && !is_scratch(*cx.abi, r) && !is_pointer(r) by {
        lemma_saved_some(cx, position, what, REGISTERS as nat, r);
        let i = choose|i: int|
            #![trigger cx.intervals@[i]]
            0 <= i < cx.intervals@.len() && spans(cx.intervals@[i], position) && location(
                cx,
                cx.intervals@[i].0,
            ) == Some(Location::Reg(r));
        assert(location(cx, cx.intervals@[i].0) == Some(Location::Reg(r)));
    }
}

/// The stack pointer moves.
proof fn lemma_stack_moved(start: Start, ops: Seq<AsmOp>, c: Cpu, op: AluOp, bytes: int, unit: Unit) -> (e: Cpu)
    requires
        run(start, ops, unit) == Some(c),
        op == AluOp::Sub || op == AluOp::Add,
        0 <= bytes <= i32::MAX,
        0x8000_0000 <= get(c, PhysReg::Rsp) < 0x4000_0000_0000_0000,
    ensures
        move_stack(Some(ops), op, bytes) is Some,
        run(start, move_stack(Some(ops), op, bytes).unwrap(), unit) == Some(e),
        get(e, PhysReg::Rsp) == if op == AluOp::Sub {
            get(c, PhysReg::Rsp) - bytes
        } else {
            get(c, PhysReg::Rsp) + bytes
        },
        forall|r: PhysReg| #![trigger get(e, r)] r != PhysReg::Rsp ==> get(e, r) == get(c, r),
        e.memory == c.memory,
{
    let moved = AsmOp::AluRegImm { op, dst: PhysReg::Rsp, imm: bytes as i32 };
    lemma_put(start, ops, moved, c, unit);
    let x = get(c, PhysReg::Rsp);
    let y = bytes as i32;
    assert(x as i64 == x && y as i64 == bytes);
    assert(alu(op, x as i64, y as i64) == if op == AluOp::Sub {
        x - bytes
    } else {
        x + bytes
    });
    step(c, moved, unit).unwrap()
}

/// Registers are saved.
proof fn lemma_saved(
    start: Start,
    ops: Seq<AsmOp>,
    c: Cpu,
    regs: Seq<PhysReg>,
    base: int,
    n: nat,
    unit: Unit,
) -> (e: Cpu)
    requires
        run(start, ops, unit) == Some(c),
        n <= regs.len(),
        0 <= base,
        base + 8 * n <= i32::MAX,
    ensures
        save_all(Some(ops), regs, base, n) is Some,
        run(start, save_all(Some(ops), regs, base, n).unwrap(), unit) == Some(e),
        forall|r: PhysReg| #![trigger get(e, r)] get(e, r) == get(c, r),
        forall|i: int|
            #![trigger regs[i]]
            0 <= i < n ==> word(e, get(c, PhysReg::Rsp) + base + 8 * i) == get(c, regs[i]),
        forall|a: int|
            #![trigger word(e, a)]
            a < get(c, PhysReg::Rsp) + base || a >= get(c, PhysReg::Rsp) + base + 8 * n ==> word(
                e,
                a,
            ) == word(c, a),
    decreases n,
{
    if n == 0 {
        c
    } else {
        let l = (n - 1) as nat;
        let d = lemma_saved(start, ops, c, regs, base, l, unit);
        let before = save_all(Some(ops), regs, base, l).unwrap();
        let reg = regs[n - 1];
        let offset = (base + 8 * (n - 1)) as i32;
        assert(offset == base + 8 * (n - 1));
        let op = if reg is Xmm {
            AsmOp::MovsdMemReg { base: PhysReg::Rsp, offset, src: reg }
        } else {
            AsmOp::MovMemReg { base: PhysReg::Rsp, offset, src: reg }
        };
        lemma_put(start, before, op, d, unit);
        let e = with_word(d, get(c, PhysReg::Rsp) + base + 8 * (n - 1), get(c, reg));
        assert(get(d, PhysReg::Rsp) == get(c, PhysReg::Rsp));
        assert(get(d, reg) == get(c, reg));
        assert(step(d, op, unit) == Some(e));
        assert forall|i: int| #![trigger regs[i]] 0 <= i < n implies word(
            e,
            get(c, PhysReg::Rsp) + base + 8 * i,
        ) == get(c, regs[i]) by {
            if i < l {
                assert(word(d, get(c, PhysReg::Rsp) + base + 8 * i) == get(c, regs[i]));
            }
        }
        e
    }
}

/// Registers are restored: from the words that `f` gives.
proof fn lemma_restored(
    start: Start,
    ops: Seq<AsmOp>,
    c: Cpu,
    regs: Seq<PhysReg>,
    base: int,
    n: nat,
    f: spec_fn(PhysReg) -> u64,
    unit: Unit,
) -> (e: Cpu)
    requires
        run(start, ops, unit) == Some(c),
        n <= regs.len(),
        0 <= base,
        base + 8 * n <= i32::MAX,
        forall|i: int| #![trigger regs[i]] 0 <= i < n ==> regs[i] != PhysReg::Rsp,
        forall|i: int|
            #![trigger regs[i]]
            0 <= i < n ==> word(c, get(c, PhysReg::Rsp) + base + 8 * i) == f(regs[i]),
    ensures
        restore_all(Some(ops), regs, base, n) is Some,
        run(start, restore_all(Some(ops), regs, base, n).unwrap(), unit) == Some(e),
        e.memory == c.memory,
        forall|r: PhysReg|
            #![trigger get(e, r)]
            get(e, r) == if regs.take(n as int).contains(r) {
                f(r)
            } else {
                get(c, r)
            },
    decreases n,
{
    if n == 0 {
        c
    } else {
        let l = (n - 1) as nat;
        let reg = regs[n - 1];
        let offset = (base + 8 * (n - 1)) as i32;
        assert(offset == base + 8 * (n - 1));
        let op = if reg is Xmm {
            AsmOp::MovsdRegMem { dst: reg, base: PhysReg::Rsp, offset }
        } else {
            AsmOp::MovRegMem { dst: reg, base: PhysReg::Rsp, offset }
        };
        lemma_put(start, ops, op, c, unit);
        let d = with_register(c, reg, f(reg));
        assert(word(c, get(c, PhysReg::Rsp) + base + 8 * (n - 1)) == f(reg));
        assert(step(c, op, unit) == Some(d));
        assert(restore_one(Some(ops), reg, base + 8 * (n - 1)) == Some(ops.push(op)));
        assert forall|i: int| #![trigger regs[i]] 0 <= i < l implies word(
            d,
            get(d, PhysReg::Rsp) + base + 8 * i,
        ) == f(regs[i]) by {
            assert(word(c, get(c, PhysReg::Rsp) + base + 8 * i) == f(regs[i]));
        }
        let e = lemma_restored(start, ops.push(op), d, regs, base, l, f, unit);
        assert forall|r: PhysReg| #![trigger get(e, r)] get(e, r) == if regs.take(
            n as int,
        ).contains(r) {
            f(r)
        } else {
            get(c, r)
        } by {
            let less = regs.take(l as int);
            let more = regs.take(n as int);
            assert(more[n - 1] == reg);
            if less.contains(r) {
                let i = less.index_of(r);
                assert(more[i] == r);
            }
            if more.contains(r) && r != reg {
                let i = more.index_of(r);
                assert(less[i] == r);
            }
        }
        e
    }
}

/// The stack pointer moves, and registers are saved.
proof fn lemma_entered(
    start: Start,
    ops: Seq<AsmOp>,
    c: Cpu,
    saved: Seq<PhysReg>,
    base: int,
    bytes: int,
    unit: Unit,
) -> (e: Cpu)
    requires
        run(start, ops, unit) == Some(c),
        0 <= base,
        base + 8 * saved.len() <= bytes <= i32::MAX,
        0x1_0000_0000 <= get(c, PhysReg::Rsp) < 0x4000_0000_0000_0000,
        forall|r: PhysReg| #[trigger] saved.contains(r) ==> !is_pointer(r),
    ensures
        ({
            let q = save_all(move_stack(Some(ops), AluOp::Sub, bytes), saved, base, saved.len());
            q is Some && run(start, q.unwrap(), unit) == Some(e)
        }),
        get(e, PhysReg::Rsp) == get(c, PhysReg::Rsp) - bytes,
        forall|r: PhysReg| #![trigger get(e, r)] r != PhysReg::Rsp ==> get(e, r) == get(c, r),
        forall|i: int|
            #![trigger saved[i]]
            0 <= i < saved.len() ==> word(e, get(c, PhysReg::Rsp) - bytes + base + 8 * i) == get(
                c,
                saved[i],
            ),
        forall|a: int|
            #![trigger word(e, a)]
            a >= get(c, PhysReg::Rsp) ==> word(e, a) == word(c, a),
{
    let d = lemma_stack_moved(start, ops, c, AluOp::Sub, bytes, unit);
    let moved = move_stack(Some(ops), AluOp::Sub, bytes).unwrap();
    let e = lemma_saved(start, moved, d, saved, base, saved.len(), unit);
    assert forall|i: int| #![trigger saved[i]] 0 <= i < saved.len() implies word(
        e,
        get(c, PhysReg::Rsp) - bytes + base + 8 * i,
    ) == get(c, saved[i]) by {
        assert(saved.contains(saved[i]));
        assert(get(d, saved[i]) == get(c, saved[i]));
    }
    e
}

/// Saved registers come back, and the stack pointer with them.
proof fn lemma_reopened(
    start: Start,
    ops: Seq<AsmOp>,
    c: Cpu,
    d: Cpu,
    saved: Seq<PhysReg>,
    base: int,
    bytes: int,
    unit: Unit,
) -> (e: Cpu)
    requires
        run(start, ops, unit) == Some(d),
        0 <= base,
        base + 8 * saved.len() <= bytes <= i32::MAX,
        0x1_0000_0000 <= get(c, PhysReg::Rsp) < 0x4000_0000_0000_0000,
        forall|r: PhysReg| #[trigger] saved.contains(r) ==> !is_pointer(r),
        get(d, PhysReg::Rsp) == get(c, PhysReg::Rsp) - bytes,
        forall|i: int|
            #![trigger saved[i]]
            0 <= i < saved.len() ==> word(d, get(c, PhysReg::Rsp) - bytes + base + 8 * i) == get(
                c,
                saved[i],
            ),
    ensures
        restore_all(Some(ops), saved, base, saved.len()) is Some,
        run(start, restore_all(Some(ops), saved, base, saved.len()).unwrap(), unit) == Some(e),
        e.memory == d.memory,
        get(e, PhysReg::Rsp) == get(d, PhysReg::Rsp),
        forall|r: PhysReg|
            #![trigger get(e, r)]
            get(e, r) == if saved.contains(r) {
                get(c, r)
            } else {
                get(d, r)
            },
{
    let f = |r: PhysReg| get(c, r);
    assert forall|i: int| #![trigger saved[i]] 0 <= i < saved.len() implies saved[i]
        != PhysReg::Rsp by {
        assert(saved.contains(saved[i]));
    }
    let e = lemma_restored(start, ops, d, saved, base, saved.len(), f, unit);
    assert(saved.take(saved.len() as int) =~= saved);
    e
}

/// What a call gave goes to its place, saved registers come back, and the
/// stack pointer with them.
#[verifier::rlimit(30)]
proof fn lemma_left(
    start: Start,
    ops: Seq<AsmOp>,
    c: Cpu,
    d: Cpu,
    saved: Seq<PhysReg>,
    base: int,
    bytes: int,
    float: bool,
    scratch: PhysReg,
    dst: PhysReg,
    unit: Unit,
) -> (e: Cpu)
    requires
        run(start, ops, unit) == Some(d),
        0 <= base,
        base + 8 * saved.len() <= bytes <= i32::MAX,
        0x1_0000_0000 <= get(c, PhysReg::Rsp) < 0x4000_0000_0000_0000,
        forall|r: PhysReg| #[trigger] saved.contains(r) ==> !is_pointer(r) && r != scratch,
        !is_pointer(scratch),
        !is_pointer(dst),
        get(d, PhysReg::Rsp) == get(c, PhysReg::Rsp) - bytes,
        forall|i: int|
            #![trigger saved[i]]
            0 <= i < saved.len() ==> word(d, get(c, PhysReg::Rsp) - bytes + base + 8 * i) == get(
                c,
                saved[i],
            ),
    ensures
        ({
            let op = if float {
                AsmOp::MovsdRegReg { dst: scratch, src: answer(true) }
            } else {
                AsmOp::MovRegReg { dst: scratch, src: answer(false) }
            };
            let back = restore_all(put(Some(ops), op), saved, base, saved.len());
            let moved = if float {
                move_float(back, dst, scratch)
            } else {
                move_int(back, dst, scratch)
            };
            let q = move_stack(moved, AluOp::Add, bytes);
            q is Some && run(start, q.unwrap(), unit) == Some(e)
        }),
        e.memory == d.memory,
        get(e, dst) == get(d, answer(float)),
        get(e, PhysReg::Rsp) == get(c, PhysReg::Rsp),
        forall|r: PhysReg|
            #![trigger get(e, r)]
            r != dst && r != scratch && r != PhysReg::Rsp ==> get(e, r) == if saved.contains(r) {
                get(c, r)
            } else {
                get(d, r)
            },
{
    let out = answer(float);
    let op = if float {
        AsmOp::MovsdRegReg { dst: scratch, src: out }
    } else {
        AsmOp::MovRegReg { dst: scratch, src: out }
    };
    lemma_put(start, ops, op, d, unit);
    let d1 = with_register(d, scratch, get(d, out));
    assert(step(d, op, unit) == Some(d1));
    assert forall|i: int| #![trigger saved[i]] 0 <= i < saved.len() implies word(
        d1,
        get(c, PhysReg::Rsp) - bytes + base + 8 * i,
    ) == get(c, saved[i]) by {
        assert(word(d, get(c, PhysReg::Rsp) - bytes + base + 8 * i) == get(c, saved[i]));
    }
    let d2 = lemma_reopened(start, ops.push(op), c, d1, saved, base, bytes, unit);
    let back = restore_all(Some(ops.push(op)), saved, base, saved.len()).unwrap();
    let mv = if float {
        AsmOp::MovsdRegReg { dst, src: scratch }
    } else {
        AsmOp::MovRegReg { dst, src: scratch }
    };
    assert(get(d2, scratch) == get(d, out));
    let (q, d3) = if dst != scratch {
        lemma_put(start, back, mv, d2, unit);
        (back.push(mv), with_register(d2, dst, get(d2, scratch)))
    } else {
        (back, d2)
    };
    assert(run(start, q, unit) == Some(d3));
    assert(get(d3, PhysReg::Rsp) == get(d, PhysReg::Rsp));
    let e = lemma_stack_moved(start, q, d3, AluOp::Add, bytes, unit);
    assert(get(d3, dst) == get(d, out));
    e
}

// ---------------------------------------------------------------------------
// Divisions and shifts

/// Registers are saved around a division or a shift: it computes what it
/// stands for, and what is live survives.
#[verifier::rlimit(60)]
#[verifier::spinoff_prover]
pub proof fn lemma_with_saved_computes(
    start: Start,
    ops: Seq<AsmOp>,
    cx: EmitContext,
    inst: MachineInst,
    regs: Seq<(Value, PhysReg)>,
    labels: Seq<Label>,
    position: u32,
    what: Clobber,
    c: Cpu,
    unit: Unit,
    z: u64,
) -> (e: Cpu)
    requires
        run(start, ops, unit) == Some(c),
        roomy(c, cx.framed),
        places_free(cx),
        overwrites(inst) == Some(what),
        what != Clobber::Call,
        with_saved(Some(ops), cx, inst, regs, labels, position, what) is Some,
        keeps_operands(inst, regs),
        defines(inst) is Some,
        !is_pointer(at(regs, defines(inst).unwrap())),
        !to_save(cx, position, what).contains(at(regs, defines(inst).unwrap())),
        forall|i: int|
            #![trigger reads(inst)[i]]
            0 <= i < reads(inst).len() ==> !is_pointer(at(regs, reads(inst)[i])),
        meaning(inst, |v: Value| get(c, at(regs, v)), labels, unit) == Some(z),
    ensures
        run(
            start,
            with_saved(Some(ops), cx, inst, regs, labels, position, what).unwrap(),
            unit,
        ) == Some(e),
        carried_out(cx, inst, position, c, e, at(regs, defines(inst).unwrap()), z),
{
    let saved = to_save(cx, position, what);
    let bytes = aligned(8 * saved.len() as int, cx.framed);
    let dst = at(regs, defines(inst).unwrap());
    lemma_saved_free(cx, position, what);
    if saved.len() == 0 {
        lemma_translated_computes(start, ops, *cx.abi, inst, regs, labels, c, unit);
        run(start, translated(Some(ops), *cx.abi, inst, regs, labels).unwrap(), unit).unwrap()
    } else {
        lemma_aligned(8 * saved.len() as int, cx.framed);
        let c1 = lemma_entered(start, ops, c, saved, 0, bytes, unit);
        let kept = save_all(move_stack(Some(ops), AluOp::Sub, bytes), saved, 0, saved.len());
        let near = |v: Value| get(c, at(regs, v));
        let there = |v: Value| get(c1, at(regs, v));
        assert forall|i: int| #![trigger reads(inst)[i]] 0 <= i < reads(inst).len() implies near(
            reads(inst)[i],
        ) == there(reads(inst)[i]) by {
            assert(get(c1, at(regs, reads(inst)[i])) == get(c, at(regs, reads(inst)[i])));
        }
        assert(reads(inst).len() == 2);
        assert(near(reads(inst)[0]) == there(reads(inst)[0]));
        assert(near(reads(inst)[1]) == there(reads(inst)[1]));
        assert(meaning(inst, there, labels, unit) == Some(z));
        let done = translated(kept, *cx.abi, inst, regs, labels);
        assert(done is Some) by {
            if done is None {
                lemma_restore_none(saved, 0, saved.len());
            }
        }
        lemma_translated_computes(start, kept.unwrap(), *cx.abi, inst, regs, labels, c1, unit);
        let c2 = run(start, done.unwrap(), unit).unwrap();
        assert(computed(c1, Some(c2), inst, dst, z));
        assert(!takes(inst, PhysReg::Rsp) && !takes(inst, PhysReg::Rbp));
        assert(get(c2, PhysReg::Rsp) == get(c1, PhysReg::Rsp));
        assert(get(c2, PhysReg::Rbp) == get(c1, PhysReg::Rbp));
        assert forall|i: int| #![trigger saved[i]] 0 <= i < saved.len() implies word(
            c2,
            get(c, PhysReg::Rsp) - bytes + 0 + 8 * i,
        ) == get(c, saved[i]) by {
            assert(word(c1, get(c, PhysReg::Rsp) - bytes + 0 + 8 * i) == get(c, saved[i]));
        }
        let c3 = lemma_reopened(start, done.unwrap(), c, c2, saved, 0, bytes, unit);
        let back = restore_all(done, saved, 0, saved.len()).unwrap();
        let e = lemma_stack_moved(start, back, c3, AluOp::Add, bytes, unit);
        assert(get(c3, dst) == z);
        assert forall|a: int|
            #![trigger word(e, a)]
            a >= get(c, PhysReg::Rsp) implies word(e, a) == word(c, a) by {
            assert(word(c1, a) == word(c, a));
        }
        assert forall|r: PhysReg|
            #![trigger get(e, r)]
            r != dst && !is_scratch(*cx.abi, r) && !lost(cx, inst, position, r) implies get(e, r)
            == get(c, r) by {
            if r != PhysReg::Rsp {
                assert(get(e, r) == get(c3, r));
                if !saved.contains(r) {
                    assert(!takes(inst, r));
                    assert(get(c2, r) == get(c1, r));
                    assert(get(c1, r) == get(c, r));
                }
            }
        }
        e
    }
}

proof fn lemma_restore_none(regs: Seq<PhysReg>, base: int, n: nat)
    ensures
        restore_all(None, regs, base, n) is None,
    decreases n,
{
    if n > 0 {
        lemma_restore_none(regs, base, (n - 1) as nat);
    }
}

// ---------------------------------------------------------------------------
// The mathematical library

/// The arguments of a call of the mathematical library reach their registers.
#[verifier::rlimit(30)]
proof fn lemma_arguments(
    start: Start,
    ops: Seq<AsmOp>,
    c: Cpu,
    regs: Seq<PhysReg>,
    scratch: PhysReg,
    unit: Unit,
) -> (e: Cpu)
    requires
        run(start, ops, unit) == Some(c),
        regs.len() == 1 || regs.len() == 2,
        scratch != PhysReg::Xmm(0),
        scratch != PhysReg::Xmm(1),
        forall|i: int| #![trigger regs[i]] 0 <= i < regs.len() ==> regs[i] != scratch,
    ensures
        call_arguments(Some(ops), regs, scratch) is Some,
        run(start, call_arguments(Some(ops), regs, scratch).unwrap(), unit) == Some(e),
        e.memory == c.memory,
        get(e, PhysReg::Xmm(0)) == get(c, regs[0]),
        regs.len() == 2 ==> get(e, PhysReg::Xmm(1)) == get(c, regs[1]),
        forall|r: PhysReg|
            #![trigger get(e, r)]
            r != PhysReg::Xmm(0) && r != PhysReg::Xmm(1) && r != scratch ==> get(e, r) == get(c, r),
{
    let first = PhysReg::Xmm(0);
    let second = PhysReg::Xmm(1);
    if regs.len() == 2 && regs[0] != first && regs[1] == first {
        let one = AsmOp::MovsdRegReg { dst: scratch, src: first };
        let two = AsmOp::MovsdRegReg { dst: first, src: regs[0] };
        let three = AsmOp::MovsdRegReg { dst: second, src: scratch };
        lemma_put(start, ops, one, c, unit);
        let c1 = with_register(c, scratch, get(c, first));
        lemma_put(start, ops.push(one), two, c1, unit);
        let c2 = with_register(c1, first, get(c1, regs[0]));
        lemma_put(start, ops.push(one).push(two), three, c2, unit);
        with_register(c2, second, get(c2, scratch))
    } else {
        let one = AsmOp::MovsdRegReg { dst: first, src: regs[0] };
        let (q, c1) = if regs[0] != first {
            lemma_put(start, ops, one, c, unit);
            (ops.push(one), with_register(c, first, get(c, regs[0])))
        } else {
            (ops, c)
        };
        if regs.len() == 2 && regs[1] != second {
            let two = AsmOp::MovsdRegReg { dst: second, src: regs[1] };
            lemma_put(start, q, two, c1, unit);
            assert(get(c1, regs[1]) == get(c, regs[1]));
            with_register(c1, second, get(c1, regs[1]))
        } else {
            c1
        }
    }
}

/// A call of the mathematical library gives what the function gives of its
/// arguments, and what is live survives.
#[verifier::rlimit(60)]
#[verifier::spinoff_prover]
pub proof fn lemma_libm_call_computes(
    start: Start,
    ops: Seq<AsmOp>,
    cx: EmitContext,
    inst: MachineInst,
    func: LibFunc,
    args: Seq<PhysReg>,
    dst: PhysReg,
    position: u32,
    c: Cpu,
    unit: Unit,
) -> (e: Cpu)
    requires
        run(start, ops, unit) == Some(c),
        roomy(c, cx.framed),
        places_free(cx),
        convention_ok(*cx.abi),
        calls_ok(*cx.abi, unit),
        inst is CallLibm,
        libm_entry(cx.abi.libm@, func) is Some,
        args.len() == arity(func),
        cx.abi.scratch_xmm@.len() > 2,
        !is_pointer(dst),
        forall|i: int|
            #![trigger args[i]]
            0 <= i < args.len() ==> args[i] != cx.abi.scratch_xmm@[2] && !is_pointer(args[i]),
    ensures
        ({
            let address = libm_entry(cx.abi.libm@, func).unwrap();
            let q = libm_call(Some(ops), cx, address, args, dst, position);
            q is Some && run(start, q.unwrap(), unit) == Some(e)
        }),
        carried_out(
            cx,
            inst,
            position,
            c,
            e,
            dst,
            (unit.libm)(
                func,
                get(c, args[0]),
                if arity(func) == 2 {
                    get(c, args[1])
                } else {
                    0
                },
            ),
        ),
{
    let saved = to_save(cx, position, Clobber::Call);
    let base = shadow(cx.abi.windows);
    let bytes = aligned(base + 8 * saved.len(), cx.framed);
    let scratch = cx.abi.scratch_xmm@[2];
    let address = libm_entry(cx.abi.libm@, func).unwrap();
    let rsp = get(c, PhysReg::Rsp);
    lemma_saved_free(cx, position, Clobber::Call);
    lemma_aligned(base + 8 * saved.len(), cx.framed);
    assert(cx.abi.scratch_xmm@.contains(scratch));
    assert(is_scratch(*cx.abi, scratch));
    let c1 = lemma_entered(start, ops, c, saved, base, bytes, unit);
    let kept = save_all(move_stack(Some(ops), AluOp::Sub, bytes), saved, base, saved.len()).unwrap();
    let c2 = lemma_arguments(start, kept, c1, args, scratch, unit);
    let ready = call_arguments(Some(kept), args, scratch).unwrap();
    assert(args[0] == args[0]);
    assert(get(c1, args[0]) == get(c, args[0]));
    if arity(func) == 2 {
        assert(args[1] == args[1]);
        assert(get(c1, args[1]) == get(c, args[1]));
    }
    let load = AsmOp::MovRegImm { dst: PhysReg::R11, imm: address };
    lemma_put(start, ready, load, c2, unit);
    let c3 = with_register(c2, PhysReg::R11, address as u64);
    let call = AsmOp::CallReg { target: PhysReg::R11 };
    lemma_put(start, ready.push(load), call, c3, unit);
    assert(get(c3, PhysReg::R11) == address as u64);
    let c4 = (unit.call)(address as u64, c3);
    assert(libm_conforms(*cx.abi, unit, func, c3));
    assert(get(c2, PhysReg::Rsp) == get(c1, PhysReg::Rsp));
    assert(get(c3, PhysReg::Rsp) == rsp - bytes);
    assert((rsp - bytes) % 16 == 0);
    assert(kept_by_call(c3, c4, *cx.abi, 0));
    assert forall|a: int| #![trigger word(c4, a)] a >= rsp - bytes + base implies word(c4, a)
        == word(c1, a) by {
        assert(word(c3, a) == word(c1, a));
    }
    assert forall|i: int| #![trigger saved[i]] 0 <= i < saved.len() implies word(
        c4,
        rsp - bytes + base + 8 * i,
    ) == get(c, saved[i]) by {
        assert(word(c1, rsp - bytes + base + 8 * i) == get(c, saved[i]));
    }
    let e = lemma_left(
        start,
        ready.push(load).push(call),
        c,
        c4,
        saved,
        base,
        bytes,
        true,
        scratch,
        dst,
        unit,
    );
    assert forall|a: int| #![trigger word(e, a)] a >= rsp implies word(e, a) == word(c, a) by {
        assert(word(c4, a) == word(c1, a));
        assert(word(c1, a) == word(c, a));
    }
    assert forall|r: PhysReg|
        #![trigger get(e, r)]
        r != dst && !is_scratch(*cx.abi, r) && !lost(cx, inst, position, r) && r
            != PhysReg::Rsp implies get(e, r) == get(c, r) by {
        if !saved.contains(r) {
            assert(!clobbers(Clobber::Call, r));
            assert(get(e, r) == get(c4, r));
            assert(get(c4, r) == get(c3, r));
            assert(get(c3, r) == get(c2, r));
            assert(get(c2, r) == get(c1, r));
            assert(get(c1, r) == get(c, r));
        }
    }
    assert(!clobbers(Clobber::Call, PhysReg::Rbp));
    assert(get(c4, PhysReg::Rbp) == get(c3, PhysReg::Rbp));
    assert(get(c3, PhysReg::Rbp) == get(c2, PhysReg::Rbp));
    assert(get(c2, PhysReg::Rbp) == get(c1, PhysReg::Rbp));
    assert(get(c1, PhysReg::Rbp) == get(c, PhysReg::Rbp));
    assert(!saved.contains(PhysReg::Rbp));
    assert(get(e, PhysReg::Rbp) == get(c4, PhysReg::Rbp));
    e
}

/// A call of the mathematical library from a function that keeps no values in
/// registers that calls overwrite gives what the function gives of its
/// arguments. The registers that calls keep are kept, and the stack.
#[verifier::rlimit(60)]
#[verifier::spinoff_prover]
pub proof fn lemma_plain_call_computes(
    start: Start,
    ops: Seq<AsmOp>,
    abi: Abi,
    func: LibFunc,
    args: Seq<PhysReg>,
    dst: PhysReg,
    c: Cpu,
    unit: Unit,
) -> (e: Cpu)
    requires
        run(start, ops, unit) == Some(c),
        roomy(c, false),
        calls_ok(abi, unit),
        libm_entry(abi.libm@, func) is Some,
        args.len() == arity(func),
        dst is Xmm,
        forall|i: int|
            #![trigger args[i]]
            0 <= i < args.len() ==> args[i] != PhysReg::Xmm(15) && !is_pointer(args[i]),
    ensures
        ({
            let q = plain_call(Some(ops), args, dst, libm_entry(abi.libm@, func).unwrap());
            q is Some && run(start, q.unwrap(), unit) == Some(e)
        }),
        get(e, dst) == (unit.libm)(
            func,
            get(c, args[0]),
            if arity(func) == 2 {
                get(c, args[1])
            } else {
                0
            },
        ),
        forall|r: PhysReg|
            #![trigger get(e, r)]
            !clobbers(Clobber::Call, r) ==> get(e, r) == get(c, r),
        forall|a: int|
            #![trigger word(e, a)]
            a >= get(c, PhysReg::Rsp) + shadow(abi.windows) ==> word(e, a) == word(c, a),
{
    let address = libm_entry(abi.libm@, func).unwrap();
    let rsp = get(c, PhysReg::Rsp);
    assert(args[0] == args[0]);
    if arity(func) == 2 {
        assert(args[1] == args[1]);
    }
    let c1 = lemma_arguments(start, ops, c, args, PhysReg::Xmm(15), unit);
    let placed = call_arguments(Some(ops), args, PhysReg::Xmm(15)).unwrap();
    assert(get(c1, PhysReg::Rsp) == rsp);
    let c2 = lemma_stack_moved(start, placed, c1, AluOp::Sub, 8, unit);
    let moved = move_stack(Some(placed), AluOp::Sub, 8).unwrap();
    let load = AsmOp::MovRegImm { dst: PhysReg::R11, imm: address };
    lemma_put(start, moved, load, c2, unit);
    let c3 = with_register(c2, PhysReg::R11, address as u64);
    let call = AsmOp::CallReg { target: PhysReg::R11 };
    lemma_put(start, moved.push(load), call, c3, unit);
    assert(get(c3, PhysReg::R11) == address as u64);
    let c4 = (unit.call)(address as u64, c3);
    assert(libm_conforms(abi, unit, func, c3));
    assert(get(c3, PhysReg::Rsp) == rsp - 8);
    assert(get(c2, PhysReg::Xmm(0)) == get(c1, PhysReg::Xmm(0)));
    assert(get(c2, PhysReg::Xmm(1)) == get(c1, PhysReg::Xmm(1)));
    assert(kept_by_call(c3, c4, abi, 0));
    assert(get(c4, PhysReg::Rsp) == rsp - 8);
    let called = moved.push(load).push(call);
    let c5 = lemma_stack_moved(start, called, c4, AluOp::Add, 8, unit);
    let back = move_stack(Some(called), AluOp::Add, 8).unwrap();
    let out = AsmOp::MovsdRegReg { dst, src: PhysReg::Xmm(0) };
    let e = if dst != PhysReg::Xmm(0) {
        lemma_put(start, back, out, c5, unit);
        with_register(c5, dst, get(c5, PhysReg::Xmm(0)))
    } else {
        c5
    };
    assert(get(c5, PhysReg::Xmm(0)) == get(c4, PhysReg::Xmm(0)));
    assert forall|r: PhysReg|
        #![trigger get(e, r)]
        !clobbers(Clobber::Call, r) implies get(e, r) == get(c, r) by {
        if r != PhysReg::Rsp {
            assert(get(c5, r) == get(c4, r));
            assert(get(c4, r) == get(c3, r));
            assert(get(c2, r) == get(c1, r));
            assert(get(c1, r) == get(c, r));
        }
    }
    assert forall|a: int|
        #![trigger word(e, a)]
        a >= rsp + shadow(abi.windows) implies word(e, a) == word(c, a) by {
        assert(word(c4, a) == word(c3, a));
    }
    e
}

// ---------------------------------------------------------------------------
// External calls

/// A register that one of the first `n` arguments took.
pub open spec fn took(abi: Abi, s: Placement, n: int, r: PhysReg) -> bool {
    if abi.windows {
        exists|float: bool, i: int|
            0 <= i < n && i < 4 && r == #[trigger] windows_register(float, i)
    } else {
        ||| exists|i: int|
            #![trigger abi.int_args@[i]]
            0 <= i < s.gprs <= abi.int_args@.len() && r == abi.int_args@[i]
        ||| exists|i: int|
            #![trigger abi.float_args@[i]]
            0 <= i < s.xmms <= abi.float_args@.len() && r == abi.float_args@[i]
    }
}

/// The places of the arguments are different ones, registers for arguments or
/// words above the stack pointer.
pub open spec fn places_ok(abi: Abi, s: Placement, n: int) -> bool {
    &&& s.places.len() == n
    &&& 0 <= s.stack <= n
    &&& 0 <= s.gprs
    &&& 0 <= s.xmms
    &&& forall|i: int|
        #![trigger s.places[i]]
        0 <= i < n ==> match s.places[i] {
            Place::Register(r) => took(abi, s, n, r) && is_argument(abi, r),
            Place::Stack(k) => k < s.stack,
        }
    &&& forall|i: int, j: int|
        #![trigger s.places[i], s.places[j]]
        0 <= i < j < n ==> s.places[i] != s.places[j]
}

/// A register that was just taken was not taken before.
proof fn lemma_fresh(abi: Abi, ty: Ty, n: int, s: Placement, r: PhysReg)
    requires
        convention_ok(abi),
        0 <= n,
        0 <= s.gprs,
        0 <= s.xmms,
        place_one(abi, ty, n, s).places.last() == Place::Register(r),
    ensures
        !took(abi, s, n, r),
        took(abi, place_one(abi, ty, n, s), n + 1, r),
        is_argument(abi, r),
        forall|x: PhysReg| #[trigger] took(abi, s, n, x) ==> took(
            abi,
            place_one(abi, ty, n, s),
            n + 1,
            x,
        ),
{
    let t = place_one(abi, ty, n, s);
    let float = ty == Ty::F64;
    if abi.windows {
        if n < 4 {
            assert(r == windows_register(float, n));
        }
        assert forall|x: PhysReg| #[trigger] took(abi, s, n, x) implies took(abi, t, n + 1, x) by {
            let (f, i) = choose|f: bool, i: int|
                0 <= i < n && i < 4 && x == #[trigger] windows_register(f, i);
            assert(x == windows_register(f, i));
        }
        if took(abi, s, n, r) {
            let (f, i) = choose|f: bool, i: int|
                0 <= i < n && i < 4 && r == #[trigger] windows_register(f, i);
            assert(windows_register(float, n) != windows_register(f, i));
        }
    } else {
        if float && s.xmms < abi.float_args@.len() {
            assert(r == abi.float_args@[s.xmms]);
        } else if !float && s.gprs < abi.int_args@.len() {
            assert(r == abi.int_args@[s.gprs]);
        }
    }
}

proof fn lemma_places(abi: Abi, types: Seq<Ty>, n: nat)
    requires
        convention_ok(abi),
        n <= types.len(),
        n <= usize::MAX,
    ensures
        places_ok(abi, places_of(abi, types, n), n as int),
    decreases n,
{
    if n > 0 {
        let l = n - 1;
        lemma_places(abi, types, l as nat);
        let s = places_of(abi, types, l as nat);
        let t = places_of(abi, types, n);
        assert(t.places.len() == n);
        assert(t.places.drop_last() =~= s.places);
        assert forall|i: int| #![trigger t.places[i]] 0 <= i < n implies match t.places[i] {
            Place::Register(r) => took(abi, t, n as int, r) && is_argument(abi, r),
            Place::Stack(k) => k < t.stack,
        } by {
            if i < l {
                assert(t.places[i] == s.places[i]);
                if let Place::Register(r) = s.places[i] {
                    lemma_taken_stays(abi, types[l], l, s, r);
                }
            } else if let Place::Register(r) = t.places[i] {
                lemma_fresh(abi, types[l], l, s, r);
            }
        }
        assert forall|i: int, j: int|
            #![trigger t.places[i], t.places[j]]
            0 <= i < j < n implies t.places[i] != t.places[j] by {
            assert(t.places[i] == s.places[i]);
            if j < l {
                assert(t.places[j] == s.places[j]);
            } else if let Place::Register(r) = t.places[j] {
                lemma_fresh(abi, types[l], l, s, r);
            }
        }
    }
}

proof fn lemma_taken_stays(abi: Abi, ty: Ty, n: int, s: Placement, r: PhysReg)
    requires
        0 <= n,
        took(abi, s, n, r),
    ensures
        took(abi, place_one(abi, ty, n, s), n + 1, r),
{
    let t = place_one(abi, ty, n, s);
    if abi.windows {
        let (f, i) = choose|f: bool, i: int|
            0 <= i < n && i < 4 && r == #[trigger] windows_register(f, i);
        assert(r == windows_register(f, i));
    }
}

/// The types of the values decide their places.
proof fn lemma_places_of(cx: EmitContext, args: Seq<Value>, types: Seq<Ty>, n: nat)
    requires
        n <= args.len() == types.len(),
        forall|i: int|
            #![trigger types[i]]
            0 <= i < types.len() ==> value_type(cx, args[i]) == Some(types[i]),
    ensures
        place_args(cx, args, n) == Some(places_of(*cx.abi, types, n)),
    decreases n,
{
    if n > 0 {
        lemma_places_of(cx, args, types, (n - 1) as nat);
        assert(types[n - 1] == types[n - 1]);
    }
}

/// The arguments are staged.
proof fn lemma_staged(
    start: Start,
    ops: Seq<AsmOp>,
    c: Cpu,
    cx: EmitContext,
    args: Seq<Value>,
    regs: Seq<(Value, PhysReg)>,
    base: int,
    n: nat,
    unit: Unit,
) -> (e: Cpu)
    requires
        run(start, ops, unit) == Some(c),
        n <= args.len(),
        0 <= base,
        base + 8 * n <= i32::MAX,
    ensures
        stage_args(Some(ops), cx, args, regs, base, n) is Some,
        run(start, stage_args(Some(ops), cx, args, regs, base, n).unwrap(), unit) == Some(e),
        forall|r: PhysReg| #![trigger get(e, r)] get(e, r) == get(c, r),
        forall|i: int|
            #![trigger args[i]]
            0 <= i < n ==> word(e, get(c, PhysReg::Rsp) + base + 8 * i) == get(c, at(regs, args[i])),
        forall|a: int|
            #![trigger word(e, a)]
            a < get(c, PhysReg::Rsp) + base || a >= get(c, PhysReg::Rsp) + base + 8 * n ==> word(
                e,
                a,
            ) == word(c, a),
    decreases n,
{
    if n == 0 {
        c
    } else {
        let l = (n - 1) as nat;
        let d = lemma_staged(start, ops, c, cx, args, regs, base, l, unit);
        let before = stage_args(Some(ops), cx, args, regs, base, l).unwrap();
        let src = at(regs, args[n - 1]);
        let offset = (base + 8 * (n - 1)) as i32;
        assert(offset == base + 8 * (n - 1));
        let op = if value_type(cx, args[n - 1]).unwrap() == Ty::F64 {
            AsmOp::MovsdMemReg { base: PhysReg::Rsp, offset, src }
        } else {
            AsmOp::MovMemReg { base: PhysReg::Rsp, offset, src }
        };
        lemma_put(start, before, op, d, unit);
        let e = with_word(d, get(c, PhysReg::Rsp) + base + 8 * (n - 1), get(c, src));
        assert(get(d, PhysReg::Rsp) == get(c, PhysReg::Rsp));
        assert(get(d, src) == get(c, src));
        assert(step(d, op, unit) == Some(e));
        assert forall|i: int| #![trigger args[i]] 0 <= i < n implies word(
            e,
            get(c, PhysReg::Rsp) + base + 8 * i,
        ) == get(c, at(regs, args[i])) by {
            if i < l {
                assert(word(d, get(c, PhysReg::Rsp) + base + 8 * i) == get(c, at(regs, args[i])));
            }
        }
        e
    }
}

/// The staged arguments reach their places.
#[verifier::rlimit(60)]
#[verifier::spinoff_prover]
proof fn lemma_unstaged(
    start: Start,
    ops: Seq<AsmOp>,
    c: Cpu,
    cx: EmitContext,
    args: Seq<Value>,
    s: Placement,
    n: nat,
    vals: Seq<u64>,
    unit: Unit,
) -> (e: Cpu)
    requires
        run(start, ops, unit) == Some(c),
        convention_ok(*cx.abi),
        cx.abi.scratch_xmm@.len() > 2,
        cx.abi.scratch_gpr@.len() > 1,
        places_ok(*cx.abi, s, args.len() as int),
        n <= args.len() == vals.len(),
        stage_base(cx, s) + 8 * args.len() <= i32::MAX,
        forall|i: int|
            #![trigger vals[i]]
            0 <= i < vals.len() ==> word(c, get(c, PhysReg::Rsp) + stage_base(cx, s) + 8 * i)
                == vals[i],
    ensures
        unstage_args(Some(ops), cx, args, s.places, stage_base(cx, s), n) is Some,
        run(
            start,
            unstage_args(Some(ops), cx, args, s.places, stage_base(cx, s), n).unwrap(),
            unit,
        ) == Some(e),
        forall|i: int|
            #![trigger s.places[i]]
            0 <= i < n ==> passed(e, *cx.abi, s.places[i]) == vals[i],
        forall|a: int|
            #![trigger word(e, a)]
            a >= get(c, PhysReg::Rsp) + stage_base(cx, s) ==> word(e, a) == word(c, a),
        forall|r: PhysReg|
            #![trigger get(e, r)]
            !is_argument(*cx.abi, r) && r != cx.abi.scratch_gpr@[1] && r != cx.abi.scratch_xmm@[2]
                ==> get(e, r) == get(c, r),
        get(e, PhysReg::Rsp) == get(c, PhysReg::Rsp),
    decreases n,
{
    if n == 0 {
        c
    } else {
        let l = (n - 1) as nat;
        let base = stage_base(cx, s);
        let rsp = get(c, PhysReg::Rsp);
        let d = lemma_unstaged(start, ops, c, cx, args, s, l, vals, unit);
        let before = unstage_args(Some(ops), cx, args, s.places, base, l).unwrap();
        let float = value_type(cx, args[n - 1]).unwrap() == Ty::F64;
        let scratch = if float {
            cx.abi.scratch_xmm@[2]
        } else {
            cx.abi.scratch_gpr@[1]
        };
        assert(is_scratch(*cx.abi, scratch)) by {
            if float {
                assert(cx.abi.scratch_xmm@.contains(scratch));
            } else {
                assert(cx.abi.scratch_gpr@.contains(scratch));
            }
        }
        let offset = (base + 8 * (n - 1)) as i32;
        assert(offset == base + 8 * (n - 1));
        assert(vals[n - 1] == vals[n - 1]);
        assert(word(d, rsp + base + 8 * (n - 1)) == vals[n - 1]);
        let to = match s.places[n - 1] {
            Place::Register(r) => r,
            Place::Stack(_) => scratch,
        };
        let load = if float {
            AsmOp::MovsdRegMem { dst: to, base: PhysReg::Rsp, offset }
        } else {
            AsmOp::MovRegMem { dst: to, base: PhysReg::Rsp, offset }
        };
        lemma_put(start, before, load, d, unit);
        let d1 = with_register(d, to, vals[n - 1]);
        assert(step(d, load, unit) == Some(d1));
        match s.places[n - 1] {
            Place::Register(r) => {
                assert(!is_pointer(r)) by {
                    assert(is_argument(*cx.abi, r));
                    assert(clobbers(Clobber::Call, r));
                }
                assert forall|a: int|
                    #![trigger word(d1, a)]
                    a >= rsp + base implies word(d1, a) == word(c, a) by {
                    assert(word(d, a) == word(c, a));
                }
                assert forall|i: int| #![trigger s.places[i]] 0 <= i < n implies passed(
                    d1,
                    *cx.abi,
                    s.places[i],
                ) == vals[i] by {
                    if i < l {
                        assert(s.places[i] != s.places[n - 1]);
                        assert(passed(d, *cx.abi, s.places[i]) == vals[i]);
                    }
                }
                d1
            },
            Place::Stack(k) => {
                assert(k < s.stack);
                let there = (shadow(cx.abi.windows) + 8 * k) as i32;
                assert(there == shadow(cx.abi.windows) + 8 * k);
                let store = if float {
                    AsmOp::MovsdMemReg { base: PhysReg::Rsp, offset: there, src: scratch }
                } else {
                    AsmOp::MovMemReg { base: PhysReg::Rsp, offset: there, src: scratch }
                };
                lemma_put(start, before.push(load), store, d1, unit);
                let e = with_word(d1, rsp + shadow(cx.abi.windows) + 8 * k, vals[n - 1]);
                assert(get(d1, PhysReg::Rsp) == rsp);
                assert(step(d1, store, unit) == Some(e));
                assert forall|a: int|
                    #![trigger word(e, a)]
                    a >= rsp + base implies word(e, a) == word(c, a) by {
                    assert(word(d, a) == word(c, a));
                }
                assert forall|i: int| #![trigger s.places[i]] 0 <= i < n implies passed(
                    e,
                    *cx.abi,
                    s.places[i],
                ) == vals[i] by {
                    if i < l {
                        assert(s.places[i] != s.places[n - 1]);
                        assert(passed(d, *cx.abi, s.places[i]) == vals[i]);
                        if let Place::Register(r) = s.places[i] {
                            assert(is_argument(*cx.abi, r));
                        }
                    }
                }
                e
            },
        }
    }
}

/// What an external call needs to compute what its function gives.
pub open spec fn external_fits(
    cx: EmitContext,
    address: i64,
    args: Seq<Value>,
    regs: Seq<(Value, PhysReg)>,
    dst: Value,
    unit: Unit,
) -> bool {
    let (types, ty) = (unit.signature)(address);
    &&& args.len() == types.len()
    &&& forall|i: int|
        #![trigger args[i]]
        0 <= i < args.len() ==> value_type(cx, args[i]) == Some(types[i]) && !is_pointer(
            at(regs, args[i]),
        )
    &&& (value_type(cx, dst) == Some(Ty::F64)) == (ty == Ty::F64)
    &&& !is_pointer(at(regs, dst))
}

/// The registers are saved, and the arguments are in their places.
#[verifier::rlimit(80)]
#[verifier::spinoff_prover]
proof fn lemma_external_ready(
    start: Start,
    ops: Seq<AsmOp>,
    cx: EmitContext,
    address: i64,
    args: Seq<Value>,
    regs: Seq<(Value, PhysReg)>,
    dst: Value,
    position: u32,
    c: Cpu,
    unit: Unit,
) -> (e: Cpu)
    requires
        run(start, ops, unit) == Some(c),
        roomy(c, cx.framed),
        places_free(cx),
        convention_ok(*cx.abi),
        external_ok(cx, args, dst, position),
        args.len() <= usize::MAX,
        external_fits(cx, address, args, regs, dst, unit),
    ensures
        ({
            let s = place_args(cx, args, args.len()).unwrap();
            let saved = to_save(cx, position, Clobber::Call);
            let stage = stage_base(cx, s);
            let base = stage + 8 * args.len() as int;
            let bytes = call_bytes(cx, s, saved.len());
            let kept = save_all(move_stack(Some(ops), AluOp::Sub, bytes), saved, base, saved.len());
            let staged = stage_args(kept, cx, args, regs, stage, args.len());
            let ready = unstage_args(staged, cx, args, s.places, stage, args.len());
            let rsp = get(c, PhysReg::Rsp);
            &&& places_of(*cx.abi, (unit.signature)(address).0, args.len()) == s
            &&& ready is Some
            &&& run(start, ready.unwrap(), unit) == Some(e)
            &&& get(e, PhysReg::Rsp) == rsp - bytes
            &&& (rsp - bytes) % 16 == 0
            &&& 0 <= stage
            &&& base + 8 * saved.len() <= bytes
            &&& forall|i: int|
                #![trigger s.places[i]]
                0 <= i < args.len() ==> passed(e, *cx.abi, s.places[i]) == get(
                    c,
                    at(regs, args[i]),
                ) && s.places[i] != Place::Register(PhysReg::R11)
            &&& forall|i: int|
                #![trigger saved[i]]
                0 <= i < saved.len() ==> word(e, rsp - bytes + base + 8 * i) == get(c, saved[i])
            &&& forall|a: int| #![trigger word(e, a)] a >= rsp ==> word(e, a) == word(c, a)
        }),
        forall|r: PhysReg|
            #![trigger get(e, r)]
            !is_argument(*cx.abi, r) && !is_scratch(*cx.abi, r) && r != PhysReg::Rsp ==> get(e, r)
                == get(c, r),
{
    let (types, ty) = (unit.signature)(address);
    let abi = *cx.abi;
    let saved = to_save(cx, position, Clobber::Call);
    let s = place_args(cx, args, args.len()).unwrap();
    assert forall|i: int| #![trigger types[i]] 0 <= i < types.len() implies value_type(cx, args[i])
        == Some(types[i]) by {
        assert(value_type(cx, args[i]) == Some(types[i]));
    }
    lemma_places_of(cx, args, types, args.len());
    lemma_places(abi, types, args.len());
    let stage = stage_base(cx, s);
    let base = stage + 8 * args.len() as int;
    let bytes = call_bytes(cx, s, saved.len());
    let rsp = get(c, PhysReg::Rsp);
    assert(abi.scratch_xmm@.contains(abi.scratch_xmm@[2]));
    assert(abi.scratch_gpr@.contains(abi.scratch_gpr@[1]));
    assert(is_scratch(abi, abi.scratch_xmm@[2]) && is_scratch(abi, abi.scratch_gpr@[1]));
    lemma_saved_free(cx, position, Clobber::Call);
    lemma_aligned(stage + 8 * args.len() as int + 8 * saved.len() as int, cx.framed);
    let c1 = lemma_entered(start, ops, c, saved, base, bytes, unit);
    let kept = save_all(move_stack(Some(ops), AluOp::Sub, bytes), saved, base, saved.len()).unwrap();
    let c2 = lemma_staged(start, kept, c1, cx, args, regs, stage, args.len(), unit);
    let staged = stage_args(Some(kept), cx, args, regs, stage, args.len()).unwrap();
    let vals = Seq::new(args.len(), |i: int| get(c, at(regs, args[i])));
    assert(get(c2, PhysReg::Rsp) == rsp - bytes);
    assert forall|i: int| #![trigger vals[i]] 0 <= i < vals.len() implies word(
        c2,
        get(c2, PhysReg::Rsp) + stage + 8 * i,
    ) == vals[i] by {
        assert(!is_pointer(at(regs, args[i])));
        assert(word(c2, get(c1, PhysReg::Rsp) + stage + 8 * i) == get(c1, at(regs, args[i])));
        assert(get(c1, at(regs, args[i])) == get(c, at(regs, args[i])));
    }
    let e = lemma_unstaged(start, staged, c2, cx, args, s, args.len(), vals, unit);
    assert forall|i: int| #![trigger s.places[i]] 0 <= i < args.len() implies passed(
        e,
        *cx.abi,
        s.places[i],
    ) == get(c, at(regs, args[i])) && s.places[i] != Place::Register(PhysReg::R11) by {
        assert(passed(e, abi, s.places[i]) == vals[i]);
        if let Place::Register(r) = s.places[i] {
            assert(is_argument(abi, r));
        }
    }
    assert forall|a: int| #![trigger word(e, a)] a >= rsp - bytes + base implies word(e, a)
        == word(c1, a) by {
        assert(word(e, a) == word(c2, a));
        assert(word(c2, a) == word(c1, a));
    }
    assert forall|i: int| #![trigger saved[i]] 0 <= i < saved.len() implies word(
        e,
        rsp - bytes + base + 8 * i,
    ) == get(c, saved[i]) by {
        assert(word(c1, rsp - bytes + base + 8 * i) == get(c, saved[i]));
    }
    assert forall|a: int| #![trigger word(e, a)] a >= rsp implies word(e, a) == word(c, a) by {
        assert(word(e, a) == word(c1, a));
    }
    assert forall|r: PhysReg|
        #![trigger get(e, r)]
        !is_argument(*cx.abi, r) && !is_scratch(*cx.abi, r) && r != PhysReg::Rsp implies get(e, r)
        == get(c, r) by {
        assert(get(e, r) == get(c2, r));
        assert(get(c2, r) == get(c1, r));
    }
    e
}

/// An external call: the function finds the arguments in their places, what it
/// gives is in the register of the result, and what is live survives.
#[verifier::rlimit(80)]
#[verifier::spinoff_prover]
pub proof fn lemma_external_call_computes(
    start: Start,
    ops: Seq<AsmOp>,
    cx: EmitContext,
    inst: MachineInst,
    address: i64,
    args: Seq<Value>,
    regs: Seq<(Value, PhysReg)>,
    dst: Value,
    position: u32,
    c: Cpu,
    unit: Unit,
) -> (e: Cpu)
    requires
        run(start, ops, unit) == Some(c),
        roomy(c, cx.framed),
        places_free(cx),
        convention_ok(*cx.abi),
        calls_ok(*cx.abi, unit),
        inst is ExternalCall,
        external_ok(cx, args, dst, position),
        args.len() <= usize::MAX,
        external_fits(cx, address, args, regs, dst, unit),
    ensures
        ({
            let q = external_call(Some(ops), cx, address, args, regs, dst, position);
            q is Some && run(start, q.unwrap(), unit) == Some(e)
        }),
        carried_out(
            cx,
            inst,
            position,
            c,
            e,
            at(regs, dst),
            (unit.external)(address, Seq::new(args.len(), |i: int| get(c, at(regs, args[i])))),
        ),
{
    let (types, ty) = (unit.signature)(address);
    let abi = *cx.abi;
    let saved = to_save(cx, position, Clobber::Call);
    let s = place_args(cx, args, args.len()).unwrap();
    let stage = stage_base(cx, s);
    let base = stage + 8 * args.len() as int;
    let bytes = call_bytes(cx, s, saved.len());
    let rsp = get(c, PhysReg::Rsp);
    let float = value_type(cx, dst) == Some(Ty::F64);
    let scratch = if float {
        abi.scratch_xmm@[2]
    } else {
        abi.scratch_gpr@[1]
    };
    assert(abi.scratch_xmm@.contains(abi.scratch_xmm@[2]));
    assert(abi.scratch_gpr@.contains(abi.scratch_gpr@[1]));
    assert(is_scratch(abi, scratch));
    lemma_saved_free(cx, position, Clobber::Call);
    let vals = Seq::new(args.len(), |i: int| get(c, at(regs, args[i])));
    let c3 = lemma_external_ready(start, ops, cx, address, args, regs, dst, position, c, unit);
    let kept = save_all(move_stack(Some(ops), AluOp::Sub, bytes), saved, base, saved.len());
    let staged = stage_args(kept, cx, args, regs, stage, args.len());
    let ready = unstage_args(staged, cx, args, s.places, stage, args.len()).unwrap();
    let load = AsmOp::MovRegImm { dst: PhysReg::R11, imm: address };
    lemma_put(start, ready, load, c3, unit);
    let c4 = with_register(c3, PhysReg::R11, address as u64);
    let call = AsmOp::CallReg { target: PhysReg::R11 };
    lemma_put(start, ready.push(load), call, c4, unit);
    assert(get(c4, PhysReg::R11) == address as u64);
    let c5 = (unit.call)(address as u64, c4);
    assert(get(c4, PhysReg::Rsp) == rsp - bytes);
    assert(external_conforms(abi, unit, address, c4));
    assert(kept_by_call(c4, c5, abi, s.stack));
    assert(Seq::new(types.len(), |i: int| passed(c4, abi, s.places[i])) =~= vals) by {
        assert forall|i: int| 0 <= i < types.len() implies passed(c4, abi, s.places[i])
            == vals[i] by {
            assert(passed(c3, abi, s.places[i]) == vals[i]);
        }
    }
    assert(get(c5, answer(float)) == (unit.external)(address, vals));
    assert forall|a: int| #![trigger word(c5, a)] a >= rsp - bytes + base implies word(c5, a)
        == word(c3, a) by {
        assert(word(c4, a) == word(c3, a));
    }
    assert forall|i: int| #![trigger saved[i]] 0 <= i < saved.len() implies word(
        c5,
        rsp - bytes + base + 8 * i,
    ) == get(c, saved[i]) by {
        assert(word(c3, rsp - bytes + base + 8 * i) == get(c, saved[i]));
    }
    let e = lemma_left(
        start,
        ready.push(load).push(call),
        c,
        c5,
        saved,
        base,
        bytes,
        float,
        scratch,
        at(regs, dst),
        unit,
    );
    assert forall|a: int| #![trigger word(e, a)] a >= rsp implies word(e, a) == word(c, a) by {
        assert(word(c5, a) == word(c3, a));
        assert(word(c3, a) == word(c, a));
    }
    assert forall|r: PhysReg|
        #![trigger get(e, r)]
        r != at(regs, dst) && !is_scratch(abi, r) && !lost(cx, inst, position, r) && r
            != PhysReg::Rsp implies get(e, r) == get(c, r) by {
        if !saved.contains(r) {
            lemma_untouched(abi, r);
            assert(get(e, r) == get(c5, r));
            assert(get(c5, r) == get(c4, r));
            assert(get(c4, r) == get(c3, r));
            assert(get(c3, r) == get(c, r));
        }
    }
    assert(!saved.contains(PhysReg::Rbp));
    lemma_untouched(abi, PhysReg::Rbp);
    assert(!is_scratch(abi, PhysReg::Rbp));
    assert(get(e, PhysReg::Rbp) == get(c5, PhysReg::Rbp));
    assert(get(c5, PhysReg::Rbp) == get(c4, PhysReg::Rbp));
    assert(get(c4, PhysReg::Rbp) == get(c3, PhysReg::Rbp));
    assert(get(c3, PhysReg::Rbp) == get(c, PhysReg::Rbp));
    e
}

/// Registers that calls keep carry no arguments.
proof fn lemma_untouched(abi: Abi, r: PhysReg)
    requires
        convention_ok(abi),
    ensures
        !clobbers(Clobber::Call, r) ==> !is_argument(abi, r) && r != PhysReg::R11,
{
}

} // verus!
