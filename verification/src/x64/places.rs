//! An instruction computes what it stands for wherever its values live.
use crate::ir::{Block, Ty, Value};
use crate::x64::body::Labels;
use crate::x64::body::{performed, reloaded, written_back};
use crate::x64::calls::{
    calls_ok, carried_out, convention_ok, is_pointer, is_scratch,
    lemma_external_call_computes, lemma_libm_call_computes, lemma_saved_free,
    lemma_with_saved_computes, lost, overwrites, places_free, roomy,
};
use crate::x64::copies::CopyFrame;
use crate::x64::copies::{lemma_slots_apart, slot_offset};
use crate::x64::execute::{
    computed, get, keeps_operands, lemma_put, lemma_translated_computes, meaning, peek, poke,
    run, takes, with_register, word, Cpu, Start, Unit,
};
use crate::x64::layout::{
    lemma_lookup_push, location, mentioned, resolve, resolve_one, shared_scratch, to_save,
    value_type, Resolved,
};
use crate::x64::layout::{Clobber, EmitContext};
use crate::x64::machine::{defines, reads, Ops};
use crate::x64::machine::{AsmOp, Label, Location, MachineInst, PhysReg};
use crate::x64::translate::{all_at, at, lookup, translated};
use vstd::prelude::*;

verus! {

/// What a location holds.
pub open spec fn held(c: Cpu, l: Location, spill_bias: i32) -> u64 {
    match l {
        Location::Reg(r) => get(c, r),
        Location::Spill(s) => peek(c, PhysReg::Rbp, slot_offset(s, spill_bias).unwrap()),
    }
}

/// The slot does not lie below the stack pointer.
pub open spec fn above_stack(c: Cpu, slot: u32, spill_bias: i32) -> bool {
    slot_offset(slot, spill_bias) matches Some(offset) ==> get(c, PhysReg::Rsp) <= get(
        c,
        PhysReg::Rbp,
    ) + offset
}

/// The scratch registers are different ones, none points to the stack or to
/// the frame, and no value lives in one.
pub open spec fn scratch_free(cx: EmitContext) -> bool {
    let g = cx.abi.scratch_gpr@;
    let x = cx.abi.scratch_xmm@;
    &&& forall|i: int, j: int| #![trigger g[i], g[j]] 0 <= i < j < g.len() ==> g[i] != g[j]
    &&& forall|i: int, j: int| #![trigger x[i], x[j]] 0 <= i < j < x.len() ==> x[i] != x[j]
    &&& forall|i: int, j: int|
        #![trigger g[i], x[j]]
        0 <= i < g.len() && 0 <= j < x.len() ==> g[i] != x[j]
    &&& forall|r: PhysReg| #[trigger] is_scratch(*cx.abi, r) ==> !is_pointer(r)
    &&& places_free(cx)
}

/// A register that was found for a value: its own, or a scratch register that
/// was taken.
pub open spec fn found(cx: EmitContext, v: Value, r: PhysReg, s: Resolved) -> bool {
    match location(cx, v) {
        None => false,
        Some(Location::Reg(own)) => r == own,
        Some(Location::Spill(_)) => {
            ||| exists|i: int|
                #![trigger cx.abi.scratch_gpr@[i]]
                0 <= i < s.gprs && r == cx.abi.scratch_gpr@[i]
            ||| exists|i: int|
                #![trigger cx.abi.scratch_xmm@[i]]
                0 <= i < s.xmms && r == cx.abi.scratch_xmm@[i]
        },
    }
}

/// The first `k` values that are read have their registers, and those that
/// live in slots have different ones.
pub open spec fn resolved_ok(cx: EmitContext, inst: MachineInst, k: nat, s: Resolved) -> bool {
    &&& 0 <= s.gprs <= cx.abi.scratch_gpr@.len()
    &&& 0 <= s.xmms <= cx.abi.scratch_xmm@.len()
    &&& forall|v: Value|
        #![trigger lookup(s.entries, v)]
        lookup(s.entries, v) is Some ==> found(cx, v, lookup(s.entries, v).unwrap(), s) && reads(
            inst,
        ).contains(v)
    &&& forall|i: int|
        #![trigger reads(inst)[i]]
        0 <= i < k ==> lookup(s.entries, reads(inst)[i]) is Some
    &&& forall|u: Value, v: Value|
        #![trigger lookup(s.entries, u), lookup(s.entries, v)]
        u != v && lookup(s.entries, u) is Some && lookup(s.entries, v) is Some && (location(cx, v)
            matches Some(Location::Spill(_))) ==> lookup(s.entries, u) != lookup(s.entries, v)
}

/// The instruction does not read its own result.
pub open spec fn result_is_new(inst: MachineInst) -> bool {
    defines(inst) matches Some(v) ==> !reads(inst).contains(v)
}

proof fn lemma_found_scratch(cx: EmitContext, v: Value, r: PhysReg, s: Resolved)
    requires
        found(cx, v, r, s),
        0 <= s.gprs <= cx.abi.scratch_gpr@.len(),
        0 <= s.xmms <= cx.abi.scratch_xmm@.len(),
        location(cx, v) matches Some(Location::Spill(_)),
    ensures
        is_scratch(*cx.abi, r),
{
}

#[verifier::rlimit(60)]
pub(crate) proof fn lemma_resolved(cx: EmitContext, inst: MachineInst, k: nat)
    requires
        k <= reads(inst).len(),
        resolve(cx, inst, k) is Some,
        scratch_free(cx),
        result_is_new(inst),
    ensures
        resolved_ok(cx, inst, k, resolve(cx, inst, k).unwrap()),
    decreases k,
{
    if k > 0 {
        let l = (k - 1) as nat;
        lemma_resolved(cx, inst, l);
        let s = resolve(cx, inst, l).unwrap();
        let t = resolve(cx, inst, k).unwrap();
        let v = reads(inst)[k - 1];
        assert(mentioned(inst)[k - 1] == v);
        assert(reads(inst).contains(v));
        if lookup(s.entries, v) is None {
            let e = t.entries.last();
            assert(t.entries == s.entries.push(e));
            assert forall|u: Value| #![trigger lookup(t.entries, u)] true implies lookup(
                t.entries,
                u,
            ) == match lookup(s.entries, u) {
                Some(r) => Some(r),
                None => if e.0 == u {
                    Some(e.1)
                } else {
                    None
                },
            } by {
                lemma_lookup_push(s.entries, e, u);
            }
            assert(e.0 == v);
            assert(found(cx, v, e.1, t)) by {
                if location(cx, v) matches Some(Location::Spill(_)) {
                    if t.gprs > s.gprs {
                        assert(e.1 == cx.abi.scratch_gpr@[s.gprs]);
                    } else {
                        assert(e.1 == cx.abi.scratch_xmm@[s.xmms]);
                    }
                }
            }
            assert forall|u: Value| #![trigger lookup(t.entries, u)] lookup(
                t.entries,
                u,
            ) is Some implies found(cx, u, lookup(t.entries, u).unwrap(), t) && reads(
                inst,
            ).contains(u) by {
                if u != v {
                    assert(lookup(s.entries, u) == lookup(t.entries, u));
                    assert(found(cx, u, lookup(s.entries, u).unwrap(), s));
                }
            }
            assert forall|i: int| #![trigger reads(inst)[i]] 0 <= i < k implies lookup(
                t.entries,
                reads(inst)[i],
            ) is Some by {
                if i < l {
                    assert(lookup(s.entries, reads(inst)[i]) is Some);
                }
            }
            assert forall|a: Value, b: Value|
                #![trigger lookup(t.entries, a), lookup(t.entries, b)]
                a != b && lookup(t.entries, a) is Some && lookup(t.entries, b) is Some && (location(
                    cx,
                    b,
                ) matches Some(Location::Spill(_))) implies lookup(t.entries, a) != lookup(
                t.entries,
                b,
            ) by {
                lemma_apart(cx, inst, s, t, v, e.1, a, b);
            }
        }
    }
}

/// A register that was just taken is not one that was found before.
#[verifier::rlimit(40)]
proof fn lemma_apart(
    cx: EmitContext,
    inst: MachineInst,
    s: Resolved,
    t: Resolved,
    v: Value,
    r: PhysReg,
    a: Value,
    b: Value,
)
    requires
        scratch_free(cx),
        reads(inst).contains(v),
        reads(inst).contains(a),
        reads(inst).contains(b),
        0 <= s.gprs <= t.gprs <= cx.abi.scratch_gpr@.len(),
        0 <= s.xmms <= t.xmms <= cx.abi.scratch_xmm@.len(),
        lookup(s.entries, v) is None,
        forall|u: Value|
            #![trigger lookup(s.entries, u)]
            lookup(s.entries, u) is Some ==> found(cx, u, lookup(s.entries, u).unwrap(), s),
        forall|x: Value, y: Value|
            #![trigger lookup(s.entries, x), lookup(s.entries, y)]
            x != y && lookup(s.entries, x) is Some && lookup(s.entries, y) is Some && (location(
                cx,
                y,
            ) matches Some(Location::Spill(_))) ==> lookup(s.entries, x) != lookup(s.entries, y),
        forall|u: Value|
            #![trigger lookup(t.entries, u)]
            lookup(t.entries, u) == if u == v {
                Some(r)
            } else {
                lookup(s.entries, u)
            },
        match location(cx, v) {
            Some(Location::Reg(own)) => r == own && t.gprs == s.gprs && t.xmms == s.xmms,
            Some(Location::Spill(_)) => {
                ||| t.gprs == s.gprs + 1 && t.xmms == s.xmms && r == cx.abi.scratch_gpr@[s.gprs]
                ||| t.xmms == s.xmms + 1 && t.gprs == s.gprs && r == cx.abi.scratch_xmm@[s.xmms]
            },
            None => false,
        },
        a != b,
        lookup(t.entries, a) is Some,
        lookup(t.entries, b) is Some,
        location(cx, b) matches Some(Location::Spill(_)),
    ensures
        lookup(t.entries, a) != lookup(t.entries, b),
{
    let ra = lookup(t.entries, a).unwrap();
    let rb = lookup(t.entries, b).unwrap();
    let g = cx.abi.scratch_gpr@;
    let x = cx.abi.scratch_xmm@;
    let other = if b == v {
        a
    } else {
        b
    };
    if a != v && b != v {
        assert(lookup(s.entries, a) is Some && lookup(s.entries, b) is Some);
    } else {
        // One of the two is the new one.
        let ro = lookup(s.entries, other).unwrap();
        assert(found(cx, other, ro, s));
        let i = reads(inst).index_of(v);
        let j = reads(inst).index_of(other);
        assert(reads(inst)[i] == v && reads(inst)[j] == other);
        assert(mentioned(inst)[i] == v && mentioned(inst)[j] == other);
        match (location(cx, v), location(cx, other)) {
            (Some(Location::Reg(own)), Some(Location::Spill(_))) => {
                lemma_found_scratch(cx, other, ro, s);
                assert(!is_scratch(*cx.abi, own));
            },
            (Some(Location::Spill(_)), Some(Location::Reg(own))) => {
                assert(!is_scratch(*cx.abi, own));
                assert(is_scratch(*cx.abi, r));
            },
            _ => {},
        }
    }
}

/// The loads bring the values that live in slots into their registers.
#[verifier::rlimit(60)]
pub(crate) proof fn lemma_reloaded(
    start: Start,
    ops: Seq<AsmOp>,
    cx: EmitContext,
    inst: MachineInst,
    regs: Seq<(Value, PhysReg)>,
    s: Resolved,
    k: nat,
    c: Cpu,
    unit: Unit,
) -> (e: Cpu)
    requires
        run(start, ops, unit) == Some(c),
        k <= reads(inst).len(),
        reloaded(Some(ops), cx, inst, regs, k) is Some,
        scratch_free(cx),
        resolved_ok(cx, inst, reads(inst).len(), s),
        forall|i: int|
            #![trigger reads(inst)[i]]
            0 <= i < reads(inst).len() ==> Some(at(regs, reads(inst)[i])) == lookup(
                s.entries,
                reads(inst)[i],
            ),
    ensures
        run(start, reloaded(Some(ops), cx, inst, regs, k).unwrap(), unit) == Some(e),
        e.memory == c.memory,
        forall|r: PhysReg|
            #![trigger get(e, r)]
            !is_scratch(*cx.abi, r) ==> get(e, r) == get(c, r),
        forall|i: int|
            #![trigger reads(inst)[i]]
            0 <= i < k ==> location(cx, reads(inst)[i]) is Some && get(e, at(regs, reads(inst)[i]))
                == held(c, location(cx, reads(inst)[i]).unwrap(), cx.spill_bias),
    decreases k,
{
    if k == 0 {
        c
    } else {
        let l = (k - 1) as nat;
        let v = reads(inst)[l as int];
        let before = reloaded(Some(ops), cx, inst, regs, l);
        assert(before is Some);
        let d = lemma_reloaded(start, ops, cx, inst, regs, s, l, c, unit);
        assert(lookup(s.entries, v) is Some);
        let r = at(regs, v);
        assert(found(cx, v, r, s));
        assert(mentioned(inst)[l as int] == v);
        if reads(inst).take(l as int).contains(v) {
            let i = reads(inst).take(l as int).index_of(v);
            assert(reads(inst)[i] == v);
            d
        } else {
            match location(cx, v) {
                Some(Location::Spill(slot)) => {
                    let ty = value_type(cx, v).unwrap();
                    let offset = slot_offset(slot, cx.spill_bias).unwrap();
                    let op = if ty == Ty::F64 {
                        AsmOp::MovsdRegMem { dst: r, base: PhysReg::Rbp, offset }
                    } else {
                        AsmOp::MovRegMem { dst: r, base: PhysReg::Rbp, offset }
                    };
                    lemma_put(start, before.unwrap(), op, d, unit);
                    assert(!is_scratch(*cx.abi, PhysReg::Rbp));
                    let e = with_register(d, r, peek(d, PhysReg::Rbp, offset));
                    lemma_found_scratch(cx, v, r, s);
                    assert forall|i: int| #![trigger reads(inst)[i]] 0 <= i < k implies location(
                        cx,
                        reads(inst)[i],
                    ) is Some && get(e, at(regs, reads(inst)[i])) == held(
                        c,
                        location(cx, reads(inst)[i]).unwrap(),
                        cx.spill_bias,
                    ) by {
                        let u = reads(inst)[i];
                        if i < l {
                            assert(reads(inst).take(l as int)[i] == u);
                            assert(u != v);
                            assert(lookup(s.entries, u) != lookup(s.entries, v));
                            assert(get(e, at(regs, u)) == get(d, at(regs, u)));
                        }
                    }
                    e
                },
                _ => {
                    assert(get(d, r) == get(c, r));
                    d
                },
            }
        }
    }
}

/// An instruction depends on what it reads.
#[verifier::rlimit(60)]
pub(crate) proof fn lemma_meaning_same(
    inst: MachineInst,
    f: spec_fn(Value) -> u64,
    g: spec_fn(Value) -> u64,
    labels: Seq<Label>,
    unit: Unit,
)
    requires
        forall|i: int|
            #![trigger reads(inst)[i]]
            0 <= i < reads(inst).len() ==> f(reads(inst)[i]) == g(reads(inst)[i]),
    ensures
        meaning(inst, f, labels, unit) == meaning(inst, g, labels, unit),
{
    let vs = reads(inst);
    assert(vs.len() > 0 ==> f(vs[0]) == g(vs[0]));
    assert(vs.len() > 1 ==> f(vs[1]) == g(vs[1]));
    assert(vs.len() > 2 ==> f(vs[2]) == g(vs[2]));
    if let MachineInst::ExternalCall { args, .. } = inst {
        assert forall|i: int| #![trigger args@[i]] 0 <= i < args@.len() implies f(args@[i]) == g(
            args@[i],
        ) by {
            assert(vs[i] == args@[i]);
        }
        assert(Seq::new(args@.len(), |i: int| f(args@[i])) =~= Seq::new(
            args@.len(),
            |i: int| g(args@[i]),
        ));
    }
}

/// The first `k` values take at most `k` scratch registers.
proof fn lemma_few(cx: EmitContext, inst: MachineInst, k: nat)
    requires
        resolve(cx, inst, k) is Some,
    ensures
        0 <= resolve(cx, inst, k).unwrap().xmms <= k,
    decreases k,
{
    if k > 0 {
        lemma_few(cx, inst, (k - 1) as nat);
    }
}

/// The operations of an instruction whose values may live in slots: the loads,
/// the instruction, and the store of its result.
pub open spec fn in_place(
    ops: Seq<AsmOp>,
    cx: EmitContext,
    labels: Labels,
    frame: CopyFrame,
    source: Block,
    inst: MachineInst,
    regs: Seq<(Value, PhysReg)>,
    position: u32,
) -> Ops {
    written_back(
        performed(
            reloaded(Some(ops), cx, inst, regs, reads(inst).len()),
            cx,
            labels,
            frame,
            source,
            inst,
            regs,
            position,
        ),
        cx,
        inst,
        regs,
    )
}

/// The instruction ends a block, or stands for a parameter.
pub open spec fn is_special(inst: MachineInst) -> bool {
    inst is Param || inst is Jump || inst is Branch || inst is Return
}

/// The result is not where another value has to survive.
pub open spec fn result_apart(cx: EmitContext, inst: MachineInst, position: u32) -> bool {
    overwrites(inst) matches Some(what) ==> what == Clobber::Call || match location(
        cx,
        defines(inst).unwrap(),
    ) {
        Some(Location::Reg(r)) => !to_save(cx, position, what).contains(r),
        _ => true,
    }
}

/// An external function gets what it takes, and gives what is expected of it.
pub open spec fn well_called(cx: EmitContext, inst: MachineInst, unit: Unit) -> bool {
    match inst {
        MachineInst::ExternalCall { dst, address, args } => {
            let (types, ty) = (unit.signature)(address);
            &&& args@.len() == types.len()
            &&& forall|i: int|
                #![trigger args@[i]]
                0 <= i < args@.len() ==> value_type(cx, args@[i]) == Some(types[i])
            &&& (value_type(cx, dst) == Some(Ty::F64)) == (ty == Ty::F64)
        },
        _ => true,
    }
}

/// The instruction itself, its values in registers.
#[verifier::rlimit(60)]
#[verifier::spinoff_prover]
proof fn lemma_performed(
    start: Start,
    ops: Seq<AsmOp>,
    cx: EmitContext,
    labels: Labels,
    frame: CopyFrame,
    source: Block,
    inst: MachineInst,
    regs: Seq<(Value, PhysReg)>,
    position: u32,
    c: Cpu,
    unit: Unit,
    z: u64,
) -> (e: Cpu)
    requires
        run(start, ops, unit) == Some(c),
        roomy(c, cx.framed),
        scratch_free(cx),
        convention_ok(*cx.abi),
        calls_ok(*cx.abi, unit),
        !is_special(inst),
        defines(inst) is Some,
        performed(Some(ops), cx, labels, frame, source, inst, regs, position) is Some,
        keeps_operands(inst, regs),
        !is_pointer(at(regs, defines(inst).unwrap())),
        overwrites(inst) matches Some(what) ==> what == Clobber::Call || !to_save(
            cx,
            position,
            what,
        ).contains(at(regs, defines(inst).unwrap())),
        forall|i: int|
            #![trigger reads(inst)[i]]
            0 <= i < reads(inst).len() ==> !is_pointer(at(regs, reads(inst)[i])),
        inst is CallLibm && cx.abi.scratch_xmm@.len() > 2 ==> forall|i: int|
            #![trigger reads(inst)[i]]
            0 <= i < reads(inst).len() ==> at(regs, reads(inst)[i]) != cx.abi.scratch_xmm@[2],
        well_called(cx, inst, unit),
        meaning(inst, |v: Value| get(c, at(regs, v)), labels.pool@, unit) == Some(z),
    ensures
        run(
            start,
            performed(Some(ops), cx, labels, frame, source, inst, regs, position).unwrap(),
            unit,
        ) == Some(e),
        carried_out(cx, inst, position, c, e, at(regs, defines(inst).unwrap()), z),
{
    let near = |v: Value| get(c, at(regs, v));
    match inst {
        MachineInst::CallLibm { dst, func, args } => {
            let sources = all_at(regs, args@);
            assert forall|i: int| #![trigger sources[i]] 0 <= i < sources.len() implies sources[i]
                != cx.abi.scratch_xmm@[2] && !is_pointer(sources[i]) by {
                assert(reads(inst)[i] == args@[i]);
            }
            lemma_libm_call_computes(
                start,
                ops,
                cx,
                inst,
                func,
                sources,
                at(regs, dst),
                position,
                c,
                unit,
            )
        },
        MachineInst::ExternalCall { dst, address, args } => {
            assert forall|i: int| #![trigger args@[i]] 0 <= i < args@.len() implies !is_pointer(
                at(regs, args@[i]),
            ) by {
                assert(reads(inst)[i] == args@[i]);
            }
            assert(args@.len() == args.len());
            assert(Seq::new(args@.len(), |i: int| near(args@[i])) =~= Seq::new(
                args@.len(),
                |i: int| get(c, at(regs, args@[i])),
            ));
            lemma_external_call_computes(
                start,
                ops,
                cx,
                inst,
                address,
                args@,
                regs,
                dst,
                position,
                c,
                unit,
            )
        },
        MachineInst::IntDiv { .. } | MachineInst::IntRem { .. } => lemma_with_saved_computes(
            start,
            ops,
            cx,
            inst,
            regs,
            labels.pool@,
            position,
            Clobber::Division,
            c,
            unit,
            z,
        ),
        MachineInst::Shl { .. }
        | MachineInst::Shr { .. }
        | MachineInst::Sar { .. } => lemma_with_saved_computes(
            start,
            ops,
            cx,
            inst,
            regs,
            labels.pool@,
            position,
            Clobber::Shift,
            c,
            unit,
            z,
        ),
        _ => {
            assert(performed(Some(ops), cx, labels, frame, source, inst, regs, position)
                == translated(Some(ops), *cx.abi, inst, regs, labels.pool@));
            lemma_translated_computes(start, ops, *cx.abi, inst, regs, labels.pool@, c, unit);
            let e = run(
                start,
                translated(Some(ops), *cx.abi, inst, regs, labels.pool@).unwrap(),
                unit,
            ).unwrap();
            assert(computed(c, Some(e), inst, at(regs, defines(inst).unwrap()), z));
            assert(!takes(inst, PhysReg::Rsp) && !takes(inst, PhysReg::Rbp));
            e
        },
    }
}

/// An instruction computes what it stands for wherever its values live: its
/// result is in its place, the stack is where it was, and every other place is
/// kept but the scratch registers and the registers that the instruction loses.
#[verifier::rlimit(100)]
#[verifier::spinoff_prover]
pub proof fn lemma_in_place_computes(
    start: Start,
    ops: Seq<AsmOp>,
    cx: EmitContext,
    labels: Labels,
    frame: CopyFrame,
    source: Block,
    inst: MachineInst,
    position: u32,
    c: Cpu,
    unit: Unit,
    dst: Value,
    z: u64,
)
    requires
        run(start, ops, unit) == Some(c),
        roomy(c, cx.framed),
        scratch_free(cx),
        convention_ok(*cx.abi),
        calls_ok(*cx.abi, unit),
        !is_special(inst),
        defines(inst) == Some(dst),
        result_is_new(inst),
        result_apart(cx, inst, position),
        well_called(cx, inst, unit),
        resolve(cx, inst, mentioned(inst).len()) is Some,
        keeps_operands(inst, resolve(cx, inst, mentioned(inst).len()).unwrap().entries),
        in_place(
            ops,
            cx,
            labels,
            frame,
            source,
            inst,
            resolve(cx, inst, mentioned(inst).len()).unwrap().entries,
            position,
        ) is Some,
        reloaded(
            Some(ops),
            cx,
            inst,
            resolve(cx, inst, mentioned(inst).len()).unwrap().entries,
            reads(inst).len(),
        ) is Some,
        forall|i: int|
            #![trigger mentioned(inst)[i]]
            0 <= i < mentioned(inst).len() ==> location(cx, mentioned(inst)[i]) is Some,
        meaning(
            inst,
            |v: Value| held(c, location(cx, v).unwrap(), cx.spill_bias),
            labels.pool@,
            unit,
        ) == Some(z),
    ensures
        ({
            let regs = resolve(cx, inst, mentioned(inst).len()).unwrap().entries;
            let e = run(
                start,
                in_place(ops, cx, labels, frame, source, inst, regs, position).unwrap(),
                unit,
            );
            let place = location(cx, dst).unwrap();
            &&& e is Some
            &&& held(e.unwrap(), place, cx.spill_bias) == z
            &&& get(e.unwrap(), PhysReg::Rsp) == get(c, PhysReg::Rsp)
            &&& get(e.unwrap(), PhysReg::Rbp) == get(c, PhysReg::Rbp)
            &&& cx.spill_bias >= 0 ==> forall|a: int|
                #![trigger word(e.unwrap(), a)]
                a >= get(c, PhysReg::Rsp) && a >= get(c, PhysReg::Rbp) ==> word(e.unwrap(), a)
                    == word(c, a)
            &&& forall|l: Location|
                #![trigger held(e.unwrap(), l, cx.spill_bias)]
                l != place && (match l {
                    Location::Reg(r) => !is_scratch(*cx.abi, r) && !lost(cx, inst, position, r),
                    Location::Spill(s) => slot_offset(s, cx.spill_bias) is Some && above_stack(
                        c,
                        s,
                        cx.spill_bias,
                    ),
                }) ==> held(e.unwrap(), l, cx.spill_bias) == held(c, l, cx.spill_bias)
        }),
{
    let n = reads(inst).len();
    let whole = resolve(cx, inst, mentioned(inst).len()).unwrap();
    let regs = whole.entries;
    assert(mentioned(inst).len() == n + 1);
    assert(mentioned(inst)[n as int] == dst);
    let s = resolve(cx, inst, n).unwrap();
    lemma_resolved(cx, inst, n);
    assert(lookup(s.entries, dst) is None);
    let own = regs.last();
    assert(regs == s.entries.push(own) && own.0 == dst);
    assert forall|i: int| #![trigger reads(inst)[i]] 0 <= i < n implies Some(
        at(regs, reads(inst)[i]),
    ) == lookup(s.entries, reads(inst)[i]) by {
        lemma_lookup_push(s.entries, own, reads(inst)[i]);
        assert(lookup(s.entries, reads(inst)[i]) is Some);
    }
    lemma_lookup_push(s.entries, own, dst);
    assert(at(regs, dst) == own.1);
    lemma_result_register(cx, inst, s, whole, dst);
    assert(location(cx, dst) is Some);
    assert(!is_pointer(own.1));
    // The loads.
    let loaded = reloaded(Some(ops), cx, inst, regs, n);
    let c1 = lemma_reloaded(start, ops, cx, inst, regs, s, n, c, unit);
    assert(!is_scratch(*cx.abi, PhysReg::Rsp) && !is_scratch(*cx.abi, PhysReg::Rbp));
    assert(get(c1, PhysReg::Rsp) == get(c, PhysReg::Rsp));
    assert(get(c1, PhysReg::Rbp) == get(c, PhysReg::Rbp));
    // The instruction.
    let direct = |v: Value| held(c, location(cx, v).unwrap(), cx.spill_bias);
    let near = |v: Value| get(c1, at(regs, v));
    assert forall|i: int| #![trigger reads(inst)[i]] 0 <= i < n implies near(reads(inst)[i])
        == direct(reads(inst)[i]) by {}
    lemma_meaning_same(inst, near, direct, labels.pool@, unit);
    lemma_sources(cx, inst, s, regs);
    if overwrites(inst) is Some {
        lemma_saved_free(cx, position, overwrites(inst).unwrap());
    }
    assert(performed(loaded, cx, labels, frame, source, inst, regs, position) is Some);
    let e1 = lemma_performed(
        start,
        loaded.unwrap(),
        cx,
        labels,
        frame,
        source,
        inst,
        regs,
        position,
        c1,
        unit,
        z,
    );
    let done = performed(loaded, cx, labels, frame, source, inst, regs, position).unwrap();
    assert(carried_out(cx, inst, position, c1, e1, own.1, z));
    // The store.
    let place = location(cx, dst).unwrap();
    let out = in_place(ops, cx, labels, frame, source, inst, regs, position).unwrap();
    let e = match place {
        Location::Spill(slot) => {
            let offset = slot_offset(slot, cx.spill_bias).unwrap();
            let op = if value_type(cx, dst).unwrap() == Ty::F64 {
                AsmOp::MovsdMemReg { base: PhysReg::Rbp, offset, src: own.1 }
            } else {
                AsmOp::MovMemReg { base: PhysReg::Rbp, offset, src: own.1 }
            };
            lemma_put(start, done, op, e1, unit);
            assert(out == done.push(op));
            poke(e1, PhysReg::Rbp, offset, get(e1, own.1))
        },
        Location::Reg(_) => {
            assert(out == done);
            e1
        },
    };
    assert(run(start, out, unit) == Some(e));
    assert(get(e, PhysReg::Rsp) == get(e1, PhysReg::Rsp));
    assert(get(e, PhysReg::Rbp) == get(e1, PhysReg::Rbp));
    if cx.spill_bias >= 0 {
        assert forall|a: int|
            #![trigger word(e, a)]
            a >= get(c, PhysReg::Rsp) && a >= get(c, PhysReg::Rbp) implies word(e, a) == word(
            c,
            a,
        ) by {
            assert(word(e1, a) == word(c1, a));
            assert(word(c1, a) == word(c, a));
        }
    }
    assert forall|l: Location|
        #![trigger held(e, l, cx.spill_bias)]
        l != place && (match l {
            Location::Reg(r) => !is_scratch(*cx.abi, r) && !lost(cx, inst, position, r),
            Location::Spill(s) => slot_offset(s, cx.spill_bias) is Some && above_stack(
                c,
                s,
                cx.spill_bias,
            ),
        }) implies held(e, l, cx.spill_bias) == held(c, l, cx.spill_bias) by {
        match l {
            Location::Reg(r) => {
                assert(r != own.1);
                assert(get(e1, r) == get(c1, r));
                assert(get(c1, r) == get(c, r));
            },
            Location::Spill(a) => {
                let o = slot_offset(a, cx.spill_bias).unwrap();
                let address = get(c, PhysReg::Rbp) + o;
                assert(word(e1, address) == word(c1, address));
                assert(word(c1, address) == word(c, address));
                if let Location::Spill(b) = place {
                    lemma_slots_apart(a, b, cx.spill_bias);
                }
                assert(word(e, address) == word(e1, address));
            },
        }
    }
}

/// What is read is in registers that do not point to the stack or to the
/// frame, and of two doubles none is in the third scratch register.
#[verifier::rlimit(40)]
proof fn lemma_sources(
    cx: EmitContext,
    inst: MachineInst,
    s: Resolved,
    regs: Seq<(Value, PhysReg)>,
)
    requires
        scratch_free(cx),
        resolve(cx, inst, reads(inst).len()) == Some(s),
        resolved_ok(cx, inst, reads(inst).len(), s),
        forall|i: int|
            #![trigger reads(inst)[i]]
            0 <= i < reads(inst).len() ==> Some(at(regs, reads(inst)[i])) == lookup(
                s.entries,
                reads(inst)[i],
            ),
    ensures
        forall|i: int|
            #![trigger reads(inst)[i]]
            0 <= i < reads(inst).len() ==> !is_pointer(at(regs, reads(inst)[i])),
        reads(inst).len() <= 2 && cx.abi.scratch_xmm@.len() > 2 ==> forall|i: int|
            #![trigger reads(inst)[i]]
            0 <= i < reads(inst).len() ==> at(regs, reads(inst)[i]) != cx.abi.scratch_xmm@[2],
{
    lemma_few(cx, inst, reads(inst).len());
    assert forall|i: int|
        #![trigger reads(inst)[i]]
        0 <= i < reads(inst).len() implies !is_pointer(at(regs, reads(inst)[i])) && (reads(
        inst,
    ).len() <= 2 && cx.abi.scratch_xmm@.len() > 2 ==> at(regs, reads(inst)[i])
        != cx.abi.scratch_xmm@[2]) by {
        let v = reads(inst)[i];
        let r = at(regs, v);
        assert(lookup(s.entries, v) == Some(r));
        assert(found(cx, v, r, s));
        if cx.abi.scratch_xmm@.len() > 2 {
            assert(cx.abi.scratch_xmm@.contains(cx.abi.scratch_xmm@[2]));
        }
        if location(cx, v) matches Some(Location::Spill(_)) {
            lemma_found_scratch(cx, v, r, s);
        }
    }
}

/// The result is in its own register, or in a scratch register.
#[verifier::rlimit(40)]
proof fn lemma_result_register(
    cx: EmitContext,
    inst: MachineInst,
    s: Resolved,
    t: Resolved,
    dst: Value,
)
    requires
        resolved_ok(cx, inst, reads(inst).len(), s),
        lookup(s.entries, dst) is None,
        resolve_one(cx, inst, dst, s) == Some(t),
    ensures
        t.entries == s.entries.push(t.entries.last()),
        t.entries.last().0 == dst,
        match location(cx, dst) {
            Some(Location::Reg(own)) => t.entries.last().1 == own,
            Some(Location::Spill(_)) => is_scratch(*cx.abi, t.entries.last().1),
            None => false,
        },
{
    if location(cx, dst) matches Some(Location::Spill(_)) {
        if let Some((d, source)) = shared_scratch(cx, inst) {
            if d == dst {
                let r = lookup(s.entries, source).unwrap();
                assert(found(cx, source, r, s));
                lemma_found_scratch(cx, source, r, s);
            }
        }
    }
}

} // verus!
