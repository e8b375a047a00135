//! Whole functions: the code that is emitted computes what the selected
//! instructions stand for, with every value in its place.
use crate::ir::{Block, Ty, Value};
use crate::x64::body::{
    block_emitted, block_end, block_label, blocks_emitted, branched, branched_plainly, edge_copies,
    edge_taken, emitted, load_params, numbered, param_offset, param_source, params_placed,
    performed, plan_param, plan_params, pool_placed, reloaded, stack_param, stepped, stepped_to,
    written_back,
};
use crate::x64::body::Labels;
use crate::x64::calls::{
    answer, calls_ok, convention_ok, is_pointer, is_scratch, lost, roomy,
};
use crate::x64::copies::{
    is_scratch as is_copy_scratch, lemma_parallel, parallel, reachable, redirected, safe_from,
    slot_offset, undisturbed, waiting, well_formed, written,
};
use crate::x64::copies::{one_copy, CopyFrame, Machine, PhiCopy};
use crate::x64::execute::{
    condition_holds, get, keeps_operands, lemma_put, meaning, peek, poke, run, step, with_flags,
    with_register, word, Cpu, Flags, Start, Unit,
};
use crate::x64::layout::{
    aligned, call_bytes, external_call, libm_call, location, mentioned, move_stack, place_args,
    resolve, restore_all, restore_one, save_all, shadow, stage_args, stage_base, to_save,
    unstage_args, value_type, with_saved, Clobber, EmitContext, Place,
};
use crate::x64::machine::{AluOp, AsmOp, ConditionCode, Label, Location, MachineInst, PhysReg};
use crate::x64::machine::{defines, put, reads, Ops};
use crate::x64::places::{
    above_stack, held, in_place, is_special, lemma_in_place_computes, lemma_meaning_same,
    lemma_reloaded, lemma_resolved, result_apart, result_is_new, scratch_free, well_called,
};
use crate::x64::translate::{all_at, at, call_arguments, libm_entry, lookup, translated};
use vstd::prelude::*;

verus! {

// ---------------------------------------------------------------------------
// Code that grows

/// The operation moves a value between registers and slots.
pub open spec fn is_move(op: AsmOp) -> bool {
    match op {
        AsmOp::MovRegReg { dst, .. } | AsmOp::MovsdRegReg { dst, .. } => !is_pointer(dst),
        AsmOp::MovRegMem { dst, base, .. } | AsmOp::MovsdRegMem { dst, base, .. } => base
            == PhysReg::Rbp && !is_pointer(dst),
        AsmOp::MovMemReg { base, offset, .. } | AsmOp::MovsdMemReg { base, offset, .. } => base
            == PhysReg::Rbp && offset < 0,
        _ => false,
    }
}

/// What code grows by: moves alone, anything but labels, or anything with but
/// one label.
pub enum Growth {
    Moves,
    Straight,
    Labelled(Label),
}

pub open spec fn allowed(op: AsmOp, kind: Growth) -> bool {
    match kind {
        Growth::Moves => is_move(op),
        Growth::Straight => !(op is Bind),
        Growth::Labelled(label) => op is Bind ==> op == (AsmOp::Bind { label }),
    }
}

/// `b` continues `a`.
#[verifier::opaque]
pub open spec fn grows(a: Ops, b: Ops, kind: Growth) -> bool {
    match (a, b) {
        (Some(p), Some(q)) => {
            &&& p.len() <= q.len()
            &&& p == q.take(p.len() as int)
            &&& forall|i: int| #![trigger q[i]] p.len() <= i < q.len() ==> allowed(q[i], kind)
        },
        (None, Some(_)) => false,
        _ => true,
    }
}

proof fn lemma_grows_put(base: Ops, kind: Growth)
    ensures
        grows(base, base, kind),
        grows(base, None, kind),
        forall|a: Ops, op: AsmOp|
            #![trigger put(a, op)]
            grows(base, a, kind) && allowed(op, kind) ==> grows(base, put(a, op), kind),
{
    reveal(grows);
    if let Some(p) = base {
        assert(p =~= p.take(p.len() as int));
    }
    assert forall|a: Ops, op: AsmOp|
        #![trigger put(a, op)]
        grows(base, a, kind) && allowed(op, kind) implies grows(base, put(a, op), kind) by {
        if let Some(q) = a {
            let p = base.unwrap();
            assert(q.push(op).take(p.len() as int) =~= q.take(p.len() as int));
        }
    }
}

proof fn lemma_grows_trans(a: Ops, b: Ops, c: Ops, kind: Growth)
    requires
        grows(a, b, kind),
        grows(b, c, kind),
    ensures
        grows(a, c, kind),
{
    reveal(grows);
    if let (Some(p), Some(q), Some(r)) = (a, b, c) {
        assert(p =~= r.take(p.len() as int));
        assert forall|i: int| #![trigger r[i]] p.len() <= i < r.len() implies allowed(
            r[i],
            kind,
        ) by {
            if i < q.len() {
                assert(q[i] == r[i]);
            }
        }
    }
}

/// Moves are no labels, and no labels is at most one.
proof fn lemma_looser(a: Ops, b: Ops, kind: Growth)
    requires
        grows(a, b, Growth::Moves) || grows(a, b, Growth::Straight),
        !(kind is Moves),
    ensures
        grows(a, b, kind),
{
    reveal(grows);
}

/// The copies write no register that points to the stack or to the frame, and
/// the slots lie below the frame pointer.
pub open spec fn copies_apart(copies: Seq<PhiCopy>, frame: CopyFrame) -> bool {
    &&& frame.spill_bias >= 0
    &&& !is_pointer(frame.gpr)
    &&& !is_pointer(frame.xmm)
    &&& forall|i: int|
        #![trigger copies[i]]
        0 <= i < copies.len() ==> (copies[i].dst matches Location::Reg(r) ==> !is_pointer(r))
}

proof fn lemma_copy_grows(base: Ops, acc: Ops, c: PhiCopy, dst: Location, frame: CopyFrame)
    requires
        grows(base, acc, Growth::Moves),
        frame.spill_bias >= 0,
        !is_pointer(frame.gpr),
        !is_pointer(frame.xmm),
        dst matches Location::Reg(r) ==> !is_pointer(r),
    ensures
        grows(base, one_copy(acc, c.src, dst, c.ty, frame), Growth::Moves),
{
    lemma_grows_put(base, Growth::Moves);
}

proof fn lemma_parallel_grows(base: Ops, acc: Ops, copies: Seq<PhiCopy>, frame: CopyFrame)
    requires
        grows(base, acc, Growth::Moves),
        copies_apart(copies, frame),
    ensures
        grows(base, parallel(acc, copies, frame), Growth::Moves),
    decreases copies.len(), waiting(copies, frame),
{
    lemma_grows_put(base, Growth::Moves);
    if copies.len() > 0 {
        match safe_from(copies, 0) {
            Some(i) => {
                if 0 <= i < copies.len() {
                    let c = copies[i];
                    let rest = copies.remove(i);
                    assert forall|k: int| #![trigger rest[k]] 0 <= k < rest.len() implies (
                    rest[k].dst matches Location::Reg(r) ==> !is_pointer(r)) by {
                        let x = if k < i {
                            k
                        } else {
                            k + 1
                        };
                        assert(rest[k] == copies[x]);
                    }
                    lemma_copy_grows(base, acc, c, c.dst, frame);
                    lemma_parallel_grows(
                        base,
                        one_copy(acc, c.src, c.dst, c.ty, frame),
                        copies.remove(i),
                        frame,
                    );
                }
            },
            None => {
                let c = copies[0];
                let scratch = frame.scratch(c.ty);
                if !crate::x64::copies::mentions(copies, scratch) {
                    assert(copies[0].src != Location::Reg(scratch));
                    let rest = redirected(copies, c.src, scratch);
                    assert forall|k: int| #![trigger rest[k]] 0 <= k < rest.len() implies (
                    rest[k].dst matches Location::Reg(r) ==> !is_pointer(r)) by {
                        assert(rest[k].dst == copies[k].dst);
                    }
                    lemma_copy_grows(base, acc, c, Location::Reg(scratch), frame);
                    lemma_parallel_grows(
                        base,
                        one_copy(acc, c.src, Location::Reg(scratch), c.ty, frame),
                        rest,
                        frame,
                    );
                }
            },
        }
    }
}

/// Copies, whatever they are, bring no labels.
proof fn lemma_parallel_straight(base: Ops, acc: Ops, copies: Seq<PhiCopy>, frame: CopyFrame)
    requires
        grows(base, acc, Growth::Straight),
    ensures
        grows(base, parallel(acc, copies, frame), Growth::Straight),
    decreases copies.len(), waiting(copies, frame),
{
    lemma_grows_put(base, Growth::Straight);
    if copies.len() > 0 {
        match safe_from(copies, 0) {
            Some(i) => {
                if 0 <= i < copies.len() {
                    let c = copies[i];
                    lemma_parallel_straight(
                        base,
                        one_copy(acc, c.src, c.dst, c.ty, frame),
                        copies.remove(i),
                        frame,
                    );
                }
            },
            None => {
                let c = copies[0];
                let scratch = frame.scratch(c.ty);
                if !crate::x64::copies::mentions(copies, scratch) {
                    assert(copies[0].src != Location::Reg(scratch));
                    lemma_parallel_straight(
                        base,
                        one_copy(acc, c.src, Location::Reg(scratch), c.ty, frame),
                        redirected(copies, c.src, scratch),
                        frame,
                    );
                }
            },
        }
    }
}

proof fn lemma_reloaded_grows(
    base: Ops,
    acc: Ops,
    cx: EmitContext,
    inst: MachineInst,
    regs: Seq<(Value, PhysReg)>,
    k: nat,
)
    requires
        grows(base, acc, Growth::Straight),
    ensures
        grows(base, reloaded(acc, cx, inst, regs, k), Growth::Straight),
    decreases k,
{
    lemma_grows_put(base, Growth::Straight);
    if k > 0 {
        lemma_reloaded_grows(base, acc, cx, inst, regs, (k - 1) as nat);
    }
}

proof fn lemma_edge_grows(
    base: Ops,
    acc: Ops,
    cx: EmitContext,
    source: Block,
    target: Block,
    frame: CopyFrame,
)
    requires
        grows(base, acc, Growth::Straight),
    ensures
        grows(base, edge_taken(acc, cx, source, target, frame), Growth::Straight),
{
    lemma_grows_put(base, Growth::Straight);
    if let Some(copies) = edge_copies(cx, source, target) {
        lemma_parallel_straight(base, acc, copies, frame);
    }
}

proof fn lemma_save_grows(base: Ops, acc: Ops, regs: Seq<PhysReg>, from: int, n: nat)
    requires
        grows(base, acc, Growth::Straight),
    ensures
        grows(base, save_all(acc, regs, from, n), Growth::Straight),
    decreases n,
{
    lemma_grows_put(base, Growth::Straight);
    if n > 0 {
        lemma_save_grows(base, acc, regs, from, (n - 1) as nat);
    }
}

proof fn lemma_restore_grows(base: Ops, acc: Ops, regs: Seq<PhysReg>, from: int, n: nat)
    requires
        grows(base, acc, Growth::Straight),
    ensures
        grows(base, restore_all(acc, regs, from, n), Growth::Straight),
    decreases n,
{
    lemma_grows_put(base, Growth::Straight);
    if n > 0 {
        lemma_restore_grows(
            base,
            restore_one(acc, regs[n - 1], from + 8 * (n - 1)),
            regs,
            from,
            (n - 1) as nat,
        );
    }
}

proof fn lemma_stage_grows(
    base: Ops,
    acc: Ops,
    cx: EmitContext,
    args: Seq<Value>,
    regs: Seq<(Value, PhysReg)>,
    from: int,
    n: nat,
)
    requires
        grows(base, acc, Growth::Straight),
    ensures
        grows(base, stage_args(acc, cx, args, regs, from, n), Growth::Straight),
    decreases n,
{
    lemma_grows_put(base, Growth::Straight);
    if n > 0 {
        lemma_stage_grows(base, acc, cx, args, regs, from, (n - 1) as nat);
    }
}

proof fn lemma_unstage_grows(
    base: Ops,
    acc: Ops,
    cx: EmitContext,
    args: Seq<Value>,
    places: Seq<Place>,
    from: int,
    n: nat,
)
    requires
        grows(base, acc, Growth::Straight),
    ensures
        grows(base, unstage_args(acc, cx, args, places, from, n), Growth::Straight),
    decreases n,
{
    lemma_grows_put(base, Growth::Straight);
    if n > 0 {
        lemma_unstage_grows(base, acc, cx, args, places, from, (n - 1) as nat);
    }
}

#[verifier::rlimit(60)]
proof fn lemma_translated_grows(
    base: Ops,
    acc: Ops,
    cx: EmitContext,
    inst: MachineInst,
    regs: Seq<(Value, PhysReg)>,
    labels: Seq<Label>,
)
    requires
        grows(base, acc, Growth::Straight),
    ensures
        grows(
            base,
            translated(acc, *cx.abi, inst, regs, labels),
            Growth::Straight,
        ),
{
    lemma_grows_put(base, Growth::Straight);
}

proof fn lemma_with_saved_grows(
    base: Ops,
    acc: Ops,
    cx: EmitContext,
    inst: MachineInst,
    regs: Seq<(Value, PhysReg)>,
    labels: Seq<Label>,
    position: u32,
    what: Clobber,
)
    requires
        grows(base, acc, Growth::Straight),
    ensures
        grows(
            base,
            with_saved(acc, cx, inst, regs, labels, position, what),
            Growth::Straight,
        ),
{
    lemma_grows_put(base, Growth::Straight);
    let saved = to_save(cx, position, what);
    let bytes = aligned(8 * saved.len() as int, cx.framed);
    let moved = move_stack(acc, AluOp::Sub, bytes);
    lemma_translated_grows(base, acc, cx, inst, regs, labels);
    lemma_save_grows(base, moved, saved, 0, saved.len());
    let kept = save_all(moved, saved, 0, saved.len());
    lemma_translated_grows(base, kept, cx, inst, regs, labels);
    let done = translated(kept, *cx.abi, inst, regs, labels);
    lemma_restore_grows(base, done, saved, 0, saved.len());
}

proof fn lemma_libm_grows(
    base: Ops,
    acc: Ops,
    cx: EmitContext,
    address: i64,
    args: Seq<PhysReg>,
    dst: PhysReg,
    position: u32,
)
    requires
        grows(base, acc, Growth::Straight),
    ensures
        grows(base, libm_call(acc, cx, address, args, dst, position), Growth::Straight),
{
    lemma_grows_put(base, Growth::Straight);
    let saved = to_save(cx, position, Clobber::Call);
    let from = shadow(cx.abi.windows);
    let bytes = aligned(from + 8 * saved.len(), cx.framed);
    let scratch = cx.abi.scratch_xmm@[2];
    let moved = move_stack(acc, AluOp::Sub, bytes);
    lemma_save_grows(base, moved, saved, from, saved.len());
    let kept = save_all(moved, saved, from, saved.len());
    let called = put(
        put(
            call_arguments(kept, args, scratch),
            AsmOp::MovRegImm { dst: PhysReg::R11, imm: address },
        ),
        AsmOp::CallReg { target: PhysReg::R11 },
    );
    let result = put(called, AsmOp::MovsdRegReg { dst: scratch, src: PhysReg::Xmm(0) });
    lemma_restore_grows(base, result, saved, from, saved.len());
}

#[verifier::rlimit(40)]
proof fn lemma_external_grows(
    base: Ops,
    acc: Ops,
    cx: EmitContext,
    address: i64,
    args: Seq<Value>,
    regs: Seq<(Value, PhysReg)>,
    dst: Value,
    position: u32,
)
    requires
        grows(base, acc, Growth::Straight),
    ensures
        grows(base, external_call(acc, cx, address, args, regs, dst, position), Growth::Straight),
{
    lemma_grows_put(base, Growth::Straight);
    let s = place_args(cx, args, args.len()).unwrap();
    let saved = to_save(cx, position, Clobber::Call);
    let stage = stage_base(cx, s);
    let from = stage + 8 * args.len() as int;
    let bytes = call_bytes(cx, s, saved.len());
    let moved = move_stack(acc, AluOp::Sub, bytes);
    lemma_save_grows(base, moved, saved, from, saved.len());
    let kept = save_all(moved, saved, from, saved.len());
    lemma_stage_grows(base, kept, cx, args, regs, stage, args.len());
    let staged = stage_args(kept, cx, args, regs, stage, args.len());
    lemma_unstage_grows(base, staged, cx, args, s.places, stage, args.len());
    let ready = unstage_args(staged, cx, args, s.places, stage, args.len());
    let called = put(
        put(ready, AsmOp::MovRegImm { dst: PhysReg::R11, imm: address }),
        AsmOp::CallReg { target: PhysReg::R11 },
    );
    let float = put(
        called,
        AsmOp::MovsdRegReg { dst: cx.abi.scratch_xmm@[2], src: PhysReg::Xmm(0) },
    );
    let whole = put(called, AsmOp::MovRegReg { dst: cx.abi.scratch_gpr@[1], src: PhysReg::Rax });
    lemma_restore_grows(base, float, saved, from, saved.len());
    lemma_restore_grows(base, whole, saved, from, saved.len());
}

/// An instruction that is no branch brings no label.
#[verifier::rlimit(60)]
proof fn lemma_performed_straight(
    base: Ops,
    acc: Ops,
    cx: EmitContext,
    labels: Labels,
    frame: CopyFrame,
    source: Block,
    inst: MachineInst,
    regs: Seq<(Value, PhysReg)>,
    position: u32,
)
    requires
        grows(base, acc, Growth::Straight),
        !(inst is Branch),
    ensures
        grows(
            base,
            written_back(
                performed(acc, cx, labels, frame, source, inst, regs, position),
                cx,
                inst,
                regs,
            ),
            Growth::Straight,
        ),
{
    lemma_grows_put(base, Growth::Straight);
    lemma_translated_grows(base, acc, cx, inst, regs, labels.pool@);
    lemma_with_saved_grows(
        base,
        acc,
        cx,
        inst,
        regs,
        labels.pool@,
        position,
        Clobber::Division,
    );
    lemma_with_saved_grows(base, acc, cx, inst, regs, labels.pool@, position, Clobber::Shift);
    match inst {
        MachineInst::Jump { target } => {
            lemma_edge_grows(base, acc, cx, source, target, frame);
        },
        MachineInst::CallLibm { dst, func, args } => {
            let address = libm_entry(cx.abi.libm@, func).unwrap();
            lemma_libm_grows(base, acc, cx, address, all_at(regs, args@), at(regs, dst), position);
        },
        MachineInst::ExternalCall { dst, address, args } => {
            lemma_external_grows(base, acc, cx, address, args@, regs, dst, position);
        },
        _ => {},
    }
}

proof fn lemma_stepped_straight(
    acc: Ops,
    cx: EmitContext,
    labels: Labels,
    frame: CopyFrame,
    source: Block,
    position: int,
)
    requires
        !(cx.selected.insts@[position] is Branch),
    ensures
        grows(acc, stepped(acc, cx, labels, frame, source, position), Growth::Straight),
{
    reveal(stepped);
    lemma_grows_put(acc, Growth::Straight);
    let inst = cx.selected.insts@[position];
    if let Some(s) = resolve(cx, inst, mentioned(inst).len()) {
        let loaded = reloaded(acc, cx, inst, s.entries, reads(inst).len());
        lemma_reloaded_grows(acc, acc, cx, inst, s.entries, reads(inst).len());
        lemma_performed_straight(
            acc,
            loaded,
            cx,
            labels,
            frame,
            source,
            inst,
            s.entries,
            position as u32,
        );
    }
}

proof fn lemma_plain_branch_grows(
    base: Ops,
    acc: Ops,
    cx: EmitContext,
    frame: CopyFrame,
    source: Block,
    bit: PhysReg,
    yes: Label,
    else_: Block,
    no: Option<Label>,
)
    requires
        grows(base, acc, Growth::Straight),
    ensures
        grows(
            base,
            branched_plainly(acc, cx, frame, source, bit, yes, else_, no),
            Growth::Straight,
        ),
{
    lemma_grows_put(base, Growth::Straight);
    let tested = put(
        put(acc, AsmOp::TestRegReg { lhs: bit, rhs: bit }),
        AsmOp::Jcc { cond: ConditionCode::NotEqual, label: yes },
    );
    lemma_edge_grows(base, tested, cx, source, else_, frame);
}

/// A branch brings at most the label of its first edge.
#[verifier::rlimit(40)]
proof fn lemma_stepped_grows(
    acc: Ops,
    cx: EmitContext,
    labels: Labels,
    frame: CopyFrame,
    source: Block,
    position: int,
    edge: Label,
)
    requires
        block_label(cx.selected.block_starts@, labels.edges@, source) == Some(edge),
    ensures
        grows(acc, stepped(acc, cx, labels, frame, source, position), Growth::Labelled(edge)),
{
    let kind = Growth::Labelled(edge);
    let inst = cx.selected.insts@[position];
    if let MachineInst::Branch { cond, then_, else_ } = inst {
        reveal(stepped);
        lemma_grows_put(acc, Growth::Straight);
        lemma_grows_put(acc, kind);
        if let Some(s) = resolve(cx, inst, mentioned(inst).len()) {
            let regs = s.entries;
            let loaded = reloaded(acc, cx, inst, regs, reads(inst).len());
            lemma_reloaded_grows(acc, acc, cx, inst, regs, reads(inst).len());
            let bit = at(regs, cond);
            let starts = cx.selected.block_starts@;
            let no = block_label(starts, labels.blocks@, else_);
            if let Some(yes) = block_label(starts, labels.blocks@, then_) {
                lemma_plain_branch_grows(acc, loaded, cx, frame, source, bit, yes, else_, no);
                lemma_plain_branch_grows(acc, loaded, cx, frame, source, bit, edge, else_, no);
                let plain = branched_plainly(loaded, cx, frame, source, bit, yes, else_, no);
                let other = branched_plainly(loaded, cx, frame, source, bit, edge, else_, no);
                lemma_looser(acc, plain, kind);
                lemma_looser(acc, other, kind);
                let bound = put(other, AsmOp::Bind { label: edge });
                if let Some(copies) = edge_copies(cx, source, then_) {
                    lemma_grows_put(bound, Growth::Straight);
                    lemma_parallel_straight(bound, bound, copies, frame);
                    lemma_looser(bound, parallel(bound, copies, frame), kind);
                    lemma_grows_trans(acc, bound, parallel(bound, copies, frame), kind);
                }
            }
        }
    } else {
        lemma_stepped_straight(acc, cx, labels, frame, source, position);
        lemma_looser(acc, stepped(acc, cx, labels, frame, source, position), kind);
    }
}

proof fn lemma_steps_grow(
    acc: Ops,
    cx: EmitContext,
    labels: Labels,
    frame: CopyFrame,
    source: Block,
    from: int,
    to: int,
    edge: Label,
)
    requires
        block_label(cx.selected.block_starts@, labels.edges@, source) == Some(edge),
    ensures
        grows(
            acc,
            stepped_to(acc, cx, labels, frame, source, from, to),
            Growth::Labelled(edge),
        ),
    decreases to - from,
{
    let kind = Growth::Labelled(edge);
    lemma_grows_put(acc, kind);
    if to > from {
        lemma_steps_grow(acc, cx, labels, frame, source, from, to - 1, edge);
        let before = stepped_to(acc, cx, labels, frame, source, from, to - 1);
        lemma_stepped_grows(before, cx, labels, frame, source, to - 1, edge);
        lemma_grows_trans(acc, before, stepped_to(acc, cx, labels, frame, source, from, to), kind);
    }
}

/// Instructions with results bring no labels.
proof fn lemma_steps_straight(
    acc: Ops,
    cx: EmitContext,
    labels: Labels,
    frame: CopyFrame,
    source: Block,
    from: int,
    to: int,
)
    requires
        forall|p: int|
            #![trigger cx.selected.insts@[p]]
            from <= p < to ==> defines(cx.selected.insts@[p]) is Some,
    ensures
        grows(acc, stepped_to(acc, cx, labels, frame, source, from, to), Growth::Straight),
    decreases to - from,
{
    lemma_grows_put(acc, Growth::Straight);
    if to > from {
        lemma_steps_straight(acc, cx, labels, frame, source, from, to - 1);
        let before = stepped_to(acc, cx, labels, frame, source, from, to - 1);
        assert(defines(cx.selected.insts@[to - 1]) is Some);
        lemma_stepped_straight(before, cx, labels, frame, source, to - 1);
        lemma_grows_trans(
            acc,
            before,
            stepped_to(acc, cx, labels, frame, source, from, to),
            Growth::Straight,
        );
    }
}

proof fn lemma_loads_grow(
    base: Ops,
    acc: Ops,
    cx: EmitContext,
    frame: CopyFrame,
    loads: Seq<(usize, Location)>,
    n: nat,
)
    requires
        grows(base, acc, Growth::Straight),
    ensures
        grows(base, load_params(acc, cx, frame, loads, n), Growth::Straight),
    decreases n,
{
    lemma_grows_put(base, Growth::Straight);
    if n > 0 {
        lemma_loads_grow(base, acc, cx, frame, loads, (n - 1) as nat);
    }
}

// ---------------------------------------------------------------------------
// Runs

proof fn lemma_run_on(start: Start, ops: Seq<AsmOp>, c: Cpu, q: Seq<AsmOp>, e: Cpu, unit: Unit)
    requires
        run(start, ops, unit) == Some(c),
        ops.len() <= q.len(),
        ops == q.take(ops.len() as int),
        run(Start { cpu: c, from: ops.len() }, q, unit) == Some(e),
    ensures
        run(start, q, unit) == Some(e),
    decreases q.len(),
{
    reveal(run);
    if q.len() == ops.len() {
        assert(q =~= ops);
    } else {
        let p = q.drop_last();
        assert(ops =~= p.take(ops.len() as int));
        let d = run(Start { cpu: c, from: ops.len() }, p, unit).unwrap();
        lemma_run_on(start, ops, c, p, d, unit);
        assert(start.from <= ops.len()) by {
            reveal(run);
        }
    }
}

/// Registers and slots, as the copies see them.
pub open spec fn machine_of(c: Cpu) -> Machine {
    Machine { regs: c.regs, slots: |o: i32| peek(c, PhysReg::Rbp, o) }
}

/// Moves do on the processor what they do on the machine of the copies. They
/// leave the stack where it is, and what lies above the frame pointer.
#[verifier::rlimit(40)]
proof fn lemma_moves_run(c: Cpu, from: nat, q: Seq<AsmOp>, unit: Unit) -> (e: Cpu)
    requires
        from <= q.len(),
        forall|i: int| #![trigger q[i]] from <= i < q.len() ==> is_move(q[i]),
    ensures
        run(Start { cpu: c, from }, q, unit) == Some(e),
        ({
            let m = crate::x64::copies::run(machine_of(c), from, q);
            &&& forall|r: PhysReg| #![trigger get(e, r)] get(e, r) == (m.regs)(r)
            &&& forall|o: i32|
                #![trigger peek(e, PhysReg::Rbp, o)]
                peek(e, PhysReg::Rbp, o) == (m.slots)(o)
        }),
        get(e, PhysReg::Rsp) == get(c, PhysReg::Rsp),
        get(e, PhysReg::Rbp) == get(c, PhysReg::Rbp),
        forall|a: int|
            #![trigger word(e, a)]
            a >= get(c, PhysReg::Rbp) ==> word(e, a) == word(c, a),
    decreases q.len(),
{
    reveal(run);
    if q.len() == from {
        c
    } else {
        let p = q.drop_last();
        assert forall|i: int| #![trigger p[i]] from <= i < p.len() implies is_move(p[i]) by {
            assert(p[i] == q[i]);
        }
        let d = lemma_moves_run(c, from, p, unit);
        assert(is_move(q[q.len() - 1]));
        let e = step(d, q.last(), unit).unwrap();
        let m = crate::x64::copies::run(machine_of(c), from, p);
        match q.last() {
            AsmOp::MovRegReg { src, .. } | AsmOp::MovsdRegReg { src, .. } => {
                assert(get(d, src) == (m.regs)(src));
            },
            AsmOp::MovMemReg { src, .. } | AsmOp::MovsdMemReg { src, .. } => {
                assert(get(d, src) == (m.regs)(src));
            },
            AsmOp::MovRegMem { offset, .. } | AsmOp::MovsdRegMem { offset, .. } => {
                assert(peek(d, PhysReg::Rbp, offset) == (m.slots)(offset));
            },
            _ => {},
        }
        assert forall|r: PhysReg| #![trigger get(e, r)] get(e, r) == (crate::x64::copies::step(
            m,
            q.last(),
        ).regs)(r) by {
            assert(get(d, r) == (m.regs)(r));
        }
        assert(get(e, PhysReg::Rbp) == get(d, PhysReg::Rbp));
        assert(get(e, PhysReg::Rsp) == get(d, PhysReg::Rsp));
        assert forall|o: i32| #![trigger peek(e, PhysReg::Rbp, o)] peek(e, PhysReg::Rbp, o) == (
        crate::x64::copies::step(m, q.last()).slots)(o) by {
            assert(peek(d, PhysReg::Rbp, o) == (m.slots)(o));
        }
        assert forall|a: int|
            #![trigger word(e, a)]
            a >= get(c, PhysReg::Rbp) implies word(e, a) == word(c, a) by {
            assert(word(d, a) == word(c, a));
        }
        e
    }
}

// ---------------------------------------------------------------------------
// What the places hold

/// Some value lives in the place.
pub open spec fn is_place(cx: EmitContext, l: Location) -> bool {
    exists|v: Value| #[trigger] location(cx, v) == Some(l)
}

/// A place of which something can be known: no register that points to the
/// stack or to the frame, and a slot that can be reached.
pub open spec fn visible(cx: EmitContext, l: Location) -> bool {
    match l {
        Location::Reg(r) => !is_pointer(r),
        Location::Spill(_) => reachable(l, cx.spill_bias) && is_place(cx, l),
    }
}

pub open spec fn in_scratch(cx: EmitContext, l: Location) -> bool {
    l matches Location::Reg(r) && is_scratch(*cx.abi, r)
}

/// The arguments that come on the stack are there.
pub open spec fn incoming(cx: EmitContext, c: Cpu, args: Seq<u64>) -> bool {
    let params = cx.func.params@;
    forall|i: int|
        #![trigger param_offset(*cx.abi, params, i)]
        0 <= i < params.len() && param_source(*cx.abi, params, i) is None ==> {
            let a = get(c, PhysReg::Rbp) + param_offset(*cx.abi, params, i);
            get(c, PhysReg::Rsp) <= a && word(c, a) == args[i]
        }
}

/// The stack is set up: it has room, the slots lie above it, and so do the
/// arguments that came on it.
pub open spec fn settled(cx: EmitContext, c: Cpu, args: Seq<u64>) -> bool {
    &&& roomy(c, cx.framed)
    &&& forall|v: Value|
        (#[trigger] location(cx, v)) matches Some(Location::Spill(slot)) ==> above_stack(
            c,
            slot,
            cx.spill_bias,
        )
    &&& incoming(cx, c, args)
}

/// The processor holds what is known of the places.
pub open spec fn agrees(cx: EmitContext, c: Cpu, s: Map<Location, u64>, args: Seq<u64>) -> bool {
    &&& settled(cx, c, args)
    &&& forall|l: Location| #[trigger]
        s.contains_key(l) ==> visible(cx, l) && held(c, l, cx.spill_bias) == s[l]
}

/// The stack stays set up while its pointers stay, and what lies above them.
proof fn lemma_settled(cx: EmitContext, c: Cpu, e: Cpu, args: Seq<u64>)
    requires
        settled(cx, c, args),
        get(e, PhysReg::Rsp) == get(c, PhysReg::Rsp),
        get(e, PhysReg::Rbp) == get(c, PhysReg::Rbp),
        forall|a: int|
            #![trigger word(e, a)]
            a >= get(c, PhysReg::Rsp) && a >= get(c, PhysReg::Rbp) ==> word(e, a) == word(c, a),
    ensures
        settled(cx, e, args),
{
    let params = cx.func.params@;
    assert forall|i: int|
        #![trigger param_offset(*cx.abi, params, i)]
        0 <= i < params.len() && param_source(*cx.abi, params, i) is None implies {
        let a = get(e, PhysReg::Rbp) + param_offset(*cx.abi, params, i);
        get(e, PhysReg::Rsp) <= a && word(e, a) == args[i]
    } by {
        let a = get(c, PhysReg::Rbp) + param_offset(*cx.abi, params, i);
        assert(word(c, a) == args[i]);
        assert(param_offset(*cx.abi, params, i) >= 0);
        assert(word(e, a) == word(c, a));
    }
    assert forall|v: Value|
        (#[trigger] location(cx, v)) matches Some(Location::Spill(slot)) implies above_stack(
        e,
        location(cx, v).unwrap()->Spill_0,
        cx.spill_bias,
    ) by {
        let slot = location(cx, v).unwrap()->Spill_0;
        assert(above_stack(c, slot, cx.spill_bias));
    }
}

pub open spec fn known(cx: EmitContext, s: Map<Location, u64>, v: Value) -> bool {
    location(cx, v) is Some && s.contains_key(location(cx, v).unwrap())
}

pub open spec fn worth(cx: EmitContext, s: Map<Location, u64>, v: Value) -> u64 {
    s[location(cx, v).unwrap()]
}

pub open spec fn all_known(cx: EmitContext, s: Map<Location, u64>, inst: MachineInst) -> bool {
    forall|i: int|
        #![trigger reads(inst)[i]]
        0 <= i < reads(inst).len() ==> known(cx, s, reads(inst)[i])
}

/// The place does not keep its value over the instruction.
pub open spec fn given_up(cx: EmitContext, position: int, l: Location) -> bool {
    in_scratch(cx, l) || (l matches Location::Reg(r) && lost(
        cx,
        cx.selected.insts@[position],
        position as u32,
        r,
    ))
}

/// What is known behind an instruction: its result is in its place. Nothing,
/// where an operand is not known, an external function gets what it does not
/// take, or the instruction has no result.
pub open spec fn after_inst(
    cx: EmitContext,
    s: Map<Location, u64>,
    position: int,
    labels: Seq<Label>,
    unit: Unit,
) -> Option<Map<Location, u64>> {
    let inst = cx.selected.insts@[position];
    match defines(inst) {
        None => None,
        Some(dst) => if inst is Param {
            Some(s)
        } else if !all_known(cx, s, inst) || location(cx, dst) is None || !well_called(
            cx,
            inst,
            unit,
        ) {
            None
        } else {
            match meaning(inst, |v: Value| worth(cx, s, v), labels, unit) {
                None => None,
                Some(z) => Some(
                    Map::new(
                        |l: Location| s.contains_key(l) && !given_up(cx, position, l),
                        |l: Location| s[l],
                    ).insert(location(cx, dst).unwrap(), z),
                ),
            }
        },
    }
}

/// What is known behind the instructions from `from` up to `to`.
pub open spec fn after_insts(
    cx: EmitContext,
    s: Map<Location, u64>,
    from: int,
    to: int,
    labels: Seq<Label>,
    unit: Unit,
) -> Option<Map<Location, u64>>
    decreases to - from,
{
    if to <= from {
        Some(s)
    } else {
        match after_insts(cx, s, from, to - 1, labels, unit) {
            Some(t) => after_inst(cx, t, to - 1, labels, unit),
            None => None,
        }
    }
}

/// The instruction at the position can be emitted in place: its result
/// overwrites nothing that is still needed.
pub open spec fn sound_inst(cx: EmitContext, position: int) -> bool {
    let inst = cx.selected.insts@[position];
    &&& result_is_new(inst)
    &&& result_apart(cx, inst, position as u32)
    &&& resolve(cx, inst, mentioned(inst).len()) matches Some(s) ==> keeps_operands(inst, s.entries)
}

/// The registers of the platform are used as it has them, and what is called
/// follows its conventions.
pub open spec fn platform_ok(cx: EmitContext, unit: Unit) -> bool {
    &&& scratch_free(cx)
    &&& convention_ok(*cx.abi)
    &&& calls_ok(*cx.abi, unit)
    &&& cx.spill_bias >= 0
}

#[verifier::rlimit(60)]
proof fn lemma_step(
    start: Start,
    ops: Seq<AsmOp>,
    cx: EmitContext,
    labels: Labels,
    frame: CopyFrame,
    source: Block,
    position: int,
    c: Cpu,
    s: Map<Location, u64>,
    args: Seq<u64>,
    unit: Unit,
) -> (e: Cpu)
    requires
        run(start, ops, unit) == Some(c),
        agrees(cx, c, s, args),
        platform_ok(cx, unit),
        sound_inst(cx, position),
        after_inst(cx, s, position, labels.pool@, unit) is Some,
        stepped(Some(ops), cx, labels, frame, source, position) is Some,
    ensures
        run(start, stepped(Some(ops), cx, labels, frame, source, position).unwrap(), unit) == Some(
            e,
        ),
        agrees(cx, e, after_inst(cx, s, position, labels.pool@, unit).unwrap(), args),
{
    reveal(stepped);
    let inst = cx.selected.insts@[position];
    let pos = position as u32;
    let dst = defines(inst).unwrap();
    let regs = resolve(cx, inst, mentioned(inst).len()).unwrap().entries;
    if inst is Param {
        assert(reads(inst).len() == 0);
        c
    } else {
        let place = location(cx, dst).unwrap();
        assert(!is_special(inst));
        assert(stepped(Some(ops), cx, labels, frame, source, position) == in_place(
            ops,
            cx,
            labels,
            frame,
            source,
            inst,
            regs,
            pos,
        ));
        let loaded = reloaded(Some(ops), cx, inst, regs, reads(inst).len());
        lemma_grows_put(loaded, Growth::Straight);
        lemma_performed_straight(loaded, loaded, cx, labels, frame, source, inst, regs, pos);
        assert(loaded is Some) by {
            reveal(grows);
        }
        assert forall|i: int|
            #![trigger mentioned(inst)[i]]
            0 <= i < mentioned(inst).len() implies location(cx, mentioned(inst)[i]) is Some by {
            if i < reads(inst).len() {
                assert(mentioned(inst)[i] == reads(inst)[i]);
                assert(known(cx, s, reads(inst)[i]));
            }
        }
        let one = |v: Value| worth(cx, s, v);
        let two = |v: Value| held(c, location(cx, v).unwrap(), cx.spill_bias);
        assert forall|i: int| #![trigger reads(inst)[i]] 0 <= i < reads(inst).len() implies one(
            reads(inst)[i],
        ) == two(reads(inst)[i]) by {
            assert(known(cx, s, reads(inst)[i]));
        }
        lemma_meaning_same(inst, one, two, labels.pool@, unit);
        let z = meaning(inst, one, labels.pool@, unit).unwrap();
        lemma_in_place_computes(
            start,
            ops,
            cx,
            labels,
            frame,
            source,
            inst,
            pos,
            c,
            unit,
            dst,
            z,
        );
        let e = run(
            start,
            in_place(ops, cx, labels, frame, source, inst, regs, pos).unwrap(),
            unit,
        ).unwrap();
        let t = after_inst(cx, s, position, labels.pool@, unit).unwrap();
        assert(location(cx, dst) == Some(place));
        assert(visible(cx, place)) by {
            if place is Spill {
                assert(is_place(cx, place));
            }
        }
        lemma_settled(cx, c, e, args);
        assert forall|l: Location| #[trigger] t.contains_key(l) implies visible(cx, l) && held(
            e,
            l,
            cx.spill_bias,
        ) == t[l] by {
            if l != place {
                assert(s.contains_key(l));
                if let Location::Spill(slot) = l {
                    let v = choose|v: Value| #[trigger] location(cx, v) == Some(l);
                    assert(location(cx, v) == Some(l));
                    assert(above_stack(c, slot, cx.spill_bias));
                }
                assert(held(e, l, cx.spill_bias) == held(c, l, cx.spill_bias));
            }
        }
        e
    }
}

proof fn lemma_steps(
    start: Start,
    ops: Seq<AsmOp>,
    cx: EmitContext,
    labels: Labels,
    frame: CopyFrame,
    source: Block,
    from: int,
    to: int,
    c: Cpu,
    s: Map<Location, u64>,
    args: Seq<u64>,
    unit: Unit,
) -> (e: Cpu)
    requires
        run(start, ops, unit) == Some(c),
        agrees(cx, c, s, args),
        platform_ok(cx, unit),
        forall|p: int| from <= p < to ==> #[trigger] sound_inst(cx, p),
        after_insts(cx, s, from, to, labels.pool@, unit) is Some,
        stepped_to(Some(ops), cx, labels, frame, source, from, to) is Some,
    ensures
        run(start, stepped_to(Some(ops), cx, labels, frame, source, from, to).unwrap(), unit)
            == Some(e),
        agrees(cx, e, after_insts(cx, s, from, to, labels.pool@, unit).unwrap(), args),
    decreases to - from,
{
    if to <= from {
        c
    } else {
        let before = stepped_to(Some(ops), cx, labels, frame, source, from, to - 1);
        assert(sound_inst(cx, to - 1));
        lemma_stepped_straight(before, cx, labels, frame, source, to - 1);
        assert(before is Some) by {
            reveal(grows);
        }
        let d = lemma_steps(start, ops, cx, labels, frame, source, from, to - 1, c, s, args, unit);
        lemma_step(
            start,
            before.unwrap(),
            cx,
            labels,
            frame,
            source,
            to - 1,
            d,
            after_insts(cx, s, from, to - 1, labels.pool@, unit).unwrap(),
            args,
            unit,
        )
    }
}

/// Instructions that can be followed have results.
proof fn lemma_all_define(
    cx: EmitContext,
    s: Map<Location, u64>,
    from: int,
    to: int,
    labels: Seq<Label>,
    unit: Unit,
)
    requires
        after_insts(cx, s, from, to, labels, unit) is Some,
    ensures
        forall|p: int|
            #![trigger cx.selected.insts@[p]]
            from <= p < to ==> defines(cx.selected.insts@[p]) is Some,
    decreases to - from,
{
    if to > from {
        lemma_all_define(cx, s, from, to - 1, labels, unit);
    }
}

// ---------------------------------------------------------------------------
// Edges

/// The copies can be made at once, and go to places that are kept.
pub open spec fn copies_ok(cx: EmitContext, copies: Seq<PhiCopy>, frame: CopyFrame) -> bool {
    &&& well_formed(copies, frame)
    &&& undisturbed(copies, frame)
    &&& forall|i: int|
        #![trigger copies[i]]
        0 <= i < copies.len() ==> visible(cx, copies[i].dst) && !in_scratch(cx, copies[i].dst)
}

/// The scratch registers of the copies are those of the function.
pub open spec fn frame_ok(cx: EmitContext, frame: CopyFrame) -> bool {
    &&& frame.spill_bias == cx.spill_bias
    &&& cx.abi.scratch_gpr@.len() > 0 && frame.gpr == cx.abi.scratch_gpr@[0]
    &&& cx.abi.scratch_xmm@.len() > 0 && frame.xmm == cx.abi.scratch_xmm@[0]
}

pub open spec fn sources_known(s: Map<Location, u64>, copies: Seq<PhiCopy>) -> bool {
    forall|i: int| #![trigger copies[i]] 0 <= i < copies.len() ==> s.contains_key(copies[i].src)
}

/// The copy that writes the location.
pub open spec fn writer(copies: Seq<PhiCopy>, l: Location) -> int {
    choose|i: int| #![trigger copies[i]] 0 <= i < copies.len() && copies[i].dst == l
}

/// What is known without the scratch registers.
pub open spec fn lasting(cx: EmitContext, s: Map<Location, u64>) -> Map<Location, u64> {
    Map::new(|l: Location| s.contains_key(l) && !in_scratch(cx, l), |l: Location| s[l])
}

/// What is known when all the copies were made at once.
pub open spec fn moved(cx: EmitContext, s: Map<Location, u64>, copies: Seq<PhiCopy>) -> Map<
    Location,
    u64,
> {
    Map::new(
        |l: Location| written(copies, l) || (s.contains_key(l) && !in_scratch(cx, l)),
        |l: Location|
            if written(copies, l) {
                s[copies[writer(copies, l)].src]
            } else {
                s[l]
            },
    )
}

#[verifier::rlimit(40)]
proof fn lemma_copies(
    start: Start,
    ops: Seq<AsmOp>,
    cx: EmitContext,
    copies: Seq<PhiCopy>,
    frame: CopyFrame,
    c: Cpu,
    s: Map<Location, u64>,
    args: Seq<u64>,
    unit: Unit,
) -> (e: Cpu)
    requires
        run(start, ops, unit) == Some(c),
        agrees(cx, c, s, args),
        platform_ok(cx, unit),
        copies_ok(cx, copies, frame),
        frame_ok(cx, frame),
        sources_known(s, copies),
    ensures
        parallel(Some(ops), copies, frame) is Some,
        run(start, parallel(Some(ops), copies, frame).unwrap(), unit) == Some(e),
        agrees(cx, e, moved(cx, s, copies), args),
{
    let m = machine_of(c);
    let q = parallel(Some(ops), copies, frame).unwrap();
    lemma_parallel(ops, copies, frame, m, ops.len());
    lemma_grows_put(Some(ops), Growth::Moves);
    assert(cx.abi.scratch_gpr@.contains(frame.gpr));
    assert(cx.abi.scratch_xmm@.contains(frame.xmm));
    assert(is_scratch(*cx.abi, frame.gpr) && is_scratch(*cx.abi, frame.xmm));
    assert(copies_apart(copies, frame)) by {
        assert forall|i: int| #![trigger copies[i]] 0 <= i < copies.len() implies (
        copies[i].dst matches Location::Reg(r) ==> !is_pointer(r)) by {
            assert(visible(cx, copies[i].dst));
        }
    }
    lemma_parallel_grows(Some(ops), Some(ops), copies, frame);
    assert(ops.len() <= q.len() && ops == q.take(ops.len() as int) && forall|i: int|
        #![trigger q[i]]
        ops.len() <= i < q.len() ==> is_move(q[i])) by {
        reveal(grows);
    }
    let e = lemma_moves_run(c, ops.len(), q, unit);
    lemma_run_on(start, ops, c, q, e, unit);
    lemma_settled(cx, c, e, args);
    let now = crate::x64::copies::run(m, ops.len(), q);
    let bias = cx.spill_bias;
    assert(crate::x64::copies::run(m, ops.len(), ops) == m);
    assert forall|l: Location| #![trigger held(e, l, bias)] reachable(l, bias) implies held(
        e,
        l,
        bias,
    ) == crate::x64::copies::held(now, l, bias) by {
        match l {
            Location::Reg(r) => {
                assert(get(e, r) == (now.regs)(r));
            },
            Location::Spill(a) => {
                let o = slot_offset(a, bias).unwrap();
                assert(peek(e, PhysReg::Rbp, o) == (now.slots)(o));
            },
        }
    }
    let t = moved(cx, s, copies);
    assert forall|l: Location| #[trigger] t.contains_key(l) implies visible(cx, l) && held(
        e,
        l,
        bias,
    ) == t[l] by {
        if written(copies, l) {
            let i = writer(copies, l);
            assert(copies[i].dst == l && 0 <= i < copies.len());
            assert(s.contains_key(copies[i].src));
            assert(crate::x64::copies::held(now, copies[i].dst, bias) == crate::x64::copies::held(
                m,
                copies[i].src,
                bias,
            ));
            assert(held(c, copies[i].src, bias) == crate::x64::copies::held(m, copies[i].src, bias));
        } else {
            assert(s.contains_key(l));
            assert(!is_copy_scratch(l, frame));
            assert(crate::x64::copies::held(now, l, bias) == crate::x64::copies::held(m, l, bias));
            assert(held(c, l, bias) == crate::x64::copies::held(m, l, bias));
        }
    }
    e
}

/// What an instruction without a result reads is in registers.
#[verifier::rlimit(40)]
proof fn lemma_loaded(
    start: Start,
    ops: Seq<AsmOp>,
    cx: EmitContext,
    inst: MachineInst,
    c: Cpu,
    s: Map<Location, u64>,
    args: Seq<u64>,
    unit: Unit,
) -> (e: Cpu)
    requires
        run(start, ops, unit) == Some(c),
        agrees(cx, c, s, args),
        defines(inst) is None,
        scratch_free(cx),
        all_known(cx, s, inst),
        resolve(cx, inst, reads(inst).len()) is Some,
        ({
            let regs = resolve(cx, inst, reads(inst).len()).unwrap().entries;
            reloaded(Some(ops), cx, inst, regs, reads(inst).len()) is Some
        }),
    ensures
        ({
            let regs = resolve(cx, inst, reads(inst).len()).unwrap().entries;
            &&& run(start, reloaded(Some(ops), cx, inst, regs, reads(inst).len()).unwrap(), unit)
                == Some(e)
            &&& agrees(cx, e, lasting(cx, s), args)
            &&& forall|i: int|
                #![trigger reads(inst)[i]]
                0 <= i < reads(inst).len() ==> get(e, at(regs, reads(inst)[i])) == worth(
                    cx,
                    s,
                    reads(inst)[i],
                )
        }),
{
    let n = reads(inst).len();
    let r = resolve(cx, inst, n).unwrap();
    lemma_resolved(cx, inst, n);
    assert forall|i: int| #![trigger reads(inst)[i]] 0 <= i < n implies Some(
        at(r.entries, reads(inst)[i]),
    ) == lookup(r.entries, reads(inst)[i]) by {
        assert(lookup(r.entries, reads(inst)[i]) is Some);
    }
    let e = lemma_reloaded(start, ops, cx, inst, r.entries, r, n, c, unit);
    assert(!is_scratch(*cx.abi, PhysReg::Rsp) && !is_scratch(*cx.abi, PhysReg::Rbp));
    assert(get(e, PhysReg::Rsp) == get(c, PhysReg::Rsp));
    assert(get(e, PhysReg::Rbp) == get(c, PhysReg::Rbp));
    lemma_settled(cx, c, e, args);
    let t = lasting(cx, s);
    assert forall|l: Location| #[trigger] t.contains_key(l) implies visible(cx, l) && held(
        e,
        l,
        cx.spill_bias,
    ) == t[l] by {
        assert(s.contains_key(l));
        if let Location::Reg(r) = l {
            assert(get(e, r) == get(c, r));
        }
    }
    assert forall|i: int| #![trigger reads(inst)[i]] 0 <= i < n implies get(
        e,
        at(r.entries, reads(inst)[i]),
    ) == worth(cx, s, reads(inst)[i]) by {
        assert(known(cx, s, reads(inst)[i]));
    }
    e
}

// ---------------------------------------------------------------------------
// Parameters

/// What is known when the first `n` parameters on the stack were loaded.
pub open spec fn with_loads(
    s: Map<Location, u64>,
    loads: Seq<(usize, Location)>,
    args: Seq<u64>,
    n: nat,
) -> Map<Location, u64>
    decreases n,
{
    if n == 0 {
        s
    } else {
        with_loads(s, loads, args, (n - 1) as nat).insert(loads[n - 1].1, args[loads[n - 1].0 as int])
    }
}

/// The loads are of parameters on the stack, to places of values.
pub open spec fn loads_fit(cx: EmitContext, loads: Seq<(usize, Location)>) -> bool {
    forall|i: int|
        #![trigger loads[i]]
        0 <= i < loads.len() ==> loads[i].0 < cx.func.params@.len() && param_source(
            *cx.abi,
            cx.func.params@,
            loads[i].0 as int,
        ) is None && is_place(cx, loads[i].1)
}

proof fn lemma_plan(cx: EmitContext, n: nat)
    ensures
        plan_params(cx, n) matches Some(p) ==> loads_fit(cx, p.loads),
    decreases n,
{
    if n > 0 {
        lemma_plan(cx, (n - 1) as nat);
        if let (Some(p), Some(q)) = (plan_params(cx, (n - 1) as nat), plan_params(cx, n)) {
            let inst = cx.selected.insts@[n - 1];
            assert(plan_param(cx, inst, p) == Some(q));
            assert forall|i: int|
                #![trigger q.loads[i]]
                0 <= i < q.loads.len() implies q.loads[i].0 < cx.func.params@.len()
                && param_source(*cx.abi, cx.func.params@, q.loads[i].0 as int) is None && is_place(
                cx,
                q.loads[i].1,
            ) by {
                if i < p.loads.len() {
                    assert(q.loads[i] == p.loads[i]);
                } else if let MachineInst::Param { dst, index } = inst {
                    assert(location(cx, dst) == Some(q.loads[i].1));
                }
            }
        }
    }
}

/// No scratch register is known.
pub open spec fn without_scratch(cx: EmitContext, s: Map<Location, u64>) -> bool {
    forall|l: Location| #[trigger] s.contains_key(l) ==> !in_scratch(cx, l)
}

#[verifier::rlimit(60)]
proof fn lemma_loads(
    start: Start,
    ops: Seq<AsmOp>,
    cx: EmitContext,
    frame: CopyFrame,
    loads: Seq<(usize, Location)>,
    n: nat,
    c: Cpu,
    s: Map<Location, u64>,
    args: Seq<u64>,
    unit: Unit,
) -> (e: Cpu)
    requires
        run(start, ops, unit) == Some(c),
        agrees(cx, c, s, args),
        without_scratch(cx, s),
        platform_ok(cx, unit),
        frame_ok(cx, frame),
        loads_fit(cx, loads),
        n <= loads.len(),
        load_params(Some(ops), cx, frame, loads, n) is Some,
    ensures
        run(start, load_params(Some(ops), cx, frame, loads, n).unwrap(), unit) == Some(e),
        agrees(cx, e, with_loads(s, loads, args, n), args),
        without_scratch(cx, with_loads(s, loads, args, n)),
    decreases n,
{
    if n == 0 {
        c
    } else {
        let l = (n - 1) as nat;
        let before = load_params(Some(ops), cx, frame, loads, l);
        assert(before is Some);
        let d = lemma_loads(start, ops, cx, frame, loads, l, c, s, args, unit);
        let t = with_loads(s, loads, args, l);
        let now = with_loads(s, loads, args, n);
        let (index, place) = loads[n - 1];
        let params = cx.func.params@;
        let ty = params[index as int].1;
        let offset = param_offset(*cx.abi, params, index as int);
        let value = args[index as int];
        assert(is_place(cx, place) && param_source(*cx.abi, params, index as int) is None);
        let v = choose|v: Value| #[trigger] location(cx, v) == Some(place);
        assert(location(cx, v) == Some(place));
        assert(cx.abi.scratch_gpr@.contains(frame.gpr));
        assert(cx.abi.scratch_xmm@.contains(frame.xmm));
        assert(is_scratch(*cx.abi, frame.scratch(ty)));
        assert(offset >= 0);
        let to = match place {
            Location::Reg(r) => r,
            Location::Spill(_) => frame.scratch(ty),
        };
        let load = if ty == Ty::F64 {
            AsmOp::MovsdRegMem { dst: to, base: PhysReg::Rbp, offset: offset as i32 }
        } else {
            AsmOp::MovRegMem { dst: to, base: PhysReg::Rbp, offset: offset as i32 }
        };
        assert(stack_param(before, *cx.abi, params, index as int, to, cx.framed) is Some);
        assert(stack_param(before, *cx.abi, params, index as int, to, cx.framed) == Some(
            before.unwrap().push(load),
        ));
        lemma_put(start, before.unwrap(), load, d, unit);
        assert(incoming(cx, d, args));
        assert(word(d, get(d, PhysReg::Rbp) + offset) == value);
        let d1 = with_register(d, to, value);
        assert(step(d, load, unit) == Some(d1));
        assert(!is_pointer(to));
        let e = match place {
            Location::Reg(_) => d1,
            Location::Spill(slot) => {
                let o = slot_offset(slot, cx.spill_bias).unwrap();
                let store = if ty == Ty::F64 {
                    AsmOp::MovsdMemReg { base: PhysReg::Rbp, offset: o, src: to }
                } else {
                    AsmOp::MovMemReg { base: PhysReg::Rbp, offset: o, src: to }
                };
                assert(slot_offset(slot, cx.spill_bias) is Some);
                lemma_put(start, before.unwrap().push(load), store, d1, unit);
                assert(o < 0);
                poke(d1, PhysReg::Rbp, o, value)
            },
        };
        assert(run(start, load_params(Some(ops), cx, frame, loads, n).unwrap(), unit) == Some(e));
        assert(get(e, PhysReg::Rsp) == get(d, PhysReg::Rsp));
        assert(get(e, PhysReg::Rbp) == get(d, PhysReg::Rbp));
        lemma_settled(cx, d, e, args);
        assert forall|k: Location| #[trigger] now.contains_key(k) implies visible(cx, k) && held(
            e,
            k,
            cx.spill_bias,
        ) == now[k] by {
            if k != place {
                assert(t.contains_key(k));
                assert(held(d, k, cx.spill_bias) == t[k]);
                match k {
                    Location::Reg(r) => {
                        assert(r != to);
                        assert(get(e, r) == get(d, r));
                    },
                    Location::Spill(a) => {
                        if let Location::Spill(b) = place {
                            crate::x64::copies::lemma_slots_apart(a, b, cx.spill_bias);
                        }
                    },
                }
            }
        }
        assert forall|k: Location| #[trigger] now.contains_key(k) implies !in_scratch(cx, k) by {
            if k != place {
                assert(t.contains_key(k));
            }
        }
        e
    }
}

// ---------------------------------------------------------------------------
// Code with jumps

/// The first place of a label.
pub open spec fn is_landing(ops: Seq<AsmOp>, label: Label, p: int) -> bool {
    &&& 0 <= p < ops.len()
    &&& ops[p] == (AsmOp::Bind { label })
    &&& forall|q: int| #![trigger ops[q]] 0 <= q < p ==> ops[q] != (AsmOp::Bind { label })
}

pub open spec fn landing(ops: Seq<AsmOp>, label: Label) -> Option<int> {
    if exists|p: int| is_landing(ops, label, p) {
        Some(choose|p: int| is_landing(ops, label, p))
    } else {
        None
    }
}

/// The processor when the code returns that runs from place `pc` on. The frame
/// is set up by the caller of the code and left to it.
pub open spec fn go(c: Cpu, ops: Seq<AsmOp>, pc: int, unit: Unit, fuel: nat) -> Option<Cpu>
    decreases fuel,
{
    if fuel == 0 || pc < 0 || pc >= ops.len() {
        None
    } else {
        let left = (fuel - 1) as nat;
        match ops[pc] {
            AsmOp::Bind { .. } | AsmOp::Prologue => go(c, ops, pc + 1, unit, left),
            AsmOp::Ret | AsmOp::Epilogue => Some(c),
            AsmOp::Jmp { label } => match landing(ops, label) {
                Some(p) => go(c, ops, p, unit, left),
                None => None,
            },
            AsmOp::Jcc { cond, label } => if condition_holds(cond, c.flags) {
                match landing(ops, label) {
                    Some(p) => go(c, ops, p, unit, left),
                    None => None,
                }
            } else {
                go(c, ops, pc + 1, unit, left)
            },
            op => match step(c, op, unit) {
                Some(d) => go(d, ops, pc + 1, unit, left),
                None => None,
            },
        }
    }
}

/// Straight code runs as one operation after another.
proof fn lemma_go_run(
    c: Cpu,
    ops: Seq<AsmOp>,
    from: nat,
    part: Seq<AsmOp>,
    d: Cpu,
    unit: Unit,
    fuel: nat,
)
    requires
        run(Start { cpu: c, from }, part, unit) == Some(d),
        part.len() <= ops.len(),
        part == ops.take(part.len() as int),
    ensures
        from <= part.len(),
        go(c, ops, from as int, unit, (fuel + part.len() - from) as nat) == go(
            d,
            ops,
            part.len() as int,
            unit,
            fuel,
        ),
    decreases part.len(),
{
    reveal(run);
    if part.len() > from {
        let p = part.drop_last();
        assert(p =~= ops.take(p.len() as int));
        let b = run(Start { cpu: c, from }, p, unit).unwrap();
        lemma_go_run(c, ops, from, p, b, unit, fuel + 1);
        assert(ops[p.len() as int] == part.last());
        assert(step(b, part.last(), unit) == Some(d));
    }
}

// ---------------------------------------------------------------------------
// What the selected instructions stand for

/// The last start of a block.
pub open spec fn start_of(starts: Seq<(Block, usize)>, b: Block) -> Option<int>
    decreases starts.len(),
{
    if starts.len() == 0 {
        None
    } else if starts.last().0 == b {
        Some(starts.len() - 1)
    } else {
        start_of(starts.drop_last(), b)
    }
}

proof fn lemma_start_of(starts: Seq<(Block, usize)>, labels: Seq<Label>, b: Block)
    ensures
        match start_of(starts, b) {
            Some(i) => 0 <= i < starts.len() && block_label(starts, labels, b) == Some(labels[i]),
            None => block_label(starts, labels, b) is None,
        },
    decreases starts.len(),
{
    if starts.len() > 0 && starts.last().0 != b {
        lemma_start_of(starts.drop_last(), labels, b);
    }
}

/// Every block starts once.
pub open spec fn distinct_starts(starts: Seq<(Block, usize)>) -> bool {
    forall|i: int, j: int|
        #![trigger starts[i], starts[j]]
        0 <= i < j < starts.len() ==> starts[i].0 != starts[j].0
}

proof fn lemma_start_at(starts: Seq<(Block, usize)>, i: int)
    requires
        distinct_starts(starts),
        0 <= i < starts.len(),
    ensures
        start_of(starts, starts[i].0) == Some(i),
    decreases starts.len(),
{
    if i < starts.len() - 1 {
        let less = starts.drop_last();
        assert(starts[i].0 != starts[starts.len() - 1].0);
        assert(distinct_starts(less)) by {
            assert forall|x: int, y: int|
                #![trigger less[x], less[y]]
                0 <= x < y < less.len() implies less[x].0 != less[y].0 by {
                assert(starts[x].0 != starts[y].0);
            }
        }
        lemma_start_at(less, i);
    }
}

/// What is known at the first instruction of the `i`-th block: in the entry,
/// the parameters have gone to their places.
pub open spec fn entered(cx: EmitContext, s: Map<Location, u64>, args: Seq<u64>, i: int) -> Option<
    Map<Location, u64>,
> {
    if cx.selected.block_starts@[i].0 != cx.func.entry {
        Some(s)
    } else {
        match plan_params(cx, cx.selected.insts@.len()) {
            Some(p) => if sources_known(s, p.copies) {
                Some(with_loads(moved(cx, s, p.copies), p.loads, args, p.loads.len()))
            } else {
                None
            },
            None => None,
        }
    }
}

/// What is known behind an edge, and where it leads.
pub open spec fn along(
    cx: EmitContext,
    s: Map<Location, u64>,
    source: Block,
    target: Block,
) -> Option<(Map<Location, u64>, int)> {
    match (edge_copies(cx, source, target), start_of(cx.selected.block_starts@, target)) {
        (Some(copies), Some(j)) => if sources_known(lasting(cx, s), copies) {
            Some((moved(cx, lasting(cx, s), copies), j))
        } else {
            None
        },
        _ => None,
    }
}

/// What the function gives whose places hold `s` at the start of its `i`-th
/// block: whether it is a double, and its bits. Instruction after instruction
/// puts what it stands for in its place, an edge moves the values of the phis
/// at once, and a branch goes by its bit.
pub open spec fn flow(
    cx: EmitContext,
    labels: Seq<Label>,
    s: Map<Location, u64>,
    args: Seq<u64>,
    i: int,
    unit: Unit,
    fuel: nat,
) -> Option<(bool, u64)>
    decreases fuel,
{
    let starts = cx.selected.block_starts@;
    if fuel == 0 || i < 0 || i >= starts.len() || entered(cx, s, args, i) is None {
        None
    } else {
        let left = (fuel - 1) as nat;
        let (block, start) = starts[i];
        let end = block_end(*cx.selected, i);
        let first = entered(cx, s, args, i).unwrap();
        if start >= end || end > cx.selected.insts@.len() {
            None
        } else {
            match after_insts(cx, first, start as int, end - 1, labels, unit) {
                None => None,
                Some(t) => match cx.selected.insts@[end - 1] {
                    MachineInst::Return { value } => if known(cx, t, value) {
                        Some((value_type(cx, value) == Some(Ty::F64), worth(cx, t, value)))
                    } else {
                        None
                    },
                    MachineInst::Jump { target } => match along(cx, t, block, target) {
                        Some((u, j)) => flow(cx, labels, u, args, j, unit, left),
                        None => None,
                    },
                    MachineInst::Branch { cond, then_, else_ } => if !known(cx, t, cond) {
                        None
                    } else {
                        match along(
                            cx,
                            t,
                            block,
                            if worth(cx, t, cond) != 0 {
                                then_
                            } else {
                                else_
                            },
                        ) {
                            Some((u, j)) => flow(cx, labels, u, args, j, unit, left),
                            None => None,
                        }
                    },
                    _ => None,
                },
            }
        }
    }
}

/// The values have places in which the code can keep them.
pub open spec fn sound(cx: EmitContext, frame: CopyFrame) -> bool {
    &&& frame_ok(cx, frame)
    &&& distinct_starts(cx.selected.block_starts@)
    &&& forall|p: int| 0 <= p < cx.selected.insts@.len() ==> #[trigger] sound_inst(cx, p)
    &&& forall|source: Block, target: Block|
        (#[trigger] edge_copies(cx, source, target) matches Some(copies) ==> copies_ok(
            cx,
            copies,
            frame,
        ))
    &&& plan_params(cx, cx.selected.insts@.len()) matches Some(p) ==> copies_ok(
        cx,
        p.copies,
        frame,
    )
}

// ---------------------------------------------------------------------------
// Where the blocks stand

/// What comes before the blocks.
pub open spec fn opening(cx: EmitContext) -> Ops {
    if cx.framed {
        put(Some(Seq::<AsmOp>::empty()), AsmOp::Prologue)
    } else {
        Some(Seq::<AsmOp>::empty())
    }
}

/// `p` is how `q` begins.
pub open spec fn begins(p: Seq<AsmOp>, q: Seq<AsmOp>) -> bool {
    p.len() <= q.len() && p == q.take(p.len() as int)
}

proof fn lemma_begins(p: Seq<AsmOp>, q: Seq<AsmOp>, r: Seq<AsmOp>)
    requires
        begins(p, q),
        begins(q, r),
    ensures
        begins(p, r),
{
    assert(p =~= r.take(p.len() as int));
}

proof fn lemma_grows_begins(p: Ops, q: Seq<AsmOp>, kind: Growth)
    requires
        grows(p, Some(q), kind),
    ensures
        p is Some,
        begins(p.unwrap(), q),
{
    reveal(grows);
}

/// What the entry does first brings no labels.
proof fn lemma_params_grow(acc: Ops, cx: EmitContext, frame: CopyFrame)
    ensures
        grows(acc, params_placed(acc, cx, frame), Growth::Straight),
{
    lemma_grows_put(acc, Growth::Straight);
    if let Some(plan) = plan_params(cx, cx.selected.insts@.len()) {
        lemma_parallel_straight(acc, acc, plan.copies, frame);
        lemma_loads_grow(
            acc,
            parallel(acc, plan.copies, frame),
            cx,
            frame,
            plan.loads,
            plan.loads.len(),
        );
    }
}

/// A block starts with its label, and has no other but that of its first edge.
proof fn lemma_block_shape(acc: Ops, cx: EmitContext, labels: Labels, frame: CopyFrame, i: int)
    requires
        distinct_starts(cx.selected.block_starts@),
        0 <= i < cx.selected.block_starts@.len(),
        block_emitted(acc, cx, labels, frame, i) is Some,
    ensures
        acc is Some,
        ({
            let p = acc.unwrap();
            let q = block_emitted(acc, cx, labels, frame, i).unwrap();
            &&& begins(p.push(AsmOp::Bind { label: labels.blocks@[i] }), q)
            &&& begins(p, q)
            &&& forall|k: int|
                #![trigger q[k]]
                p.len() < k < q.len() ==> allowed(q[k], Growth::Labelled(labels.edges@[i]))
        }),
{
    let starts = cx.selected.block_starts@;
    let (block, start) = starts[i];
    let end = block_end(*cx.selected, i);
    let edge = labels.edges@[i];
    let kind = Growth::Labelled(edge);
    let bound = put(acc, AsmOp::Bind { label: labels.blocks@[i] });
    let ready = if block == cx.func.entry {
        params_placed(bound, cx, frame)
    } else {
        bound
    };
    let q = block_emitted(acc, cx, labels, frame, i);
    lemma_grows_put(bound, kind);
    lemma_params_grow(bound, cx, frame);
    lemma_looser(bound, params_placed(bound, cx, frame), kind);
    lemma_start_at(starts, i);
    lemma_start_of(starts, labels.edges@, block);
    lemma_steps_grow(ready, cx, labels, frame, block, start as int, end, edge);
    lemma_grows_trans(bound, ready, q, kind);
    lemma_grows_begins(bound, q.unwrap(), kind);
    let p = acc.unwrap();
    assert(p =~= bound.unwrap().take(p.len() as int));
    lemma_begins(p, bound.unwrap(), q.unwrap());
    assert forall|k: int| #![trigger q.unwrap()[k]] p.len() < k < q.unwrap().len() implies allowed(
        q.unwrap()[k],
        kind,
    ) by {
        reveal(grows);
    }
}

/// The first blocks come first.
proof fn lemma_blocks_begin(
    cx: EmitContext,
    labels: Labels,
    frame: CopyFrame,
    i: nat,
    n: nat,
)
    requires
        distinct_starts(cx.selected.block_starts@),
        i <= n <= cx.selected.block_starts@.len(),
        blocks_emitted(opening(cx), cx, labels, frame, n) is Some,
    ensures
        blocks_emitted(opening(cx), cx, labels, frame, i) is Some,
        begins(
            blocks_emitted(opening(cx), cx, labels, frame, i).unwrap(),
            blocks_emitted(opening(cx), cx, labels, frame, n).unwrap(),
        ),
    decreases n,
{
    let q = blocks_emitted(opening(cx), cx, labels, frame, n);
    if i == n {
        assert(q.unwrap() =~= q.unwrap().take(q.unwrap().len() as int));
    } else {
        let l = (n - 1) as nat;
        let p = blocks_emitted(opening(cx), cx, labels, frame, l);
        lemma_block_shape(p, cx, labels, frame, n - 1);
        lemma_blocks_begin(cx, labels, frame, i, l);
        lemma_begins(
            blocks_emitted(opening(cx), cx, labels, frame, i).unwrap(),
            p.unwrap(),
            q.unwrap(),
        );
    }
}

/// The label is that of one of the first `n` blocks, or of the first edge of
/// one.
pub open spec fn is_theirs(labels: Labels, n: nat, label: Label) -> bool {
    ||| exists|j: int| #![trigger labels.blocks@[j]] 0 <= j < n && label == labels.blocks@[j]
    ||| exists|j: int| #![trigger labels.edges@[j]] 0 <= j < n && label == labels.edges@[j]
}

/// The labels in the first blocks are theirs.
proof fn lemma_binds(cx: EmitContext, labels: Labels, frame: CopyFrame, n: nat, k: int)
    requires
        distinct_starts(cx.selected.block_starts@),
        n <= cx.selected.block_starts@.len(),
        blocks_emitted(opening(cx), cx, labels, frame, n) is Some,
        0 <= k < blocks_emitted(opening(cx), cx, labels, frame, n).unwrap().len(),
        blocks_emitted(opening(cx), cx, labels, frame, n).unwrap()[k] is Bind,
    ensures
        is_theirs(
            labels,
            n,
            blocks_emitted(opening(cx), cx, labels, frame, n).unwrap()[k]->Bind_label,
        ),
    decreases n,
{
    let q = blocks_emitted(opening(cx), cx, labels, frame, n).unwrap();
    if n > 0 {
        let l = (n - 1) as nat;
        let p = blocks_emitted(opening(cx), cx, labels, frame, l);
        lemma_block_shape(p, cx, labels, frame, n - 1);
        let bound = p.unwrap().push(AsmOp::Bind { label: labels.blocks@[n - 1] });
        if k < p.unwrap().len() {
            assert(q[k] == p.unwrap()[k]);
            lemma_binds(cx, labels, frame, l, k);
            let label = q[k]->Bind_label;
            if exists|j: int| #![trigger labels.blocks@[j]] 0 <= j < l && label == labels.blocks@[j] {
                let j = choose|j: int|
                    #![trigger labels.blocks@[j]]
                    0 <= j < l && label == labels.blocks@[j];
                assert(labels.blocks@[j] == label);
            } else {
                let j = choose|j: int|
                    #![trigger labels.edges@[j]]
                    0 <= j < l && label == labels.edges@[j];
                assert(labels.edges@[j] == label);
            }
        } else if k == p.unwrap().len() {
            assert(q[k] == bound[k]);
            assert(labels.blocks@[n - 1] == q[k]->Bind_label);
        } else {
            assert(allowed(q[k], Growth::Labelled(labels.edges@[n - 1])));
            assert(labels.edges@[n - 1] == q[k]->Bind_label);
        }
    }
}

proof fn lemma_pool_begins(acc: Ops, pool: Seq<u64>, labels: Seq<Label>, n: nat)
    requires
        pool_placed(acc, pool, labels, n) is Some,
    ensures
        acc is Some,
        begins(acc.unwrap(), pool_placed(acc, pool, labels, n).unwrap()),
    decreases n,
{
    let q = pool_placed(acc, pool, labels, n).unwrap();
    if n == 0 {
        assert(q =~= q.take(q.len() as int));
    } else {
        lemma_pool_begins(acc, pool, labels, (n - 1) as nat);
        let p = pool_placed(acc, pool, labels, (n - 1) as nat).unwrap();
        assert(p =~= q.take(p.len() as int));
        lemma_begins(acc.unwrap(), p, q);
    }
}

/// The first place of a label is where it lands.
proof fn lemma_lands(ops: Seq<AsmOp>, label: Label, p: int)
    requires
        is_landing(ops, label, p),
    ensures
        landing(ops, label) == Some(p),
{
    let found = choose|x: int| is_landing(ops, label, x);
    assert(is_landing(ops, label, found));
    if found < p {
        assert(ops[found] != (AsmOp::Bind { label }));
    }
    if found > p {
        assert(ops[p] != (AsmOp::Bind { label }));
    }
}

/// Where the `i`-th block stands in the code: a jump to its label lands there.
proof fn lemma_stands(
    cx: EmitContext,
    labels: Labels,
    frame: CopyFrame,
    ops: Seq<AsmOp>,
    i: int,
)
    requires
        distinct_starts(cx.selected.block_starts@),
        numbered(labels, *cx.selected),
        emitted(cx, labels, frame) == Some(ops),
        0 <= i < cx.selected.block_starts@.len(),
    ensures
        ({
            let p = blocks_emitted(opening(cx), cx, labels, frame, i as nat);
            let q = blocks_emitted(opening(cx), cx, labels, frame, (i + 1) as nat);
            &&& p is Some && q is Some
            &&& begins(p.unwrap(), ops) && begins(q.unwrap(), ops)
            &&& p.unwrap().len() < q.unwrap().len()
            &&& ops[p.unwrap().len() as int] == (AsmOp::Bind { label: labels.blocks@[i] })
            &&& landing(ops, labels.blocks@[i]) == Some(p.unwrap().len() as int)
            &&& forall|k: int|
                #![trigger ops[k]]
                0 <= k < p.unwrap().len() ==> ops[k] != (AsmOp::Bind { label: labels.edges@[i] })
        }),
{
    let n = cx.selected.block_starts@.len();
    let all = blocks_emitted(opening(cx), cx, labels, frame, n);
    lemma_pool_begins(all, cx.selected.pool@, labels.pool@, cx.selected.pool@.len());
    lemma_blocks_begin(cx, labels, frame, i as nat, n);
    lemma_blocks_begin(cx, labels, frame, (i + 1) as nat, n);
    let p = blocks_emitted(opening(cx), cx, labels, frame, i as nat).unwrap();
    let q = blocks_emitted(opening(cx), cx, labels, frame, (i + 1) as nat).unwrap();
    lemma_begins(p, all.unwrap(), ops);
    lemma_begins(q, all.unwrap(), ops);
    lemma_block_shape(Some(p), cx, labels, frame, i);
    let label = labels.blocks@[i];
    let edge = labels.edges@[i];
    let bound = p.push(AsmOp::Bind { label });
    assert(q[p.len() as int] == bound[p.len() as int]);
    assert(ops[p.len() as int] == q[p.len() as int]);
    assert forall|k: int| #![trigger ops[k]] 0 <= k < p.len() implies ops[k] != (AsmOp::Bind {
        label,
    }) && ops[k] != (AsmOp::Bind { label: edge }) by {
        assert(ops[k] == p[k]);
        if ops[k] is Bind {
            lemma_binds(cx, labels, frame, i as nat, k);
            let found = p[k]->Bind_label;
            assert(label.0 == labels.pool@.len() + i);
            assert(edge.0 == labels.pool@.len() + labels.blocks@.len() + i);
            if exists|j: int| #![trigger labels.blocks@[j]] 0 <= j < i && found == labels.blocks@[j] {
                let j = choose|j: int|
                    #![trigger labels.blocks@[j]]
                    0 <= j < i && found == labels.blocks@[j];
                assert(found.0 == labels.pool@.len() + j);
            } else {
                let j = choose|j: int|
                    #![trigger labels.edges@[j]]
                    0 <= j < i && found == labels.edges@[j];
                assert(found.0 == labels.pool@.len() + labels.blocks@.len() + j);
            }
        }
    }
    lemma_lands(ops, label, p.len() as int);
}

// ---------------------------------------------------------------------------
// The law

/// From the label of a block to the end of a straight part of its code.
proof fn lemma_reach(
    c: Cpu,
    ops: Seq<AsmOp>,
    p: nat,
    part: Seq<AsmOp>,
    d: Cpu,
    unit: Unit,
    fuel: nat,
) -> (k: nat)
    requires
        p < ops.len(),
        ops[p as int] is Bind,
        run(Start { cpu: c, from: p + 1 }, part, unit) == Some(d),
        begins(part, ops),
    ensures
        go(c, ops, p as int, unit, k) == go(d, ops, part.len() as int, unit, fuel),
{
    lemma_go_run(c, ops, p + 1, part, d, unit, fuel);
    (fuel + part.len() - p) as nat
}

/// What lasts is still known.
proof fn lemma_lasting(cx: EmitContext, c: Cpu, s: Map<Location, u64>, args: Seq<u64>)
    requires
        agrees(cx, c, s, args),
    ensures
        agrees(cx, c, lasting(cx, s), args),
{
    let t = lasting(cx, s);
    assert forall|l: Location| #[trigger] t.contains_key(l) implies visible(cx, l) && held(
        c,
        l,
        cx.spill_bias,
    ) == t[l] by {
        assert(s.contains_key(l));
    }
}

/// A return: the result is in its register, and the code returns.
#[verifier::rlimit(60)]
proof fn lemma_return(
    here: Start,
    ops: Seq<AsmOp>,
    cx: EmitContext,
    labels: Labels,
    frame: CopyFrame,
    source: Block,
    position: int,
    c: Cpu,
    s: Map<Location, u64>,
    args: Seq<u64>,
    unit: Unit,
) -> (r: (Seq<AsmOp>, Cpu))
    requires
        run(here, ops, unit) == Some(c),
        agrees(cx, c, s, args),
        platform_ok(cx, unit),
        cx.selected.insts@[position] is Return,
        known(cx, s, cx.selected.insts@[position]->Return_value),
        stepped(Some(ops), cx, labels, frame, source, position) is Some,
    ensures
        ({
            let value = cx.selected.insts@[position]->Return_value;
            let whole = stepped(Some(ops), cx, labels, frame, source, position).unwrap();
            &&& run(here, r.0, unit) == Some(r.1)
            &&& get(r.1, answer(value_type(cx, value) == Some(Ty::F64))) == worth(cx, s, value)
            &&& whole == r.0.push(AsmOp::Ret) || whole == r.0.push(AsmOp::Epilogue)
        }),
{
    reveal(stepped);
    let inst = cx.selected.insts@[position];
    let value = inst->Return_value;
    assert(reads(inst) =~= seq![value]);
    let regs = resolve(cx, inst, 1).unwrap().entries;
    let loaded = reloaded(Some(ops), cx, inst, regs, 1);
    let e = lemma_loaded(here, ops, cx, inst, c, s, args, unit);
    assert(reads(inst)[0] == value);
    let from = at(regs, value);
    let float = value_type(cx, value) == Some(Ty::F64);
    let dst = answer(float);
    let l = loaded.unwrap();
    if dst == from {
        (l, e)
    } else {
        let op = if float {
            AsmOp::MovsdRegReg { dst, src: from }
        } else {
            AsmOp::MovRegReg { dst, src: from }
        };
        lemma_put(here, l, op, e, unit);
        (l.push(op), with_register(e, dst, get(e, from)))
    }
}

/// A jump: the values of the phis have moved.
#[verifier::rlimit(60)]
proof fn lemma_jump(
    here: Start,
    ops: Seq<AsmOp>,
    cx: EmitContext,
    labels: Labels,
    frame: CopyFrame,
    source: Block,
    position: int,
    c: Cpu,
    s: Map<Location, u64>,
    args: Seq<u64>,
    unit: Unit,
) -> (r: (Seq<AsmOp>, Cpu))
    requires
        run(here, ops, unit) == Some(c),
        agrees(cx, c, s, args),
        platform_ok(cx, unit),
        sound(cx, frame),
        cx.selected.insts@[position] is Jump,
        along(cx, s, source, cx.selected.insts@[position]->Jump_target) is Some,
        block_label(
            cx.selected.block_starts@,
            labels.blocks@,
            cx.selected.insts@[position]->Jump_target,
        ) is Some,
        stepped(Some(ops), cx, labels, frame, source, position) is Some,
    ensures
        ({
            let target = cx.selected.insts@[position]->Jump_target;
            let whole = stepped(Some(ops), cx, labels, frame, source, position).unwrap();
            let label = block_label(cx.selected.block_starts@, labels.blocks@, target).unwrap();
            &&& run(here, r.0, unit) == Some(r.1)
            &&& agrees(cx, r.1, along(cx, s, source, target).unwrap().0, args)
            &&& whole == r.0.push(AsmOp::Jmp { label })
        }),
{
    reveal(stepped);
    let inst = cx.selected.insts@[position];
    let target = inst->Jump_target;
    let copies = edge_copies(cx, source, target).unwrap();
    assert(reads(inst).len() == 0);
    lemma_lasting(cx, c, s, args);
    let e = lemma_copies(here, ops, cx, copies, frame, c, lasting(cx, s), args, unit);
    (parallel(Some(ops), copies, frame).unwrap(), e)
}

/// A branch: the bit has been tested.
#[verifier::rlimit(60)]
proof fn lemma_tested(
    here: Start,
    ops: Seq<AsmOp>,
    cx: EmitContext,
    labels: Labels,
    frame: CopyFrame,
    source: Block,
    position: int,
    c: Cpu,
    s: Map<Location, u64>,
    args: Seq<u64>,
    unit: Unit,
) -> (r: (Seq<AsmOp>, Cpu))
    requires
        run(here, ops, unit) == Some(c),
        agrees(cx, c, s, args),
        platform_ok(cx, unit),
        cx.selected.insts@[position] is Branch,
        known(cx, s, cx.selected.insts@[position]->Branch_cond),
        stepped(Some(ops), cx, labels, frame, source, position) is Some,
    ensures
        ({
            let inst = cx.selected.insts@[position];
            let regs = resolve(cx, inst, 1).unwrap().entries;
            let bit = at(regs, inst->Branch_cond);
            let loaded = reloaded(Some(ops), cx, inst, regs, 1);
            &&& loaded is Some
            &&& stepped(Some(ops), cx, labels, frame, source, position) == branched(
                loaded,
                cx,
                labels,
                frame,
                source,
                bit,
                inst->Branch_then_,
                inst->Branch_else_,
            )
            &&& r.0 == loaded.unwrap().push(AsmOp::TestRegReg { lhs: bit, rhs: bit })
            &&& run(here, r.0, unit) == Some(r.1)
            &&& agrees(cx, r.1, lasting(cx, s), args)
            &&& r.1.flags == Flags::Tested(worth(cx, s, inst->Branch_cond))
        }),
{
    reveal(stepped);
    let inst = cx.selected.insts@[position];
    let cond = inst->Branch_cond;
    assert(reads(inst) =~= seq![cond]);
    let regs = resolve(cx, inst, 1).unwrap().entries;
    let loaded = reloaded(Some(ops), cx, inst, regs, 1);
    assert(loaded is Some) by {
        lemma_branch_some(
            loaded,
            cx,
            labels,
            frame,
            source,
            at(regs, cond),
            inst->Branch_then_,
            inst->Branch_else_,
        );
    }
    let e = lemma_loaded(here, ops, cx, inst, c, s, args, unit);
    assert(reads(inst)[0] == cond);
    let bit = at(regs, cond);
    let x = get(e, bit);
    assert(x & x == x) by (bit_vector);
    let op = AsmOp::TestRegReg { lhs: bit, rhs: bit };
    lemma_put(here, loaded.unwrap(), op, e, unit);
    let f = with_flags(e, Flags::Tested(x));
    lemma_settled(cx, e, f, args);
    let t = lasting(cx, s);
    assert forall|l: Location| #[trigger] t.contains_key(l) implies visible(cx, l) && held(
        f,
        l,
        cx.spill_bias,
    ) == t[l] by {
        assert(held(e, l, cx.spill_bias) == t[l]);
        match l {
            Location::Reg(r) => {
                assert(get(f, r) == get(e, r));
            },
            Location::Spill(_) => {
                assert(get(f, PhysReg::Rbp) == get(e, PhysReg::Rbp));
            },
        }
    }
    (loaded.unwrap().push(op), f)
}

/// Code that was emitted for a branch was emitted for what comes before it.
proof fn lemma_branch_some(
    acc: Ops,
    cx: EmitContext,
    labels: Labels,
    frame: CopyFrame,
    source: Block,
    bit: PhysReg,
    then_: Block,
    else_: Block,
)
    requires
        branched(acc, cx, labels, frame, source, bit, then_, else_) is Some,
    ensures
        acc is Some,
{
    let starts = cx.selected.block_starts@;
    let copies = edge_copies(cx, source, then_).unwrap();
    let yes = block_label(starts, labels.blocks@, then_).unwrap();
    let no = block_label(starts, labels.blocks@, else_);
    let edge = block_label(starts, labels.edges@, source).unwrap();
    lemma_grows_put(acc, Growth::Straight);
    lemma_plain_branch_grows(acc, acc, cx, frame, source, bit, yes, else_, no);
    lemma_plain_branch_grows(acc, acc, cx, frame, source, bit, edge, else_, no);
    let bound = put(
        branched_plainly(acc, cx, frame, source, bit, edge, else_, no),
        AsmOp::Bind { label: edge },
    );
    lemma_grows_put(bound, Growth::Straight);
    lemma_parallel_straight(bound, bound, copies, frame);
    reveal(grows);
}

/// The parts of a branch.
#[verifier::ext_equal]
pub struct Branched {
    /// Where the jump goes if the bit is set.
    pub label: Label,
    pub no: Label,
    /// Behind the copies of the other edge.
    pub out: Seq<AsmOp>,
}

/// How a branch is laid out behind its test.
#[verifier::rlimit(40)]
proof fn lemma_branch_shape(
    loaded: Seq<AsmOp>,
    cx: EmitContext,
    labels: Labels,
    frame: CopyFrame,
    source: Block,
    bit: PhysReg,
    then_: Block,
    else_: Block,
    q: Seq<AsmOp>,
) -> (b: Branched)
    requires
        branched(Some(loaded), cx, labels, frame, source, bit, then_, else_) == Some(q),
    ensures
        ({
            let starts = cx.selected.block_starts@;
            let tested = loaded.push(AsmOp::TestRegReg { lhs: bit, rhs: bit });
            let fall = tested.push(AsmOp::Jcc { cond: ConditionCode::NotEqual, label: b.label });
            let yes = block_label(starts, labels.blocks@, then_);
            let edge = block_label(starts, labels.edges@, source);
            let jumped = b.out.push(AsmOp::Jmp { label: b.no });
            &&& edge_copies(cx, source, then_) is Some
            &&& edge_copies(cx, source, else_) is Some
            &&& yes is Some && edge is Some
            &&& block_label(starts, labels.blocks@, else_) == Some(b.no)
            &&& parallel(Some(fall), edge_copies(cx, source, else_).unwrap(), frame) == Some(b.out)
            &&& begins(fall, b.out)
            &&& begins(jumped, q)
            &&& grows(Some(loaded), Some(jumped), Growth::Straight)
            &&& if edge_copies(cx, source, then_).unwrap().len() == 0 {
                b.label == yes.unwrap() && q == jumped
            } else {
                let bound = jumped.push(AsmOp::Bind { label: edge.unwrap() });
                let copied = parallel(Some(bound), edge_copies(cx, source, then_).unwrap(), frame);
                &&& b.label == edge.unwrap()
                &&& copied is Some
                &&& begins(bound, copied.unwrap())
                &&& q == copied.unwrap().push(AsmOp::Jmp { label: yes.unwrap() })
            }
        }),
{
    let starts = cx.selected.block_starts@;
    let copies = edge_copies(cx, source, then_).unwrap();
    let yes = block_label(starts, labels.blocks@, then_).unwrap();
    let no = block_label(starts, labels.blocks@, else_);
    let edge = block_label(starts, labels.edges@, source).unwrap();
    let label = if copies.len() == 0 {
        yes
    } else {
        edge
    };
    let plain = branched_plainly(Some(loaded), cx, frame, source, bit, label, else_, no);
    let bound = put(plain, AsmOp::Bind { label: edge });
    lemma_grows_put(bound, Growth::Straight);
    lemma_parallel_straight(bound, bound, copies, frame);
    assert(plain is Some) by {
        reveal(grows);
    }
    lemma_grows_put(Some(loaded), Growth::Straight);
    lemma_plain_branch_grows(Some(loaded), Some(loaded), cx, frame, source, bit, label, else_, no);
    let tested = loaded.push(AsmOp::TestRegReg { lhs: bit, rhs: bit });
    let fall = tested.push(AsmOp::Jcc { cond: ConditionCode::NotEqual, label });
    let out = parallel(Some(fall), edge_copies(cx, source, else_).unwrap(), frame);
    assert(out is Some);
    lemma_grows_put(Some(fall), Growth::Straight);
    lemma_parallel_straight(
        Some(fall),
        Some(fall),
        edge_copies(cx, source, else_).unwrap(),
        frame,
    );
    lemma_grows_begins(Some(fall), out.unwrap(), Growth::Straight);
    let jumped = out.unwrap().push(AsmOp::Jmp { label: no.unwrap() });
    assert(plain == Some(jumped));
    if copies.len() == 0 {
        assert(jumped =~= q.take(jumped.len() as int));
    } else {
        let copied = parallel(bound, copies, frame);
        lemma_grows_begins(bound, copied.unwrap(), Growth::Straight);
        assert(bound == Some(jumped.push(AsmOp::Bind { label: edge })));
        assert(jumped =~= bound.unwrap().take(jumped.len() as int));
        lemma_begins(jumped, bound.unwrap(), copied.unwrap());
        assert(copied.unwrap() =~= q.take(copied.unwrap().len() as int));
        lemma_begins(jumped, copied.unwrap(), q);
    }
    Branched { label, no: no.unwrap(), out: out.unwrap() }
}

/// Where the copies for the first edge of a branch stand.
proof fn lemma_edge_stands(
    cx: EmitContext,
    labels: Labels,
    frame: CopyFrame,
    ops: Seq<AsmOp>,
    i: int,
    mid: Seq<AsmOp>,
)
    requires
        distinct_starts(cx.selected.block_starts@),
        numbered(labels, *cx.selected),
        emitted(cx, labels, frame) == Some(ops),
        0 <= i < cx.selected.block_starts@.len(),
        begins(mid.push(AsmOp::Bind { label: labels.edges@[i] }), ops),
        ({
            let p = blocks_emitted(opening(cx), cx, labels, frame, i as nat).unwrap();
            grows(
                Some(p.push(AsmOp::Bind { label: labels.blocks@[i] })),
                Some(mid),
                Growth::Straight,
            )
        }),
    ensures
        landing(ops, labels.edges@[i]) == Some(mid.len() as int),
        ops[mid.len() as int] is Bind,
{
    lemma_stands(cx, labels, frame, ops, i);
    let p = blocks_emitted(opening(cx), cx, labels, frame, i as nat).unwrap();
    let label = labels.edges@[i];
    let bound = mid.push(AsmOp::Bind { label });
    assert(ops[mid.len() as int] == bound[mid.len() as int]);
    assert(label.0 == labels.pool@.len() + labels.blocks@.len() + i);
    assert(labels.blocks@[i].0 == labels.pool@.len() + i);
    assert forall|k: int| #![trigger ops[k]] 0 <= k < mid.len() implies ops[k] != (AsmOp::Bind {
        label,
    }) by {
        if k > p.len() {
            assert(ops[k] == bound[k] && bound[k] == mid[k]);
            assert(allowed(mid[k], Growth::Straight)) by {
                reveal(grows);
            }
        } else if k == p.len() {
            assert(ops[k] == (AsmOp::Bind { label: labels.blocks@[i] }));
        }
    }
    lemma_lands(ops, label, mid.len() as int);
}

/// Code that jumps behind copies.
proof fn lemma_copies_go(
    c: Cpu,
    ops: Seq<AsmOp>,
    from: Seq<AsmOp>,
    out: Seq<AsmOp>,
    e: Cpu,
    label: Label,
    unit: Unit,
    fuel: nat,
) -> (k: nat)
    requires
        run(Start { cpu: c, from: from.len() }, out, unit) == Some(e),
        begins(out.push(AsmOp::Jmp { label }), ops),
        landing(ops, label) is Some,
    ensures
        go(c, ops, from.len() as int, unit, k) == go(
            e,
            ops,
            landing(ops, label).unwrap(),
            unit,
            fuel,
        ),
{
    let jumped = out.push(AsmOp::Jmp { label });
    assert(out =~= ops.take(out.len() as int)) by {
        assert(jumped.take(out.len() as int) =~= out);
    }
    assert(ops[out.len() as int] == jumped[out.len() as int]);
    lemma_go_run(c, ops, from.len(), out, e, unit, fuel + 1);
    (fuel + 1 + out.len() - from.len()) as nat
}

/// The processor when a block has carried out all its instructions but the
/// last.
#[verifier::rlimit(60)]
proof fn lemma_up_to_last(
    cx: EmitContext,
    labels: Labels,
    frame: CopyFrame,
    ops: Seq<AsmOp>,
    i: int,
    c: Cpu,
    s: Map<Location, u64>,
    args: Seq<u64>,
    unit: Unit,
) -> (r: (Seq<AsmOp>, Cpu))
    requires
        sound(cx, frame),
        platform_ok(cx, unit),
        numbered(labels, *cx.selected),
        emitted(cx, labels, frame) == Some(ops),
        0 <= i < cx.selected.block_starts@.len(),
        agrees(cx, c, s, args),
        entered(cx, s, args, i) is Some,
        ({
            let start = cx.selected.block_starts@[i].1 as int;
            let end = block_end(*cx.selected, i);
            let first = entered(cx, s, args, i).unwrap();
            &&& start < end <= cx.selected.insts@.len()
            &&& after_insts(cx, first, start, end - 1, labels.pool@, unit) is Some
        }),
    ensures
        ({
            let (block, start) = cx.selected.block_starts@[i];
            let end = block_end(*cx.selected, i);
            let first = entered(cx, s, args, i).unwrap();
            let t = after_insts(cx, first, start as int, end - 1, labels.pool@, unit).unwrap();
            let p = blocks_emitted(opening(cx), cx, labels, frame, i as nat).unwrap();
            let q = blocks_emitted(opening(cx), cx, labels, frame, (i + 1) as nat).unwrap();
            let bound = p.push(AsmOp::Bind { label: labels.blocks@[i] });
            &&& run(Start { cpu: c, from: p.len() + 1 }, r.0, unit) == Some(r.1)
            &&& agrees(cx, r.1, t, args)
            &&& stepped(Some(r.0), cx, labels, frame, block, end - 1) == Some(q)
            &&& grows(Some(bound), Some(r.0), Growth::Straight)
        }),
{
    let starts = cx.selected.block_starts@;
    let (block, start) = starts[i];
    let end = block_end(*cx.selected, i);
    let p = blocks_emitted(opening(cx), cx, labels, frame, i as nat).unwrap();
    let q = blocks_emitted(opening(cx), cx, labels, frame, (i + 1) as nat).unwrap();
    lemma_stands(cx, labels, frame, ops, i);
    let bound = p.push(AsmOp::Bind { label: labels.blocks@[i] });
    let here = Start { cpu: c, from: p.len() + 1 };
    assert(run(here, bound, unit) == Some(c)) by {
        reveal(run);
    }
    let s1 = entered(cx, s, args, i).unwrap();
    let ready = if block == cx.func.entry {
        params_placed(Some(bound), cx, frame)
    } else {
        Some(bound)
    };
    assert(stepped_to(ready, cx, labels, frame, block, start as int, end) == Some(q));
    let before = stepped_to(ready, cx, labels, frame, block, start as int, end - 1);
    assert(stepped(before, cx, labels, frame, block, end - 1) == Some(q));
    lemma_start_at(starts, i);
    lemma_start_of(starts, labels.edges@, block);
    lemma_stepped_grows(before, cx, labels, frame, block, end - 1, labels.edges@[i]);
    lemma_grows_begins(before, q, Growth::Labelled(labels.edges@[i]));
    lemma_all_define(cx, s1, start as int, end - 1, labels.pool@, unit);
    lemma_steps_straight(ready, cx, labels, frame, block, start as int, end - 1);
    lemma_grows_begins(ready, before.unwrap(), Growth::Straight);
    lemma_grows_put(Some(bound), Growth::Straight);
    lemma_params_grow(Some(bound), cx, frame);
    lemma_grows_trans(Some(bound), ready, before, Growth::Straight);
    // The parameters.
    let c1 = if block == cx.func.entry {
        let plan = plan_params(cx, cx.selected.insts@.len()).unwrap();
        lemma_plan(cx, cx.selected.insts@.len());
        let d = lemma_copies(here, bound, cx, plan.copies, frame, c, s, args, unit);
        let copied = parallel(Some(bound), plan.copies, frame).unwrap();
        let t = moved(cx, s, plan.copies);
        assert(without_scratch(cx, t)) by {
            assert forall|l: Location| #[trigger] t.contains_key(l) implies !in_scratch(cx, l) by {
                if written(plan.copies, l) {
                    let k = writer(plan.copies, l);
                    assert(plan.copies[k].dst == l);
                }
            }
        }
        lemma_loads(
            here,
            copied,
            cx,
            frame,
            plan.loads,
            plan.loads.len(),
            d,
            t,
            args,
            unit,
        )
    } else {
        c
    };
    assert(run(here, ready.unwrap(), unit) == Some(c1) && agrees(cx, c1, s1, args));
    assert forall|x: int| start <= x < end - 1 implies #[trigger] sound_inst(cx, x) by {}
    let d = lemma_steps(
        here,
        ready.unwrap(),
        cx,
        labels,
        frame,
        block,
        start as int,
        end - 1,
        c1,
        s1,
        args,
        unit,
    );
    (before.unwrap(), d)
}

/// The edge of a branch that is taken: the processor at the block to which it
/// leads, if that is reached by `fuel` steps less.
#[verifier::rlimit(80)]
#[verifier::spinoff_prover]
proof fn lemma_branch_goes(
    cx: EmitContext,
    labels: Labels,
    frame: CopyFrame,
    ops: Seq<AsmOp>,
    i: int,
    done: Seq<AsmOp>,
    c: Cpu,
    d: Cpu,
    t: Map<Location, u64>,
    args: Seq<u64>,
    unit: Unit,
) -> (r: (Seq<AsmOp>, Cpu, Seq<AsmOp>, Seq<AsmOp>, Cpu, Label))
    requires
        sound(cx, frame),
        platform_ok(cx, unit),
        numbered(labels, *cx.selected),
        emitted(cx, labels, frame) == Some(ops),
        0 <= i < cx.selected.block_starts@.len(),
        ({
            let block = cx.selected.block_starts@[i].0;
            let end = block_end(*cx.selected, i);
            let p = blocks_emitted(opening(cx), cx, labels, frame, i as nat).unwrap();
            let q = blocks_emitted(opening(cx), cx, labels, frame, (i + 1) as nat).unwrap();
            let last = cx.selected.insts@[end - 1];
            &&& run(Start { cpu: c, from: p.len() + 1 }, done, unit) == Some(d)
            &&& agrees(cx, d, t, args)
            &&& stepped(Some(done), cx, labels, frame, block, end - 1) == Some(q)
            &&& grows(
                Some(p.push(AsmOp::Bind { label: labels.blocks@[i] })),
                Some(done),
                Growth::Straight,
            )
            &&& last is Branch
            &&& known(cx, t, last->Branch_cond)
            &&& along(
                cx,
                t,
                block,
                if worth(cx, t, last->Branch_cond) != 0 {
                    last->Branch_then_
                } else {
                    last->Branch_else_
                },
            ) is Some
        }),
    ensures
        ({
            let block = cx.selected.block_starts@[i].0;
            let last = cx.selected.insts@[block_end(*cx.selected, i) - 1];
            let target = if worth(cx, t, last->Branch_cond) != 0 {
                last->Branch_then_
            } else {
                last->Branch_else_
            };
            let p = blocks_emitted(opening(cx), cx, labels, frame, i as nat).unwrap();
            let (part, e, from, out, f, label) = r;
            // Up to the jump of the test.
            &&& run(Start { cpu: c, from: p.len() + 1 }, part, unit) == Some(e)
            &&& begins(part, ops)
            // The jump, or what comes behind it.
            &&& block_label(cx.selected.block_starts@, labels.blocks@, target) == Some(label)
            &&& agrees(cx, f, along(cx, t, block, target).unwrap().0, args)
            &&& {
                ||| f == e && forall|k: nat|
                    landing(ops, label) is Some ==> #[trigger] go(
                        e,
                        ops,
                        part.len() as int,
                        unit,
                        k + 1,
                    ) == go(e, ops, landing(ops, label).unwrap(), unit, k)
                ||| run(Start { cpu: e, from: from.len() }, out, unit) == Some(f) && begins(
                    out.push(AsmOp::Jmp { label }),
                    ops,
                ) && forall|k: nat| #[trigger]
                    go(e, ops, part.len() as int, unit, k + 2) == go(
                        e,
                        ops,
                        from.len() as int,
                        unit,
                        if worth(cx, t, last->Branch_cond) != 0 {
                            k
                        } else {
                            k + 1
                        },
                    )
            }
        }),
{
    let starts = cx.selected.block_starts@;
    let block = starts[i].0;
    let end = block_end(*cx.selected, i);
    let p = blocks_emitted(opening(cx), cx, labels, frame, i as nat).unwrap();
    let q = blocks_emitted(opening(cx), cx, labels, frame, (i + 1) as nat).unwrap();
    let here = Start { cpu: c, from: p.len() + 1 };
    let last = cx.selected.insts@[end - 1];
    let (cond, then_, else_) = (last->Branch_cond, last->Branch_then_, last->Branch_else_);
    lemma_stands(cx, labels, frame, ops, i);
    lemma_start_at(starts, i);
    lemma_start_of(starts, labels.edges@, block);
    let (part, e) = lemma_tested(here, done, cx, labels, frame, block, end - 1, d, t, args, unit);
    assert(reads(last) =~= seq![cond]);
    let regs = resolve(cx, last, 1).unwrap().entries;
    let bit = at(regs, cond);
    let loaded = reloaded(Some(done), cx, last, regs, 1).unwrap();
    let b = lemma_branch_shape(loaded, cx, labels, frame, block, bit, then_, else_, q);
    let jcc = AsmOp::Jcc { cond: ConditionCode::NotEqual, label: b.label };
    let fall = part.push(jcc);
    let jumped = b.out.push(AsmOp::Jmp { label: b.no });
    let taken = worth(cx, t, cond) != 0;
    let last_map = lasting(cx, t);
    assert(b.out =~= jumped.take(b.out.len() as int));
    lemma_begins(fall, b.out, jumped);
    lemma_begins(fall, jumped, q);
    lemma_begins(fall, q, ops);
    lemma_begins(jumped, q, ops);
    assert(part =~= fall.take(part.len() as int));
    lemma_begins(part, fall, ops);
    assert(ops[part.len() as int] == fall[part.len() as int]);
    assert(run(Start { cpu: e, from: fall.len() }, fall, unit) == Some(e)) by {
        reveal(run);
    }
    if !taken {
        let copies = edge_copies(cx, block, else_).unwrap();
        let f = lemma_copies(
            Start { cpu: e, from: fall.len() },
            fall,
            cx,
            copies,
            frame,
            e,
            last_map,
            args,
            unit,
        );
        assert forall|k: nat| #[trigger] go(e, ops, part.len() as int, unit, k + 2) == go(
            e,
            ops,
            fall.len() as int,
            unit,
            k + 1,
        ) by {}
        (part, e, fall, b.out, f, b.no)
    } else {
        let copies = edge_copies(cx, block, then_).unwrap();
        let yes = block_label(starts, labels.blocks@, then_).unwrap();
        if copies.len() == 0 {
            assert(moved(cx, last_map, copies) =~= last_map) by {
                assert forall|l: Location| !written(copies, l) by {}
            }
            (part, e, part, part, e, yes)
        } else {
            let bound = jumped.push(AsmOp::Bind { label: labels.edges@[i] });
            let out = parallel(Some(bound), copies, frame).unwrap();
            assert(out =~= q.take(out.len() as int));
            lemma_begins(bound, out, q);
            lemma_begins(bound, q, ops);
            // What comes before the label of the edge.
            let first = p.push(AsmOp::Bind { label: labels.blocks@[i] });
            lemma_grows_put(Some(done), Growth::Straight);
            lemma_reloaded_grows(Some(done), Some(done), cx, last, regs, 1);
            lemma_grows_trans(Some(first), Some(done), Some(loaded), Growth::Straight);
            lemma_grows_trans(Some(first), Some(loaded), Some(jumped), Growth::Straight);
            lemma_edge_stands(cx, labels, frame, ops, i, jumped);
            assert(run(Start { cpu: e, from: bound.len() }, bound, unit) == Some(e)) by {
                reveal(run);
            }
            let f = lemma_copies(
                Start { cpu: e, from: bound.len() },
                bound,
                cx,
                copies,
                frame,
                e,
                last_map,
                args,
                unit,
            );
            assert(q =~= q.take(q.len() as int));
            assert(begins(q, ops));
            assert forall|k: nat| #[trigger] go(e, ops, part.len() as int, unit, k + 2) == go(
                e,
                ops,
                bound.len() as int,
                unit,
                k,
            ) by {
                assert(go(e, ops, part.len() as int, unit, k + 2) == go(
                    e,
                    ops,
                    jumped.len() as int,
                    unit,
                    k + 1,
                ));
            }
            (part, e, bound, out, f, yes)
        }
    }
}

#[verifier::rlimit(100)]
#[verifier::spinoff_prover]
proof fn lemma_from_block(
    cx: EmitContext,
    labels: Labels,
    frame: CopyFrame,
    ops: Seq<AsmOp>,
    i: int,
    c: Cpu,
    s: Map<Location, u64>,
    args: Seq<u64>,
    unit: Unit,
    fuel: nat,
) -> (k: nat)
    requires
        sound(cx, frame),
        platform_ok(cx, unit),
        numbered(labels, *cx.selected),
        emitted(cx, labels, frame) == Some(ops),
        0 <= i < cx.selected.block_starts@.len(),
        agrees(cx, c, s, args),
        flow(cx, labels.pool@, s, args, i, unit, fuel) is Some,
    ensures
        ({
            let p = blocks_emitted(opening(cx), cx, labels, frame, i as nat).unwrap();
            let (float, z) = flow(cx, labels.pool@, s, args, i, unit, fuel).unwrap();
            go(c, ops, p.len() as int, unit, k) matches Some(e) && get(e, answer(float)) == z
        }),
    decreases fuel,
{
    let starts = cx.selected.block_starts@;
    let (block, start) = starts[i];
    let end = block_end(*cx.selected, i);
    let p = blocks_emitted(opening(cx), cx, labels, frame, i as nat).unwrap();
    let q = blocks_emitted(opening(cx), cx, labels, frame, (i + 1) as nat).unwrap();
    lemma_stands(cx, labels, frame, ops, i);
    let here = Start { cpu: c, from: p.len() + 1 };
    let s1 = entered(cx, s, args, i).unwrap();
    let t = after_insts(cx, s1, start as int, end - 1, labels.pool@, unit).unwrap();
    let (done, d) = lemma_up_to_last(cx, labels, frame, ops, i, c, s, args, unit);
    match cx.selected.insts@[end - 1] {
        MachineInst::Return { value } => {
            let (part, e) = lemma_return(
                here,
                done,
                cx,
                labels,
                frame,
                block,
                end - 1,
                d,
                t,
                args,
                unit,
            );
            assert(part =~= q.take(part.len() as int));
            lemma_begins(part, q, ops);
            assert(ops[part.len() as int] == q[part.len() as int]);
            assert(go(e, ops, part.len() as int, unit, 1) == Some(e));
            lemma_reach(c, ops, p.len(), part, e, unit, 1)
        },
        MachineInst::Jump { target } => {
            let (u, j) = along(cx, t, block, target).unwrap();
            lemma_start_of(starts, labels.blocks@, target);
            let (part, e) = lemma_jump(
                here,
                done,
                cx,
                labels,
                frame,
                block,
                end - 1,
                d,
                t,
                args,
                unit,
            );
            assert(part =~= q.take(part.len() as int));
            lemma_begins(part, q, ops);
            assert(ops[part.len() as int] == q[part.len() as int]);
            lemma_stands(cx, labels, frame, ops, j);
            let k = lemma_from_block(
                cx,
                labels,
                frame,
                ops,
                j,
                e,
                u,
                args,
                unit,
                (fuel - 1) as nat,
            );
            lemma_reach(c, ops, p.len(), part, e, unit, k + 1)
        },
        MachineInst::Branch { cond, then_, else_ } => {
            let taken = worth(cx, t, cond) != 0;
            let target = if taken {
                then_
            } else {
                else_
            };
            let (u, j) = along(cx, t, block, target).unwrap();
            lemma_start_of(starts, labels.blocks@, target);
            let (part, e, from, out, f, label) = lemma_branch_goes(
                cx,
                labels,
                frame,
                ops,
                i,
                done,
                c,
                d,
                t,
                args,
                unit,
            );
            lemma_stands(cx, labels, frame, ops, j);
            let k = lemma_from_block(
                cx,
                labels,
                frame,
                ops,
                j,
                f,
                u,
                args,
                unit,
                (fuel - 1) as nat,
            );
            let place = landing(ops, label).unwrap();
            let m = if f == e && go(e, ops, part.len() as int, unit, k + 1) == go(
                e,
                ops,
                place,
                unit,
                k,
            ) {
                k + 1
            } else {
                let n = lemma_copies_go(e, ops, from, out, f, label, unit, k);
                let l = if taken {
                    n
                } else {
                    (n - 1) as nat
                };
                assert(go(e, ops, part.len() as int, unit, l + 2) == go(
                    e,
                    ops,
                    from.len() as int,
                    unit,
                    n,
                ));
                l + 2
            };
            assert(go(e, ops, part.len() as int, unit, m) == go(f, ops, place, unit, k));
            lemma_reach(c, ops, p.len(), part, e, unit, m)
        },
        _ => 0,
    }
}

/// The code that is emitted for a function computes what its instructions
/// stand for. Entered with what is known of the places, the parameters in
/// their registers among them, and with its other arguments on the stack, it
/// returns, and the result is in XMM0 or RAX. What it calls gives what its
/// calls stand for.
pub proof fn lemma_body_computes(
    cx: EmitContext,
    labels: Labels,
    frame: CopyFrame,
    ops: Seq<AsmOp>,
    c: Cpu,
    s: Map<Location, u64>,
    args: Seq<u64>,
    unit: Unit,
    fuel: nat,
)
    requires
        sound(cx, frame),
        platform_ok(cx, unit),
        numbered(labels, *cx.selected),
        emitted(cx, labels, frame) == Some(ops),
        cx.selected.block_starts@.len() > 0,
        agrees(cx, c, s, args),
        flow(cx, labels.pool@, s, args, 0, unit, fuel) is Some,
    ensures
        ({
            let (float, z) = flow(cx, labels.pool@, s, args, 0, unit, fuel).unwrap();
            exists|k: nat| #[trigger]
                go(c, ops, 0, unit, k) is Some && get(
                    go(c, ops, 0, unit, k).unwrap(),
                    answer(float),
                ) == z
        }),
{
    lemma_stands(cx, labels, frame, ops, 0);
    let k = lemma_from_block(cx, labels, frame, ops, 0, c, s, args, unit, fuel);
    let p = blocks_emitted(opening(cx), cx, labels, frame, 0).unwrap();
    if cx.framed {
        assert(p.len() == 1 && p[0] == AsmOp::Prologue);
        assert(ops[0] == p[0]);
        assert(go(c, ops, 0, unit, k + 1) == go(c, ops, 1, unit, k));
    } else {
        assert(p.len() == 0);
        assert(go(c, ops, 0, unit, k) is Some);
    }
}

// ---------------------------------------------------------------------------
// Constants

/// The constant is placed under the label: the label stands in one place, and
/// right behind it the constant.
pub open spec fn constant_placed(ops: Seq<AsmOp>, label: Label, bits: u64) -> bool {
    exists|p: int|
        #![trigger ops[p]]
        {
            &&& 0 <= p < ops.len() - 1
            &&& ops[p] == AsmOp::Bind { label }
            &&& ops[p + 1] == AsmOp::EmitU64 { bits }
            &&& forall|q: int| #![trigger ops[q]] 0 <= q < ops.len() && q != p ==> ops[q]
                != (AsmOp::Bind { label })
        }
}

/// What a load from a label reads: the word that stands behind the label.
pub open spec fn word_behind(ops: Seq<AsmOp>, label: Label) -> u64 {
    match landing(ops, label) {
        Some(p) => match ops[p + 1] {
            AsmOp::EmitU64 { bits } => bits,
            _ => 0,
        },
        None => 0,
    }
}

proof fn lemma_pool_words(acc: Ops, pool: Seq<u64>, labels: Seq<Label>, n: nat, k: int)
    requires
        pool_placed(acc, pool, labels, n) is Some,
        acc.unwrap().len() <= k < pool_placed(acc, pool, labels, n).unwrap().len(),
    ensures
        ({
            let q = pool_placed(acc, pool, labels, n).unwrap();
            let i = (k - acc.unwrap().len()) / 2;
            &&& q.len() == acc.unwrap().len() + 2 * n
            &&& 0 <= i < n
            &&& (k - acc.unwrap().len()) % 2 == 0 ==> q[k] == (AsmOp::Bind { label: labels[i] })
            &&& (k - acc.unwrap().len()) % 2 == 1 ==> q[k] == (AsmOp::EmitU64 { bits: pool[i] })
        }),
    decreases n,
{
    if n > 0 {
        let l = (n - 1) as nat;
        let p = pool_placed(acc, pool, labels, l).unwrap();
        lemma_pool_begins(acc, pool, labels, l);
        let base = acc.unwrap().len();
        assert(p.len() == base + 2 * l) by {
            if l > 0 {
                lemma_pool_grows(acc, pool, labels, l);
            }
        }
        if k < p.len() {
            lemma_pool_words(acc, pool, labels, l, k);
        }
    }
}

proof fn lemma_pool_grows(acc: Ops, pool: Seq<u64>, labels: Seq<Label>, n: nat)
    requires
        pool_placed(acc, pool, labels, n) is Some,
    ensures
        acc is Some,
        pool_placed(acc, pool, labels, n).unwrap().len() == acc.unwrap().len() + 2 * n,
    decreases n,
{
    if n > 0 {
        lemma_pool_grows(acc, pool, labels, (n - 1) as nat);
    }
}

/// Every constant of a function is placed under its own label.
pub proof fn lemma_constants_placed(
    cx: EmitContext,
    labels: Labels,
    frame: CopyFrame,
    ops: Seq<AsmOp>,
    i: int,
)
    requires
        distinct_starts(cx.selected.block_starts@),
        numbered(labels, *cx.selected),
        emitted(cx, labels, frame) == Some(ops),
        0 <= i < cx.selected.pool@.len(),
    ensures
        constant_placed(ops, labels.pool@[i], cx.selected.pool@[i]),
        word_behind(ops, labels.pool@[i]) == cx.selected.pool@[i],
{
    let n = cx.selected.block_starts@.len();
    let pool = cx.selected.pool@;
    let all = blocks_emitted(opening(cx), cx, labels, frame, n);
    lemma_pool_grows(all, pool, labels.pool@, pool.len());
    lemma_pool_begins(all, pool, labels.pool@, pool.len());
    let base = all.unwrap().len();
    let label = labels.pool@[i];
    let p = base + 2 * i;
    lemma_pool_words(all, pool, labels.pool@, pool.len(), p);
    lemma_pool_words(all, pool, labels.pool@, pool.len(), p + 1);
    assert((p + 1 - base) / 2 == i);
    assert forall|q: int| #![trigger ops[q]] 0 <= q < ops.len() && q != p implies ops[q] != (
    AsmOp::Bind { label }) by {
        if q < base {
            assert(ops[q] == all.unwrap()[q]);
            if ops[q] is Bind {
                lemma_binds(cx, labels, frame, n, q);
                let found = ops[q]->Bind_label;
                if exists|j: int| #![trigger labels.blocks@[j]] 0 <= j < n && found
                    == labels.blocks@[j] {
                    let j = choose|j: int|
                        #![trigger labels.blocks@[j]]
                        0 <= j < n && found == labels.blocks@[j];
                    assert(found.0 == labels.pool@.len() + j);
                } else {
                    let j = choose|j: int|
                        #![trigger labels.edges@[j]]
                        0 <= j < n && found == labels.edges@[j];
                    assert(found.0 == labels.pool@.len() + labels.blocks@.len() + j);
                }
            }
        } else {
            lemma_pool_words(all, pool, labels.pool@, pool.len(), q);
            let j = (q - base) / 2;
            assert(labels.pool@[j].0 == j);
        }
    }
    assert(ops[p] == AsmOp::Bind { label });
    lemma_lands(ops, label, p);
}

/// The instruction reads constants that the function has.
pub open spec fn pool_ok(inst: MachineInst, n: nat) -> bool {
    match inst {
        MachineInst::LoadImmF64 { pool_index, .. } => pool_index < n,
        MachineInst::FloatAbs { mask_pool, .. } => mask_pool < n,
        MachineInst::FloatNeg { mask_pool, .. } => mask_pool < n,
        _ => true,
    }
}

/// The units differ at most in what they read from labels, and there they
/// agree on the labels of the constants.
spec fn same_constants(labels: Seq<Label>, one: Unit, two: Unit) -> bool {
    &&& one == Unit { pool: one.pool, ..two }
    &&& forall|i: int|
        #![trigger labels[i]]
        0 <= i < labels.len() ==> (one.pool)(labels[i]) == (two.pool)(labels[i])
}

spec fn all_pools_ok(cx: EmitContext) -> bool {
    forall|p: int|
        #![trigger cx.selected.insts@[p]]
        0 <= p < cx.selected.insts@.len() ==> pool_ok(
            cx.selected.insts@[p],
            cx.selected.pool@.len(),
        )
}

proof fn lemma_same_insts(
    cx: EmitContext,
    s: Map<Location, u64>,
    from: int,
    to: int,
    labels: Seq<Label>,
    one: Unit,
    two: Unit,
)
    requires
        all_pools_ok(cx),
        labels.len() == cx.selected.pool@.len(),
        same_constants(labels, one, two),
        0 <= from,
        to <= cx.selected.insts@.len(),
    ensures
        after_insts(cx, s, from, to, labels, one) == after_insts(cx, s, from, to, labels, two),
    decreases to - from,
{
    if to > from {
        lemma_same_insts(cx, s, from, to - 1, labels, one, two);
        let inst = cx.selected.insts@[to - 1];
        assert(pool_ok(inst, labels.len()));
        match after_insts(cx, s, from, to - 1, labels, one) {
            Some(t) => {
                let val = |v: Value| worth(cx, t, v);
                assert(meaning(inst, val, labels, one) == meaning(inst, val, labels, two));
            },
            None => {},
        }
    }
}

proof fn lemma_same_flow(
    cx: EmitContext,
    labels: Seq<Label>,
    s: Map<Location, u64>,
    args: Seq<u64>,
    i: int,
    one: Unit,
    two: Unit,
    fuel: nat,
)
    requires
        all_pools_ok(cx),
        labels.len() == cx.selected.pool@.len(),
        same_constants(labels, one, two),
    ensures
        flow(cx, labels, s, args, i, one, fuel) == flow(cx, labels, s, args, i, two, fuel),
    decreases fuel,
{
    let starts = cx.selected.block_starts@;
    if fuel == 0 || i < 0 || i >= starts.len() || entered(cx, s, args, i) is None {
    } else {
        let left = (fuel - 1) as nat;
        let (block, start) = starts[i];
        let end = block_end(*cx.selected, i);
        let first = entered(cx, s, args, i).unwrap();
        if start >= end || end > cx.selected.insts@.len() {
        } else {
            lemma_same_insts(cx, first, start as int, end - 1, labels, one, two);
            match after_insts(cx, first, start as int, end - 1, labels, one) {
                None => {},
                Some(t) => match cx.selected.insts@[end - 1] {
                    MachineInst::Jump { target } => match along(cx, t, block, target) {
                        Some((u, j)) => lemma_same_flow(cx, labels, u, args, j, one, two, left),
                        None => {},
                    },
                    MachineInst::Branch { cond, then_, else_ } => {
                        let target = if worth(cx, t, cond) != 0 {
                            then_
                        } else {
                            else_
                        };
                        match along(cx, t, block, target) {
                            Some((u, j)) => lemma_same_flow(cx, labels, u, args, j, one, two, left),
                            None => {},
                        }
                    },
                    _ => {},
                },
            }
        }
    }
}

/// A unit whose labels stand for the constants of a function, in order.
pub open spec fn with_constants(unit: Unit, pool: Seq<u64>) -> Unit {
    Unit { pool: |label: Label| pool[label.0 as int], ..unit }
}

/// A unit that loads what the code itself holds.
pub open spec fn with_code(unit: Unit, ops: Seq<AsmOp>) -> Unit {
    Unit { pool: |label: Label| word_behind(ops, label), ..unit }
}

/// The code of a function, whose loads read the words that stand behind their
/// labels in that code, computes what the instructions stand for with the
/// constants of the function.
pub proof fn lemma_code_computes(
    cx: EmitContext,
    labels: Labels,
    frame: CopyFrame,
    ops: Seq<AsmOp>,
    c: Cpu,
    s: Map<Location, u64>,
    args: Seq<u64>,
    unit: Unit,
    fuel: nat,
)
    requires
        sound(cx, frame),
        platform_ok(cx, with_code(unit, ops)),
        numbered(labels, *cx.selected),
        emitted(cx, labels, frame) == Some(ops),
        cx.selected.block_starts@.len() > 0,
        forall|p: int|
            #![trigger cx.selected.insts@[p]]
            0 <= p < cx.selected.insts@.len() ==> pool_ok(
                cx.selected.insts@[p],
                cx.selected.pool@.len(),
            ),
        agrees(cx, c, s, args),
        flow(
            cx,
            labels.pool@,
            s,
            args,
            0,
            with_constants(unit, cx.selected.pool@),
            fuel,
        ) is Some,
    ensures
        ({
            let (float, z) = flow(
                cx,
                labels.pool@,
                s,
                args,
                0,
                with_constants(unit, cx.selected.pool@),
                fuel,
            ).unwrap();
            exists|k: nat| #[trigger]
                go(c, ops, 0, with_code(unit, ops), k) is Some && get(
                    go(c, ops, 0, with_code(unit, ops), k).unwrap(),
                    answer(float),
                ) == z
        }),
{
    let one = with_constants(unit, cx.selected.pool@);
    let two = with_code(unit, ops);
    assert forall|i: int| #![trigger labels.pool@[i]] 0 <= i < labels.pool@.len() implies (
    one.pool)(labels.pool@[i]) == (two.pool)(labels.pool@[i]) by {
        lemma_constants_placed(cx, labels, frame, ops, i);
    }
    assert(one == Unit { pool: one.pool, ..two });
    lemma_same_flow(cx, labels.pool@, s, args, 0, one, two, fuel);
    lemma_body_computes(cx, labels, frame, ops, c, s, args, two, fuel);
}

} // verus!
