//! The body of a function: its frame, parameters, blocks and constants.
use crate::aarch64::emit::find_edge;
use crate::aarch64::emit::phi_source;
use crate::ir::{Block, Function, Inst, Ty, Value};
use crate::x64::copies::{emit_parallel_copies, CopyFrame, PhiCopy};
use crate::x64::copies::{load_slot, one_copy, parallel, store_slot};
use crate::x64::layout::{
    assign_spill_scratch, emit_external_call, emit_libm_call, emit_with_saved, find_location,
    value_ty, Clobber, EmitContext,
};
use crate::x64::layout::{
    external_call, external_ok, libm_call, libm_ok, location, mentioned, resolve, value_type,
    windows_register, with_saved,
};
use crate::x64::machine::{
    def_of, reads_of, Abi, AsmOp, Assembler, ConditionCode, Label, Location, MachineInst, PhysReg,
    SelectedFunction,
};
use crate::x64::machine::{defines, put, reads, Ops};
use crate::x64::translate::{all_at, at, has, libm_entry, located, move_float, move_int, translated};
use crate::x64::translate::{translate_inst, Registers};
use vstd::prelude::*;

verus! {

// ---------------------------------------------------------------------------
// Parameters

/// How many of the first `n` parameters are passed like `ty`.
pub open spec fn same_bank(params: Seq<(String, Ty)>, ty: Ty, n: nat) -> nat
    decreases n,
{
    if n == 0 {
        0
    } else {
        same_bank(params, ty, (n - 1) as nat) + if (params[n - 1].1 == Ty::F64) == (ty == Ty::F64) {
            1nat
        } else {
            0nat
        }
    }
}

/// How many registers there are for parameters like `ty`.
pub open spec fn capacity(abi: Abi, ty: Ty) -> nat {
    if ty == Ty::F64 {
        abi.float_args@.len()
    } else {
        abi.int_args@.len()
    }
}

/// The parameter does not get a register. Register numbers are counted for
/// each bank by itself.
pub open spec fn overflows(abi: Abi, params: Seq<(String, Ty)>, i: int) -> bool {
    same_bank(params, params[i].1, i as nat) >= capacity(abi, params[i].1)
}

/// How many of the first `n` parameters are passed on the stack. They stand
/// there in their own order.
pub open spec fn stack_before(abi: Abi, params: Seq<(String, Ty)>, n: nat) -> nat
    decreases n,
{
    if n == 0 {
        0
    } else {
        stack_before(abi, params, (n - 1) as nat) + if overflows(abi, params, n - 1) {
            1nat
        } else {
            0nat
        }
    }
}

/// The register that a parameter comes in.
pub open spec fn param_source(abi: Abi, params: Seq<(String, Ty)>, index: int) -> Option<PhysReg> {
    let ty = params[index].1;
    if abi.windows {
        if index < 4 {
            Some(windows_register(ty == Ty::F64, index))
        } else {
            None
        }
    } else if overflows(abi, params, index) {
        None
    } else if ty == Ty::F64 {
        Some(abi.float_args@[same_bank(params, ty, index as nat) as int])
    } else {
        Some(abi.int_args@[same_bank(params, ty, index as nat) as int])
    }
}

/// How far above the frame pointer a parameter is that is passed on the stack.
pub open spec fn param_offset(abi: Abi, params: Seq<(String, Ty)>, index: int) -> int {
    if abi.windows {
        48 + 8 * (index - 4)
    } else {
        16 + 8 * (stack_before(abi, params, index as nat) as int)
    }
}

fn count_bank(params: &Vec<(String, Ty)>, ty: Ty, n: usize) -> (r: usize)
    requires
        n <= params@.len(),
    ensures
        r == same_bank(params@, ty, n as nat),
        r <= n,
{
    let mut count: usize = 0;
    let mut i: usize = 0;
    while i < n
        invariant
            i <= n <= params@.len(),
            count == same_bank(params@, ty, i as nat),
            count <= i,
        decreases n - i,
    {
        if (params[i].1 == Ty::F64) == (ty == Ty::F64) {
            count += 1;
        }
        i += 1;
    }
    count
}

fn is_overflow(abi: &Abi, params: &Vec<(String, Ty)>, i: usize) -> (r: bool)
    requires
        i < params@.len(),
    ensures
        r == overflows(*abi, params@, i as int),
{
    let ty: Ty = params[i].1;
    let limit: usize = if ty == Ty::F64 {
        abi.float_args.len()
    } else {
        abi.int_args.len()
    };
    count_bank(params, ty, i) >= limit
}

fn count_stack(abi: &Abi, params: &Vec<(String, Ty)>, n: usize) -> (r: usize)
    requires
        n <= params@.len(),
    ensures
        r == stack_before(*abi, params@, n as nat),
        r <= n,
{
    let mut count: usize = 0;
    let mut i: usize = 0;
    while i < n
        invariant
            i <= n <= params@.len(),
            count == stack_before(*abi, params@, i as nat),
            count <= i,
        decreases n - i,
    {
        if is_overflow(abi, params, i) {
            count += 1;
        }
        i += 1;
    }
    count
}

/// The register that a parameter comes in, if it does not come on the stack.
pub fn param_register(abi: &Abi, params: &Vec<(String, Ty)>, index: usize) -> (r: Option<PhysReg>)
    requires
        index < params@.len(),
    ensures
        r == param_source(*abi, params@, index as int),
{
    let ty: Ty = params[index].1;
    if abi.windows {
        if index >= 4 {
            return None;
        }
        if ty == Ty::F64 {
            return Some(PhysReg::Xmm(index as u8));
        }
        return Some(
            match index {
                0 => PhysReg::Rcx,
                1 => PhysReg::Rdx,
                2 => PhysReg::R8,
                _ => PhysReg::R9,
            },
        );
    }
    if is_overflow(abi, params, index) {
        return None;
    }
    let ordinal: usize = count_bank(params, ty, index);
    if ty == Ty::F64 {
        Some(abi.float_args[ordinal])
    } else {
        Some(abi.int_args[ordinal])
    }
}

/// A parameter is loaded from the stack of the caller.
pub open spec fn stack_param(
    acc: Ops,
    abi: Abi,
    params: Seq<(String, Ty)>,
    index: int,
    dst: PhysReg,
    framed: bool,
) -> Ops {
    let offset = param_offset(abi, params, index);
    if !framed || offset > i32::MAX {
        None
    } else {
        put(
            acc,
            if params[index].1 == Ty::F64 {
                AsmOp::MovsdRegMem { dst, base: PhysReg::Rbp, offset: offset as i32 }
            } else {
                AsmOp::MovRegMem { dst, base: PhysReg::Rbp, offset: offset as i32 }
            },
        )
    }
}

fn emit_stack_param_load(
    code: &mut Assembler,
    abi: &Abi,
    params: &Vec<(String, Ty)>,
    index: usize,
    dst: PhysReg,
    framed: bool,
)
    requires
        index < params@.len(),
        param_source(*abi, params@, index as int) is None,
    ensures
        final(code)@ == stack_param(old(code)@, *abi, params@, index as int, dst, framed),
        final(code).made() == old(code).made(),
{
    let slots: i128 = if abi.windows {
        (index - 4) as i128
    } else {
        count_stack(abi, params, index) as i128
    };
    let first: i128 = if abi.windows {
        48
    } else {
        16
    };
    let offset: i128 = first + 8 * slots;
    if !framed || offset > i32::MAX as i128 {
        code.fail();
        return ;
    }
    let offset: i32 = offset as i32;
    if params[index].1 == Ty::F64 {
        code.put(AsmOp::MovsdRegMem { dst, base: PhysReg::Rbp, offset });
    } else {
        code.put(AsmOp::MovRegMem { dst, base: PhysReg::Rbp, offset });
    }
}

/// What the parameters of the first instructions need: copies that happen at
/// once, and loads.
#[verifier::ext_equal]
pub struct ParamPlan {
    pub copies: Seq<PhiCopy>,
    pub loads: Seq<(usize, Location)>,
}

pub open spec fn plan_param(cx: EmitContext, inst: MachineInst, p: ParamPlan) -> Option<ParamPlan> {
    match inst {
        MachineInst::Param { dst, index } => if index >= cx.func.params@.len() {
            None
        } else {
            match location(cx, dst) {
                None => None,
                Some(destination) => match param_source(
                    *cx.abi,
                    cx.func.params@,
                    index as int,
                ) {
                    Some(source) => if destination == Location::Reg(source) {
                        Some(p)
                    } else {
                        Some(
                            ParamPlan {
                                copies: p.copies.push(
                                    PhiCopy {
                                        src: Location::Reg(source),
                                        dst: destination,
                                        ty: cx.func.params@[index as int].1,
                                    },
                                ),
                                ..p
                            },
                        )
                    },
                    None => Some(
                        ParamPlan { loads: p.loads.push((index as usize, destination)), ..p },
                    ),
                },
            }
        },
        _ => Some(p),
    }
}

pub open spec fn plan_params(cx: EmitContext, n: nat) -> Option<ParamPlan>
    decreases n,
{
    if n == 0 {
        Some(ParamPlan { copies: Seq::empty(), loads: Seq::empty() })
    } else {
        match plan_params(cx, (n - 1) as nat) {
            Some(p) => plan_param(cx, cx.selected.insts@[n - 1], p),
            None => None,
        }
    }
}

/// The first `n` parameters on the stack are loaded.
pub open spec fn load_params(
    acc: Ops,
    cx: EmitContext,
    frame: CopyFrame,
    loads: Seq<(usize, Location)>,
    n: nat,
) -> Ops
    decreases n,
{
    if n == 0 {
        acc
    } else {
        let before = load_params(acc, cx, frame, loads, (n - 1) as nat);
        let index = loads[n - 1].0 as int;
        let ty = cx.func.params@[index].1;
        match loads[n - 1].1 {
            Location::Reg(r) => stack_param(
                before,
                *cx.abi,
                cx.func.params@,
                index,
                r,
                cx.framed,
            ),
            Location::Spill(slot) => one_copy(
                stack_param(
                    before,
                    *cx.abi,
                    cx.func.params@,
                    index,
                    frame.scratch(ty),
                    cx.framed,
                ),
                Location::Reg(frame.scratch(ty)),
                Location::Spill(slot),
                ty,
                frame,
            ),
        }
    }
}

/// All parameters reach their places.
pub open spec fn params_placed(acc: Ops, cx: EmitContext, frame: CopyFrame) -> Ops {
    match plan_params(cx, cx.selected.insts@.len()) {
        Some(p) => load_params(
            parallel(acc, p.copies, frame),
            cx,
            frame,
            p.loads,
            p.loads.len(),
        ),
        None => None,
    }
}

proof fn lemma_plan_none(cx: EmitContext, k: nat, n: nat)
    requires
        k <= n,
        plan_params(cx, k) is None,
    ensures
        plan_params(cx, n) is None,
    decreases n - k,
{
    if k < n {
        lemma_plan_none(cx, k + 1, n);
    }
}

/// The loads name parameters that are passed on the stack.
spec fn loads_ok(cx: EmitContext, loads: Seq<(usize, Location)>) -> bool {
    forall|i: int|
        #![trigger loads[i]]
        0 <= i < loads.len() ==> loads[i].0 < cx.func.params@.len() && param_source(
            *cx.abi,
            cx.func.params@,
            loads[i].0 as int,
        ) is None
}

fn collect_params(cx: &EmitContext) -> (r: Option<(Vec<PhiCopy>, Vec<(usize, Location)>)>)
    ensures
        match r {
            Some((copies, loads)) => plan_params(*cx, cx.selected.insts@.len()) == Some(
                ParamPlan { copies: copies@, loads: loads@ },
            ) && loads_ok(*cx, loads@),
            None => plan_params(*cx, cx.selected.insts@.len()) is None,
        },
{
    let mut copies: Vec<PhiCopy> = Vec::new();
    let mut loads: Vec<(usize, Location)> = Vec::new();
    assert((ParamPlan { copies: copies@, loads: loads@ }) =~= ParamPlan {
        copies: Seq::empty(),
        loads: Seq::empty(),
    });
    let mut i: usize = 0;
    while i < cx.selected.insts.len()
        invariant
            i <= cx.selected.insts@.len(),
            plan_params(*cx, i as nat) == Some(ParamPlan { copies: copies@, loads: loads@ }),
            loads_ok(*cx, loads@),
        decreases cx.selected.insts@.len() - i,
    {
        match &cx.selected.insts[i] {
            MachineInst::Param { dst, index } => {
                let n: usize = *index as usize;
                let found: Option<Location> = find_location(cx, *dst);
                if n >= cx.func.params.len() || found.is_none() {
                    proof {
                        lemma_plan_none(*cx, (i + 1) as nat, cx.selected.insts@.len());
                    }
                    return None;
                }
                let destination: Location = found.unwrap();
                match param_register(cx.abi, &cx.func.params, n) {
                    Some(source) => {
                        if destination != Location::Reg(source) {
                            let ty: Ty = cx.func.params[n].1;
                            copies.push(
                                PhiCopy { src: Location::Reg(source), dst: destination, ty },
                            );
                        }
                    },
                    None => loads.push((n, destination)),
                }
            },
            _ => {},
        }
        i += 1;
    }
    Some((copies, loads))
}

/// Brings the parameters to their places. Those that come in registers are
/// copied all at once, since one may go to the register of another.
pub fn emit_params(code: &mut Assembler, cx: &EmitContext, frame: &CopyFrame)
    ensures
        final(code)@ == params_placed(old(code)@, *cx, *frame),
        final(code).made() == old(code).made(),
{
    let (copies, loads): (Vec<PhiCopy>, Vec<(usize, Location)>) = match collect_params(cx) {
        Some(found) => found,
        None => {
            code.fail();
            return ;
        },
    };
    emit_parallel_copies(copies, code, frame);
    let ghost start = code@;
    let mut i: usize = 0;
    while i < loads.len()
        invariant
            i <= loads@.len(),
            loads_ok(*cx, loads@),
            code@ == load_params(start, *cx, *frame, loads@, i as nat),
            code.made() == old(code).made(),
        decreases loads@.len() - i,
    {
        let (index, destination): (usize, Location) = loads[i];
        assert(loads@[i as int].0 == index);
        let ty: Ty = cx.func.params[index].1;
        match destination {
            Location::Reg(r) => {
                emit_stack_param_load(code, cx.abi, &cx.func.params, index, r, cx.framed);
            },
            Location::Spill(slot) => {
                let scratch: PhysReg = frame.phi_scratch(ty);
                emit_stack_param_load(code, cx.abi, &cx.func.params, index, scratch, cx.framed);
                code.emit_copy(Location::Reg(scratch), Location::Spill(slot), ty, frame);
            },
        }
        i += 1;
    }
}

// ---------------------------------------------------------------------------
// Edges

/// The copy that a value of the target block needs when control comes from
/// block `source`.
pub open spec fn phi_copy(cx: EmitContext, phi: Value, source: Block, copies: Seq<PhiCopy>) -> Option<
    Seq<PhiCopy>,
> {
    if phi.0 >= cx.func.insts@.len() {
        None
    } else {
        match phi_source(cx.func.inst(phi.0 as int), source.0 as int) {
            None => Some(copies),
            Some(v) => match (location(cx, v), location(cx, phi)) {
                (Some(src), Some(dst)) => if src == dst {
                    Some(copies)
                } else if phi.0 >= cx.func.types@.len() {
                    None
                } else {
                    Some(copies.push(PhiCopy { src, dst, ty: cx.func.types@[phi.0 as int] }))
                },
                _ => None,
            },
        }
    }
}

/// The copies for the first `k` values of block `target`.
pub open spec fn phi_copies(cx: EmitContext, source: Block, target: int, k: nat) -> Option<
    Seq<PhiCopy>,
>
    decreases k,
{
    if k == 0 {
        Some(Seq::empty())
    } else {
        match phi_copies(cx, source, target, (k - 1) as nat) {
            Some(copies) => phi_copy(cx, cx.func.listed(target)[k - 1], source, copies),
            None => None,
        }
    }
}

/// The copies for an edge, if all values have places.
pub open spec fn edge_copies(cx: EmitContext, source: Block, target: Block) -> Option<Seq<PhiCopy>> {
    if target.0 >= cx.func.blocks@.len() {
        None
    } else {
        phi_copies(cx, source, target.0 as int, cx.func.listed(target.0 as int).len())
    }
}

/// The phis of the target take their values.
pub open spec fn edge_taken(
    acc: Ops,
    cx: EmitContext,
    source: Block,
    target: Block,
    frame: CopyFrame,
) -> Ops {
    match edge_copies(cx, source, target) {
        Some(copies) => parallel(acc, copies, frame),
        None => None,
    }
}

proof fn lemma_phi_none(cx: EmitContext, source: Block, target: int, k: nat, n: nat)
    requires
        k <= n,
        phi_copies(cx, source, target, k) is None,
    ensures
        phi_copies(cx, source, target, n) is None,
    decreases n - k,
{
    if k < n {
        lemma_phi_none(cx, source, target, k + 1, n);
    }
}

fn add_phi_copy(cx: &EmitContext, phi: Value, source: Block, copies: &mut Vec<PhiCopy>) -> (ok: bool)
    ensures
        ok ==> phi_copy(*cx, phi, source, old(copies)@) == Some(final(copies)@),
        !ok ==> phi_copy(*cx, phi, source, old(copies)@) is None,
{
    if phi.0 as usize >= cx.func.insts.len() {
        return false;
    }
    match &cx.func.insts[phi.0 as usize] {
        Inst::Phi { incoming } => match find_edge(incoming, source.0 as usize) {
            Some(v) => match (find_location(cx, v), find_location(cx, phi)) {
                (Some(src), Some(dst)) => {
                    if src != dst {
                        if phi.0 as usize >= cx.func.types.len() {
                            return false;
                        }
                        copies.push(PhiCopy { src, dst, ty: cx.func.types[phi.0 as usize] });
                    }
                    true
                },
                _ => false,
            },
            None => true,
        },
        _ => true,
    }
}

fn collect_edge_copies(cx: &EmitContext, source: Block, target: Block) -> (r: Option<Vec<PhiCopy>>)
    ensures
        match r {
            Some(copies) => edge_copies(*cx, source, target) == Some(copies@),
            None => edge_copies(*cx, source, target) is None,
        },
{
    if target.0 as usize >= cx.func.blocks.len() {
        return None;
    }
    let b: usize = target.0 as usize;
    let mut copies: Vec<PhiCopy> = Vec::new();
    assert(copies@ =~= Seq::empty());
    let mut k: usize = 0;
    while k < cx.func.blocks[b].insts.len()
        invariant
            b < cx.func.blocks@.len(),
            b == target.0,
            k <= cx.func.listed(b as int).len(),
            phi_copies(*cx, source, b as int, k as nat) == Some(copies@),
        decreases cx.func.listed(b as int).len() - k,
    {
        let phi: Value = cx.func.blocks[b].insts[k];
        assert(phi == cx.func.listed(b as int)[k as int]);
        if !add_phi_copy(cx, phi, source, &mut copies) {
            proof {
                lemma_phi_none(
                    *cx,
                    source,
                    b as int,
                    (k + 1) as nat,
                    cx.func.listed(b as int).len(),
                );
            }
            return None;
        }
        k += 1;
    }
    Some(copies)
}

/// Copies the operands of the phis of `target` to their places.
pub fn emit_phi_edge_copies(
    code: &mut Assembler,
    cx: &EmitContext,
    source: Block,
    target: Block,
    frame: &CopyFrame,
)
    ensures
        final(code)@ == edge_taken(old(code)@, *cx, source, target, *frame),
        final(code).made() == old(code).made(),
{
    match collect_edge_copies(cx, source, target) {
        Some(copies) => emit_parallel_copies(copies, code, frame),
        None => code.fail(),
    }
}

// ---------------------------------------------------------------------------
// Constants

/// Makes a label for every constant.
pub fn alloc_pool_labels(code: &mut Assembler, pool: &Vec<u64>) -> (r: Vec<Label>)
    requires
        old(code).made() + pool@.len() <= usize::MAX,
    ensures
        final(code)@ == old(code)@,
        final(code).made() == old(code).made() + pool@.len(),
        r@.len() == pool@.len(),
        forall|i: int|
            #![trigger r@[i]]
            0 <= i < pool@.len() ==> r@[i].0 == old(code).made() + i,
{
    let mut r: Vec<Label> = Vec::new();
    let mut i: usize = 0;
    while i < pool.len()
        invariant
            i <= pool@.len(),
            old(code).made() + pool@.len() <= usize::MAX,
            code@ == old(code)@,
            code.made() == old(code).made() + i,
            r@.len() == i,
            forall|j: int| #![trigger r@[j]] 0 <= j < i ==> r@[j].0 == old(code).made() + j,
        decreases pool@.len() - i,
    {
        r.push(code.new_label());
        i += 1;
    }
    r
}

/// The first `n` constants, each behind its label.
pub open spec fn pool_placed(acc: Ops, pool: Seq<u64>, labels: Seq<Label>, n: nat) -> Ops
    decreases n,
{
    if n == 0 {
        acc
    } else {
        put(
            put(
                pool_placed(acc, pool, labels, (n - 1) as nat),
                AsmOp::Bind { label: labels[n - 1] },
            ),
            AsmOp::EmitU64 { bits: pool[n - 1] },
        )
    }
}

/// Places the constants behind the code.
pub fn place_pool(code: &mut Assembler, pool: &Vec<u64>, labels: &Vec<Label>)
    requires
        labels@.len() == pool@.len(),
    ensures
        final(code)@ == pool_placed(old(code)@, pool@, labels@, pool@.len()),
        final(code).made() == old(code).made(),
{
    let ghost start = code@;
    let mut i: usize = 0;
    while i < pool.len()
        invariant
            i <= pool@.len(),
            labels@.len() == pool@.len(),
            code@ == pool_placed(start, pool@, labels@, i as nat),
            code.made() == old(code).made(),
        decreases pool@.len() - i,
    {
        code.put(AsmOp::Bind { label: labels[i] });
        code.put(AsmOp::EmitU64 { bits: pool[i] });
        i += 1;
    }
}

// ---------------------------------------------------------------------------
// Instructions

/// What the instructions of a function share.
pub struct Labels {
    pub pool: Vec<Label>,
    pub blocks: Vec<Label>,
    /// For each block, where its branch goes if its first edge needs copies.
    pub edges: Vec<Label>,
}

/// The label of a block: that of its last start.
pub open spec fn block_label(starts: Seq<(Block, usize)>, labels: Seq<Label>, b: Block) -> Option<
    Label,
>
    decreases starts.len(),
{
    if starts.len() == 0 {
        None
    } else if starts.last().0 == b {
        Some(labels[starts.len() - 1])
    } else {
        block_label(starts.drop_last(), labels, b)
    }
}

fn find_label(starts: &Vec<(Block, usize)>, labels: &Vec<Label>, b: Block) -> (r: Option<Label>)
    requires
        labels@.len() == starts@.len(),
    ensures
        r == block_label(starts@, labels@, b),
{
    let mut n: usize = starts.len();
    assert(starts@.take(n as int) =~= starts@);
    while n > 0
        invariant
            n <= starts@.len(),
            labels@.len() == starts@.len(),
            block_label(starts@, labels@, b) == block_label(starts@.take(n as int), labels@, b),
        decreases n,
    {
        let ghost some = starts@.take(n as int);
        assert(some.drop_last() =~= starts@.take(n - 1));
        assert(some.last() == starts@[n - 1]);
        n -= 1;
        if starts[n].0 == b {
            return Some(labels[n]);
        }
    }
    None
}

pub open spec fn jump_to(acc: Ops, label: Option<Label>) -> Ops {
    match label {
        Some(label) => put(acc, AsmOp::Jmp { label }),
        None => None,
    }
}

/// The spilled values among the first `k` that the instruction reads are
/// loaded, each once.
pub open spec fn reloaded(
    acc: Ops,
    cx: EmitContext,
    inst: MachineInst,
    regs: Seq<(Value, PhysReg)>,
    k: nat,
) -> Ops
    decreases k,
{
    if k == 0 {
        acc
    } else {
        let before = reloaded(acc, cx, inst, regs, (k - 1) as nat);
        let v = reads(inst)[k - 1];
        if reads(inst).take(k - 1).contains(v) {
            before
        } else {
            match location(cx, v) {
                Some(Location::Spill(slot)) => match value_type(cx, v) {
                    Some(ty) => load_slot(before, ty, at(regs, v), slot, cx.spill_bias),
                    None => None,
                },
                _ => before,
            }
        }
    }
}

/// The result goes to its slot, if it has one.
pub open spec fn written_back(acc: Ops, cx: EmitContext, inst: MachineInst, regs: Seq<(Value, PhysReg)>) -> Ops {
    match defines(inst) {
        Some(v) => if inst is Param {
            acc
        } else {
            match location(cx, v) {
                Some(Location::Spill(slot)) => match value_type(cx, v) {
                    Some(ty) => store_slot(acc, ty, slot, at(regs, v), cx.spill_bias),
                    None => None,
                },
                _ => acc,
            }
        },
        None => acc,
    }
}

/// The function returns `value`.
pub open spec fn returned(acc: Ops, cx: EmitContext, value: Value, reg: PhysReg) -> Ops {
    let last = if cx.framed {
        AsmOp::Epilogue
    } else {
        AsmOp::Ret
    };
    match value_type(cx, value) {
        None => None,
        Some(Ty::F64) => put(move_float(acc, PhysReg::Xmm(0), reg), last),
        Some(_) => put(move_int(acc, PhysReg::Rax, reg), last),
    }
}

/// A branch on a bit whose first edge needs no copies: a jump if the bit is
/// set, the copies for the other edge, and a jump.
pub open spec fn branched_plainly(
    acc: Ops,
    cx: EmitContext,
    frame: CopyFrame,
    source: Block,
    bit: PhysReg,
    yes: Label,
    else_: Block,
    no: Option<Label>,
) -> Ops {
    jump_to(
        edge_taken(
            put(
                put(acc, AsmOp::TestRegReg { lhs: bit, rhs: bit }),
                AsmOp::Jcc { cond: ConditionCode::NotEqual, label: yes },
            ),
            cx,
            source,
            else_,
            frame,
        ),
        no,
    )
}

/// A branch on a bit. Copies for the first edge stand behind the other one,
/// with a label of their own.
pub open spec fn branched(
    acc: Ops,
    cx: EmitContext,
    labels: Labels,
    frame: CopyFrame,
    source: Block,
    bit: PhysReg,
    then_: Block,
    else_: Block,
) -> Ops {
    let starts = cx.selected.block_starts@;
    let yes = block_label(starts, labels.blocks@, then_);
    let no = block_label(starts, labels.blocks@, else_);
    match (edge_copies(cx, source, then_), yes, block_label(starts, labels.edges@, source)) {
        (Some(copies), Some(label), Some(edge)) => if copies.len() == 0 {
            branched_plainly(acc, cx, frame, source, bit, label, else_, no)
        } else {
            jump_to(
                parallel(
                    put(
                        branched_plainly(acc, cx, frame, source, bit, edge, else_, no),
                        AsmOp::Bind { label: edge },
                    ),
                    copies,
                    frame,
                ),
                yes,
            )
        },
        _ => None,
    }
}

/// The instruction itself, its values in registers.
pub open spec fn performed(
    acc: Ops,
    cx: EmitContext,
    labels: Labels,
    frame: CopyFrame,
    source: Block,
    inst: MachineInst,
    regs: Seq<(Value, PhysReg)>,
    position: u32,
) -> Ops {
    match inst {
        MachineInst::Param { .. } => acc,
        MachineInst::CallLibm { dst, func, args } => if libm_ok(cx, func, args@, position) {
            libm_call(
                acc,
                cx,
                libm_entry(cx.abi.libm@, func).unwrap(),
                all_at(regs, args@),
                at(regs, dst),
                position,
            )
        } else {
            None
        },
        MachineInst::ExternalCall { dst, address, args } => if external_ok(
            cx,
            args@,
            dst,
            position,
        ) {
            external_call(acc, cx, address, args@, regs, dst, position)
        } else {
            None
        },
        MachineInst::IntDiv { .. } => with_saved(
            acc,
            cx,
            inst,
            regs,
            labels.pool@,
            position,
            Clobber::Division,
        ),
        MachineInst::IntRem { .. } => with_saved(
            acc,
            cx,
            inst,
            regs,
            labels.pool@,
            position,
            Clobber::Division,
        ),
        MachineInst::Shl { .. } => with_saved(
            acc,
            cx,
            inst,
            regs,
            labels.pool@,
            position,
            Clobber::Shift,
        ),
        MachineInst::Shr { .. } => with_saved(
            acc,
            cx,
            inst,
            regs,
            labels.pool@,
            position,
            Clobber::Shift,
        ),
        MachineInst::Sar { .. } => with_saved(
            acc,
            cx,
            inst,
            regs,
            labels.pool@,
            position,
            Clobber::Shift,
        ),
        MachineInst::Jump { target } => jump_to(
            edge_taken(acc, cx, source, target, frame),
            block_label(cx.selected.block_starts@, labels.blocks@, target),
        ),
        MachineInst::Branch { cond, then_, else_ } => branched(
            acc,
            cx,
            labels,
            frame,
            source,
            at(regs, cond),
            then_,
            else_,
        ),
        MachineInst::Return { value } => returned(acc, cx, value, at(regs, value)),
        _ => translated(acc, *cx.abi, inst, regs, labels.pool@),
    }
}

/// One instruction: loads, the instruction, and the store of its result.
#[verifier::opaque]
pub open spec fn stepped(
    acc: Ops,
    cx: EmitContext,
    labels: Labels,
    frame: CopyFrame,
    source: Block,
    position: int,
) -> Ops {
    let inst = cx.selected.insts@[position];
    match resolve(cx, inst, mentioned(inst).len()) {
        Some(s) => {
            let regs = s.entries;
            written_back(
                performed(
                    reloaded(acc, cx, inst, regs, reads(inst).len()),
                    cx,
                    labels,
                    frame,
                    source,
                    inst,
                    regs,
                    position as u32,
                ),
                cx,
                inst,
                regs,
            )
        },
        None => None,
    }
}

/// The instructions from `start` up to `position`.
pub open spec fn stepped_to(
    acc: Ops,
    cx: EmitContext,
    labels: Labels,
    frame: CopyFrame,
    source: Block,
    start: int,
    position: int,
) -> Ops
    decreases position - start,
{
    if position <= start {
        acc
    } else {
        stepped(
            stepped_to(acc, cx, labels, frame, source, start, position - 1),
            cx,
            labels,
            frame,
            source,
            position - 1,
        )
    }
}

/// Where the instructions of the `i`-th block end.
pub open spec fn block_end(selected: SelectedFunction, i: int) -> int {
    if i + 1 < selected.block_starts@.len() {
        selected.block_starts@[i + 1].1 as int
    } else {
        selected.insts@.len() as int
    }
}

/// One block: its label, the parameters if it is the entry, and its
/// instructions.
pub open spec fn block_emitted(
    acc: Ops,
    cx: EmitContext,
    labels: Labels,
    frame: CopyFrame,
    i: int,
) -> Ops {
    let (block, start) = cx.selected.block_starts@[i];
    let end = block_end(*cx.selected, i);
    let bound = put(acc, AsmOp::Bind { label: labels.blocks@[i] });
    let ready = if block == cx.func.entry {
        params_placed(bound, cx, frame)
    } else {
        bound
    };
    if start > end || end > cx.selected.insts@.len() {
        None
    } else {
        stepped_to(ready, cx, labels, frame, block, start as int, end)
    }
}

/// The first `n` blocks.
pub open spec fn blocks_emitted(
    acc: Ops,
    cx: EmitContext,
    labels: Labels,
    frame: CopyFrame,
    n: nat,
) -> Ops
    decreases n,
{
    if n == 0 {
        acc
    } else {
        block_emitted(
            blocks_emitted(acc, cx, labels, frame, (n - 1) as nat),
            cx,
            labels,
            frame,
            n - 1,
        )
    }
}

fn emit_reloads(code: &mut Assembler, cx: &EmitContext, inst: &MachineInst, regs: &Registers)
    requires
        located(regs@, *inst),
    ensures
        final(code)@ == reloaded(old(code)@, *cx, *inst, regs@, reads(*inst).len()),
        final(code).made() == old(code).made(),
{
    let ghost start = code@;
    let values: Vec<Value> = reads_of(inst);
    let mut k: usize = 0;
    while k < values.len()
        invariant
            located(regs@, *inst),
            values@ == reads(*inst),
            k <= values@.len(),
            code@ == reloaded(start, *cx, *inst, regs@, k as nat),
            code.made() == old(code).made(),
        decreases values@.len() - k,
    {
        let v: Value = values[k];
        assert(v == reads(*inst)[k as int]);
        if !occurs_before(&values, k) {
            match find_location(cx, v) {
                Some(Location::Spill(slot)) => match value_ty(cx, v) {
                    Some(ty) => code.load_slot(ty, regs.get(v), slot, cx.spill_bias),
                    None => code.fail(),
                },
                _ => {},
            }
        }
        k += 1;
    }
}

fn occurs_before(values: &Vec<Value>, k: usize) -> (r: bool)
    requires
        k < values@.len(),
    ensures
        r == values@.take(k as int).contains(values@[k as int]),
{
    let mut i: usize = 0;
    while i < k
        invariant
            i <= k < values@.len(),
            forall|j: int| #![trigger values@[j]] 0 <= j < i ==> values@[j] != values@[k as int],
        decreases k - i,
    {
        if values[i] == values[k] {
            assert(values@.take(k as int)[i as int] == values@[k as int]);
            return true;
        }
        i += 1;
    }
    false
}

fn emit_write_back(code: &mut Assembler, cx: &EmitContext, inst: &MachineInst, regs: &Registers)
    requires
        located(regs@, *inst),
    ensures
        final(code)@ == written_back(old(code)@, *cx, *inst, regs@),
        final(code).made() == old(code).made(),
{
    let param: bool = match inst {
        MachineInst::Param { .. } => true,
        _ => false,
    };
    match def_of(inst) {
        Some(v) => if !param {
            match find_location(cx, v) {
                Some(Location::Spill(slot)) => match value_ty(cx, v) {
                    Some(ty) => code.store_slot(ty, slot, regs.get(v), cx.spill_bias),
                    None => code.fail(),
                },
                _ => {},
            }
        },
        None => {},
    }
}

fn emit_return(code: &mut Assembler, cx: &EmitContext, value: Value, reg: PhysReg)
    ensures
        final(code)@ == returned(old(code)@, *cx, value, reg),
        final(code).made() == old(code).made(),
{
    match value_ty(cx, value) {
        None => {
            code.fail();
            return ;
        },
        Some(Ty::F64) => code.move_float(PhysReg::Xmm(0), reg),
        Some(_) => code.move_int(PhysReg::Rax, reg),
    }
    if cx.framed {
        code.put(AsmOp::Epilogue);
    } else {
        code.put(AsmOp::Ret);
    }
}

fn emit_jump(code: &mut Assembler, label: Option<Label>)
    ensures
        final(code)@ == jump_to(old(code)@, label),
        final(code).made() == old(code).made(),
{
    match label {
        Some(label) => code.put(AsmOp::Jmp { label }),
        None => code.fail(),
    }
}

fn emit_plain_branch(
    code: &mut Assembler,
    cx: &EmitContext,
    frame: &CopyFrame,
    source: Block,
    bit: PhysReg,
    yes: Label,
    else_: Block,
    no: Option<Label>,
)
    ensures
        final(code)@ == branched_plainly(old(code)@, *cx, *frame, source, bit, yes, else_, no),
        final(code).made() == old(code).made(),
{
    code.put(AsmOp::TestRegReg { lhs: bit, rhs: bit });
    code.put(AsmOp::Jcc { cond: ConditionCode::NotEqual, label: yes });
    emit_phi_edge_copies(code, cx, source, else_, frame);
    emit_jump(code, no);
}

fn emit_branch(
    code: &mut Assembler,
    cx: &EmitContext,
    labels: &Labels,
    frame: &CopyFrame,
    source: Block,
    bit: PhysReg,
    then_: Block,
    else_: Block,
)
    requires
        labels.blocks@.len() == cx.selected.block_starts@.len(),
        labels.edges@.len() == cx.selected.block_starts@.len(),
    ensures
        final(code)@ == branched(old(code)@, *cx, *labels, *frame, source, bit, then_, else_),
        final(code).made() == old(code).made(),
{
    let starts: &Vec<(Block, usize)> = &cx.selected.block_starts;
    let yes: Option<Label> = find_label(starts, &labels.blocks, then_);
    let no: Option<Label> = find_label(starts, &labels.blocks, else_);
    match (collect_edge_copies(cx, source, then_), yes, find_label(starts, &labels.edges, source)) {
        (Some(copies), Some(label), Some(edge)) => {
            if copies.len() == 0 {
                emit_plain_branch(code, cx, frame, source, bit, label, else_, no);
            } else {
                emit_plain_branch(code, cx, frame, source, bit, edge, else_, no);
                code.put(AsmOp::Bind { label: edge });
                emit_parallel_copies(copies, code, frame);
                emit_jump(code, yes);
            }
        },
        _ => code.fail(),
    }
}

fn emit_performed(
    code: &mut Assembler,
    cx: &EmitContext,
    labels: &Labels,
    frame: &CopyFrame,
    source: Block,
    inst: &MachineInst,
    regs: &Registers,
    position: u32,
)
    requires
        located(regs@, *inst),
        labels.blocks@.len() == cx.selected.block_starts@.len(),
        labels.edges@.len() == cx.selected.block_starts@.len(),
    ensures
        final(code)@ == performed(
            old(code)@,
            *cx,
            *labels,
            *frame,
            source,
            *inst,
            regs@,
            position,
        ),
        final(code).made() == old(code).made(),
{
    let ghost values = reads(*inst);
    match inst {
        MachineInst::Param { .. } => {},
        MachineInst::CallLibm { dst, func, args } => {
            assert forall|i: int| #![trigger args@[i]] 0 <= i < args@.len() implies has(
                regs@,
                args@[i],
            ) by {
                assert(values[i] == args@[i]);
            }
            emit_libm_call(code, cx, *func, args, regs, regs.get(*dst), position);
        },
        MachineInst::ExternalCall { dst, address, args } => {
            assert forall|i: int| #![trigger args@[i]] 0 <= i < args@.len() implies has(
                regs@,
                args@[i],
            ) by {
                assert(values[i] == args@[i]);
            }
            emit_external_call(code, cx, *address, args, regs, *dst, position);
        },
        MachineInst::IntDiv { .. } | MachineInst::IntRem { .. } => {
            emit_with_saved(code, cx, inst, regs, &labels.pool, position, Clobber::Division);
        },
        MachineInst::Shl { .. } | MachineInst::Shr { .. } | MachineInst::Sar { .. } => {
            emit_with_saved(code, cx, inst, regs, &labels.pool, position, Clobber::Shift);
        },
        MachineInst::Jump { target } => {
            emit_phi_edge_copies(code, cx, source, *target, frame);
            let label: Option<Label> = find_label(
                &cx.selected.block_starts,
                &labels.blocks,
                *target,
            );
            emit_jump(code, label);
        },
        MachineInst::Branch { cond, then_, else_ } => {
            assert(values[0] == *cond);
            emit_branch(code, cx, labels, frame, source, regs.get(*cond), *then_, *else_);
        },
        MachineInst::Return { value } => {
            assert(values[0] == *value);
            emit_return(code, cx, *value, regs.get(*value));
        },
        _ => translate_inst(code, cx.abi, inst, regs, &labels.pool),
    }
}

fn emit_step(
    code: &mut Assembler,
    cx: &EmitContext,
    labels: &Labels,
    frame: &CopyFrame,
    source: Block,
    position: usize,
)
    requires
        position < cx.selected.insts@.len(),
        labels.blocks@.len() == cx.selected.block_starts@.len(),
        labels.edges@.len() == cx.selected.block_starts@.len(),
    ensures
        final(code)@ == stepped(old(code)@, *cx, *labels, *frame, source, position as int),
        final(code).made() == old(code).made(),
{
    reveal(stepped);
    let inst: &MachineInst = &cx.selected.insts[position];
    match assign_spill_scratch(cx, inst) {
        Some(regs) => {
            emit_reloads(code, cx, inst, &regs);
            emit_performed(code, cx, labels, frame, source, inst, &regs, position as u32);
            emit_write_back(code, cx, inst, &regs);
        },
        None => code.fail(),
    }
}

fn emit_block(
    code: &mut Assembler,
    cx: &EmitContext,
    labels: &Labels,
    frame: &CopyFrame,
    i: usize,
)
    requires
        i < cx.selected.block_starts@.len(),
        labels.blocks@.len() == cx.selected.block_starts@.len(),
        labels.edges@.len() == cx.selected.block_starts@.len(),
    ensures
        final(code)@ == block_emitted(old(code)@, *cx, *labels, *frame, i as int),
        final(code).made() == old(code).made(),
{
    let (block, start): (Block, usize) = cx.selected.block_starts[i];
    let blocks: usize = cx.selected.block_starts.len();
    let end: usize = if i + 1 < blocks {
        cx.selected.block_starts[i + 1].1
    } else {
        cx.selected.insts.len()
    };
    if start > end || end > cx.selected.insts.len() {
        code.fail();
        return ;
    }
    code.put(AsmOp::Bind { label: labels.blocks[i] });
    if block == cx.func.entry {
        emit_params(code, cx, frame);
    }
    let ghost ready = code@;
    let mut position: usize = start;
    while position < end
        invariant
            start <= position <= end <= cx.selected.insts@.len(),
            labels.blocks@.len() == cx.selected.block_starts@.len(),
            labels.edges@.len() == cx.selected.block_starts@.len(),
            code@ == stepped_to(
                ready,
                *cx,
                *labels,
                *frame,
                block,
                start as int,
                position as int,
            ),
            code.made() == old(code).made(),
        decreases end - position,
    {
        emit_step(code, cx, labels, frame, block, position);
        position += 1;
    }
}

// ---------------------------------------------------------------------------
// The function

pub open spec fn is_spilled(l: Option<Location>) -> bool {
    l matches Some(Location::Spill(_))
}

/// Some value is spilled.
pub open spec fn any_spilled(assignment: Seq<Option<Location>>) -> bool {
    exists|i: int| 0 <= i < assignment.len() && is_spilled(#[trigger] assignment[i])
}

/// Some value is in the register.
pub open spec fn uses_register(assignment: Seq<Option<Location>>, reg: PhysReg) -> bool {
    exists|i: int|
        0 <= i < assignment.len() && (#[trigger] assignment[i]) == Some(Location::Reg(reg))
}

/// The registers among the first `n` callee-saved ones that hold a value.
pub open spec fn used_saved(assignment: Seq<Option<Location>>, saved: Seq<PhysReg>, n: nat) -> Seq<
    PhysReg,
>
    decreases n,
{
    if n == 0 {
        Seq::empty()
    } else {
        let before = used_saved(assignment, saved, (n - 1) as nat);
        if uses_register(assignment, saved[n - 1]) {
            before.push(saved[n - 1])
        } else {
            before
        }
    }
}

/// How many slots the first `n` values need: one more than the largest slot.
pub open spec fn slots_needed(assignment: Seq<Option<Location>>, n: nat) -> int
    decreases n,
{
    if n == 0 {
        0
    } else {
        let before = slots_needed(assignment, (n - 1) as nat);
        match assignment[n - 1] {
            Some(Location::Spill(slot)) => {
                let needed = if slot < u32::MAX {
                    slot + 1
                } else {
                    slot as int
                };
                if needed > before {
                    needed
                } else {
                    before
                }
            },
            _ => before,
        }
    }
}

/// The bytes of the slots, at most the largest number there is.
pub open spec fn spill_bytes(assignment: Seq<Option<Location>>) -> u32 {
    let bytes = 8 * slots_needed(assignment, assignment.len());
    if bytes <= u32::MAX {
        bytes as u32
    } else {
        u32::MAX
    }
}

/// Some parameter comes on the stack.
pub open spec fn any_stack_param(abi: Abi, params: Seq<(String, Ty)>) -> bool {
    if abi.windows {
        params.len() > 4
    } else {
        exists|i: int| 0 <= i < params.len() && #[trigger] overflows(abi, params, i)
    }
}

/// The function needs a frame: for slots, for saved registers, or to reach
/// its parameters.
pub open spec fn needs_frame(
    func: Function,
    assignment: Seq<Option<Location>>,
    abi: Abi,
) -> bool {
    ||| any_spilled(assignment)
    ||| used_saved(assignment, abi.callee_saved@, abi.callee_saved@.len()).len() > 0
    ||| any_stack_param(abi, func.params@)
}

/// On Windows the saved registers lie between the frame pointer and the
/// slots.
pub open spec fn bias(abi: Abi, saved: nat) -> int {
    if abi.windows {
        8 * saved as int
    } else {
        0
    }
}

/// Labels are numbered: the constants come first, then the blocks.
pub open spec fn numbered(labels: Labels, selected: SelectedFunction) -> bool {
    &&& labels.pool@.len() == selected.pool@.len()
    &&& labels.blocks@.len() == selected.block_starts@.len()
    &&& forall|i: int| #![trigger labels.pool@[i]] 0 <= i < labels.pool@.len() ==> labels.pool@[i].0 == i
    &&& forall|i: int|
        #![trigger labels.blocks@[i]]
        0 <= i < labels.blocks@.len() ==> labels.blocks@[i].0 == labels.pool@.len() + i
    &&& labels.edges@.len() == selected.block_starts@.len()
    &&& forall|i: int|
        #![trigger labels.edges@[i]]
        0 <= i < labels.edges@.len() ==> labels.edges@[i].0 == labels.pool@.len()
            + labels.blocks@.len() + i
}

/// The operations of a function.
pub open spec fn emitted(cx: EmitContext, labels: Labels, frame: CopyFrame) -> Ops {
    let empty = Some(Seq::<AsmOp>::empty());
    let start = if cx.framed {
        put(empty, AsmOp::Prologue)
    } else {
        empty
    };
    pool_placed(
        blocks_emitted(start, cx, labels, frame, cx.selected.block_starts@.len()),
        cx.selected.pool@,
        labels.pool@,
        cx.selected.pool@.len(),
    )
}

/// The frame of a function: the registers it saves, and the bytes of its
/// slots.
pub struct Frame {
    pub saved: Vec<PhysReg>,
    pub spill_bytes: u32,
}

/// The operations of a function, and the frame that its prologue makes and its
/// epilogue takes down.
pub struct Body {
    pub frame: Option<Frame>,
    pub ops: Vec<AsmOp>,
}

fn has_spill(assignment: &Vec<Option<Location>>) -> (r: bool)
    ensures
        r == any_spilled(assignment@),
{
    let mut i: usize = 0;
    while i < assignment.len()
        invariant
            i <= assignment@.len(),
            forall|j: int| 0 <= j < i ==> !is_spilled(#[trigger] assignment@[j]),
        decreases assignment@.len() - i,
    {
        match assignment[i] {
            Some(Location::Spill(_)) => {
                assert(is_spilled(assignment@[i as int]));
                return true;
            },
            _ => {},
        }
        i += 1;
    }
    false
}

fn has_register(assignment: &Vec<Option<Location>>, reg: PhysReg) -> (r: bool)
    ensures
        r == uses_register(assignment@, reg),
{
    let mut i: usize = 0;
    while i < assignment.len()
        invariant
            i <= assignment@.len(),
            forall|j: int|
                0 <= j < i ==> (#[trigger] assignment@[j]) != Some(Location::Reg(reg)),
        decreases assignment@.len() - i,
    {
        if assignment[i] == Some(Location::Reg(reg)) {
            return true;
        }
        i += 1;
    }
    false
}

fn find_used_saved(assignment: &Vec<Option<Location>>, saved: &Vec<PhysReg>) -> (r: Vec<PhysReg>)
    ensures
        r@ == used_saved(assignment@, saved@, saved@.len()),
        r@.len() <= saved@.len(),
{
    let mut r: Vec<PhysReg> = Vec::new();
    assert(r@ =~= Seq::empty());
    let mut i: usize = 0;
    while i < saved.len()
        invariant
            i <= saved@.len(),
            r@ == used_saved(assignment@, saved@, i as nat),
            r@.len() <= i,
        decreases saved@.len() - i,
    {
        if has_register(assignment, saved[i]) {
            r.push(saved[i]);
        }
        i += 1;
    }
    r
}

fn count_slots(assignment: &Vec<Option<Location>>) -> (r: u32)
    ensures
        r == slots_needed(assignment@, assignment@.len()),
{
    let mut most: u32 = 0;
    let mut i: usize = 0;
    while i < assignment.len()
        invariant
            i <= assignment@.len(),
            most == slots_needed(assignment@, i as nat),
        decreases assignment@.len() - i,
    {
        match assignment[i] {
            Some(Location::Spill(slot)) => {
                let needed: u32 = if slot < u32::MAX {
                    slot + 1
                } else {
                    slot
                };
                if needed > most {
                    most = needed;
                }
            },
            _ => {},
        }
        i += 1;
    }
    most
}

fn has_stack_param(abi: &Abi, params: &Vec<(String, Ty)>) -> (r: bool)
    ensures
        r == any_stack_param(*abi, params@),
{
    if abi.windows {
        return params.len() > 4;
    }
    let mut i: usize = 0;
    while i < params.len()
        invariant
            !abi.windows,
            i <= params@.len(),
            forall|j: int| 0 <= j < i ==> !#[trigger] overflows(*abi, params@, j),
        decreases params@.len() - i,
    {
        if is_overflow(abi, params, i) {
            return true;
        }
        i += 1;
    }
    false
}

/// Makes a label for every block.
fn alloc_block_labels(code: &mut Assembler, starts: &Vec<(Block, usize)>) -> (r: Vec<Label>)
    requires
        old(code).made() + starts@.len() <= usize::MAX,
    ensures
        final(code)@ == old(code)@,
        final(code).made() == old(code).made() + starts@.len(),
        r@.len() == starts@.len(),
        forall|i: int|
            #![trigger r@[i]]
            0 <= i < starts@.len() ==> r@[i].0 == old(code).made() + i,
{
    let mut r: Vec<Label> = Vec::new();
    let mut i: usize = 0;
    while i < starts.len()
        invariant
            i <= starts@.len(),
            old(code).made() + starts@.len() <= usize::MAX,
            code@ == old(code)@,
            code.made() == old(code).made() + i,
            r@.len() == i,
            forall|j: int| #![trigger r@[j]] 0 <= j < i ==> r@[j].0 == old(code).made() + j,
        decreases starts@.len() - i,
    {
        r.push(code.new_label());
        i += 1;
    }
    r
}

/// Emits a function whose values have places. Spilled values are loaded into
/// scratch registers and written back. There is nothing where a value has no
/// place or type, scratch registers run out, a displacement does not fit, or
/// an instruction cannot be translated.
pub fn emit_body(
    func: &Function,
    selected: &SelectedFunction,
    assignment: &Vec<Option<Location>>,
    intervals: &Vec<(Value, u32, u32)>,
    abi: &Abi,
) -> (r: Option<Body>)
    requires
        selected.pool@.len() + 2 * selected.block_starts@.len() <= usize::MAX,
    ensures
        emit_contract(*func, *selected, *assignment, *intervals, *abi, r),
{
    let saved: Vec<PhysReg> = find_used_saved(assignment, &abi.callee_saved);
    let framed: bool = has_spill(assignment) || saved.len() > 0 || has_stack_param(
        abi,
        &func.params,
    );
    if abi.scratch_gpr.len() == 0 || abi.scratch_xmm.len() == 0 || saved.len() > 0x0fff_ffff {
        return None;
    }
    let spill_bias: i32 = if abi.windows {
        (8 * saved.len()) as i32
    } else {
        0
    };
    let slots: u32 = count_slots(assignment);
    let bytes: u32 = if slots <= u32::MAX / 8 {
        8 * slots
    } else {
        u32::MAX
    };
    let cx: EmitContext = EmitContext {
        func,
        selected,
        assignment,
        intervals,
        abi,
        framed,
        spill_bias,
    };
    let frame: CopyFrame = CopyFrame {
        gpr: abi.scratch_gpr[0],
        xmm: abi.scratch_xmm[0],
        spill_bias,
    };
    let mut code: Assembler = Assembler::new();
    if framed {
        code.put(AsmOp::Prologue);
    }
    let ghost start = code@;
    let pool: Vec<Label> = alloc_pool_labels(&mut code, &selected.pool);
    let blocks: Vec<Label> = alloc_block_labels(&mut code, &selected.block_starts);
    let edges: Vec<Label> = alloc_block_labels(&mut code, &selected.block_starts);
    let labels: Labels = Labels { pool, blocks, edges };
    assert(numbered(labels, *selected));
    let mut b: usize = 0;
    while b < selected.block_starts.len()
        invariant
            b <= selected.block_starts@.len(),
            cx.selected == selected,
            labels.blocks@.len() == selected.block_starts@.len(),
            labels.edges@.len() == selected.block_starts@.len(),
            code@ == blocks_emitted(start, cx, labels, frame, b as nat),
        decreases selected.block_starts@.len() - b,
    {
        emit_block(&mut code, &cx, &labels, &frame, b);
        b += 1;
    }
    place_pool(&mut code, &selected.pool, &labels.pool);
    assert(code@ == emitted(cx, labels, frame));
    proof {
        assert(context_ok(
            *func,
            *selected,
            *assignment,
            *intervals,
            *abi,
            cx,
            labels,
            frame,
        ));
    }
    match code.finish() {
        Some(ops) => {
            let made: Option<Frame> = if framed {
                Some(Frame { saved, spill_bytes: bytes })
            } else {
                None
            };
            Some(Body { frame: made, ops })
        },
        None => None,
    }
}

/// The context, labels and scratch registers with which a function is emitted.
pub open spec fn context_ok(
    func: Function,
    selected: SelectedFunction,
    assignment: Vec<Option<Location>>,
    intervals: Vec<(Value, u32, u32)>,
    abi: Abi,
    cx: EmitContext,
    labels: Labels,
    frame: CopyFrame,
) -> bool {
    let saved = used_saved(assignment@, abi.callee_saved@, abi.callee_saved@.len());
    &&& cx.func == func
    &&& cx.selected == selected
    &&& cx.assignment == assignment
    &&& cx.intervals == intervals
    &&& cx.abi == abi
    &&& cx.framed == needs_frame(func, assignment@, abi)
    &&& cx.spill_bias == bias(abi, saved.len())
    &&& frame == (CopyFrame {
        gpr: abi.scratch_gpr@[0],
        xmm: abi.scratch_xmm@[0],
        spill_bias: cx.spill_bias,
    })
    &&& numbered(labels, selected)
}

/// There are scratch registers, and the saved registers fit a frame.
pub open spec fn abi_ok(assignment: Seq<Option<Location>>, abi: Abi) -> bool {
    &&& abi.scratch_gpr@.len() > 0
    &&& abi.scratch_xmm@.len() > 0
    &&& used_saved(assignment, abi.callee_saved@, abi.callee_saved@.len()).len() <= 0x0fff_ffff
}

/// What is emitted.
pub open spec fn emit_contract(
    func: Function,
    selected: SelectedFunction,
    assignment: Vec<Option<Location>>,
    intervals: Vec<(Value, u32, u32)>,
    abi: Abi,
    r: Option<Body>,
) -> bool {
    if !abi_ok(assignment@, abi) {
        r is None
    } else {
        exists|cx: EmitContext, labels: Labels, frame: CopyFrame|
            #![trigger emitted(cx, labels, frame)]
            {
                &&& context_ok(func, selected, assignment, intervals, abi, cx, labels, frame)
                &&& match r {
                    Some(body) => {
                        &&& emitted(cx, labels, frame) == Some(body.ops@)
                        &&& match body.frame {
                            Some(made) => cx.framed && made.saved@ == used_saved(
                                assignment@,
                                abi.callee_saved@,
                                abi.callee_saved@.len(),
                            ) && made.spill_bytes == spill_bytes(assignment@),
                            None => !cx.framed,
                        }
                    },
                    None => emitted(cx, labels, frame) is None,
                }
            }
    }
}

} // verus!
