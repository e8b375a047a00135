//! Whole functions: which way a function is emitted, and the public entry
//! points.
use crate::aarch64::decode::{spelled, Source};
use crate::aarch64::emit::{chain, non_params, only_params, sound, type_of, Code};
use crate::aarch64::emit::{has_only_params, more_values_than, type_at};
use crate::aarch64::encode::reg;
use crate::aarch64::encode::Gpr;
use crate::aarch64::error::EmitError;
use crate::aarch64::link::link;
use crate::aarch64::link::{linked, same_bytes};
use crate::aarch64::machine::A64;
use crate::aarch64::registers::{
    allocate, emit_epilogue, emit_f64_inst, emit_f64_term, emit_i64_inst, emit_move, emit_prologue,
    find_register, Registers,
};
use crate::aarch64::registers::{
    assignment, assignment_ok, covered, epilogue, f64_inst, f64_term, i64_inst, lemma_covered,
    move_code, prologue, register_of, Assignment,
};
use crate::aarch64::spill::{emit_with_stack_spills, Kind, LibmAddresses};
use crate::aarch64::spill::{is_comparison, length, spilled, spilled_source};
use crate::ir::Op;
use crate::ir::{Function, Inst, Terminator, Ty, Value};
use vstd::prelude::*;

verus! {

// ---------------------------------------------------------------------------
// Code that keeps every value in a register

/// The code of one value.
pub open spec fn register_value(f: Function, a: Assignment, integer: bool, v: Value) -> Code {
    if integer {
        i64_inst(f, a.regs, v)
    } else {
        f64_inst(f, a.regs, v)
    }
}

/// The code of the first `k` values of block `b`, behind `acc`.
pub open spec fn register_values(
    f: Function,
    a: Assignment,
    integer: bool,
    b: int,
    k: nat,
    acc: Code,
) -> Code
    decreases k,
{
    if k == 0 {
        acc
    } else {
        chain(
            register_values(f, a, integer, b, (k - 1) as nat, acc),
            register_value(f, a, integer, f.listed(b)[k - 1]),
        )
    }
}

/// The code of the first `n` blocks, behind the prologue.
pub open spec fn register_blocks(f: Function, a: Assignment, n: nat) -> Code
    decreases n,
{
    if n == 0 {
        Ok(prologue(a))
    } else {
        chain(
            register_values(
                f,
                a,
                false,
                n - 1,
                f.listed(n - 1).len(),
                register_blocks(f, a, (n - 1) as nat),
            ),
            f64_term(f, a, n - 1),
        )
    }
}

/// Where the blocks start.
pub open spec fn register_starts(f: Function, a: Assignment) -> Seq<usize> {
    Seq::new(f.blocks@.len(), |b: int| length(register_blocks(f, a, b as nat)) as usize)
}

proof fn lemma_values_error(
    f: Function,
    a: Assignment,
    integer: bool,
    b: int,
    k: nat,
    acc: Code,
    e: EmitError,
)
    requires
        k <= f.listed(b).len(),
        register_values(f, a, integer, b, k, acc) == Err::<Seq<A64>, EmitError>(e),
    ensures
        register_values(f, a, integer, b, f.listed(b).len(), acc) == Err::<Seq<A64>, EmitError>(e),
    decreases f.listed(b).len() - k,
{
    if k < f.listed(b).len() {
        lemma_values_error(f, a, integer, b, k + 1, acc, e);
    }
}

proof fn lemma_values_keep_error(
    f: Function,
    a: Assignment,
    integer: bool,
    b: int,
    k: nat,
    acc: Code,
)
    requires
        acc is Err,
    ensures
        register_values(f, a, integer, b, k, acc) == acc,
    decreases k,
{
    if k > 0 {
        lemma_values_keep_error(f, a, integer, b, (k - 1) as nat, acc);
    }
}

proof fn lemma_blocks_error(f: Function, a: Assignment, n: nat, e: EmitError)
    requires
        n <= f.blocks@.len(),
        register_blocks(f, a, n) == Err::<Seq<A64>, EmitError>(e),
    ensures
        register_blocks(f, a, f.blocks@.len()) == Err::<Seq<A64>, EmitError>(e),
    decreases f.blocks@.len() - n,
{
    if n < f.blocks@.len() {
        lemma_values_keep_error(
            f,
            a,
            false,
            n as int,
            f.listed(n as int).len(),
            register_blocks(f, a, n),
        );
        lemma_blocks_error(f, a, n + 1, e);
    }
}

/// Emits the values of a block.
fn emit_values(
    f: &Function,
    a: &Registers,
    integer: bool,
    b: usize,
    code: &mut Vec<A64>,
    Ghost(blocks): Ghost<nat>,
) -> (r: Result<(), EmitError>)
    requires
        b < f.blocks@.len(),
        covered(*f, a.regs@),
        sound(old(code)@, blocks),
    ensures
        match r {
            Ok(_) => register_values(
                *f,
                a@,
                integer,
                b as int,
                f.listed(b as int).len(),
                Ok(old(code)@),
            ) == Ok::<Seq<A64>, EmitError>(final(code)@) && sound(final(code)@, blocks),
            Err(e) => register_values(
                *f,
                a@,
                integer,
                b as int,
                f.listed(b as int).len(),
                Ok(old(code)@),
            ) == Err::<Seq<A64>, EmitError>(e),
        },
{
    let ghost start: Code = Ok(code@);
    let mut k: usize = 0;
    while k < f.blocks[b].insts.len()
        invariant
            b < f.blocks@.len(),
            covered(*f, a.regs@),
            start == Ok::<Seq<A64>, EmitError>(old(code)@),
            k <= f.listed(b as int).len(),
            register_values(*f, a@, integer, b as int, k as nat, start) == Ok::<
                Seq<A64>,
                EmitError,
            >(code@),
            sound(code@, blocks),
        decreases f.listed(b as int).len() - k,
    {
        let v: Value = f.blocks[b].insts[k];
        assert(v == f.listed(b as int)[k as int]);
        let r: Result<(), EmitError> = if integer {
            emit_i64_inst(f, &a.regs, v, code, Ghost(blocks))
        } else {
            emit_f64_inst(f, &a.regs, v, code, Ghost(blocks))
        };
        match r {
            Ok(_) => {},
            Err(e) => {
                proof {
                    lemma_values_error(*f, a@, integer, b as int, (k + 1) as nat, start, e);
                }
                return Err(e);
            },
        }
        k += 1;
    }
    Ok(())
}

/// Every listed value got a register.
proof fn lemma_all_covered(f: Function, integer: bool)
    requires
        assignment(f, integer, f.blocks@.len()) is Ok,
        assignment_ok(f, assignment(f, integer, f.blocks@.len())->Ok_0),
    ensures
        covered(f, assignment(f, integer, f.blocks@.len())->Ok_0.regs),
{
    let regs = assignment(f, integer, f.blocks@.len())->Ok_0.regs;
    assert forall|b: int, k: int|
        #![trigger f.listed(b)[k]]
        0 <= b < f.blocks@.len() && 0 <= k < f.listed(b).len() implies f.listed(b)[k].0
        < f.insts@.len() && regs[f.listed(b)[k].0 as int] is Some by {
        lemma_covered(f, integer, f.blocks@.len(), b, k);
    }
}

// ---------------------------------------------------------------------------
// Functions of integers

/// The body, the result in X0, and the way out.
pub open spec fn i64_code(f: Function, result: Value) -> Code {
    match assignment(f, true, f.blocks@.len()) {
        Err(e) => Err(e),
        Ok(a) => chain(
            register_values(f, a, true, 0, f.listed(0).len(), Ok(prologue(a))),
            match register_of(a.regs, result) {
                Err(e) => Err(e),
                Ok(x) => Ok((move_code(false, reg(0), x) + epilogue(a)).push(A64::Return)),
            },
        ),
    }
}

/// A function that makes no calls needs no addresses.
pub open spec fn no_addresses() -> LibmAddresses {
    LibmAddresses { sin: 0, cos: 0, tan: 0, exp: 0, log: 0, pow: 0 }
}

/// The code of a straight-line function of integers.
pub open spec fn i64_function(f: Function) -> Result<Seq<u8>, EmitError> {
    if f.blocks@.len() != 1 {
        Err(EmitError::I64Blocks)
    } else if !only_params(f, Ty::I64) {
        Err(EmitError::I64Params)
    } else {
        match f.term(0) {
            Some(Terminator::Return(result)) => if type_of(f, result) != Some(Ty::I64) {
                Err(EmitError::I64ResultType)
            } else if non_params(f, 1) > 21 {
                spilled(f, Kind::Ints, no_addresses())
            } else {
                linked(i64_code(f, result), seq![0usize])
            },
            _ => Err(EmitError::I64Terminator),
        }
    }
}

/// The instructions of code that may have failed.
pub open spec fn sourced(code: Code, starts: Seq<usize>) -> Result<Source, EmitError> {
    match code {
        Err(e) => Err(e),
        Ok(code) => Ok(Source { code, starts }),
    }
}

/// The instructions of a straight-line function of integers.
pub open spec fn i64_source(f: Function, result: Value) -> Result<Source, EmitError> {
    if non_params(f, 1) > 21 {
        spilled_source(f, Kind::Ints, no_addresses())
    } else {
        sourced(i64_code(f, result), seq![0usize])
    }
}

fn emit_i64_in_registers(f: &Function, result: Value) -> (r: Result<Vec<u8>, EmitError>)
    requires
        f.blocks@.len() == 1,
    ensures
        same_bytes(r, linked(i64_code(*f, result), seq![0usize])),
        spelled(r, sourced(i64_code(*f, result), seq![0usize])),
{
    let a: Registers = match allocate(f, true) {
        Ok(a) => a,
        Err(e) => return Err(e),
    };
    proof {
        lemma_all_covered(*f, true);
    }
    let mut code: Vec<A64> = Vec::new();
    emit_prologue(f, &a, &mut code, Ghost(1));
    assert(code@ =~= prologue(a@));
    match emit_values(f, &a, true, 0, &mut code, Ghost(1)) {
        Ok(_) => {},
        Err(e) => return Err(e),
    }
    let ghost body = code@;
    let x: Gpr = match find_register(&a.regs, result) {
        Ok(x) => x,
        Err(e) => return Err(e),
    };
    let zero: Gpr = Gpr::new(0);
    emit_move(false, zero, x, &mut code, Ghost(1));
    emit_epilogue(f, &a, &mut code, Ghost(1));
    code.push(A64::Return);
    assert(code@ =~= body + (move_code(false, zero, x) + epilogue(a@)).push(A64::Return));
    let mut starts: Vec<usize> = Vec::new();
    starts.push(0);
    assert(starts@ =~= seq![0usize]);
    match link(&code, &starts) {
        Some(bytes) => Ok(bytes),
        None => Err(EmitError::OutOfReach),
    }
}

/// Emits a straight-line function of integers. Parameters come in X0..X7;
/// temporaries use X8..X18 and then X19..X28, which are saved. With more than
/// 21 values everything goes to the stack. Control flow, bools and doubles are
/// refused.
pub fn emit_i64(function: &Function) -> (r: Result<Vec<u8>, EmitError>)
    ensures
        same_bytes(r, i64_function(*function)),
        r is Ok ==> function.blocks@.len() == 1 && only_params(*function, Ty::I64)
            && function.term(0) is Some && function.term(0).unwrap() is Return && type_of(
            *function,
            function.term(0).unwrap()->Return_0,
        ) == Some(Ty::I64),
        spelled(r, i64_source(*function, function.term(0).unwrap()->Return_0)),
{
    if function.blocks.len() != 1 {
        return Err(EmitError::I64Blocks);
    }
    if !has_only_params(function, Ty::I64) {
        return Err(EmitError::I64Params);
    }
    let result: Value = match function.blocks[0].term {
        Some(Terminator::Return(result)) => result,
        _ => return Err(EmitError::I64Terminator),
    };
    if type_at(function, result) != Some(Ty::I64) {
        return Err(EmitError::I64ResultType);
    }
    if more_values_than(function, 21) {
        let libm: LibmAddresses = LibmAddresses { sin: 0, cos: 0, tan: 0, exp: 0, log: 0, pow: 0 };
        return emit_with_stack_spills(function, Kind::Ints, &libm);
    }
    emit_i64_in_registers(function, result)
}

// ---------------------------------------------------------------------------
// Functions with a double as their result

/// The terminator suits the code that keeps values on the stack.
pub open spec fn term_supported(f: Function, b: int) -> bool {
    match f.term(b) {
        Some(Terminator::Return(v)) => type_of(f, v) == Some(Ty::F64),
        Some(Terminator::Jump(_)) => true,
        Some(Terminator::Branch { cond, .. }) => is_comparison(f, cond) && type_of(f, cond) == Some(
            Ty::Bool,
        ),
        None => false,
    }
}

/// The instruction suits the code for doubles only, or for mixed values.
pub open spec fn inst_supported(f: Function, mixed: bool, v: Value) -> bool {
    v.0 < f.insts@.len() && match f.inst(v.0 as int).op {
        Op::ConstF64(_)
        | Op::Add
        | Op::Sub
        | Op::Mul
        | Op::Div
        | Op::Neg
        | Op::Compare(_)
        | Op::Phi(_) => true,
        Op::Param(_, ty) => mixed || ty == Ty::F64,
        Op::Abs | Op::Sqrt | Op::Fma | Op::Min | Op::Max | Op::Call(_) => !mixed,
        Op::ConstI64(_)
        | Op::ConstBool(_)
        | Op::Rem
        | Op::And
        | Op::Or
        | Op::Xor
        | Op::Not
        | Op::Shl
        | Op::Shr
        | Op::Sar
        | Op::IToF
        | Op::FToI => mixed,
        _ => false,
    }
}

/// Block `b` can keep its values on the stack.
pub open spec fn block_supported(f: Function, mixed: bool, b: int) -> bool {
    &&& term_supported(f, b)
    &&& forall|k: int|
        #![trigger f.listed(b)[k]]
        0 <= k < f.listed(b).len() ==> inst_supported(f, mixed, f.listed(b)[k])
}

pub open spec fn all_supported(f: Function, mixed: bool) -> bool {
    forall|b: int|
        #![trigger block_supported(f, mixed, b)]
        0 <= b < f.blocks@.len() ==> block_supported(f, mixed, b)
}

/// Some instruction is a call.
pub open spec fn has_call(f: Function) -> bool {
    exists|i: int| 0 <= i < f.insts@.len() && (#[trigger] f.inst(i)).op is Call
}

/// The code of a function with a double as its result.
pub open spec fn f64_function(f: Function, libm: LibmAddresses) -> Result<Seq<u8>, EmitError> {
    let many = non_params(f, f.blocks@.len()) > 24;
    if f.blocks@.len() == 0 {
        Err(EmitError::NoBlocks)
    } else if f.types@.len() == 0 || f.types@.last() != Ty::F64 {
        Err(EmitError::ResultType)
    } else if only_params(f, Ty::F64) && all_supported(f, false) && (many || has_call(f)) {
        spilled(f, Kind::Floats { calls: has_call(f) }, libm)
    } else if all_supported(f, true) && many {
        spilled(f, Kind::Mixed, libm)
    } else {
        match assignment(f, false, f.blocks@.len()) {
            Err(e) => Err(e),
            Ok(a) => linked(register_blocks(f, a, f.blocks@.len()), register_starts(f, a)),
        }
    }
}

fn supports_term(f: &Function, b: usize) -> (r: bool)
    requires
        b < f.blocks@.len(),
    ensures
        r == term_supported(*f, b as int),
{
    match f.blocks[b].term {
        Some(Terminator::Return(v)) => type_at(f, v) == Some(Ty::F64),
        Some(Terminator::Jump(_)) => true,
        Some(Terminator::Branch { cond, .. }) => {
            (cond.0 as usize) < f.insts.len() && match &f.insts[cond.0 as usize] {
                Inst::Cmp { .. } => true,
                _ => false,
            } && type_at(f, cond) == Some(Ty::Bool)
        },
        None => false,
    }
}

fn supports_inst(f: &Function, mixed: bool, v: Value) -> (r: bool)
    ensures
        r == inst_supported(*f, mixed, v),
{
    if v.0 as usize >= f.insts.len() {
        return false;
    }
    match &f.insts[v.0 as usize] {
        Inst::ConstF64(_)
        | Inst::Add(_, _)
        | Inst::Sub(_, _)
        | Inst::Mul(_, _)
        | Inst::Div(_, _)
        | Inst::Neg(_)
        | Inst::Cmp { .. }
        | Inst::Phi { .. } => true,
        Inst::Param { ty, .. } => mixed || *ty == Ty::F64,
        Inst::Abs(_)
        | Inst::Sqrt(_)
        | Inst::Fma { .. }
        | Inst::Min(_, _)
        | Inst::Max(_, _)
        | Inst::Call { .. } => !mixed,
        Inst::ConstI64(_)
        | Inst::ConstBool(_)
        | Inst::Rem(_, _)
        | Inst::And(_, _)
        | Inst::Or(_, _)
        | Inst::Xor(_, _)
        | Inst::Not(_)
        | Inst::Shl(_, _)
        | Inst::Shr(_, _)
        | Inst::Sar(_, _)
        | Inst::IToF(_)
        | Inst::FToI(_) => mixed,
        _ => false,
    }
}

fn supports_block(f: &Function, mixed: bool, b: usize) -> (r: bool)
    requires
        b < f.blocks@.len(),
    ensures
        r == block_supported(*f, mixed, b as int),
{
    if !supports_term(f, b) {
        return false;
    }
    let mut k: usize = 0;
    while k < f.blocks[b].insts.len()
        invariant
            b < f.blocks@.len(),
            k <= f.listed(b as int).len(),
            forall|j: int|
                #![trigger f.listed(b as int)[j]]
                0 <= j < k ==> inst_supported(*f, mixed, f.listed(b as int)[j]),
        decreases f.listed(b as int).len() - k,
    {
        let v: Value = f.blocks[b].insts[k];
        assert(v == f.listed(b as int)[k as int]);
        if !supports_inst(f, mixed, v) {
            return false;
        }
        k += 1;
    }
    true
}

fn supports_all(f: &Function, mixed: bool) -> (r: bool)
    ensures
        r == all_supported(*f, mixed),
{
    let mut b: usize = 0;
    while b < f.blocks.len()
        invariant
            b <= f.blocks@.len(),
            forall|i: int|
                #![trigger block_supported(*f, mixed, i)]
                0 <= i < b ==> block_supported(*f, mixed, i),
        decreases f.blocks@.len() - b,
    {
        if !supports_block(f, mixed, b) {
            return false;
        }
        b += 1;
    }
    true
}

fn contains_call(f: &Function) -> (r: bool)
    ensures
        r == has_call(*f),
{
    let mut i: usize = 0;
    while i < f.insts.len()
        invariant
            i <= f.insts@.len(),
            forall|j: int| 0 <= j < i ==> !((#[trigger] f.inst(j)).op is Call),
        decreases f.insts@.len() - i,
    {
        match &f.insts[i] {
            Inst::Call { .. } => {
                assert(f.inst(i as int).op is Call);
                return true;
            },
            _ => {
                assert(!(f.inst(i as int).op is Call));
            },
        }
        i += 1;
    }
    false
}

/// The instructions of a function that keeps its values in registers.
pub open spec fn registers_source(f: Function) -> Result<Source, EmitError> {
    match assignment(f, false, f.blocks@.len()) {
        Err(e) => Err(e),
        Ok(a) => sourced(register_blocks(f, a, f.blocks@.len()), register_starts(f, a)),
    }
}

/// The instructions of a function with a double as its result.
pub open spec fn f64_source(f: Function, libm: LibmAddresses) -> Result<Source, EmitError> {
    let many = non_params(f, f.blocks@.len()) > 24;
    if only_params(f, Ty::F64) && all_supported(f, false) && (many || has_call(f)) {
        spilled_source(f, Kind::Floats { calls: has_call(f) }, libm)
    } else if all_supported(f, true) && many {
        spilled_source(f, Kind::Mixed, libm)
    } else {
        registers_source(f)
    }
}

fn emit_f64_in_registers(f: &Function) -> (r: Result<Vec<u8>, EmitError>)
    requires
        f.blocks@.len() <= u32::MAX,
    ensures
        same_bytes(
            r,
            match assignment(*f, false, f.blocks@.len()) {
                Err(e) => Err(e),
                Ok(a) => linked(register_blocks(*f, a, f.blocks@.len()), register_starts(*f, a)),
            },
        ),
        spelled(r, registers_source(*f)),
{
    let a: Registers = match allocate(f, false) {
        Ok(a) => a,
        Err(e) => return Err(e),
    };
    proof {
        lemma_all_covered(*f, false);
    }
    let ghost blocks = f.blocks@.len();
    let mut code: Vec<A64> = Vec::new();
    emit_prologue(f, &a, &mut code, Ghost(blocks));
    assert(code@ =~= prologue(a@));
    let mut starts: Vec<usize> = Vec::new();
    let mut b: usize = 0;
    while b < f.blocks.len()
        invariant
            b <= f.blocks@.len(),
            blocks == f.blocks@.len(),
            f.blocks@.len() <= u32::MAX,
            covered(*f, a.regs@),
            assignment_ok(*f, a@),
            assignment(*f, false, f.blocks@.len()) == Ok::<Assignment, EmitError>(a@),
            register_blocks(*f, a@, b as nat) == Ok::<Seq<A64>, EmitError>(code@),
            sound(code@, blocks),
            starts@.len() == b,
            forall|i: int|
                #![trigger starts@[i]]
                0 <= i < b ==> starts@[i] == length(register_blocks(*f, a@, i as nat)),
        decreases f.blocks@.len() - b,
    {
        starts.push(code.len());
        match emit_values(f, &a, false, b, &mut code, Ghost(blocks)) {
            Ok(_) => {},
            Err(e) => {
                proof {
                    lemma_blocks_error(*f, a@, (b + 1) as nat, e);
                }
                return Err(e);
            },
        }
        match emit_f64_term(f, &a, b, &mut code, Ghost(blocks)) {
            Ok(_) => {},
            Err(e) => {
                proof {
                    lemma_blocks_error(*f, a@, (b + 1) as nat, e);
                }
                return Err(e);
            },
        }
        b += 1;
    }
    assert(starts@ =~= register_starts(*f, a@));
    match link(&code, &starts) {
        Some(bytes) => Ok(bytes),
        None => Err(EmitError::OutOfReach),
    }
}

/// Emits a function with a double as its result. Double parameters come in
/// D0..D7 and integer or bool parameters in X0..X7. Temporaries use D16..D31
/// and X8..X18 first, then D8..D15 and X19..X28, which are saved in an aligned
/// frame. A function with more values than that, or with calls, keeps its
/// values on the stack.
pub fn emit_f64(function: &Function, libm: &LibmAddresses) -> (r: Result<Vec<u8>, EmitError>)
    requires
        function.blocks@.len() <= u32::MAX,
    ensures
        same_bytes(r, f64_function(*function, *libm)),
        r is Ok ==> function.blocks@.len() > 0,
        spelled(r, f64_source(*function, *libm)),
{
    if function.blocks.len() == 0 {
        return Err(EmitError::NoBlocks);
    }
    let n: usize = function.types.len();
    if n == 0 || function.types[n - 1] != Ty::F64 {
        return Err(EmitError::ResultType);
    }
    let many: bool = more_values_than(function, 24);
    let calls: bool = contains_call(function);
    if has_only_params(function, Ty::F64) && supports_all(function, false) && (many || calls) {
        return emit_with_stack_spills(function, Kind::Floats { calls }, libm);
    }
    if supports_all(function, true) && many {
        return emit_with_stack_spills(function, Kind::Mixed, libm);
    }
    emit_f64_in_registers(function)
}

// ---------------------------------------------------------------------------
// The target

/// What the machine offers.
#[derive(Clone, Copy, Debug, PartialEq, Eq, Structural)]
pub struct BackendInfo {
    pub target_available: bool,
    pub neon_available: bool,
}

/// What is on offer where code for `aarch64` can run, or cannot.
pub fn backend_info(aarch64: bool) -> (r: BackendInfo)
    ensures
        r == (BackendInfo { target_available: aarch64, neon_available: aarch64 }),
{
    BackendInfo { target_available: aarch64, neon_available: aarch64 }
}

/// Whether emitted code can run here.
pub fn is_native_target(info: BackendInfo) -> (r: bool)
    ensures
        r == info.target_available,
{
    info.target_available
}

} // verus!
