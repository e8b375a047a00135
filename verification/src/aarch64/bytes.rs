//! Emitted bytes, read by the instruction table and run, compute what their
//! function computes.
use crate::aarch64::correct::{int_arguments, lemma_i64_code_computes, listed_once, returned_int};
use crate::aarch64::decode::{decode, double_word_at, spells, word_at, Decoded};
use crate::aarch64::emit::{chain, non_params, one, only_params, Code};
use crate::aarch64::encode::reg;
use crate::aarch64::encode::Gpr;
use crate::aarch64::error::EmitError;
use crate::aarch64::execute::{
    after, all_go_on, condition_holds, execute, get_x, lemma_go_on_add, lemma_straight, set_d,
    stands_at, step, whole, Machine,
};
use crate::aarch64::flow::{
    arguments, branches_plainly, lemma_f64_code_computes, returned_double,
};
use crate::aarch64::functions::{
    all_supported, f64_source, has_call, i64_code, i64_source, no_addresses, register_values,
    registers_source,
};
use crate::aarch64::link::distance;
use crate::aarch64::machine::A64;
use crate::aarch64::registers::{
    assignment, epilogue, i64_inst, move_code, prologue, register_of, Assignment,
};
use crate::aarch64::spill::{
    int_spill, layout, load, place_listed, restores, spill_blocks, spill_frame, spill_prologue,
    spill_starts, spill_values, spilled_source, Kind, Layout, LibmAddresses, Location, Plan,
};
use crate::aarch64::spilled::lemma_spilled_i64_code_computes;
use crate::aarch64::stacked::{advance, calls_ok, Outside};
use crate::aarch64::stackflow::{emitted_code, lemma_stacked_code_computes, perform};
use crate::float::{lib_float_op, FloatOp, FloatSem};
use crate::interp::{yields, RtValue};
use crate::ir::{Function, LibFunc, Terminator, Ty, Value};
use crate::opt::simulate::{args_match, ranks};
use crate::verify::valid;
use vstd::prelude::*;

verus! {

// ---------------------------------------------------------------------------
// Running bytes

/// Runs bytes from byte `pc` on until they return, for at most `fuel`
/// instructions. What a call does, `out` says.
pub open spec fn perform_bytes(
    bytes: Seq<u8>,
    pc: int,
    m: Machine,
    out: Outside,
    fuel: nat,
) -> Option<Machine>
    decreases fuel,
{
    if fuel == 0 || pc < 0 || pc + 4 > bytes.len() {
        None
    } else {
        let rest = (fuel - 1) as nat;
        match decode(word_at(bytes, pc)) {
            Some(Decoded::Plain(A64::Return)) => Some(m),
            Some(Decoded::Plain(A64::CallRegister { target })) => perform_bytes(
                bytes,
                pc + 4,
                (out.call)(get_x(m, target) as u64, m),
                out,
                rest,
            ),
            Some(Decoded::Plain(i)) => perform_bytes(bytes, pc + 4, step(m, i, out.fs), out, rest),
            Some(Decoded::LoadLiteral { dst, offset }) => perform_bytes(
                bytes,
                pc + 4,
                set_d(m, dst, double_word_at(bytes, pc + offset)),
                out,
                rest,
            ),
            Some(Decoded::Branch { offset }) => perform_bytes(bytes, pc + offset, m, out, rest),
            Some(Decoded::BranchIf { condition, offset }) => if condition_holds(
                condition,
                m.flags,
            ) {
                perform_bytes(bytes, pc + offset, m, out, rest)
            } else {
                perform_bytes(bytes, pc + 4, m, out, rest)
            },
            _ => None,
        }
    }
}

/// Bytes that spell code do what the code does, calls among it.
pub proof fn lemma_bytes_perform(
    bytes: Seq<u8>,
    code: Seq<A64>,
    starts: Seq<usize>,
    pc: int,
    m: Machine,
    out: Outside,
    fuel: nat,
)
    requires
        spells(bytes, code, starts),
        perform(code, starts, pc, m, out, fuel) is Some,
    ensures
        perform_bytes(bytes, 4 * pc, m, out, fuel) == perform(code, starts, pc, m, out, fuel),
    decreases fuel,
{
    let rest = (fuel - 1) as nat;
    let i = code[pc];
    match i {
        A64::Return => {},
        A64::CallRegister { target } => {
            let e = (out.call)(get_x(m, target) as u64, m);
            assert(advance(m, i, out) == Some(e));
            lemma_bytes_perform(bytes, code, starts, pc + 1, e, out, rest);
        },
        A64::Jump { block } => {
            lemma_bytes_perform(bytes, code, starts, starts[block as int] as int, m, out, rest);
        },
        A64::JumpIf { condition, block } => {
            if condition_holds(condition, m.flags) {
                lemma_bytes_perform(bytes, code, starts, starts[block as int] as int, m, out, rest);
            } else {
                lemma_bytes_perform(bytes, code, starts, pc + 1, m, out, rest);
            }
        },
        _ => {
            assert(4 * (pc + distance(code, starts, pc)) == 4 * pc + 4 * distance(
                code,
                starts,
                pc,
            ));
            assert(advance(m, i, out) == Some(step(m, i, out.fs)));
            lemma_bytes_perform(bytes, code, starts, pc + 1, step(m, i, out.fs), out, rest);
        },
    }
}

/// Code that makes no calls runs whatever calls do.
proof fn lemma_performs(
    code: Seq<A64>,
    starts: Seq<usize>,
    pc: int,
    m: Machine,
    out: Outside,
    fuel: nat,
)
    requires
        execute(code, starts, pc, m, out.fs, fuel) is Some,
    ensures
        perform(code, starts, pc, m, out, fuel) == execute(code, starts, pc, m, out.fs, fuel),
    decreases fuel,
{
    let rest = (fuel - 1) as nat;
    match code[pc] {
        A64::Return => {},
        A64::CallRegister { .. } => {},
        A64::Jump { block } => {
            lemma_performs(code, starts, starts[block as int] as int, m, out, rest);
        },
        A64::JumpIf { condition, block } => {
            if condition_holds(condition, m.flags) {
                lemma_performs(code, starts, starts[block as int] as int, m, out, rest);
            } else {
                lemma_performs(code, starts, pc + 1, m, out, rest);
            }
        },
        i => {
            assert(advance(m, i, out) == Some(step(m, i, out.fs)));
            lemma_performs(code, starts, pc + 1, step(m, i, out.fs), out, rest);
        },
    }
}

// ---------------------------------------------------------------------------
// Calls

/// A call of this address gives what the operation gives on D0, or on D0 and
/// D1, in D0, and keeps what belongs to the caller.
pub open spec fn answers(out: Outside, address: u64, op: FloatOp, two: bool) -> bool {
    forall|m: Machine|
        #![trigger (out.call)(address, m)]
        whole(m) ==> {
            let e = (out.call)(address, m);
            &&& whole(e)
            &&& e.sp == m.sp
            &&& e.d[0] == (out.fs)(
                op,
                m.d[0],
                if two {
                    m.d[1]
                } else {
                    0
                },
                0,
            )
            &&& forall|a: int| #![trigger e.memory[a]] a >= m.sp ==> e.memory[a] == m.memory[a]
            &&& forall|j: int| #![trigger e.x[j]] 19 <= j < 30 ==> e.x[j] == m.x[j]
            &&& forall|j: int| #![trigger e.d[j]] 8 <= j < 16 ==> e.d[j] == m.d[j]
        }
}

/// The functions of the mathematics library are where the addresses say, each
/// at the address of its own name.
pub open spec fn library_there(out: Outside, libm: LibmAddresses) -> bool {
    &&& answers(out, libm.sin, FloatOp::Sin, false)
    &&& answers(out, libm.cos, FloatOp::Cos, false)
    &&& answers(out, libm.tan, FloatOp::Tan, false)
    &&& answers(out, libm.exp, FloatOp::Exp, false)
    &&& answers(out, libm.log, FloatOp::Log, false)
    &&& answers(out, libm.pow, FloatOp::Pow, true)
}

/// Calls go to the address of the function that they name.
pub proof fn lemma_calls_by_name(out: Outside, libm: LibmAddresses)
    requires
        library_there(out, libm),
    ensures
        calls_ok(out, libm),
{
    assert forall|func: LibFunc, m: Machine|
        #![trigger (out.call)(libm.spec_get(func), m)]
        whole(m) implies {
        let e = (out.call)(libm.spec_get(func), m);
        &&& whole(e)
        &&& e.sp == m.sp
        &&& e.d[0] == (out.fs)(
            lib_float_op(func),
            m.d[0],
            if func == LibFunc::Pow {
                m.d[1]
            } else {
                0
            },
            0,
        )
        &&& forall|a: int| #![trigger e.memory[a]] a >= m.sp ==> e.memory[a] == m.memory[a]
        &&& forall|j: int| #![trigger e.x[j]] 19 <= j < 30 ==> e.x[j] == m.x[j]
        &&& forall|j: int| #![trigger e.d[j]] 8 <= j < 16 ==> e.d[j] == m.d[j]
    } by {
        match func {
            LibFunc::Sin => {
                assert(libm.spec_get(func) == libm.sin);
            },
            LibFunc::Cos => {
                assert(libm.spec_get(func) == libm.cos);
            },
            LibFunc::Tan => {
                assert(libm.spec_get(func) == libm.tan);
            },
            LibFunc::Exp => {
                assert(libm.spec_get(func) == libm.exp);
            },
            LibFunc::Log => {
                assert(libm.spec_get(func) == libm.log);
            },
            LibFunc::Pow => {
                assert(libm.spec_get(func) == libm.pow);
            },
        }
    }
}

// ---------------------------------------------------------------------------
// Functions with a double as their result

proof fn lemma_next(f: Function, kind: Kind, b: int, k: nat, s: Layout)
    requires
        0 <= s.next,
        place_listed(f, kind, b, k, s) is Ok,
    ensures
        0 <= place_listed(f, kind, b, k, s)->Ok_0.next,
    decreases k,
{
    if k > 0 {
        lemma_next(f, kind, b, (k - 1) as nat, s);
    }
}

proof fn lemma_layout_next(f: Function, kind: Kind, n: nat)
    requires
        layout(f, kind, n) is Ok,
    ensures
        0 <= layout(f, kind, n)->Ok_0.next,
    decreases n,
{
    if n > 0 {
        let m = (n - 1) as nat;
        lemma_layout_next(f, kind, m);
        lemma_next(f, kind, n - 1, f.listed(n - 1).len(), layout(f, kind, m)->Ok_0);
    }
}

/// The plan of code that keeps its values on the stack.
proof fn lemma_plan(f: Function, kind: Kind, libm: LibmAddresses) -> (p: Plan)
    requires
        spilled_source(f, kind, libm) is Ok,
    ensures
        p.kind == kind,
        p.libm == libm,
        layout(f, kind, f.blocks@.len()) is Ok,
        p.locs == layout(f, kind, f.blocks@.len())->Ok_0.locs,
        spill_frame(kind, layout(f, kind, f.blocks@.len())->Ok_0.next) == Ok::<int, EmitError>(
            p.frame as int,
        ),
        emitted_code(f, p) == Ok::<Seq<A64>, EmitError>(spilled_source(f, kind, libm)->Ok_0.code),
        spill_starts(f, p) == spilled_source(f, kind, libm)->Ok_0.starts,
{
    lemma_layout_next(f, kind, f.blocks@.len());
    let s = layout(f, kind, f.blocks@.len())->Ok_0;
    let frame = spill_frame(kind, s.next)->Ok_0;
    assert(0 <= frame < 4096);
    Plan { kind, locs: s.locs, frame: frame as u16, libm }
}

/// What the bytes of a function with a double as its result do.
pub open spec fn bytes_return_double(
    bytes: Seq<u8>,
    m: Machine,
    out: Outside,
    x: RtValue,
) -> bool {
    exists|fuel: nat|
        #![trigger perform_bytes(bytes, 0, m, out, fuel)]
        perform_bytes(bytes, 0, m, out, fuel) is Some && returned_double(
            m,
            perform_bytes(bytes, 0, m, out, fuel).unwrap(),
            x,
        )
}

proof fn lemma_double_from_code(
    bytes: Seq<u8>,
    code: Seq<A64>,
    starts: Seq<usize>,
    m: Machine,
    out: Outside,
    x: RtValue,
    fuel: nat,
)
    requires
        spells(bytes, code, starts),
        perform(code, starts, 0, m, out, fuel) is Some,
        returned_double(m, perform(code, starts, 0, m, out, fuel).unwrap(), x),
    ensures
        bytes_return_double(bytes, m, out, x),
{
    lemma_bytes_perform(bytes, code, starts, 0, m, out, fuel);
    assert(perform_bytes(bytes, 0, m, out, fuel) is Some);
}

proof fn lemma_stacked_bytes(
    f: Function,
    libm: LibmAddresses,
    kind: Kind,
    rank: spec_fn(int) -> int,
    bytes: Seq<u8>,
    m: Machine,
    args: Seq<RtValue>,
    out: Outside,
    x: RtValue,
)
    requires
        valid(f),
        ranks(f, rank),
        f.entry.0 == 0,
        f.blocks@.len() <= u32::MAX,
        f.insts@.len() <= u32::MAX,
        branches_plainly(f),
        !(kind is Ints),
        kind == (Kind::Floats { calls: false }) ==> !has_call(f),
        spilled_source(f, kind, libm) is Ok,
        spells(
            bytes,
            spilled_source(f, kind, libm)->Ok_0.code,
            spilled_source(f, kind, libm)->Ok_0.starts,
        ),
        bytes.len() <= usize::MAX,
        calls_ok(out, libm),
        whole(m),
        args_match(f, args),
        arguments(f, args, m),
        yields(f, args, out.fs, x),
    ensures
        bytes_return_double(bytes, m, out, x),
{
    let p = lemma_plan(f, kind, libm);
    lemma_stacked_code_computes(f, rank, p, m, args, out, x);
    let code = emitted_code(f, p)->Ok_0;
    let fuel = choose|fuel: nat|
        #![trigger perform(code, spill_starts(f, p), 0, m, out, fuel)]
        {
            let e = perform(code, spill_starts(f, p), 0, m, out, fuel);
            e is Some && returned_double(m, e.unwrap(), x)
        };
    lemma_double_from_code(bytes, code, spill_starts(f, p), m, out, x, fuel);
}

proof fn lemma_registers_bytes(
    f: Function,
    rank: spec_fn(int) -> int,
    bytes: Seq<u8>,
    m: Machine,
    args: Seq<RtValue>,
    out: Outside,
    x: RtValue,
)
    requires
        valid(f),
        ranks(f, rank),
        f.entry.0 == 0,
        f.blocks@.len() <= u32::MAX,
        f.insts@.len() <= u32::MAX,
        branches_plainly(f),
        registers_source(f) is Ok,
        spells(bytes, registers_source(f)->Ok_0.code, registers_source(f)->Ok_0.starts),
        bytes.len() <= usize::MAX,
        whole(m),
        args_match(f, args),
        arguments(f, args, m),
        yields(f, args, out.fs, x),
    ensures
        bytes_return_double(bytes, m, out, x),
{
    lemma_f64_code_computes(f, rank, m, args, out.fs, x);
    let code = registers_source(f)->Ok_0.code;
    let starts = registers_source(f)->Ok_0.starts;
    let fuel = choose|fuel: nat|
        #![trigger execute(code, starts, 0, m, out.fs, fuel)]
        execute(code, starts, 0, m, out.fs, fuel) is Some && returned_double(
            m,
            execute(code, starts, 0, m, out.fs, fuel).unwrap(),
            x,
        );
    lemma_performs(code, starts, 0, m, out, fuel);
    lemma_double_from_code(bytes, code, starts, m, out, x, fuel);
}

/// The bytes that a function with a double as its result gets: run from the
/// first, with the arguments in the first registers of their banks, they
/// return what the function yields, and keep what belongs to the caller. The
/// function has no loops, and branches on comparisons of integers or of
/// doubles. Calls give what `library_there` says.
pub proof fn lemma_f64_bytes_compute(
    f: Function,
    libm: LibmAddresses,
    rank: spec_fn(int) -> int,
    bytes: Seq<u8>,
    m: Machine,
    args: Seq<RtValue>,
    out: Outside,
    x: RtValue,
)
    requires
        valid(f),
        ranks(f, rank),
        f.entry.0 == 0,
        f.blocks@.len() <= u32::MAX,
        f.insts@.len() <= u32::MAX,
        branches_plainly(f),
        f64_source(f, libm) is Ok,
        spells(bytes, f64_source(f, libm)->Ok_0.code, f64_source(f, libm)->Ok_0.starts),
        bytes.len() <= usize::MAX,
        library_there(out, libm),
        whole(m),
        args_match(f, args),
        arguments(f, args, m),
        yields(f, args, out.fs, x),
    ensures
        bytes_return_double(bytes, m, out, x),
{
    lemma_calls_by_name(out, libm);
    let many = non_params(f, f.blocks@.len()) > 24;
    if only_params(f, Ty::F64) && all_supported(f, false) && (many || has_call(f)) {
        let kind = Kind::Floats { calls: has_call(f) };
        lemma_stacked_bytes(f, libm, kind, rank, bytes, m, args, out, x);
    } else if all_supported(f, true) && many {
        lemma_stacked_bytes(f, libm, Kind::Mixed, rank, bytes, m, args, out, x);
    } else {
        lemma_registers_bytes(f, rank, bytes, m, args, out, x);
    }
}

// ---------------------------------------------------------------------------
// Functions of integers

/// Code that went well and leads on to its end.
spec fn leads_on(code: Code) -> bool {
    code is Ok ==> all_go_on(code->Ok_0)
}

proof fn lemma_chain_leads_on(a: Code, b: Code)
    requires
        leads_on(a),
        leads_on(b),
    ensures
        leads_on(chain(a, b)),
{
    if a is Ok && b is Ok {
        lemma_go_on_add(a->Ok_0, b->Ok_0);
    }
}

#[verifier::rlimit(40)]
proof fn lemma_inst_leads_on(f: Function, regs: Seq<Option<Gpr>>, v: Value)
    ensures
        leads_on(i64_inst(f, regs, v)),
{
}

proof fn lemma_values_lead_on(f: Function, a: Assignment, k: nat, acc: Code)
    requires
        leads_on(acc),
    ensures
        leads_on(register_values(f, a, true, 0, k, acc)),
    decreases k,
{
    if k > 0 {
        let j = (k - 1) as nat;
        lemma_values_lead_on(f, a, j, acc);
        lemma_inst_leads_on(f, a.regs, f.listed(0)[j as int]);
        lemma_chain_leads_on(
            register_values(f, a, true, 0, j, acc),
            i64_inst(f, a.regs, f.listed(0)[j as int]),
        );
    }
}

proof fn lemma_spill_leads_on(f: Function, locs: Seq<Option<Location>>, v: Value, acc: Code)
    requires
        leads_on(acc),
    ensures
        leads_on(int_spill(f, locs, v, acc)),
{
    assert forall|a: Code, b: Code|
        #![trigger chain(a, b)]
        leads_on(a) && leads_on(b) implies leads_on(chain(a, b)) by {
        lemma_chain_leads_on(a, b);
    }
}

proof fn lemma_spills_lead_on(f: Function, p: Plan, k: nat, acc: Code)
    requires
        p.kind == Kind::Ints,
        leads_on(acc),
    ensures
        leads_on(spill_values(f, p, 0, k, acc)),
    decreases k,
{
    if k > 0 {
        let before = spill_values(f, p, 0, (k - 1) as nat, acc);
        lemma_spills_lead_on(f, p, (k - 1) as nat, acc);
        lemma_spill_leads_on(f, p.locs, f.listed(0)[k - 1], before);
        lemma_chain_leads_on(before, Err(EmitError::MissingInstruction(f.listed(0)[k - 1])));
    }
}

/// Straight code that ends with a return runs to its end.
proof fn lemma_straight_returns(code: Seq<A64>, starts: Seq<usize>, m: Machine, fs: FloatSem)
    requires
        code.len() > 0,
        code.last() == A64::Return,
        all_go_on(code.drop_last()),
    ensures
        execute(code, starts, 0, m, fs, code.len()) == Some(after(m, code, fs)),
{
    let piece = code.drop_last();
    assert(stands_at(code, 0, piece));
    lemma_straight(code, starts, 0, piece, m, fs, 1);
    let q = after(m, piece, fs);
    assert(step(q, A64::Return, fs) == q);
    assert(execute(code, starts, piece.len() as int, q, fs, 1) == Some(q));
}

proof fn lemma_ends_straight(code: Code)
    requires
        leads_on(code),
        code is Ok,
    ensures
        code->Ok_0.push(A64::Return).drop_last() == code->Ok_0,
        all_go_on(code->Ok_0.push(A64::Return).drop_last()),
{
    assert(code->Ok_0.push(A64::Return).drop_last() =~= code->Ok_0);
}

/// The code in registers is straight.
proof fn lemma_registers_straight(f: Function, result: Value)
    requires
        f.blocks@.len() == 1,
        i64_code(f, result) is Ok,
    ensures
        i64_code(f, result)->Ok_0.len() > 0,
        all_go_on(i64_code(f, result)->Ok_0.drop_last()),
{
    let k = f.listed(0).len();
    let a = assignment(f, true, 1)->Ok_0;
    assert(leads_on(Ok(prologue(a))));
    lemma_values_lead_on(f, a, k, Ok(prologue(a)));
    let body = register_values(f, a, true, 0, k, Ok(prologue(a)));
    let moved = move_code(false, reg(0), register_of(a.regs, result)->Ok_0);
    assert(all_go_on(moved));
    assert(all_go_on(epilogue(a)));
    lemma_go_on_add(moved, epilogue(a));
    let tail: Code = Ok(moved + epilogue(a));
    lemma_chain_leads_on(body, tail);
    let end = chain(body, tail);
    assert(i64_code(f, result)->Ok_0 =~= end->Ok_0.push(A64::Return));
    lemma_ends_straight(end);
}

/// The code on the stack is straight.
proof fn lemma_spilled_straight(f: Function, result: Value, p: Plan)
    requires
        f.blocks@.len() == 1,
        f.term(0) == Some(Terminator::Return(result)),
        p.kind == Kind::Ints,
        emitted_code(f, p) is Ok,
    ensures
        emitted_code(f, p)->Ok_0.len() > 0,
        all_go_on(emitted_code(f, p)->Ok_0.drop_last()),
{
    let k = f.listed(0).len();
    let saved = spill_prologue(f, p);
    assert(spill_blocks(f, p, 0, saved) == saved);
    assert(leads_on(saved));
    lemma_spills_lead_on(f, p, k, saved);
    let body = spill_values(f, p, 0, k, saved);
    let loaded = load(body, p.locs, false, result, reg(0));
    let restored = chain(loaded, Ok(restores(p.kind)));
    let close = one(A64::CloseFrame { bytes: p.frame });
    let end = chain(restored, close);
    assert(spill_blocks(f, p, 1, saved) == chain(end, one(A64::Return)));
    assert(leads_on(end)) by {
        assert forall|a: Code, b: Code| #![trigger chain(a, b)] leads_on(a) && leads_on(b) implies leads_on(
            chain(a, b),
        ) by {
            lemma_chain_leads_on(a, b);
        }
        assert(leads_on(Ok(restores(p.kind))));
        assert(leads_on(close));
    }
    assert(emitted_code(f, p)->Ok_0 =~= end->Ok_0.push(A64::Return));
    lemma_ends_straight(end);
}

/// What the bytes of a function of integers do.
pub open spec fn bytes_return_int(bytes: Seq<u8>, m: Machine, out: Outside, x: RtValue) -> bool {
    exists|fuel: nat|
        #![trigger perform_bytes(bytes, 0, m, out, fuel)]
        perform_bytes(bytes, 0, m, out, fuel) is Some && returned_int(
            m,
            perform_bytes(bytes, 0, m, out, fuel).unwrap(),
            x,
        )
}

proof fn lemma_int_from_code(
    bytes: Seq<u8>,
    code: Seq<A64>,
    starts: Seq<usize>,
    m: Machine,
    out: Outside,
    x: RtValue,
)
    requires
        spells(bytes, code, starts),
        code.len() > 0,
        code.last() == A64::Return,
        all_go_on(code.drop_last()),
        returned_int(m, after(m, code, out.fs), x),
    ensures
        bytes_return_int(bytes, m, out, x),
{
    let fuel = code.len();
    lemma_straight_returns(code, starts, m, out.fs);
    lemma_performs(code, starts, 0, m, out, fuel);
    lemma_bytes_perform(bytes, code, starts, 0, m, out, fuel);
    assert(perform_bytes(bytes, 0, m, out, fuel) is Some);
}

/// The bytes that a function of integers gets: run from the first, with the
/// arguments in X0 and the registers behind it, they return what the function
/// yields, and keep what belongs to the caller. Where the function divides by
/// zero it yields nothing, and nothing is said.
pub proof fn lemma_i64_bytes_compute(
    f: Function,
    result: Value,
    bytes: Seq<u8>,
    m: Machine,
    args: Seq<RtValue>,
    out: Outside,
    x: RtValue,
)
    requires
        f.insts@.len() <= u32::MAX,
        f.blocks@.len() == 1,
        f.entry.0 == 0,
        f.term(0) == Some(Terminator::Return(result)),
        listed_once(f, 0),
        whole(m),
        int_arguments(args, m),
        i64_source(f, result) is Ok,
        spells(bytes, i64_source(f, result)->Ok_0.code, i64_source(f, result)->Ok_0.starts),
        yields(f, args, out.fs, x),
    ensures
        bytes_return_int(bytes, m, out, x),
{
    let source = i64_source(f, result)->Ok_0;
    if non_params(f, 1) > 21 {
        let p = lemma_plan(f, Kind::Ints, no_addresses());
        lemma_spilled_i64_code_computes(f, result, p, m, args, out.fs, x);
        lemma_spilled_straight(f, result, p);
    } else {
        lemma_i64_code_computes(f, result, m, args, out.fs, x);
        lemma_registers_straight(f, result);
    }
    lemma_int_from_code(bytes, source.code, source.starts, m, out, x);
}

} // verus!
