//! What code with its values on the stack computes.
use crate::aarch64::correct::{int_arguments, returned_int};
use crate::aarch64::emit::{chain, count_params, one, Code};
use crate::aarch64::encode::Gpr;
use crate::aarch64::encode::{lemma_reg, reg};
use crate::aarch64::error::EmitError;
use crate::aarch64::execute::{
    after, int_value, lemma_after_add, lemma_after_one, lemma_cast_back, lemma_constant_runs,
    lemma_flip, lemma_or_zero, lemma_rest, pair_op, set_d, set_x, step, unary_value, whole, Machine,
};
use crate::aarch64::flow::returned_double;
use crate::aarch64::functions::has_call;
use crate::aarch64::machine::constant;
use crate::aarch64::machine::{FloatUnaryOp, IntOp, A64};
use crate::aarch64::registers::{float_op, int_op, move_code};
use crate::aarch64::spill::{
    float_pair_spill, float_spill, float_unary_spill, fma_spill, int_spill, layout, load,
    location_of, no_places, not_spill, pair_spill, place, place_listed, rem_spill, restores,
    spill_blocks, spill_frame, spill_prologue, spill_return, spill_values, store, Layout, Plan,
};
use crate::aarch64::spill::{Kind, LibmAddresses, Location};
use crate::arith::wrap;
use crate::float::{FloatOp, FloatSem};
use crate::interp::RtValue;
use crate::interp::{
    empty_frame, eval, eval_inst, int_binary, operand_values, reads, run, run_insts, slot, yields,
    Frame,
};
use crate::ir::{Function, Op, Terminator, Ty, Value};
use vstd::prelude::*;

verus! {

// ---------------------------------------------------------------------------
// The places of integers

/// Parameters stay in the registers in which they come. Every other value has
/// a slot of its own behind the saved registers.
pub open spec fn ints_placed(f: Function, s: Layout) -> bool {
    &&& s.locs.len() == f.insts@.len()
    &&& 24 <= s.next <= u16::MAX
    &&& forall|v: int|
        #![trigger s.locs[v]]
        0 <= v < s.locs.len() ==> match s.locs[v] {
            None => true,
            Some(Location::Register(r)) => match f.inst(v).op {
                Op::Param(index, _) => index < 8 && r == reg(index as int),
                _ => false,
            },
            Some(Location::Stack(o)) => 24 <= o && o + 8 <= s.next && !(f.inst(v).op is Param),
        }
    &&& forall|u: int, v: int|
        #![trigger s.locs[u], s.locs[v]]
        0 <= u < s.locs.len() && 0 <= v < s.locs.len() && u != v ==> match (s.locs[u], s.locs[v]) {
            (Some(Location::Stack(o)), Some(Location::Stack(p))) => o + 8 <= p || p + 8 <= o,
            _ => true,
        }
}

proof fn lemma_ints_listed(f: Function, k: nat)
    requires
        f.insts@.len() <= u32::MAX,
        place_listed(f, Kind::Ints, 0, k, no_places(f, Kind::Ints)) is Ok,
    ensures
        ints_placed(f, place_listed(f, Kind::Ints, 0, k, no_places(f, Kind::Ints))->Ok_0),
        forall|j: int|
            #![trigger f.listed(0)[j]]
            0 <= j < k ==> f.listed(0)[j].0 < f.insts@.len() && place_listed(
                f,
                Kind::Ints,
                0,
                k,
                no_places(f, Kind::Ints),
            )->Ok_0.locs[f.listed(0)[j].0 as int] is Some,
    decreases k,
{
    if k > 0 {
        let l = (k - 1) as nat;
        lemma_ints_listed(f, l);
        let s = place_listed(f, Kind::Ints, 0, l, no_places(f, Kind::Ints))->Ok_0;
        let v = f.listed(0)[k - 1];
        let t = place(f, Kind::Ints, v, s)->Ok_0;
        assert forall|u: int| #![trigger t.locs[u]] 0 <= u < t.locs.len() && u != v.0 implies t.locs[u]
            == s.locs[u] by {}
        assert forall|j: int| #![trigger f.listed(0)[j]] 0 <= j < k implies f.listed(0)[j].0
            < f.insts@.len() && t.locs[f.listed(0)[j].0 as int] is Some by {
            if j < l {
                assert(s.locs[f.listed(0)[j].0 as int] is Some);
            }
        }
    }
}

// ---------------------------------------------------------------------------
// Loads and stores

/// The machine after some code.
pub open spec fn ran(m: Machine, code: Code, fs: FloatSem) -> Machine {
    after(m, code->Ok_0, fs)
}

/// Every value computed so far is an integer, and is in its place.
pub open spec fn ints_stored(locs: Seq<Option<Location>>, vals: Frame, m: Machine) -> bool {
    &&& vals.len() == locs.len()
    &&& forall|v: int|
        #![trigger vals[v]]
        0 <= v < vals.len() && vals[v] is Some ==> match locs[v] {
            None => false,
            Some(Location::Register(r)) => r.number() < 8 && vals[v] == Some(
                RtValue::I64(m.x[r.number() as int]),
            ),
            Some(Location::Stack(o)) => vals[v] == Some(
                RtValue::I64(m.memory[m.sp + o] as i64),
            ),
        }
}

/// Scratch registers hold no values.
proof fn lemma_stored_scratch(
    locs: Seq<Option<Location>>,
    vals: Frame,
    m: Machine,
    r: Gpr,
    z: i64,
)
    requires
        whole(m),
        ints_stored(locs, vals, m),
        8 <= r.number() < 31,
    ensures
        ints_stored(locs, vals, set_x(m, r, z)),
        whole(set_x(m, r, z)),
{
    let p = set_x(m, r, z);
    assert forall|v: int| #![trigger vals[v]] 0 <= v < vals.len() && vals[v] is Some implies match locs[v] {
        None => false,
        Some(Location::Register(r)) => r.number() < 8 && vals[v] == Some(
            RtValue::I64(p.x[r.number() as int]),
        ),
        Some(Location::Stack(o)) => vals[v] == Some(RtValue::I64(p.memory[p.sp + o] as i64)),
    } by {}
}

/// A load brings the value into the register.
proof fn lemma_load(
    acc: Code,
    locs: Seq<Option<Location>>,
    v: Value,
    dst: Gpr,
    vals: Frame,
    m: Machine,
    z: i64,
    fs: FloatSem,
)
    requires
        load(acc, locs, false, v, dst) is Ok,
        whole(ran(m, acc, fs)),
        ints_stored(locs, vals, ran(m, acc, fs)),
        slot(vals, v) == Some(RtValue::I64(z)),
        dst.number() < 31,
    ensures
        acc is Ok,
        ran(m, load(acc, locs, false, v, dst), fs) == set_x(ran(m, acc, fs), dst, z),
{
    let p = ran(m, acc, fs);
    assert(vals[v.0 as int] is Some);
    match location_of(locs, v) {
        Some(Location::Register(r)) => {
            let piece = move_code(false, dst, r);
            lemma_after_add(m, acc->Ok_0, piece, fs);
            if dst == r {
                assert(after(p, piece, fs) == p);
                assert(set_x(p, dst, z).x =~= p.x);
            } else {
                lemma_reg(31);
                lemma_after_one(p, A64::Int { op: IntOp::Or, dst, lhs: reg(31), rhs: r }, fs);
                lemma_or_zero(z);
            }
        },
        Some(Location::Stack(o)) => {
            let i = A64::Load { dst, slot: o };
            lemma_after_add(m, acc->Ok_0, seq![i], fs);
            lemma_after_one(p, i, fs);
        },
        None => {},
    }
}

/// One more instruction.
proof fn lemma_then(acc: Code, i: A64, m: Machine, fs: FloatSem)
    requires
        acc is Ok,
    ensures
        chain(acc, one(i)) is Ok,
        ran(m, chain(acc, one(i)), fs) == step(ran(m, acc, fs), i, fs),
{
    lemma_after_add(m, acc->Ok_0, seq![i], fs);
    lemma_after_one(ran(m, acc, fs), i, fs);
}

proof fn lemma_then_constant(acc: Code, dst: Gpr, value: u64, m: Machine, fs: FloatSem)
    requires
        acc is Ok,
        whole(ran(m, acc, fs)),
        dst.number() < 31,
    ensures
        chain(acc, Ok(constant(dst, value))) is Ok,
        ran(m, chain(acc, Ok(constant(dst, value))), fs) == set_x(
            ran(m, acc, fs),
            dst,
            value as i64,
        ),
{
    lemma_after_add(m, acc->Ok_0, constant(dst, value), fs);
    lemma_constant_runs(ran(m, acc, fs), dst, value, fs);
}

// ---------------------------------------------------------------------------
// Values

/// Nothing changed but the scratch registers X28..X30.
pub open spec fn only_scratch(p: Machine, q: Machine) -> bool {
    &&& whole(q)
    &&& q == (Machine { x: q.x, ..p })
    &&& forall|j: int| #![trigger q.x[j]] 0 <= j < 32 && !(28 <= j <= 30) ==> q.x[j] == p.x[j]
}

/// The code that computes a value in X28, before it is stored.
#[verifier::rlimit(60)]
proof fn lemma_int_computed(
    f: Function,
    locs: Seq<Option<Location>>,
    v: Value,
    acc: Code,
    computed: Code,
    vals: Frame,
    m: Machine,
    args: Seq<RtValue>,
    fs: FloatSem,
) -> (z: i64)
    requires
        v.0 < f.insts@.len(),
        !(f.inst(v.0 as int).op is Param),
        computed is Ok,
        ({
            let im = f.inst(v.0 as int);
            let a = im.args[0];
            let b = im.args[1];
            computed == match im.op {
                Op::ConstI64(n) => chain(acc, Ok(constant(reg(28), n as u64))),
                Op::Rem => rem_spill(acc, locs, a, b),
                Op::Neg => chain(
                    load(acc, locs, false, a, reg(28)),
                    one(A64::Int { op: IntOp::Sub, dst: reg(28), lhs: reg(31), rhs: reg(28) }),
                ),
                Op::Not => not_spill(acc, locs, a),
                op => match int_op(op) {
                    Some(i) => pair_spill(acc, locs, i, a, b),
                    None => Err(EmitError::I64Unsupported(v)),
                },
            }
        }),
        whole(ran(m, acc, fs)),
        ints_stored(locs, vals, ran(m, acc, fs)),
        eval_inst(f.inst(v.0 as int), vals, None, args, fs) is Some,
    ensures
        acc is Ok,
        eval_inst(f.inst(v.0 as int), vals, None, args, fs) == Some(RtValue::I64(z)),
        only_scratch(ran(m, acc, fs), ran(m, computed, fs)),
        ran(m, computed, fs).x[28] == z,
{
    let im = f.inst(v.0 as int);
    let p = ran(m, acc, fs);
    let a = im.args[0];
    let b = im.args[1];
    let vs = operand_values(im, vals);
    lemma_reg(28);
    lemma_reg(29);
    lemma_reg(30);
    lemma_reg(31);
    assert forall|j: int| #![trigger im.args[j]] 0 <= j < reads(im.op) implies vs[j] is I64 && slot(
        vals,
        im.args[j],
    ) == Some(vs[j]) by {
        assert(slot(vals, im.args[j]) is Some);
        assert(vals[im.args[j].0 as int] is Some);
    }
    match im.op {
        Op::ConstI64(n) => {
            lemma_then_constant(acc, reg(28), n as u64, m, fs);
            lemma_cast_back(n);
            n
        },
        Op::Neg => {
            let x = vs[0]->I64_0;
            let first = load(acc, locs, false, a, reg(28));
            lemma_load(acc, locs, a, reg(28), vals, m, x, fs);
            let i = A64::Int { op: IntOp::Sub, dst: reg(28), lhs: reg(31), rhs: reg(28) };
            lemma_then(first, i, m, fs);
            wrap(-x)
        },
        Op::Not => {
            let x = vs[0]->I64_0;
            let first = load(acc, locs, false, a, reg(28));
            lemma_load(acc, locs, a, reg(28), vals, m, x, fs);
            let second = chain(first, Ok(constant(reg(29), u64::MAX)));
            lemma_then_constant(first, reg(29), u64::MAX, m, fs);
            let i = A64::Int { op: IntOp::Xor, dst: reg(28), lhs: reg(29), rhs: reg(28) };
            lemma_then(second, i, m, fs);
            lemma_flip(x);
            !x
        },
        Op::Rem => {
            let x = vs[0]->I64_0;
            let y = vs[1]->I64_0;
            let first = load(acc, locs, false, a, reg(28));
            let second = load(first, locs, false, b, reg(29));
            lemma_load(acc, locs, a, reg(28), vals, m, x, fs);
            lemma_stored_scratch(locs, vals, p, reg(28), x);
            lemma_load(first, locs, b, reg(29), vals, m, y, fs);
            let i = A64::Int { op: IntOp::Div, dst: reg(30), lhs: reg(28), rhs: reg(29) };
            lemma_then(second, i, m, fs);
            let third = chain(second, one(i));
            let l = A64::MulSub { dst: reg(28), lhs: reg(30), rhs: reg(29), minuend: reg(28) };
            lemma_then(third, l, m, fs);
            lemma_rest(x, y);
            int_binary(Op::Rem, x, y).unwrap()
        },
        op => {
            let x = vs[0]->I64_0;
            let y = vs[1]->I64_0;
            let i = int_op(op).unwrap();
            assert(reads(op) == 2);
            let first = load(acc, locs, false, a, reg(28));
            let second = load(first, locs, false, b, reg(29));
            lemma_load(acc, locs, a, reg(28), vals, m, x, fs);
            lemma_stored_scratch(locs, vals, p, reg(28), x);
            lemma_load(first, locs, b, reg(29), vals, m, y, fs);
            let l = A64::Int { op: i, dst: reg(28), lhs: reg(28), rhs: reg(29) };
            lemma_then(second, l, m, fs);
            let z = int_value(i, x, y);
            assert(eval(op, vs, args, fs) == Some(RtValue::I64(z)));
            z
        },
    }
}

/// The registers and slots that belong to the caller are as the prologue left
/// them.
pub open spec fn callers_kept(p: Machine, q: Machine) -> bool {
    &&& whole(q)
    &&& q.d == p.d
    &&& q.sp == p.sp
    &&& q.memory[q.sp] == p.memory[p.sp]
    &&& q.memory[q.sp + 8] == p.memory[p.sp + 8]
    &&& q.memory[q.sp + 16] == p.memory[p.sp + 16]
    &&& forall|j: int| #![trigger q.x[j]] 0 <= j < 32 && !(28 <= j <= 30) ==> q.x[j] == p.x[j]
}

/// The code of a value leaves it in its place.
#[verifier::rlimit(60)]
proof fn lemma_int_spill(
    f: Function,
    s: Layout,
    v: Value,
    acc: Code,
    vals: Frame,
    m: Machine,
    args: Seq<RtValue>,
    fs: FloatSem,
) -> (z: i64)
    requires
        ints_placed(f, s),
        v.0 < f.insts@.len(),
        s.locs[v.0 as int] is Some,
        int_spill(f, s.locs, v, acc) is Ok,
        whole(ran(m, acc, fs)),
        ints_stored(s.locs, vals, ran(m, acc, fs)),
        int_arguments(args, ran(m, acc, fs)),
        eval_inst(f.inst(v.0 as int), vals, None, args, fs) is Some,
    ensures
        acc is Ok,
        eval_inst(f.inst(v.0 as int), vals, None, args, fs) == Some(RtValue::I64(z)),
        callers_kept(ran(m, acc, fs), ran(m, int_spill(f, s.locs, v, acc), fs)),
        ints_stored(
            s.locs,
            vals.update(v.0 as int, Some(RtValue::I64(z))),
            ran(m, int_spill(f, s.locs, v, acc), fs),
        ),
{
    let im = f.inst(v.0 as int);
    let p = ran(m, acc, fs);
    let a = im.args[0];
    let b = im.args[1];
    if let Op::Param(index, _) = im.op {
        lemma_reg(index as int);
        let z = p.x[index as int];
        assert(args[index as int] == RtValue::I64(z));
        let w = vals.update(v.0 as int, Some(RtValue::I64(z)));
        assert forall|u: int| #![trigger w[u]] 0 <= u < w.len() && w[u] is Some implies match s.locs[u] {
            None => false,
            Some(Location::Register(r)) => r.number() < 8 && w[u] == Some(
                RtValue::I64(p.x[r.number() as int]),
            ),
            Some(Location::Stack(o)) => w[u] == Some(RtValue::I64(p.memory[p.sp + o] as i64)),
        } by {
            if u != v.0 {
                assert(vals[u] is Some);
            }
        }
        z
    } else {
        let computed = match im.op {
            Op::ConstI64(n) => chain(acc, Ok(constant(reg(28), n as u64))),
            Op::Rem => rem_spill(acc, s.locs, a, b),
            Op::Neg => chain(
                load(acc, s.locs, false, a, reg(28)),
                one(A64::Int { op: IntOp::Sub, dst: reg(28), lhs: reg(31), rhs: reg(28) }),
            ),
            Op::Not => not_spill(acc, s.locs, a),
            op => match int_op(op) {
                Some(i) => pair_spill(acc, s.locs, i, a, b),
                None => Err(EmitError::I64Unsupported(v)),
            },
        };
        assert(int_spill(f, s.locs, v, acc) == store(
            computed,
            s.locs,
            false,
            false,
            v,
            reg(28),
        ) || computed is Err);
        assert(computed is Ok);
        let z = lemma_int_computed(f, s.locs, v, acc, computed, vals, m, args, fs);
        let q = ran(m, computed, fs);
        let o = s.locs[v.0 as int].unwrap()->Stack_0;
        assert(location_of(s.locs, v) == Some(Location::Stack(o)));
        lemma_reg(28);
        let i = A64::Store { src: reg(28), slot: o };
        lemma_then(computed, i, m, fs);
        let e = ran(m, int_spill(f, s.locs, v, acc), fs);
        assert(e == step(q, i, fs));
        lemma_cast_back(z);
        let w = vals.update(v.0 as int, Some(RtValue::I64(z)));
        assert forall|u: int| #![trigger w[u]] 0 <= u < w.len() && w[u] is Some implies match s.locs[u] {
            None => false,
            Some(Location::Register(r)) => r.number() < 8 && w[u] == Some(
                RtValue::I64(e.x[r.number() as int]),
            ),
            Some(Location::Stack(o)) => w[u] == Some(RtValue::I64(e.memory[e.sp + o] as i64)),
        } by {
            if u != v.0 {
                assert(vals[u] is Some);
                assert(s.locs[u] is Some && s.locs[v.0 as int] is Some);
            }
        }
        z
    }
}

/// The code of the first `k` values leaves them in their places.
#[verifier::rlimit(40)]
proof fn lemma_int_spills(
    f: Function,
    s: Layout,
    p: Plan,
    k: nat,
    acc: Code,
    m: Machine,
    args: Seq<RtValue>,
    fs: FloatSem,
)
    requires
        p.kind == Kind::Ints,
        p.locs == s.locs,
        ints_placed(f, s),
        forall|j: int|
            #![trigger f.listed(0)[j]]
            0 <= j < f.listed(0).len() ==> f.listed(0)[j].0 < f.insts@.len()
                && s.locs[f.listed(0)[j].0 as int] is Some,
        k <= f.listed(0).len(),
        acc is Ok,
        whole(ran(m, acc, fs)),
        int_arguments(args, ran(m, acc, fs)),
        spill_values(f, p, 0, k, acc) is Ok,
        run_insts(f, 0, k as int, empty_frame(f.insts@.len()), None, args, fs) is Some,
    ensures
        ({
            let w = run_insts(f, 0, k as int, empty_frame(f.insts@.len()), None, args, fs).unwrap();
            let q = ran(m, spill_values(f, p, 0, k, acc), fs);
            &&& callers_kept(ran(m, acc, fs), q)
            &&& ints_stored(s.locs, w, q)
        }),
    decreases k,
{
    let start = empty_frame(f.insts@.len());
    if k > 0 {
        let l = (k - 1) as nat;
        let v = f.listed(0)[l as int];
        let before = spill_values(f, p, 0, l, acc);
        if before is Err {
            lemma_int_error(f, s.locs, v, before);
        }
        lemma_int_spills(f, s, p, l, acc, m, args, fs);
        let w = run_insts(f, 0, l as int, start, None, args, fs).unwrap();
        let q = ran(m, before, fs);
        let r = ran(m, acc, fs);
        assert forall|i: int| #![trigger args[i]] 0 <= i < args.len() && i < 8 implies args[i]
            == RtValue::I64(q.x[i]) by {
            assert(q.x[i] == r.x[i]);
        }
        let z = lemma_int_spill(f, s, v, before, w, m, args, fs);
    }
}

/// An error stays.
proof fn lemma_int_error(f: Function, locs: Seq<Option<Location>>, v: Value, acc: Code)
    requires
        acc is Err,
    ensures
        int_spill(f, locs, v, acc) is Err,
{
}

// ---------------------------------------------------------------------------
// Functions of integers

/// The code of a function of integers that keeps its values on the stack:
/// called with the arguments in X0 and the registers behind it, it returns
/// what the function yields, and keeps what belongs to the caller. Where the
/// function divides by zero it yields nothing, and nothing is said.
#[verifier::rlimit(60)]
pub proof fn lemma_spilled_i64_code_computes(
    f: Function,
    result: Value,
    p: Plan,
    m: Machine,
    args: Seq<RtValue>,
    fs: FloatSem,
    x: RtValue,
)
    requires
        f.insts@.len() <= u32::MAX,
        f.blocks@.len() == 1,
        f.entry.0 == 0,
        f.term(0) == Some(Terminator::Return(result)),
        whole(m),
        int_arguments(args, m),
        p.kind == Kind::Ints,
        layout(f, Kind::Ints, 1) is Ok,
        p.locs == layout(f, Kind::Ints, 1)->Ok_0.locs,
        spill_frame(Kind::Ints, layout(f, Kind::Ints, 1)->Ok_0.next) == Ok::<int, EmitError>(
            p.frame as int,
        ),
        spill_blocks(f, p, 1, spill_prologue(f, p)) is Ok,
        yields(f, args, fs, x),
    ensures
        ({
            let code = spill_blocks(f, p, 1, spill_prologue(f, p))->Ok_0;
            &&& code.last() == A64::Return
            &&& returned_int(m, after(m, code, fs), x)
        }),
{
    let start = empty_frame(f.insts@.len());
    let n = choose|n: nat| #[trigger] run(f, 0, None, start, args, fs, n) == Some(x);
    assert(run(f, 0, None, start, args, fs, n) == Some(x));
    let k = f.listed(0).len();
    let w = run_insts(f, 0, k as int, start, None, args, fs).unwrap();
    assert(layout(f, Kind::Ints, 0) == Ok::<Layout, EmitError>(no_places(f, Kind::Ints)));
    let s = layout(f, Kind::Ints, 1)->Ok_0;
    lemma_ints_listed(f, k);
    lemma_reg(0);
    lemma_reg(28);
    lemma_reg(29);
    lemma_reg(30);
    // The prologue.
    let opened: Code = one(A64::OpenFrame { bytes: p.frame });
    lemma_after_one(m, A64::OpenFrame { bytes: p.frame }, fs);
    let s28 = A64::Store { src: reg(28), slot: 0 };
    let s29 = A64::Store { src: reg(29), slot: 8 };
    let s30 = A64::Store { src: reg(30), slot: 16 };
    lemma_then(opened, s28, m, fs);
    let o1 = chain(opened, one(s28));
    lemma_then(o1, s29, m, fs);
    let o2 = chain(o1, one(s29));
    lemma_then(o2, s30, m, fs);
    let saved = spill_prologue(f, p);
    assert(saved->Ok_0 =~= chain(o2, one(s30))->Ok_0);
    let e = ran(m, saved, fs);
    assert(e.x == m.x && e.d == m.d && e.sp == m.sp - p.frame);
    assert(e.memory[e.sp] == m.x[28] as u64);
    assert(e.memory[e.sp + 8] == m.x[29] as u64);
    assert(e.memory[e.sp + 16] == m.x[30] as u64);
    // The values.
    assert(spill_blocks(f, p, 0, saved) == saved);
    let body = spill_values(f, p, 0, k, saved);
    assert(spill_blocks(f, p, 1, saved) == spill_return(f, p, result, body));
    assert(body is Ok);
    lemma_int_spills(f, s, p, k, saved, m, args, fs);
    let q = ran(m, body, fs);
    // The way out.
    assert(slot(w, result) == Some(x));
    assert(w[result.0 as int] is Some);
    let z = x->I64_0;
    let loaded = load(body, p.locs, false, result, reg(0));
    lemma_load(body, p.locs, result, reg(0), w, m, z, fs);
    let l30 = A64::Load { dst: reg(30), slot: 16 };
    let l29 = A64::Load { dst: reg(29), slot: 8 };
    let l28 = A64::Load { dst: reg(28), slot: 0 };
    let close = A64::CloseFrame { bytes: p.frame };
    lemma_then(loaded, l30, m, fs);
    let r1 = chain(loaded, one(l30));
    lemma_then(r1, l29, m, fs);
    let r2 = chain(r1, one(l29));
    lemma_then(r2, l28, m, fs);
    let r3 = chain(r2, one(l28));
    assert(r3->Ok_0 =~= chain(loaded, Ok(restores(Kind::Ints)))->Ok_0);
    lemma_then(r3, close, m, fs);
    let r4 = chain(r3, one(close));
    lemma_then(r4, A64::Return, m, fs);
    let code = spill_blocks(f, p, 1, saved)->Ok_0;
    assert(code == chain(r4, one(A64::Return))->Ok_0);
    let end = after(m, code, fs);
    let x28 = m.x[28];
    let x29 = m.x[29];
    let x30 = m.x[30];
    lemma_cast_back(x28);
    lemma_cast_back(x29);
    lemma_cast_back(x30);
    assert(end.x[28] == x28);
    assert(end.x[29] == x29);
    assert(end.x[30] == x30);
    assert forall|j: int| #![trigger end.x[j]] 19 <= j < 31 implies end.x[j] == m.x[j] by {
        if j < 28 {
            assert(q.x[j] == e.x[j]);
        }
    }
}

// ---------------------------------------------------------------------------
// The places of doubles

/// Parameters stay in the registers in which they come, comparisons have no
/// place, and every other value has a slot of its own.
pub open spec fn doubles_placed(f: Function, s: Layout) -> bool {
    &&& s.locs.len() == f.insts@.len()
    &&& 0 <= s.next <= u16::MAX
    &&& forall|v: int|
        #![trigger s.locs[v]]
        0 <= v < s.locs.len() ==> match s.locs[v] {
            None => true,
            Some(Location::Register(r)) => match f.inst(v).op {
                Op::Param(index, _) => {
                    let n = count_params(f, Ty::F64, index as nat) as int;
                    index < f.params@.len() && n < 8 && r == reg(n)
                },
                _ => false,
            },
            Some(Location::Stack(o)) => o + 8 <= s.next && !(f.inst(v).op is Param) && !(f.inst(
                v,
            ).op is Compare),
        }
    &&& forall|u: int, v: int|
        #![trigger s.locs[u], s.locs[v]]
        0 <= u < s.locs.len() && 0 <= v < s.locs.len() && u != v ==> match (s.locs[u], s.locs[v]) {
            (Some(Location::Stack(o)), Some(Location::Stack(p))) => o + 8 <= p || p + 8 <= o,
            _ => true,
        }
}

proof fn lemma_doubles_listed(f: Function, k: nat)
    requires
        f.insts@.len() <= u32::MAX,
        place_listed(f, Kind::Floats { calls: false }, 0, k, no_places(f, Kind::Floats { calls: false })) is Ok,
    ensures
        ({
            let kind = Kind::Floats { calls: false };
            let s = place_listed(f, kind, 0, k, no_places(f, kind))->Ok_0;
            &&& doubles_placed(f, s)
            &&& forall|j: int|
                #![trigger f.listed(0)[j]]
                0 <= j < k ==> f.listed(0)[j].0 < f.insts@.len() && (s.locs[f.listed(
                    0,
                )[j].0 as int] is Some || f.inst(f.listed(0)[j].0 as int).op is Compare)
        }),
    decreases k,
{
    let kind = Kind::Floats { calls: false };
    if k > 0 {
        let l = (k - 1) as nat;
        lemma_doubles_listed(f, l);
        let s = place_listed(f, kind, 0, l, no_places(f, kind))->Ok_0;
        let v = f.listed(0)[k - 1];
        let t = place(f, kind, v, s)->Ok_0;
        assert forall|u: int| #![trigger t.locs[u]] 0 <= u < t.locs.len() && u != v.0 implies t.locs[u]
            == s.locs[u] by {}
        assert forall|j: int| #![trigger f.listed(0)[j]] 0 <= j < k implies f.listed(0)[j].0
            < f.insts@.len() && (t.locs[f.listed(0)[j].0 as int] is Some || f.inst(
            f.listed(0)[j].0 as int,
        ).op is Compare) by {
            if j < l {
                assert(s.locs[f.listed(0)[j].0 as int] is Some || f.inst(
                    f.listed(0)[j].0 as int,
                ).op is Compare);
            }
        }
    }
}

/// Every value computed so far is a comparison, or a double in its place.
pub open spec fn doubles_stored(
    f: Function,
    locs: Seq<Option<Location>>,
    vals: Frame,
    m: Machine,
) -> bool {
    &&& vals.len() == locs.len()
    &&& forall|v: int|
        #![trigger vals[v]]
        0 <= v < vals.len() && vals[v] is Some ==> if f.inst(v).op is Compare {
            vals[v].unwrap() is Bool
        } else {
            match locs[v] {
                None => false,
                Some(Location::Register(r)) => r.number() < 8 && vals[v] == Some(
                    RtValue::F64(m.d[r.number() as int]),
                ),
                Some(Location::Stack(o)) => vals[v] == Some(RtValue::F64(m.memory[m.sp + o])),
            }
        }
}

proof fn lemma_stored_scratch_double(
    f: Function,
    locs: Seq<Option<Location>>,
    vals: Frame,
    m: Machine,
    r: Gpr,
    z: u64,
)
    requires
        whole(m),
        doubles_stored(f, locs, vals, m),
        8 <= r.number() < 32,
    ensures
        doubles_stored(f, locs, vals, set_d(m, r, z)),
        whole(set_d(m, r, z)),
{
    let p = set_d(m, r, z);
    assert forall|v: int| #![trigger vals[v]] 0 <= v < vals.len() && vals[v] is Some implies if f.inst(
        v,
    ).op is Compare {
        vals[v].unwrap() is Bool
    } else {
        match locs[v] {
            None => false,
            Some(Location::Register(r)) => r.number() < 8 && vals[v] == Some(
                RtValue::F64(p.d[r.number() as int]),
            ),
            Some(Location::Stack(o)) => vals[v] == Some(RtValue::F64(p.memory[p.sp + o])),
        }
    } by {}
}

/// A load brings the double into the register.
proof fn lemma_load_double(
    f: Function,
    acc: Code,
    locs: Seq<Option<Location>>,
    v: Value,
    dst: Gpr,
    vals: Frame,
    m: Machine,
    z: u64,
    fs: FloatSem,
)
    requires
        load(acc, locs, true, v, dst) is Ok,
        whole(ran(m, acc, fs)),
        doubles_stored(f, locs, vals, ran(m, acc, fs)),
        slot(vals, v) == Some(RtValue::F64(z)),
        dst.number() < 32,
    ensures
        acc is Ok,
        ran(m, load(acc, locs, true, v, dst), fs) == set_d(ran(m, acc, fs), dst, z),
{
    let p = ran(m, acc, fs);
    assert(vals[v.0 as int] is Some);
    match location_of(locs, v) {
        Some(Location::Register(r)) => {
            let piece = move_code(true, dst, r);
            lemma_after_add(m, acc->Ok_0, piece, fs);
            if dst == r {
                assert(after(p, piece, fs) == p);
                assert(set_d(p, dst, z).d =~= p.d);
            } else {
                lemma_after_one(p, A64::Unary { unary: FloatUnaryOp::Move, dst, src: r }, fs);
            }
        },
        Some(Location::Stack(o)) => {
            let i = A64::LoadFloat { dst, slot: o };
            lemma_after_add(m, acc->Ok_0, seq![i], fs);
            lemma_after_one(p, i, fs);
        },
        None => {},
    }
}

/// Nothing changed but the scratch registers D29..D31.
pub open spec fn only_scratch_doubles(p: Machine, q: Machine) -> bool {
    &&& whole(q)
    &&& q == (Machine { d: q.d, ..p })
    &&& forall|j: int| #![trigger q.d[j]] 0 <= j < 29 ==> q.d[j] == p.d[j]
}

/// The code that computes a double in D29, before it is stored.
pub open spec fn double_computed(
    f: Function,
    locs: Seq<Option<Location>>,
    v: Value,
    acc: Code,
) -> Code {
    let im = f.inst(v.0 as int);
    let a = im.args[0];
    let b = im.args[1];
    match im.op {
        Op::ConstF64(bits) => chain(acc, one(A64::Literal { dst: reg(29), bits })),
        Op::Neg => float_unary_spill(acc, locs, FloatUnaryOp::Neg, a),
        Op::Abs => float_unary_spill(acc, locs, FloatUnaryOp::Abs, a),
        Op::Sqrt => float_unary_spill(acc, locs, FloatUnaryOp::Sqrt, a),
        Op::Fma => fma_spill(acc, locs, a, b, im.args[2]),
        op => match float_op(op) {
            Some(pair) => float_pair_spill(acc, locs, pair, a, b),
            None => Err(EmitError::SpillUnsupported(v)),
        },
    }
}

#[verifier::rlimit(60)]
proof fn lemma_double_computed(
    f: Function,
    locs: Seq<Option<Location>>,
    v: Value,
    acc: Code,
    vals: Frame,
    m: Machine,
    args: Seq<RtValue>,
    fs: FloatSem,
) -> (z: u64)
    requires
        v.0 < f.insts@.len(),
        !(f.inst(v.0 as int).op is Param),
        double_computed(f, locs, v, acc) is Ok,
        whole(ran(m, acc, fs)),
        doubles_stored(f, locs, vals, ran(m, acc, fs)),
        eval_inst(f.inst(v.0 as int), vals, None, args, fs) is Some,
    ensures
        acc is Ok,
        eval_inst(f.inst(v.0 as int), vals, None, args, fs) == Some(RtValue::F64(z)),
        only_scratch_doubles(ran(m, acc, fs), ran(m, double_computed(f, locs, v, acc), fs)),
        ran(m, double_computed(f, locs, v, acc), fs).d[29] == z,
{
    let im = f.inst(v.0 as int);
    let p = ran(m, acc, fs);
    let a = im.args[0];
    let b = im.args[1];
    let vs = operand_values(im, vals);
    lemma_reg(29);
    lemma_reg(30);
    lemma_reg(31);
    assert forall|j: int| #![trigger im.args[j]] 0 <= j < reads(im.op) implies (vs[j] is F64
        || vs[j] is Bool) && slot(vals, im.args[j]) == Some(vs[j]) by {
        assert(slot(vals, im.args[j]) is Some);
        assert(vals[im.args[j].0 as int] is Some);
    }
    match im.op {
        Op::ConstF64(bits) => {
            lemma_then(acc, A64::Literal { dst: reg(29), bits }, m, fs);
            bits
        },
        Op::Neg | Op::Abs | Op::Sqrt => {
            let unary = match im.op {
                Op::Neg => FloatUnaryOp::Neg,
                Op::Abs => FloatUnaryOp::Abs,
                _ => FloatUnaryOp::Sqrt,
            };
            let x = vs[0]->F64_0;
            assert(slot(vals, a) == Some(vs[0]));
            let first = load(acc, locs, true, a, reg(29));
            lemma_load_double(f, acc, locs, a, reg(29), vals, m, x, fs);
            lemma_then(first, A64::Unary { unary, dst: reg(29), src: reg(29) }, m, fs);
            unary_value(unary, x, fs)
        },
        Op::Fma => {
            let c = im.args[2];
            let x = vs[0]->F64_0;
            let y = vs[1]->F64_0;
            let w = vs[2]->F64_0;
            assert(slot(vals, a) == Some(vs[0]) && slot(vals, b) == Some(vs[1]) && slot(vals, c)
                == Some(vs[2]));
            let first = load(acc, locs, true, a, reg(29));
            let second = load(first, locs, true, b, reg(30));
            let third = load(second, locs, true, c, reg(31));
            lemma_load_double(f, acc, locs, a, reg(29), vals, m, x, fs);
            lemma_stored_scratch_double(f, locs, vals, p, reg(29), x);
            lemma_load_double(f, first, locs, b, reg(30), vals, m, y, fs);
            lemma_stored_scratch_double(f, locs, vals, ran(m, first, fs), reg(30), y);
            lemma_load_double(f, second, locs, c, reg(31), vals, m, w, fs);
            let i = A64::FusedMulAdd {
                dst: reg(29),
                lhs: reg(29),
                rhs: reg(30),
                addend: reg(31),
            };
            lemma_then(third, i, m, fs);
            fs(FloatOp::Fma, x, y, w)
        },
        op => {
            let pair = float_op(op).unwrap();
            assert(reads(op) == 2);
            let x = vs[0]->F64_0;
            let y = vs[1]->F64_0;
            assert(slot(vals, a) == Some(vs[0]) && slot(vals, b) == Some(vs[1]));
            assert(vs[0] is F64 && vs[1] is F64);
            let first = load(acc, locs, true, a, reg(29));
            let second = load(first, locs, true, b, reg(30));
            lemma_load_double(f, acc, locs, a, reg(29), vals, m, x, fs);
            lemma_stored_scratch_double(f, locs, vals, p, reg(29), x);
            lemma_load_double(f, first, locs, b, reg(30), vals, m, y, fs);
            lemma_then(second, A64::Float { pair, dst: reg(29), lhs: reg(29), rhs: reg(30) }, m, fs);
            fs(pair_op(pair), x, y, 0)
        },
    }
}

/// What belongs to the caller is as it was.
pub open spec fn callers_kept_doubles(p: Machine, q: Machine) -> bool {
    &&& whole(q)
    &&& q.x == p.x
    &&& q.sp == p.sp
    &&& forall|j: int| #![trigger q.d[j]] 0 <= j < 29 ==> q.d[j] == p.d[j]
}

/// The arguments are doubles in the first registers of their bank.
pub open spec fn double_arguments(f: Function, args: Seq<RtValue>, m: Machine) -> bool {
    forall|i: int|
        #![trigger args[i]]
        0 <= i < args.len() ==> {
            let n = count_params(f, Ty::F64, i as nat) as int;
            n < 8 ==> args[i] == RtValue::F64(m.d[n])
        }
}

/// The code of a value leaves it in its place.
#[verifier::rlimit(60)]
proof fn lemma_double_spill(
    f: Function,
    s: Layout,
    libm: LibmAddresses,
    v: Value,
    acc: Code,
    vals: Frame,
    m: Machine,
    args: Seq<RtValue>,
    fs: FloatSem,
) -> (x: RtValue)
    requires
        doubles_placed(f, s),
        v.0 < f.insts@.len(),
        s.locs[v.0 as int] is Some || f.inst(v.0 as int).op is Compare,
        !(f.inst(v.0 as int).op is Call),
        float_spill(f, s.locs, libm, v, acc) is Ok,
        whole(ran(m, acc, fs)),
        doubles_stored(f, s.locs, vals, ran(m, acc, fs)),
        double_arguments(f, args, ran(m, acc, fs)),
        eval_inst(f.inst(v.0 as int), vals, None, args, fs) is Some,
    ensures
        acc is Ok,
        eval_inst(f.inst(v.0 as int), vals, None, args, fs) == Some(x),
        callers_kept_doubles(ran(m, acc, fs), ran(m, float_spill(f, s.locs, libm, v, acc), fs)),
        doubles_stored(
            f,
            s.locs,
            vals.update(v.0 as int, Some(x)),
            ran(m, float_spill(f, s.locs, libm, v, acc), fs),
        ),
{
    let im = f.inst(v.0 as int);
    let p = ran(m, acc, fs);
    let x = eval_inst(im, vals, None, args, fs).unwrap();
    let w = vals.update(v.0 as int, Some(x));
    if im.op is Param || im.op is Compare {
        if let Op::Param(index, _) = im.op {
            let n = count_params(f, Ty::F64, index as nat) as int;
            lemma_reg(n);
            assert(args[index as int] == RtValue::F64(p.d[n]));
        }
        assert forall|u: int| #![trigger w[u]] 0 <= u < w.len() && w[u] is Some implies if f.inst(
            u,
        ).op is Compare {
            w[u].unwrap() is Bool
        } else {
            match s.locs[u] {
                None => false,
                Some(Location::Register(r)) => r.number() < 8 && w[u] == Some(
                    RtValue::F64(p.d[r.number() as int]),
                ),
                Some(Location::Stack(o)) => w[u] == Some(RtValue::F64(p.memory[p.sp + o])),
            }
        } by {
            if u != v.0 {
                assert(vals[u] is Some);
            }
        }
    } else {
        let made = double_computed(f, s.locs, v, acc);
        assert(float_spill(f, s.locs, libm, v, acc) == store(
            made,
            s.locs,
            true,
            false,
            v,
            reg(29),
        ) || made is Err);
        assert(made is Ok);
        let z = lemma_double_computed(f, s.locs, v, acc, vals, m, args, fs);
        let q = ran(m, made, fs);
        let o = s.locs[v.0 as int].unwrap()->Stack_0;
        assert(location_of(s.locs, v) == Some(Location::Stack(o)));
        lemma_reg(29);
        let i = A64::StoreFloat { src: reg(29), slot: o };
        lemma_then(made, i, m, fs);
        let e = ran(m, float_spill(f, s.locs, libm, v, acc), fs);
        assert(e == step(q, i, fs));
        assert forall|u: int| #![trigger w[u]] 0 <= u < w.len() && w[u] is Some implies if f.inst(
            u,
        ).op is Compare {
            w[u].unwrap() is Bool
        } else {
            match s.locs[u] {
                None => false,
                Some(Location::Register(r)) => r.number() < 8 && w[u] == Some(
                    RtValue::F64(e.d[r.number() as int]),
                ),
                Some(Location::Stack(o)) => w[u] == Some(RtValue::F64(e.memory[e.sp + o])),
            }
        } by {
            if u != v.0 {
                assert(vals[u] is Some);
                if !(f.inst(u).op is Compare) {
                    assert(s.locs[u] is Some && s.locs[v.0 as int] is Some);
                }
            }
        }
    }
    x
}

/// The code of the first `k` values leaves them in their places.
#[verifier::rlimit(40)]
proof fn lemma_double_spills(
    f: Function,
    s: Layout,
    p: Plan,
    k: nat,
    acc: Code,
    m: Machine,
    args: Seq<RtValue>,
    fs: FloatSem,
)
    requires
        p.kind == (Kind::Floats { calls: false }),
        p.locs == s.locs,
        doubles_placed(f, s),
        !has_call(f),
        forall|j: int|
            #![trigger f.listed(0)[j]]
            0 <= j < f.listed(0).len() ==> f.listed(0)[j].0 < f.insts@.len() && (s.locs[f.listed(
                0,
            )[j].0 as int] is Some || f.inst(f.listed(0)[j].0 as int).op is Compare),
        k <= f.listed(0).len(),
        acc is Ok,
        whole(ran(m, acc, fs)),
        double_arguments(f, args, ran(m, acc, fs)),
        spill_values(f, p, 0, k, acc) is Ok,
        run_insts(f, 0, k as int, empty_frame(f.insts@.len()), None, args, fs) is Some,
    ensures
        ({
            let w = run_insts(f, 0, k as int, empty_frame(f.insts@.len()), None, args, fs).unwrap();
            let q = ran(m, spill_values(f, p, 0, k, acc), fs);
            &&& callers_kept_doubles(ran(m, acc, fs), q)
            &&& doubles_stored(f, s.locs, w, q)
        }),
    decreases k,
{
    let start = empty_frame(f.insts@.len());
    if k > 0 {
        let l = (k - 1) as nat;
        let v = f.listed(0)[l as int];
        let before = spill_values(f, p, 0, l, acc);
        assert(before is Ok);
        lemma_double_spills(f, s, p, l, acc, m, args, fs);
        let w = run_insts(f, 0, l as int, start, None, args, fs).unwrap();
        let q = ran(m, before, fs);
        let r = ran(m, acc, fs);
        assert forall|i: int| #![trigger args[i]] 0 <= i < args.len() implies ({
            let n = count_params(f, Ty::F64, i as nat) as int;
            n < 8 ==> args[i] == RtValue::F64(q.d[n])
        }) by {
            let n = count_params(f, Ty::F64, i as nat) as int;
            if n < 8 {
                assert(q.d[n] == r.d[n]);
            }
        }
        assert(!(f.inst(v.0 as int).op is Call));
        let x = lemma_double_spill(f, s, p.libm, v, before, w, m, args, fs);
    }
}

// ---------------------------------------------------------------------------
// Straight-line functions of doubles

/// The code of a straight-line function of doubles that makes no calls and
/// keeps its values on the stack: called with the arguments in D0 and the
/// registers behind it, it returns what the function yields, and keeps what
/// belongs to the caller.
#[verifier::rlimit(60)]
pub proof fn lemma_spilled_doubles_compute(
    f: Function,
    result: Value,
    p: Plan,
    m: Machine,
    args: Seq<RtValue>,
    fs: FloatSem,
    x: RtValue,
)
    requires
        f.insts@.len() <= u32::MAX,
        f.blocks@.len() == 1,
        f.entry.0 == 0,
        f.term(0) == Some(Terminator::Return(result)),
        !has_call(f),
        whole(m),
        double_arguments(f, args, m),
        p.kind == (Kind::Floats { calls: false }),
        layout(f, p.kind, 1) is Ok,
        p.locs == layout(f, p.kind, 1)->Ok_0.locs,
        spill_frame(p.kind, layout(f, p.kind, 1)->Ok_0.next) == Ok::<int, EmitError>(
            p.frame as int,
        ),
        spill_blocks(f, p, 1, spill_prologue(f, p)) is Ok,
        yields(f, args, fs, x),
        x is F64,
    ensures
        ({
            let code = spill_blocks(f, p, 1, spill_prologue(f, p))->Ok_0;
            &&& code.last() == A64::Return
            &&& returned_double(m, after(m, code, fs), x)
        }),
{
    let start = empty_frame(f.insts@.len());
    let n = choose|n: nat| #[trigger] run(f, 0, None, start, args, fs, n) == Some(x);
    assert(run(f, 0, None, start, args, fs, n) == Some(x));
    let k = f.listed(0).len();
    let w = run_insts(f, 0, k as int, start, None, args, fs).unwrap();
    assert(layout(f, p.kind, 0) == Ok::<Layout, EmitError>(no_places(f, p.kind)));
    let s = layout(f, p.kind, 1)->Ok_0;
    lemma_doubles_listed(f, k);
    lemma_reg(0);
    // The prologue.
    let open = A64::OpenFrame { bytes: p.frame };
    lemma_after_one(m, open, fs);
    let saved = spill_prologue(f, p);
    assert(saved->Ok_0 =~= seq![open]);
    let e = ran(m, saved, fs);
    assert(e == Machine { sp: m.sp - p.frame, ..m });
    // The values.
    assert(spill_blocks(f, p, 0, saved) == saved);
    let body = spill_values(f, p, 0, k, saved);
    assert(spill_blocks(f, p, 1, saved) == spill_return(f, p, result, body));
    assert(body is Ok);
    lemma_double_spills(f, s, p, k, saved, m, args, fs);
    let q = ran(m, body, fs);
    // The way out.
    assert(slot(w, result) == Some(x));
    assert(w[result.0 as int] is Some);
    let z = x->F64_0;
    let loaded = load(body, p.locs, true, result, reg(0));
    lemma_load_double(f, body, p.locs, result, reg(0), w, m, z, fs);
    let close = A64::CloseFrame { bytes: p.frame };
    lemma_then(loaded, close, m, fs);
    let closed = chain(loaded, one(close));
    lemma_then(closed, A64::Return, m, fs);
    let code = spill_blocks(f, p, 1, saved)->Ok_0;
    assert(restores(p.kind) =~= Seq::<A64>::empty());
    assert(loaded->Ok_0 + restores(p.kind) =~= loaded->Ok_0);
    assert(code == chain(closed, one(A64::Return))->Ok_0);
    let end = after(m, code, fs);
    assert forall|j: int| #![trigger end.d[j]] 8 <= j < 16 implies end.d[j] == m.d[j] by {
        assert(q.d[j] == e.d[j]);
    }
}

} // verus!
