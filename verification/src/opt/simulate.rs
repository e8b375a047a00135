//! When one function may stand for another.
//!
//! A function refines another if it returns the same value on all arguments
//! on which the other returns one, and traps alike where the other traps. Two NaNs count as the same value: which
//! NaN an operation makes is left open.
//!
//! The functions here are free of loops, so every block runs at most once and
//! every value is computed at most once. While such a function runs, each
//! value that is there equals what its instruction computes from the operands
//! as they stand.
use crate::arith::{
    is_nan, lemma_magnitude_nan, lemma_negated_bits, magnitude, negated_bits,
};
use crate::dominance::{edge, reachable, sdom};
use crate::dominance::{
    lemma_dom_of_entry, lemma_entry_reachable, lemma_reachable_edge, lemma_sdom_pred,
};
use crate::float::{FloatOp, FloatSem};
use crate::interp::{after_block, divides_by_zero, run_traps, traps, traps_in, Next};
use crate::interp::{
    edge_from, empty_frame, eval, eval_binary, eval_inst, eval_unary, operand_values, readable,
    reads, run, run_insts, slot, yields, Frame, RtValue,
};
use crate::ir::{subst, subst_opt_term, Block, Function, InstModel, Op, Terminator, Ty, Value};
use crate::verify::{def_at, inst_ok, operands_defect, type_defect, valid};
use vstd::prelude::*;

verus! {

/// Equal bits, or two NaNs.
pub open spec fn same_bits(a: u64, b: u64) -> bool {
    a == b || (is_nan(a) && is_nan(b))
}

/// Equal values, or two NaNs.
pub open spec fn same(x: RtValue, y: RtValue) -> bool {
    match (x, y) {
        (RtValue::F64(a), RtValue::F64(b)) => same_bits(a, b),
        _ => x == y,
    }
}

/// The bits of `-0.0`, `1.0`.
pub open spec fn minus_zero() -> u64 {
    0x8000_0000_0000_0000
}

pub open spec fn plus_one() -> u64 {
    0x3ff0_0000_0000_0000
}

/// No operation tells two NaNs apart.
pub open spec fn nan_blind(fs: FloatSem) -> bool {
    &&& forall|op: FloatOp, a: u64, b: u64, c: u64, p: u64, q: u64, r: u64|
        op != FloatOp::FromInt && same_bits(a, p) && same_bits(b, q) && same_bits(c, r)
            ==> same_bits(#[trigger] fs(op, a, b, c), #[trigger] fs(op, p, q, r))
    &&& forall|a: u64, p: u64|
        same_bits(a, p) ==> #[trigger] fs(FloatOp::ToInt, a, 0, 0) == #[trigger] fs(
            FloatOp::ToInt,
            p,
            0,
            0,
        )
}

/// Addition and multiplication commute, `-0.0` is neutral under addition,
/// `+0.0` under subtraction, and `1.0` under multiplication and division.
pub open spec fn neutral_elements(fs: FloatSem) -> bool {
    &&& forall|a: u64, b: u64|
        same_bits(#[trigger] fs(FloatOp::Add, a, b, 0), fs(FloatOp::Add, b, a, 0))
    &&& forall|a: u64, b: u64|
        same_bits(#[trigger] fs(FloatOp::Mul, a, b, 0), fs(FloatOp::Mul, b, a, 0))
    &&& forall|a: u64| same_bits(#[trigger] fs(FloatOp::Add, a, minus_zero(), 0), a)
    &&& forall|a: u64| same_bits(#[trigger] fs(FloatOp::Sub, a, 0, 0), a)
    &&& forall|a: u64| same_bits(#[trigger] fs(FloatOp::Mul, a, plus_one(), 0), a)
    &&& forall|a: u64| same_bits(#[trigger] fs(FloatOp::Div, a, plus_one(), 0), a)
}

/// What the optimizer takes for granted of floating-point arithmetic; IEEE
/// 754 arithmetic has all of it.
pub open spec fn regular(fs: FloatSem) -> bool {
    nan_blind(fs) && neutral_elements(fs)
}

/// On arguments of the right types, wherever `f` returns a value, `g` returns
/// the same, and wherever `f` divides by zero, `g` does so in the same
/// operation, when floating-point operations compute `fs`.
pub open spec fn refines(f: Function, g: Function, fs: FloatSem) -> bool {
    &&& g.params == f.params
    &&& regular(fs) ==> forall|args: Seq<RtValue>, x: RtValue|
        args_match(f, args) && #[trigger] yields(f, args, fs, x) ==> yields_same(g, args, fs, x)
    &&& regular(fs) ==> forall|args: Seq<RtValue>, op: Op|
        args_match(f, args) && #[trigger] traps(f, args, fs, op) ==> traps(g, args, fs, op)
}

pub open spec fn yields_same(g: Function, args: Seq<RtValue>, fs: FloatSem, x: RtValue) -> bool {
    exists|y: RtValue| #[trigger] yields(g, args, fs, y) && same(x, y)
}

pub proof fn lemma_refines_refl(f: Function, fs: FloatSem)
    ensures
        refines(f, f, fs),
{
    assert forall|args: Seq<RtValue>, x: RtValue|
        args_match(f, args) && #[trigger] yields(f, args, fs, x) implies yields_same(
        f,
        args,
        fs,
        x,
    ) by {
        assert(same(x, x));
    }
}

pub proof fn lemma_refines_trans(f: Function, g: Function, h: Function, fs: FloatSem)
    requires
        refines(f, g, fs),
        refines(g, h, fs),
    ensures
        refines(f, h, fs),
{
    if regular(fs) {
        assert forall|args: Seq<RtValue>, x: RtValue|
            args_match(f, args) && #[trigger] yields(f, args, fs, x) implies yields_same(
            h,
            args,
            fs,
            x,
        ) by {
            let y = choose|y: RtValue| #[trigger] yields(g, args, fs, y) && same(x, y);
            assert(yields_same(h, args, fs, y));
            let z = choose|z: RtValue| #[trigger] yields(h, args, fs, z) && same(y, z);
            assert(same(x, z));
        }
        assert forall|args: Seq<RtValue>, op: Op|
            args_match(f, args) && #[trigger] traps(f, args, fs, op) implies traps(
            h,
            args,
            fs,
            op,
        ) by {
            assert(traps(g, args, fs, op));
        }
    }
}

/// `rank` grows along every edge.
pub open spec fn ranks(f: Function, rank: spec_fn(int) -> int) -> bool {
    forall|a: int, b: int| #[trigger] edge(f, a, b) ==> rank(a) < rank(b)
}

/// The control flow has no loops.
pub open spec fn loop_free(f: Function) -> bool {
    exists|rank: spec_fn(int) -> int| ranks(f, rank)
}

// ---------------------------------------------------------------------------
// Types of values

pub open spec fn value_ty(x: RtValue) -> Ty {
    match x {
        RtValue::F64(_) => Ty::F64,
        RtValue::I64(_) => Ty::I64,
        RtValue::Bool(_) => Ty::Bool,
    }
}

/// The arguments have the types of the parameters.
pub open spec fn args_match(f: Function, args: Seq<RtValue>) -> bool {
    &&& args.len() == f.params@.len()
    &&& forall|i: int|
        #![trigger args[i]]
        0 <= i < args.len() ==> value_ty(args[i]) == f.params@[i].1
}

/// A well-typed operation on operands of its types makes a value of its type.
#[verifier::rlimit(40)]
pub proof fn lemma_eval_typed(
    f: Function,
    v: Value,
    m: InstModel,
    vs: Seq<RtValue>,
    args: Seq<RtValue>,
    fs: FloatSem,
)
    requires
        type_defect(f, v, m) is None,
        args_match(f, args) || m.op !is Param,
        m.op !is Phi,
        reads(m.op) <= m.args.len(),
        vs.len() == reads(m.op),
        forall|j: int|
            #![trigger vs[j]]
            0 <= j < vs.len() ==> m.args[j].0 < f.types@.len() && value_ty(vs[j])
                == f.types@[m.args[j].0 as int],
        eval(m.op, vs, args, fs) is Some,
    ensures
        value_ty(eval(m.op, vs, args, fs).unwrap()) == f.types@[v.0 as int],
{
    if reads(m.op) > 0 {
        assert(value_ty(vs[0]) == f.types@[m.args[0].0 as int]);
    }
    if reads(m.op) > 1 {
        assert(value_ty(vs[1]) == f.types@[m.args[1].0 as int]);
    }
    match m.op {
        Op::Param(index, ty) => {
            assert(value_ty(args[index as int]) == f.params@[index as int].1);
        },
        Op::Fma => {},
        Op::Call(func) => {},
        Op::Compare(_) => {},
        _ => {},
    }
}

/// The operands of a well-typed phi have its type.
pub proof fn lemma_phi_operand_typed(
    f: Function,
    v: Value,
    args: Seq<Value>,
    expected: Ty,
    i: int,
    j: int,
)
    requires
        operands_defect(f, v, args, expected, i) is None,
        0 <= i <= j < args.len(),
    ensures
        args[j].0 < f.types@.len(),
        f.types@[args[j].0 as int] == expected,
    decreases j - i,
{
    if i < j {
        lemma_phi_operand_typed(f, v, args, expected, i + 1, j);
    }
}

/// Every value of the frame has the type of the table.
pub open spec fn frame_typed(f: Function, vals: Frame) -> bool {
    forall|v: int|
        #![trigger vals[v]]
        0 <= v < vals.len() && vals[v] is Some ==> value_ty(vals[v].unwrap()) == f.types@[v]
}

/// In a well-typed frame, a well-typed instruction makes a value of its type.
proof fn lemma_inst_typed(
    f: Function,
    v: Value,
    vals: Frame,
    prev: Option<Block>,
    args: Seq<RtValue>,
    fs: FloatSem,
)
    requires
        v.0 < f.insts@.len(),
        vals.len() == f.insts@.len(),
        f.types@.len() == f.insts@.len(),
        frame_typed(f, vals),
        args_match(f, args),
        type_defect(f, v, f.inst(v.0 as int)) is None,
        eval_inst(f.inst(v.0 as int), vals, prev, args, fs) is Some,
    ensures
        value_ty(eval_inst(f.inst(v.0 as int), vals, prev, args, fs).unwrap())
            == f.types@[v.0 as int],
{
    let m = f.inst(v.0 as int);
    match m.op {
        Op::Phi(froms) => {
            lemma_edge_from(froms, prev.unwrap(), 0);
            let j = edge_from(froms, prev.unwrap(), 0).unwrap();
            assert(froms.len() == m.args.len());
            lemma_phi_operand_typed(f, v, m.args, f.types@[v.0 as int], 0, j);
            assert(vals[m.args[j].0 as int] is Some);
        },
        _ => {
            let vs = operand_values(m, vals);
            assert forall|j: int| #![trigger vs[j]] 0 <= j < vs.len() implies m.args[j].0
                < f.types@.len() && value_ty(vs[j]) == f.types@[m.args[j].0 as int] by {
                assert(slot(vals, m.args[j]) is Some);
                assert(vals[m.args[j].0 as int] is Some);
            }
            lemma_eval_typed(f, v, m, vs, args, fs);
        },
    }
}

// ---------------------------------------------------------------------------
// The state of a running function

/// What holds of the frame `vals` when control, having come to block `b` from
/// `prev`, stands before place `k`.
pub open spec fn inv(
    f: Function,
    rank: spec_fn(int) -> int,
    b: int,
    k: int,
    vals: Frame,
    prev: Option<Block>,
    args: Seq<RtValue>,
    fs: FloatSem,
) -> bool {
    &&& vals.len() == f.insts@.len()
    &&& args_match(f, args)
    &&& frame_typed(f, vals)
    &&& 0 <= b < f.blocks@.len()
    &&& 0 <= k <= f.listed(b).len()
    &&& reachable(
        f,
        b,
    )
    // Values come from blocks of lower rank, or from earlier in this one.
    &&& forall|v: int|
        #![trigger vals[v]]
        0 <= v < vals.len() && vals[v] is Some ==> computed_before(f, rank, v, b, k)
    // Every value but a phi equals what its instruction computes now.
    &&& forall|v: int|
        #![trigger vals[v]]
        0 <= v < vals.len() && vals[v] is Some && !(f.inst(v).op is Phi) ==> eval_inst(
            f.inst(v),
            vals,
            None,
            args,
            fs,
        )
            == vals[v]
    // The values of this block are there, and its phis have been chosen by
    // `prev`.
    &&& forall|l: int|
        #![trigger f.listed(b)[l]]
        0 <= l < k ==> vals[f.listed(b)[l].0 as int] is Some && (f.inst(
            f.listed(b)[l].0 as int,
        ).op is Phi ==> eval_inst(f.inst(f.listed(b)[l].0 as int), vals, prev, args, fs)
            == vals[f.listed(b)[l].0 as int])
    // The values of all dominators are there.
    &&& forall|c: int, l: int|
        #![trigger f.listed(c)[l]]
        0 <= c < f.blocks@.len() && sdom(f, c, b) && 0 <= l < f.listed(c).len()
            ==> vals[f.listed(c)[l].0 as int] is Some
}

pub open spec fn computed_before(
    f: Function,
    rank: spec_fn(int) -> int,
    v: int,
    b: int,
    k: int,
) -> bool {
    exists|c: int, l: int| #[trigger]
        def_at(f, v, c, l) && (rank(c) < rank(b) || (c == b && l < k))
}

/// `w` has everything that `v` has.
pub open spec fn extends(v: Frame, w: Frame) -> bool {
    &&& v.len() <= w.len()
    &&& forall|i: int| #![trigger w[i]] 0 <= i < v.len() && v[i] is Some ==> w[i] == v[i]
}

/// More values do not change what an instruction computes.
pub proof fn lemma_eval_extends(
    m: InstModel,
    v: Frame,
    w: Frame,
    prev: Option<Block>,
    args: Seq<RtValue>,
    fs: FloatSem,
)
    requires
        extends(v, w),
        eval_inst(m, v, prev, args, fs) is Some,
    ensures
        eval_inst(m, w, prev, args, fs) == eval_inst(m, v, prev, args, fs),
{
    assert forall|u: Value| slot(v, u) is Some implies #[trigger] slot(w, u) == slot(v, u) by {}
    match m.op {
        Op::Phi(froms) => {},
        _ => {
            assert(readable(m, w));
            assert(operand_values(m, w) =~= operand_values(m, v));
        },
    }
}

/// The value that comes next is not there yet.
pub proof fn lemma_next_is_new(
    f: Function,
    rank: spec_fn(int) -> int,
    b: int,
    k: int,
    vals: Frame,
    prev: Option<Block>,
    args: Seq<RtValue>,
    fs: FloatSem,
)
    requires
        valid(f),
        inv(f, rank, b, k, vals, prev, args, fs),
        k < f.listed(b).len(),
    ensures
        f.listed(b)[k].0 < f.insts@.len(),
        vals[f.listed(b)[k].0 as int] is None,
{
    let v = f.listed(b)[k].0 as int;
    assert(def_at(f, v, b, k));
    if vals[v] is Some {
        assert(computed_before(f, rank, v, b, k));
        let (c, l) = choose|c: int, l: int| #[trigger]
            def_at(f, v, c, l) && (rank(c) < rank(b) || (c == b && l < k));
        assert(c == b && l == k);
    }
}

/// Running one instruction keeps the invariant.
pub proof fn lemma_inv_step(
    f: Function,
    rank: spec_fn(int) -> int,
    b: int,
    k: int,
    vals: Frame,
    prev: Option<Block>,
    args: Seq<RtValue>,
    fs: FloatSem,
    x: RtValue,
)
    requires
        valid(f),
        inv(f, rank, b, k, vals, prev, args, fs),
        k < f.listed(b).len(),
        eval_inst(f.inst(f.listed(b)[k].0 as int), vals, prev, args, fs) == Some(x),
    ensures
        inv(f, rank, b, k + 1, vals.update(f.listed(b)[k].0 as int, Some(x)), prev, args, fs),
        extends(vals, vals.update(f.listed(b)[k].0 as int, Some(x))),
{
    lemma_next_is_new(f, rank, b, k, vals, prev, args, fs);
    let v = f.listed(b)[k].0 as int;
    let w = vals.update(v, Some(x));
    assert(def_at(f, v, b, k));
    assert(extends(vals, w));
    assert(inst_ok(f, b, k));
    lemma_inst_typed(f, f.listed(b)[k], vals, prev, args, fs);
    assert forall|u: int| #![trigger w[u]] 0 <= u < w.len() && w[u] is Some implies value_ty(
        w[u].unwrap(),
    ) == f.types@[u] by {
        if u != v {
            assert(vals[u] is Some);
        }
    }
    assert forall|u: int|
        #![trigger w[u]]
        0 <= u < w.len() && w[u] is Some implies computed_before(f, rank, u, b, k + 1) by {
        if u != v {
            assert(vals[u] is Some);
            let (c, l) = choose|c: int, l: int| #[trigger]
                def_at(f, u, c, l) && (rank(c) < rank(b) || (c == b && l < k));
            assert(def_at(f, u, c, l));
        }
    }
    assert forall|u: int|
        #![trigger w[u]]
        0 <= u < w.len() && w[u] is Some && !(f.inst(u).op is Phi) implies eval_inst(
        f.inst(u),
        w,
        None,
        args,
        fs,
    ) == w[u] by {
        if u != v {
            assert(vals[u] is Some);
            lemma_eval_extends(f.inst(u), vals, w, None, args, fs);
        } else {
            lemma_eval_extends(f.inst(u), vals, w, None, args, fs);
        }
    }
    assert forall|l: int| #![trigger f.listed(b)[l]] 0 <= l < k + 1 implies w[f.listed(
        b,
    )[l].0 as int] is Some && (f.inst(f.listed(b)[l].0 as int).op is Phi ==> eval_inst(
        f.inst(f.listed(b)[l].0 as int),
        w,
        prev,
        args,
        fs,
    ) == w[f.listed(b)[l].0 as int]) by {
        let u = f.listed(b)[l].0 as int;
        if l < k {
            assert(vals[u] is Some);
            if f.inst(u).op is Phi {
                lemma_eval_extends(f.inst(u), vals, w, prev, args, fs);
            }
        } else {
            if f.inst(u).op is Phi {
                lemma_eval_extends(f.inst(u), vals, w, prev, args, fs);
            }
        }
    }
    assert forall|c: int, l: int|
        #![trigger f.listed(c)[l]]
        0 <= c < f.blocks@.len() && sdom(f, c, b) && 0 <= l < f.listed(c).len() implies w[f.listed(
        c,
    )[l].0 as int] is Some by {
        assert(vals[f.listed(c)[l].0 as int] is Some);
    }
}

/// Running some instructions keeps the invariant and what was there.
pub proof fn lemma_inv_insts(
    f: Function,
    rank: spec_fn(int) -> int,
    b: int,
    k: int,
    vals: Frame,
    prev: Option<Block>,
    args: Seq<RtValue>,
    fs: FloatSem,
)
    requires
        valid(f),
        inv(f, rank, b, 0, vals, prev, args, fs),
        0 <= k <= f.listed(b).len(),
        run_insts(f, b, k, vals, prev, args, fs) is Some,
    ensures
        inv(f, rank, b, k, run_insts(f, b, k, vals, prev, args, fs).unwrap(), prev, args, fs),
        extends(vals, run_insts(f, b, k, vals, prev, args, fs).unwrap()),
    decreases k,
{
    if k > 0 {
        lemma_inv_insts(f, rank, b, k - 1, vals, prev, args, fs);
        let w = run_insts(f, b, k - 1, vals, prev, args, fs).unwrap();
        let v = f.listed(b)[k - 1].0 as int;
        let x = eval_inst(f.inst(v), w, prev, args, fs).unwrap();
        lemma_inv_step(f, rank, b, k - 1, w, prev, args, fs, x);
    }
}

/// Following an edge keeps the invariant.
pub proof fn lemma_inv_edge(
    f: Function,
    rank: spec_fn(int) -> int,
    b: int,
    c: int,
    vals: Frame,
    prev: Option<Block>,
    args: Seq<RtValue>,
    fs: FloatSem,
)
    requires
        valid(f),
        ranks(f, rank),
        inv(f, rank, b, f.listed(b).len() as int, vals, prev, args, fs),
        edge(f, b, c),
    ensures
        inv(f, rank, c, 0, vals, Some(Block(b as u32)), args, fs),
{
    lemma_reachable_edge(f, b, c);
    assert forall|v: int|
        #![trigger vals[v]]
        0 <= v < vals.len() && vals[v] is Some implies computed_before(f, rank, v, c, 0) by {
        let (d, l) = choose|d: int, l: int| #[trigger]
            def_at(f, v, d, l) && (rank(d) < rank(b) || (d == b && l < f.listed(b).len()));
        assert(def_at(f, v, d, l));
    }
    assert forall|d: int, l: int|
        #![trigger f.listed(d)[l]]
        0 <= d < f.blocks@.len() && sdom(f, d, c) && 0 <= l < f.listed(d).len() implies vals[f.listed(
        d,
    )[l].0 as int] is Some by {
        lemma_sdom_pred(f, d, b, c);
    }
}

pub proof fn lemma_inv_start(
    f: Function,
    rank: spec_fn(int) -> int,
    args: Seq<RtValue>,
    fs: FloatSem,
)
    requires
        valid(f),
        args_match(f, args),
    ensures
        inv(f, rank, f.entry.0 as int, 0, empty_frame(f.insts@.len()), None, args, fs),
{
    lemma_entry_reachable(f);
    assert forall|c: int, l: int|
        #![trigger f.listed(c)[l]]
        0 <= c < f.blocks@.len() && sdom(f, c, f.entry.0 as int) && 0 <= l < f.listed(
            c,
        ).len() implies empty_frame(f.insts@.len())[f.listed(c)[l].0 as int] is Some by {
        lemma_dom_of_entry(f, c);
    }
}

// ---------------------------------------------------------------------------
// Congruence

proof fn lemma_same_bits_ops(a: u64, b: u64)
    requires
        same_bits(a, b),
    ensures
        same_bits(negated_bits(a), negated_bits(b)),
        same_bits(magnitude(a), magnitude(b)),
{
    lemma_negated_bits(a);
    lemma_negated_bits(b);
    lemma_magnitude_nan(a);
    lemma_magnitude_nan(b);
}

proof fn lemma_unary_congruent(op: Op, x: RtValue, y: RtValue, fs: FloatSem)
    requires
        nan_blind(fs),
        same(x, y),
        eval_unary(op, x, fs) is Some,
    ensures
        eval_unary(op, y, fs) is Some,
        same(eval_unary(op, x, fs).unwrap(), eval_unary(op, y, fs).unwrap()),
{
    match (x, y) {
        (RtValue::F64(a), RtValue::F64(b)) => {
            lemma_same_bits_ops(a, b);
            assert(same_bits(0, 0));
        },
        _ => {},
    }
}

proof fn lemma_binary_congruent(
    op: Op,
    x: RtValue,
    y: RtValue,
    p: RtValue,
    q: RtValue,
    fs: FloatSem,
)
    requires
        nan_blind(fs),
        same(x, p),
        same(y, q),
        eval_binary(op, x, y, fs) is Some,
    ensures
        eval_binary(op, p, q, fs) is Some,
        same(eval_binary(op, x, y, fs).unwrap(), eval_binary(op, p, q, fs).unwrap()),
{
    assert(same_bits(0, 0));
}

/// Operations on the same values make the same values.
#[verifier::rlimit(40)]
pub proof fn lemma_eval_congruent(
    op: Op,
    vs: Seq<RtValue>,
    us: Seq<RtValue>,
    args: Seq<RtValue>,
    fs: FloatSem,
)
    requires
        nan_blind(fs),
        vs.len() == reads(op),
        us.len() == reads(op),
        forall|j: int| #![trigger vs[j]] 0 <= j < vs.len() ==> same(vs[j], us[j]),
        eval(op, vs, args, fs) is Some,
    ensures
        eval(op, us, args, fs) is Some,
        same(eval(op, vs, args, fs).unwrap(), eval(op, us, args, fs).unwrap()),
{
    assert(same_bits(0, 0));
    match op {
        Op::ConstF64(_) | Op::ConstI64(_) | Op::ConstBool(_) | Op::Param(_, _) | Op::Phi(_) => {},
        Op::Compare(c) => {
            assert(same(vs[0], us[0]) && same(vs[1], us[1]));
        },
        Op::Fma => {
            assert(same(vs[0], us[0]) && same(vs[1], us[1]) && same(vs[2], us[2]));
        },
        Op::Call(func) => {
            assert(same(vs[0], us[0]));
            if reads(op) == 2 {
                assert(same(vs[1], us[1]));
            }
        },
        _ => {
            assert(same(vs[0], us[0]));
            if reads(op) == 1 {
                lemma_unary_congruent(op, vs[0], us[0], fs);
            } else {
                assert(same(vs[1], us[1]));
                lemma_binary_congruent(op, vs[0], vs[1], us[0], us[1], fs);
            }
        },
    }
}

/// Instructions with one operation whose operands have the same values
/// compute the same value.
pub proof fn lemma_inst_congruent(
    m: InstModel,
    n: InstModel,
    vals: Frame,
    ws: Frame,
    prev: Option<Block>,
    args: Seq<RtValue>,
    fs: FloatSem,
)
    requires
        nan_blind(fs),
        m.op == n.op,
        m.args.len() == n.args.len(),
        m.op matches Op::Phi(froms) ==> froms.len() == m.args.len(),
        forall|j: int|
            #![trigger m.args[j]]
            0 <= j < m.args.len() && slot(vals, m.args[j]) is Some ==> slot(ws, n.args[j]) is Some
                && same(slot(vals, m.args[j]).unwrap(), slot(ws, n.args[j]).unwrap()),
        eval_inst(m, vals, prev, args, fs) is Some,
    ensures
        eval_inst(n, ws, prev, args, fs) is Some,
        same(
            eval_inst(m, vals, prev, args, fs).unwrap(),
            eval_inst(n, ws, prev, args, fs).unwrap(),
        ),
{
    match m.op {
        Op::Phi(froms) => {
            lemma_edge_from(froms, prev.unwrap(), 0);
            let j = edge_from(froms, prev.unwrap(), 0).unwrap();
            assert(slot(vals, m.args[j]) is Some);
        },
        _ => {
            assert forall|j: int| 0 <= j < reads(n.op) implies slot(
                ws,
                #[trigger] n.args[j],
            ) is Some by {
                assert(slot(vals, m.args[j]) is Some);
            }
            assert(readable(n, ws));
            let vs = operand_values(m, vals);
            let us = operand_values(n, ws);
            assert forall|j: int| #![trigger vs[j]] 0 <= j < vs.len() implies same(
                vs[j],
                us[j],
            ) by {
                assert(slot(vals, m.args[j]) is Some);
            }
            lemma_eval_congruent(m.op, vs, us, args, fs);
        },
    }
}

/// An edge that is found is one of the list and comes from `p`.
pub proof fn lemma_edge_from(froms: Seq<Block>, p: Block, i: int)
    ensures
        edge_from(froms, p, i) matches Some(j) ==> i <= j < froms.len() && froms[j] == p,
    decreases froms.len() - i,
{
    if 0 <= i < froms.len() && froms[i] != p {
        lemma_edge_from(froms, p, i + 1);
    }
}

// ---------------------------------------------------------------------------
// Simulation

/// The frames agree on the values in `kept`, in the second `e0` can stand for
/// `v0`, and the second has no value that the first lacks.
pub open spec fn agree(kept: Set<int>, v0: Value, e0: Value, vals: Frame, ws: Frame) -> bool {
    &&& forall|v: int|
        #![trigger vals[v]]
        kept.contains(v) && 0 <= v < vals.len() && vals[v] is Some ==> v < ws.len()
            && ws[v] is Some && same(vals[v].unwrap(), ws[v].unwrap())
    &&& slot(vals, v0) is Some && kept.contains(v0.0 as int) ==> slot(ws, e0) is Some && same(
        slot(vals, v0).unwrap(),
        slot(ws, e0).unwrap(),
    )
    &&& forall|v: int|
        #![trigger ws[v]]
        0 <= v < vals.len() && v < ws.len() && ws[v] is Some ==> vals[v] is Some
}

/// Control is about to run block `b` in `f` and, with agreeing frames, in `g`,
/// and the block of `f` runs to its end.
pub open spec fn at_block(
    f: Function,
    g: Function,
    kept: Set<int>,
    v0: Value,
    e0: Value,
    rank: spec_fn(int) -> int,
    b: int,
    prev: Option<Block>,
    vals: Frame,
    ws: Frame,
    args: Seq<RtValue>,
    fs: FloatSem,
) -> bool {
    &&& regular(fs)
    &&& ranks(f, rank)
    &&& inv(f, rank, b, 0, vals, prev, args, fs)
    &&& ws.len() == g.insts@.len()
    &&& agree(kept, v0, e0, vals, ws)
    &&& run_insts(f, b, f.listed(b).len() as int, vals, prev, args, fs) is Some
}

/// The block of `g` runs to its end too, with agreeing frames.
pub open spec fn past_block(
    f: Function,
    g: Function,
    kept: Set<int>,
    v0: Value,
    e0: Value,
    b: int,
    prev: Option<Block>,
    vals: Frame,
    ws: Frame,
    args: Seq<RtValue>,
    fs: FloatSem,
) -> bool {
    match run_insts(g, b, g.listed(b).len() as int, ws, prev, args, fs) {
        Some(w) => w.len() == g.insts@.len() && agree(
            kept,
            v0,
            e0,
            run_insts(f, b, f.listed(b).len() as int, vals, prev, args, fs).unwrap(),
            w,
        ),
        None => false,
    }
}

/// Control is about to run block `b` in `f` and, with agreeing frames, in `g`,
/// and an `op` of the block of `f` divides by zero.
pub open spec fn at_trap(
    f: Function,
    g: Function,
    kept: Set<int>,
    v0: Value,
    e0: Value,
    rank: spec_fn(int) -> int,
    b: int,
    prev: Option<Block>,
    vals: Frame,
    ws: Frame,
    args: Seq<RtValue>,
    fs: FloatSem,
    op: Op,
) -> bool {
    &&& regular(fs)
    &&& ranks(f, rank)
    &&& inv(f, rank, b, 0, vals, prev, args, fs)
    &&& ws.len() == g.insts@.len()
    &&& agree(kept, v0, e0, vals, ws)
    &&& traps_in(f, b, prev, vals, args, fs, op)
}

/// The instruction at place `k` of block `b` never divides by zero.
#[verifier::opaque]
pub open spec fn never_traps(f: Function, b: int, k: int, fs: FloatSem) -> bool {
    forall|
        rank: spec_fn(int) -> int,
        vals: Frame,
        prev: Option<Block>,
        args: Seq<RtValue>,
    | #[trigger]
        inv(f, rank, b, k, vals, prev, args, fs) ==> !divides_by_zero(
            f.inst(f.listed(b)[k].0 as int),
            vals,
        )
}

/// The instruction divides integers, and not by a constant other than zero.
pub open spec fn may_trap(f: Function, v: int) -> bool {
    let m = f.inst(v);
    &&& m.op is Div || m.op is Rem
    &&& f.types@[v] == Ty::I64
    &&& m.args.len() == 2
    &&& !(m.args[1].0 < f.insts@.len() && match f.inst(m.args[1].0 as int).op {
        Op::ConstI64(n) => n != 0,
        _ => false,
    })
}

/// What may not trap never does.
pub proof fn lemma_never_traps(f: Function, b: int, k: int, fs: FloatSem)
    requires
        valid(f),
        0 <= b < f.blocks@.len(),
        0 <= k < f.listed(b).len(),
        !may_trap(f, f.listed(b)[k].0 as int),
    ensures
        never_traps(f, b, k, fs),
{
    reveal(never_traps);
    let v = f.listed(b)[k];
    let m = f.inst(v.0 as int);
    assert(inst_ok(f, b, k));
    assert forall|
        rank: spec_fn(int) -> int,
        vals: Frame,
        prev: Option<Block>,
        args: Seq<RtValue>,
    | #[trigger]
        inv(f, rank, b, k, vals, prev, args, fs) implies !divides_by_zero(m, vals) by {
        if divides_by_zero(m, vals) {
            assert(frame_typed(f, vals));
            lemma_divisor_traps(f, v, vals, args, fs);
        }
    }
}

proof fn lemma_divisor_traps(f: Function, v: Value, vals: Frame, args: Seq<RtValue>, fs: FloatSem)
    requires
        v.0 < f.insts@.len(),
        vals.len() == f.insts@.len(),
        f.types@.len() == f.insts@.len(),
        frame_typed(f, vals),
        forall|u: int|
            #![trigger vals[u]]
            0 <= u < vals.len() && vals[u] is Some && !(f.inst(u).op is Phi) ==> eval_inst(
                f.inst(u),
                vals,
                None,
                args,
                fs,
            ) == vals[u],
        type_defect(f, v, f.inst(v.0 as int)) is None,
        divides_by_zero(f.inst(v.0 as int), vals),
    ensures
        may_trap(f, v.0 as int),
{
    let m = f.inst(v.0 as int);
    assert(slot(vals, m.args[0]) is Some);
    assert(slot(vals, m.args[1]) is Some);
    let a = m.args[0].0 as int;
    let d = m.args[1].0 as int;
    assert(vals[a] is Some);
    assert(vals[d] is Some);
    assert(operand_values(m, vals)[0] == vals[a].unwrap());
    assert(operand_values(m, vals)[1] == vals[d].unwrap());
    assert(f.types@[a] == Ty::I64);
    assert(f.types@[v.0 as int] == Ty::I64);
}

/// An instruction with the same operation whose operands agree divides by zero
/// too.
pub proof fn lemma_traps_too(m: InstModel, n: InstModel, vals: Frame, ws: Frame)
    requires
        m.op == n.op,
        m.args.len() == n.args.len(),
        forall|j: int|
            #![trigger m.args[j]]
            0 <= j < m.args.len() && slot(vals, m.args[j]) is Some ==> slot(ws, n.args[j]) is Some
                && same(slot(vals, m.args[j]).unwrap(), slot(ws, n.args[j]).unwrap()),
        divides_by_zero(m, vals),
    ensures
        divides_by_zero(n, ws),
{
    assert forall|j: int| 0 <= j < reads(n.op) implies slot(ws, #[trigger] n.args[j]) is Some by {
        assert(slot(vals, m.args[j]) is Some);
    }
    assert(slot(vals, m.args[0]) is Some);
    assert(slot(vals, m.args[1]) is Some);
    assert(operand_values(m, vals)[0] == slot(vals, m.args[0]).unwrap());
    assert(operand_values(m, vals)[1] == slot(vals, m.args[1]).unwrap());
    assert(operand_values(n, ws)[0] == slot(ws, n.args[0]).unwrap());
    assert(operand_values(n, ws)[1] == slot(ws, n.args[1]).unwrap());
}

/// Block for block, `g` follows `f`.
pub open spec fn follows(
    f: Function,
    g: Function,
    kept: Set<int>,
    v0: Value,
    e0: Value,
    fs: FloatSem,
) -> bool {
    &&& g.blocks@.len() == f.blocks@.len()
    &&& g.entry == f.entry
    &&& g.params == f.params
    &&& forall|b: int|
        #![trigger g.term(b)]
        0 <= b < f.blocks@.len() ==> g.term(b) == subst_opt_term(f.term(b), v0, e0)
            && term_kept(f.term(b), kept)
    &&& forall|
        rank: spec_fn(int) -> int,
        b: int,
        prev: Option<Block>,
        vals: Frame,
        ws: Frame,
        args: Seq<RtValue>,
    | #[trigger]
        at_block(f, g, kept, v0, e0, rank, b, prev, vals, ws, args, fs) ==> past_block(
            f,
            g,
            kept,
            v0,
            e0,
            b,
            prev,
            vals,
            ws,
            args,
            fs,
        )
    &&& forall|
        rank: spec_fn(int) -> int,
        b: int,
        prev: Option<Block>,
        vals: Frame,
        ws: Frame,
        args: Seq<RtValue>,
        op: Op,
    | #[trigger]
        at_trap(f, g, kept, v0, e0, rank, b, prev, vals, ws, args, fs, op) ==> traps_in(
            g,
            b,
            prev,
            ws,
            args,
            fs,
            op,
        )
}

/// What the terminator reads is kept.
pub open spec fn term_kept(t: Option<Terminator>, kept: Set<int>) -> bool {
    match t {
        Some(Terminator::Return(v)) => kept.contains(v.0 as int),
        Some(Terminator::Branch { cond, .. }) => kept.contains(cond.0 as int),
        _ => true,
    }
}

proof fn lemma_run_follows(
    f: Function,
    g: Function,
    kept: Set<int>,
    v0: Value,
    e0: Value,
    rank: spec_fn(int) -> int,
    b: int,
    prev: Option<Block>,
    vals: Frame,
    ws: Frame,
    args: Seq<RtValue>,
    fs: FloatSem,
    fuel: nat,
)
    requires
        valid(f),
        f.blocks@.len() <= u32::MAX,
        follows(f, g, kept, v0, e0, fs),
        regular(fs),
        ranks(f, rank),
        inv(f, rank, b, 0, vals, prev, args, fs),
        ws.len() == g.insts@.len(),
        agree(kept, v0, e0, vals, ws),
        run(f, b, prev, vals, args, fs, fuel) is Some,
    ensures
        run(g, b, prev, ws, args, fs, fuel) is Some,
        same(
            run(f, b, prev, vals, args, fs, fuel).unwrap(),
            run(g, b, prev, ws, args, fs, fuel).unwrap(),
        ),
    decreases fuel,
{
    let n = f.listed(b).len() as int;
    let w = run_insts(f, b, n, vals, prev, args, fs).unwrap();
    assert(at_block(f, g, kept, v0, e0, rank, b, prev, vals, ws, args, fs));
    assert(past_block(f, g, kept, v0, e0, b, prev, vals, ws, args, fs));
    let u = run_insts(g, b, g.listed(b).len() as int, ws, prev, args, fs).unwrap();
    lemma_inv_insts(f, rank, b, n, vals, prev, args, fs);
    assert(g.term(b) == subst_opt_term(f.term(b), v0, e0));
    match f.term(b) {
        Some(Terminator::Return(v)) => {
            assert(slot(w, v) is Some);
            assert(w[v.0 as int] is Some);
        },
        Some(Terminator::Jump(t)) => {
            assert(edge(f, b, t.0 as int));
            lemma_inv_edge(f, rank, b, t.0 as int, w, prev, args, fs);
            lemma_run_follows(
                f,
                g,
                kept,
                v0,
                e0,
                rank,
                t.0 as int,
                Some(Block(b as u32)),
                w,
                u,
                args,
                fs,
                (fuel - 1) as nat,
            );
        },
        Some(Terminator::Branch { cond, then_, else_ }) => {
            assert(slot(w, cond) is Some);
            assert(w[cond.0 as int] is Some);
            let c = match slot(w, cond) {
                Some(RtValue::Bool(c)) => c,
                _ => false,
            };
            let t = if c {
                then_
            } else {
                else_
            };
            assert(slot(u, subst(cond, v0, e0)) == Some(RtValue::Bool(c)));
            assert(edge(f, b, t.0 as int));
            lemma_inv_edge(f, rank, b, t.0 as int, w, prev, args, fs);
            lemma_run_follows(
                f,
                g,
                kept,
                v0,
                e0,
                rank,
                t.0 as int,
                Some(Block(b as u32)),
                w,
                u,
                args,
                fs,
                (fuel - 1) as nat,
            );
        },
        None => {},
    }
}

proof fn lemma_trap_follows(
    f: Function,
    g: Function,
    kept: Set<int>,
    v0: Value,
    e0: Value,
    rank: spec_fn(int) -> int,
    b: int,
    prev: Option<Block>,
    vals: Frame,
    ws: Frame,
    args: Seq<RtValue>,
    fs: FloatSem,
    op: Op,
    fuel: nat,
)
    requires
        valid(f),
        f.blocks@.len() <= u32::MAX,
        follows(f, g, kept, v0, e0, fs),
        regular(fs),
        ranks(f, rank),
        inv(f, rank, b, 0, vals, prev, args, fs),
        ws.len() == g.insts@.len(),
        agree(kept, v0, e0, vals, ws),
        run_traps(f, b, prev, vals, args, fs, op, fuel),
    ensures
        run_traps(g, b, prev, ws, args, fs, op, fuel),
    decreases fuel,
{
    let n = f.listed(b).len() as int;
    if traps_in(f, b, prev, vals, args, fs, op) {
        assert(at_trap(f, g, kept, v0, e0, rank, b, prev, vals, ws, args, fs, op));
    } else {
        let w = run_insts(f, b, n, vals, prev, args, fs).unwrap();
        assert(at_block(f, g, kept, v0, e0, rank, b, prev, vals, ws, args, fs));
        assert(past_block(f, g, kept, v0, e0, b, prev, vals, ws, args, fs));
        let u = run_insts(g, b, g.listed(b).len() as int, ws, prev, args, fs).unwrap();
        lemma_inv_insts(f, rank, b, n, vals, prev, args, fs);
        assert(g.term(b) == subst_opt_term(f.term(b), v0, e0));
        let c = match after_block(f.term(b), w) {
            Next::Goto(c) => c,
            _ => 0,
        };
        if let Some(Terminator::Branch { cond, .. }) = f.term(b) {
            assert(w[cond.0 as int] is Some);
            assert(slot(u, subst(cond, v0, e0)) == slot(w, cond));
        }
        assert(edge(f, b, c));
        lemma_inv_edge(f, rank, b, c, w, prev, args, fs);
        lemma_trap_follows(
            f,
            g,
            kept,
            v0,
            e0,
            rank,
            c,
            Some(Block(b as u32)),
            w,
            u,
            args,
            fs,
            op,
            (fuel - 1) as nat,
        );
    }
}

/// A function that follows another block for block refines it.
pub proof fn lemma_follows_refines(
    f: Function,
    g: Function,
    kept: Set<int>,
    v0: Value,
    e0: Value,
    fs: FloatSem,
)
    requires
        valid(f),
        f.blocks@.len() <= u32::MAX,
        loop_free(f),
        follows(f, g, kept, v0, e0, fs),
    ensures
        refines(f, g, fs),
{
    let rank = choose|rank: spec_fn(int) -> int| ranks(f, rank);
    if regular(fs) {
        assert forall|args: Seq<RtValue>, x: RtValue|
            args_match(f, args) && #[trigger] yields(f, args, fs, x) implies yields_same(
            g,
            args,
            fs,
            x,
        ) by {
            let vals = empty_frame(f.insts@.len());
            let ws = empty_frame(g.insts@.len());
            let fuel = choose|n: nat| #[trigger]
                run(f, f.entry.0 as int, None, vals, args, fs, n) == Some(x);
            lemma_inv_start(f, rank, args, fs);
            lemma_run_follows(
                f,
                g,
                kept,
                v0,
                e0,
                rank,
                f.entry.0 as int,
                None,
                vals,
                ws,
                args,
                fs,
                fuel,
            );
            let y = run(g, g.entry.0 as int, None, ws, args, fs, fuel).unwrap();
            assert(yields(g, args, fs, y));
        }
        assert forall|args: Seq<RtValue>, op: Op|
            args_match(f, args) && #[trigger] traps(f, args, fs, op) implies traps(
            g,
            args,
            fs,
            op,
        ) by {
            let vals = empty_frame(f.insts@.len());
            let ws = empty_frame(g.insts@.len());
            let fuel = choose|n: nat| #[trigger]
                run_traps(f, f.entry.0 as int, None, vals, args, fs, op, n);
            lemma_inv_start(f, rank, args, fs);
            lemma_trap_follows(
                f,
                g,
                kept,
                v0,
                e0,
                rank,
                f.entry.0 as int,
                None,
                vals,
                ws,
                args,
                fs,
                op,
                fuel,
            );
            assert(run_traps(g, g.entry.0 as int, None, ws, args, fs, op, fuel));
        }
    }
}

} // verus!
