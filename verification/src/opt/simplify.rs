//! Algebraic simplification.
//!
//! Rewrites an instruction to a cheaper equivalent when one operand is a
//! literal identity or absorbing element, or the two operands are the same
//! value. The sign of a floating-point zero makes `x + 0` asymmetric with
//! `x - 0`: adding a literal `+0.0` to `-0.0` gives `+0.0`, so only `+ (-0.0)`
//! can go, while `- (+0.0)` always can.
use crate::arith::{quotient, wrap};
use crate::arith::{lemma_negated_bits, lemma_wrap_congruent, lemma_wrap_offset};
use crate::float::{FloatOp, FloatSem};
use crate::interp::{eval_binary, eval_inst, operand_values, readable, slot, Frame, RtValue};
use crate::ir::{replace_value_everywhere, Block, Function, Inst, Ty, Value};
use crate::ir::{is_subst, model0, Op};
use crate::opt::edit::{is_updated, lemma_subst_keeps, lemma_update_keeps, update_ok};
use crate::opt::keep::{healthy, lemma_shape, lemma_use_moves, may_replace};
use crate::opt::rewrite::before_value;
use crate::opt::simulate::{inv, minus_zero, plus_one, refines, same, same_bits, value_ty};
use crate::opt::{tame, xor_on_integers, Pass};
use crate::verify::{def_at, inst_ok, type_defect, use_ok, valid};
use crate::opt::{keeps_always, lemma_always_refl, lemma_always_trans, lemma_always_wild};
use crate::opt::simulate::{lemma_never_traps, never_traps};
use vstd::prelude::*;

verus! {

pub struct AlgebraicSimplify;

#[derive(Clone, Copy, PartialEq, Eq, Debug, Structural)]
pub enum Rewrite {
    /// The instruction's result equals an already-existing value (an operand,
    /// or something reachable through one): redirect all uses to it and let
    /// dead code elimination clean up.
    UseExisting(Value),
    /// The instruction's result is an integer constant that is not already
    /// present as a value: rewrite the instruction in place.
    BecomeConst(i64),
}

/// `v` is the double zero of the given sign: a literal, or a negation of the
/// other zero, over at most `depth` negations.
pub open spec fn is_zero(f: Function, v: Value, negative: bool, depth: nat) -> bool
    decreases depth,
{
    v.0 < f.insts@.len() && match f.inst(v.0 as int).op {
        Op::ConstF64(bits) => bits == if negative {
            minus_zero()
        } else {
            0u64
        },
        Op::Neg => depth > 0 && is_zero(
            f,
            f.inst(v.0 as int).args[0],
            !negative,
            (depth - 1) as nat,
        ),
        _ => false,
    }
}

pub open spec fn neg_zero(f: Function, v: Value) -> bool {
    is_zero(f, v, true, f.insts@.len())
}

pub open spec fn pos_zero(f: Function, v: Value) -> bool {
    is_zero(f, v, false, f.insts@.len())
}

pub open spec fn int_literal(f: Function, v: Value, n: i64) -> bool {
    v.0 < f.insts@.len() && f.inst(v.0 as int).op == Op::ConstI64(n)
}

pub open spec fn float_one(f: Function, v: Value) -> bool {
    v.0 < f.insts@.len() && f.inst(v.0 as int).op == Op::ConstF64(plus_one())
}

pub open spec fn typed_f64(f: Function, v: Value) -> bool {
    v.0 < f.types@.len() && f.types@[v.0 as int] == Ty::F64
}

/// The literal that is neutral under multiplication with `a`.
pub open spec fn is_one(f: Function, a: Value, x: Value) -> bool {
    if typed_f64(f, a) {
        float_one(f, x)
    } else {
        int_literal(f, x, 1)
    }
}

/// How value `v` can be simplified.
pub open spec fn rewrite_of(f: Function, v: int) -> Option<Rewrite> {
    let m = f.inst(v);
    let a = m.args[0];
    let b = m.args[1];
    match m.op {
        Op::Add => if typed_f64(f, a) {
            if neg_zero(f, b) {
                Some(Rewrite::UseExisting(a))
            } else if neg_zero(f, a) {
                Some(Rewrite::UseExisting(b))
            } else {
                None
            }
        } else if int_literal(f, b, 0) {
            Some(Rewrite::UseExisting(a))
        } else if int_literal(f, a, 0) {
            Some(Rewrite::UseExisting(b))
        } else {
            None
        },
        // `x - x` is not zero for a NaN, so only integers cancel.
        Op::Sub => if a == b && typed_f64(f, a) {
            None
        } else if if typed_f64(f, a) {
            pos_zero(f, b)
        } else {
            int_literal(f, b, 0)
        } {
            Some(Rewrite::UseExisting(a))
        } else if a == b {
            Some(Rewrite::BecomeConst(0))
        } else {
            None
        },
        Op::Mul => if !typed_f64(f, a) && int_literal(f, b, 0) {
            Some(Rewrite::UseExisting(b))
        } else if !typed_f64(f, a) && int_literal(f, a, 0) {
            Some(Rewrite::UseExisting(a))
        } else if is_one(f, a, b) {
            Some(Rewrite::UseExisting(a))
        } else if is_one(f, a, a) {
            Some(Rewrite::UseExisting(b))
        } else {
            None
        },
        // `x / x` traps on zero, so it does not become `1`.
        Op::Div => if is_one(f, a, b) {
            Some(Rewrite::UseExisting(a))
        } else {
            None
        },
        Op::And => if a == b {
            Some(Rewrite::UseExisting(a))
        } else {
            None
        },
        Op::Xor => if a == b {
            Some(Rewrite::BecomeConst(0))
        } else {
            None
        },
        Op::Neg => if a.0 < f.insts@.len() && f.inst(a.0 as int).op is Neg {
            Some(Rewrite::UseExisting(f.inst(a.0 as int).args[0]))
        } else {
            None
        },
        _ => None,
    }
}

fn is_f64_zero(f: &Function, v: Value, negative: bool, depth: usize) -> (r: bool)
    ensures
        r == is_zero(*f, v, negative, depth as nat),
    decreases depth,
{
    if v.0 as usize >= f.insts.len() {
        return false;
    }
    match &f.insts[v.0 as usize] {
        Inst::ConstF64(bits) => *bits == if negative {
            0x8000_0000_0000_0000
        } else {
            0
        },
        Inst::Neg(inner) => {
            assert(f.inst(v.0 as int).args[0] == inner);
            depth > 0 && is_f64_zero(f, *inner, !negative, depth - 1)
        },
        _ => false,
    }
}

/// Whether `v` is exactly `-0.0`: a literal with the sign bit set, or a
/// negation of a positive zero through any number of chained negations. The
/// surface language has no negative literals, so `-0.0` arrives as the
/// negation of `0.0`.
pub fn is_f64_neg_zero(f: &Function, v: Value) -> (r: bool)
    ensures
        r == neg_zero(*f, v),
{
    is_f64_zero(f, v, true, f.insts.len())
}

pub fn is_f64_pos_zero(f: &Function, v: Value) -> (r: bool)
    ensures
        r == pos_zero(*f, v),
{
    is_f64_zero(f, v, false, f.insts.len())
}

fn is_i64_literal(f: &Function, v: Value, n: i64) -> (r: bool)
    ensures
        r == int_literal(*f, v, n),
{
    if v.0 as usize >= f.insts.len() {
        return false;
    }
    match &f.insts[v.0 as usize] {
        Inst::ConstI64(m) => *m == n,
        _ => false,
    }
}

fn is_f64_one(f: &Function, v: Value) -> (r: bool)
    ensures
        r == float_one(*f, v),
{
    if v.0 as usize >= f.insts.len() {
        return false;
    }
    match &f.insts[v.0 as usize] {
        Inst::ConstF64(bits) => *bits == 0x3ff0_0000_0000_0000,
        _ => false,
    }
}

fn is_f64(f: &Function, v: Value) -> (r: bool)
    ensures
        r == typed_f64(*f, v),
{
    (v.0 as usize) < f.types.len() && f.types[v.0 as usize] == Ty::F64
}

fn is_one_for(f: &Function, a: Value, x: Value) -> (r: bool)
    ensures
        r == is_one(*f, a, x),
{
    if is_f64(f, a) {
        is_f64_one(f, x)
    } else {
        is_i64_literal(f, x, 1)
    }
}

/// How value `v` can be simplified.
pub fn try_simplify(f: &Function, v: Value) -> (r: Option<Rewrite>)
    requires
        v.0 < f.insts@.len(),
    ensures
        r == rewrite_of(*f, v.0 as int),
{
    let inst: &Inst = &f.insts[v.0 as usize];
    let ghost m = f.inst(v.0 as int);
    match inst {
        Inst::Add(a, b) => {
            assert(m.args[0] == a && m.args[1] == b);
            if is_f64(f, *a) {
                if is_f64_neg_zero(f, *b) {
                    return Some(Rewrite::UseExisting(*a));
                }
                if is_f64_neg_zero(f, *a) {
                    return Some(Rewrite::UseExisting(*b));
                }
            } else {
                if is_i64_literal(f, *b, 0) {
                    return Some(Rewrite::UseExisting(*a));
                }
                if is_i64_literal(f, *a, 0) {
                    return Some(Rewrite::UseExisting(*b));
                }
            }
            None
        },
        Inst::Sub(a, b) => {
            assert(m.args[0] == a && m.args[1] == b);
            let float: bool = is_f64(f, *a);
            if *a == *b && float {
                return None;
            }
            let zero: bool = if float {
                is_f64_pos_zero(f, *b)
            } else {
                is_i64_literal(f, *b, 0)
            };
            if zero {
                return Some(Rewrite::UseExisting(*a));
            }
            if *a == *b {
                return Some(Rewrite::BecomeConst(0));
            }
            None
        },
        Inst::Mul(a, b) => {
            assert(m.args[0] == a && m.args[1] == b);
            if !is_f64(f, *a) {
                if is_i64_literal(f, *b, 0) {
                    return Some(Rewrite::UseExisting(*b));
                }
                if is_i64_literal(f, *a, 0) {
                    return Some(Rewrite::UseExisting(*a));
                }
            }
            if is_one_for(f, *a, *b) {
                return Some(Rewrite::UseExisting(*a));
            }
            if is_one_for(f, *a, *a) {
                return Some(Rewrite::UseExisting(*b));
            }
            None
        },
        Inst::Div(a, b) => {
            assert(m.args[0] == a && m.args[1] == b);
            if is_one_for(f, *a, *b) {
                Some(Rewrite::UseExisting(*a))
            } else {
                None
            }
        },
        Inst::And(a, b) => {
            assert(m.args[0] == a && m.args[1] == b);
            if *a == *b {
                Some(Rewrite::UseExisting(*a))
            } else {
                None
            }
        },
        Inst::Xor(a, b) => {
            assert(m.args[0] == a && m.args[1] == b);
            if *a == *b {
                Some(Rewrite::BecomeConst(0))
            } else {
                None
            }
        },
        Inst::Neg(a) => {
            assert(m.args[0] == a);
            if a.0 as usize >= f.insts.len() {
                return None;
            }
            match &f.insts[a.0 as usize] {
                Inst::Neg(inner) => {
                    assert(f.inst(a.0 as int).args[0] == inner);
                    Some(Rewrite::UseExisting(*inner))
                },
                _ => None,
            }
        },
        _ => None,
    }
}

// ---------------------------------------------------------------------------
// Simplifying keeps what a function computes

/// While a function runs, a zero has its bits.
proof fn lemma_zero_slot(
    f: Function,
    rank: spec_fn(int) -> int,
    b: int,
    k: int,
    vals: Frame,
    prev: Option<Block>,
    args: Seq<RtValue>,
    fs: FloatSem,
    v: Value,
    negative: bool,
    depth: nat,
)
    requires
        inv(f, rank, b, k, vals, prev, args, fs),
        slot(vals, v) is Some,
        is_zero(f, v, negative, depth),
    ensures
        slot(vals, v) == Some(
            RtValue::F64(
                if negative {
                    minus_zero()
                } else {
                    0u64
                },
            ),
        ),
    decreases depth,
{
    let m = f.inst(v.0 as int);
    assert(vals[v.0 as int] is Some);
    assert(eval_inst(m, vals, None, args, fs) == vals[v.0 as int]);
    match m.op {
        Op::Neg => {
            assert(readable(m, vals));
            assert(slot(vals, m.args[0]) is Some);
            lemma_zero_slot(
                f,
                rank,
                b,
                k,
                vals,
                prev,
                args,
                fs,
                m.args[0],
                !negative,
                (depth - 1) as nat,
            );
            assert(0u64 ^ 0x8000_0000_0000_0000u64 == 0x8000_0000_0000_0000u64
                && 0x8000_0000_0000_0000u64 ^ 0x8000_0000_0000_0000u64 == 0u64) by (bit_vector);
            assert(operand_values(m, vals)[0] == slot(vals, m.args[0]).unwrap());
        },
        _ => {},
    }
}

/// While a function runs, a literal has its value.
proof fn lemma_const_slot(
    f: Function,
    rank: spec_fn(int) -> int,
    b: int,
    k: int,
    vals: Frame,
    prev: Option<Block>,
    args: Seq<RtValue>,
    fs: FloatSem,
    v: Value,
)
    requires
        inv(f, rank, b, k, vals, prev, args, fs),
        slot(vals, v) is Some,
    ensures
        f.inst(v.0 as int).op matches Op::ConstI64(n) ==> slot(vals, v) == Some(RtValue::I64(n)),
        f.inst(v.0 as int).op matches Op::ConstF64(n) ==> slot(vals, v) == Some(RtValue::F64(n)),
{
    assert(vals[v.0 as int] is Some);
    assert(f.inst(v.0 as int).op is ConstI64 ==> eval_inst(
        f.inst(v.0 as int),
        vals,
        None,
        args,
        fs,
    ) == vals[v.0 as int]);
}

proof fn lemma_int_identities(x: i64)
    ensures
        wrap(x + 0) == x,
        wrap(x - 0) == x,
        wrap(0 + x) == x,
        wrap(x * 1) == x,
        wrap(1 * x) == x,
        wrap(x * 0) == 0,
        wrap(0 * x) == 0,
        wrap(x - x) == 0,
        quotient(x as int, 1) == x,
        wrap(-wrap(-(x as int))) == x,
        x & x == x,
        x ^ x == 0,
{
    assert(x & x == x && x ^ x == 0) by (bit_vector);
    let k = lemma_wrap_offset(-(x as int));
    lemma_wrap_congruent(-wrap(-(x as int)), x as int, k);
}

/// The value that an instruction is redirected to has the same value.
#[verifier::rlimit(60)]
proof fn lemma_existing_same(
    f: Function,
    v: Value,
    e: Value,
    b: int,
    k: int,
    rank: spec_fn(int) -> int,
    vals: Frame,
    prev: Option<Block>,
    args: Seq<RtValue>,
    fs: FloatSem,
)
    requires
        valid(f),
        before_value(f, v, b, k, rank, vals, prev, args, fs),
        rewrite_of(f, v.0 as int) == Some(Rewrite::UseExisting(e)),
    ensures
        slot(vals, e) is Some,
        same(
            eval_inst(f.inst(v.0 as int), vals, prev, args, fs).unwrap(),
            slot(vals, e).unwrap(),
        ),
{
    assert(f.listed(b)[k] == v);
    assert(inst_ok(f, b, k));
    let m = f.inst(v.0 as int);
    lemma_shape(f, v.0 as int);
    assert(readable(m, vals));
    let a = m.args[0];
    assert(slot(vals, a) is Some);
    let n = f.insts@.len();
    let x = slot(vals, a).unwrap();
    assert(operand_values(m, vals)[0] == x);
    lemma_const_slot(f, rank, b, k, vals, prev, args, fs, a);
    if m.op is Neg {
        let mid = f.inst(a.0 as int);
        lemma_shape(f, a.0 as int);
        assert(vals[a.0 as int] is Some);
        assert(eval_inst(mid, vals, None, args, fs) == vals[a.0 as int]);
        assert(readable(mid, vals));
        assert(slot(vals, mid.args[0]) is Some);
        let y = slot(vals, mid.args[0]).unwrap();
        assert(operand_values(mid, vals)[0] == y);
        match y {
            RtValue::F64(bits) => lemma_negated_bits(bits),
            RtValue::I64(i) => lemma_int_identities(i),
            _ => {},
        }
    } else {
        let c = m.args[1];
        assert(slot(vals, c) is Some);
        let y = slot(vals, c).unwrap();
        assert(operand_values(m, vals)[1] == y);
        assert(eval_inst(m, vals, prev, args, fs) == eval_binary(m.op, x, y, fs));
        lemma_const_slot(f, rank, b, k, vals, prev, args, fs, c);
        if neg_zero(f, c) {
            lemma_zero_slot(f, rank, b, k, vals, prev, args, fs, c, true, n);
        }
        if neg_zero(f, a) {
            lemma_zero_slot(f, rank, b, k, vals, prev, args, fs, a, true, n);
        }
        if pos_zero(f, c) {
            lemma_zero_slot(f, rank, b, k, vals, prev, args, fs, c, false, n);
        }
        match (x, y) {
            (RtValue::I64(i), RtValue::I64(j)) => {
                lemma_int_identities(i);
                lemma_int_identities(j);
            },
            (RtValue::F64(p), RtValue::F64(q)) => {
                assert(same_bits(fs(FloatOp::Add, p, q, 0), fs(FloatOp::Add, q, p, 0)));
                assert(same_bits(fs(FloatOp::Mul, p, q, 0), fs(FloatOp::Mul, q, p, 0)));
                assert(same_bits(fs(FloatOp::Add, p, minus_zero(), 0), p));
                assert(same_bits(fs(FloatOp::Add, q, minus_zero(), 0), q));
                assert(same_bits(fs(FloatOp::Sub, p, 0, 0), p));
                assert(same_bits(fs(FloatOp::Mul, p, plus_one(), 0), p));
                assert(same_bits(fs(FloatOp::Mul, q, plus_one(), 0), q));
                assert(same_bits(fs(FloatOp::Div, p, plus_one(), 0), p));
            },
            _ => {},
        }
    }
}

/// Where a value is redirected, the other is computed before it and has its
/// type.
proof fn lemma_existing_placed(f: Function, v: Value, e: Value)
    requires
        valid(f),
        v.0 < f.insts@.len(),
        rewrite_of(f, v.0 as int) == Some(Rewrite::UseExisting(e)),
    ensures
        may_replace(f, v, e),
{
    let m = f.inst(v.0 as int);
    lemma_shape(f, v.0 as int);
    assert forall|b: int, k: int| #[trigger] def_at(f, v.0 as int, b, k) implies use_ok(
        f,
        e.0 as int,
        b,
        k,
    ) && e.0 < f.types@.len() && f.types@[e.0 as int] == f.types@[v.0 as int] by {
        assert(f.listed(b)[k] == v);
        assert(inst_ok(f, b, k));
        assert(use_ok(f, m.args[0].0 as int, b, k));
        if m.op is Neg {
            let a = m.args[0];
            let mid = f.inst(a.0 as int);
            lemma_shape(f, a.0 as int);
            assert forall|c: int, l: int| #[trigger] def_at(f, a.0 as int, c, l) implies use_ok(
                f,
                e.0 as int,
                c,
                l,
            ) && e.0 < f.types@.len() && f.types@[e.0 as int] == f.types@[a.0 as int] by {
                assert(f.listed(c)[l] == a);
                assert(inst_ok(f, c, l));
                assert(use_ok(f, mid.args[0].0 as int, c, l));
            }
            lemma_use_moves(f, a, e, b, k);
            let (c, l) = choose|c: int, l: int| #[trigger]
                def_at(f, a.0 as int, c, l) && crate::dominance::dom(f, c, b) && (c == b ==> l < k);
            assert(def_at(f, a.0 as int, c, l));
        } else {
            assert(use_ok(f, m.args[1].0 as int, b, k));
        }
    }
}

/// Redirecting one value.
proof fn lemma_redirect_keeps(f: Function, g: Function, v: Value, e: Value, fs: FloatSem)
    requires
        healthy(f),
        v.0 < f.insts@.len(),
        rewrite_of(f, v.0 as int) == Some(Rewrite::UseExisting(e)),
        is_subst(f, g, v, e),
    ensures
        healthy(g),
        refines(f, g, fs),
        xor_on_integers(f) ==> xor_on_integers(g),
{
    lemma_existing_placed(f, v, e);
    assert forall|
        b: int,
        k: int,
        rank: spec_fn(int) -> int,
        vals: Frame,
        prev: Option<Block>,
        args: Seq<RtValue>,
    | #[trigger]
        before_value(f, v, b, k, rank, vals, prev, args, fs) implies slot(vals, e) is Some && same(
        eval_inst(f.inst(v.0 as int), vals, prev, args, fs).unwrap(),
        slot(vals, e).unwrap(),
    ) by {
        lemma_existing_same(f, v, e, b, k, rank, vals, prev, args, fs);
    }
    lemma_shape(f, v.0 as int);
    let m = f.inst(v.0 as int);
    if m.op is Neg {
        lemma_shape(f, m.args[0].0 as int);
        assert(f.inst(m.args[0].0 as int).args[0].0 < f.insts@.len());
    } else {
        assert(f.inst(v.0 as int).args[0].0 < f.insts@.len());
        assert(f.inst(v.0 as int).args[1].0 < f.insts@.len());
    }
    lemma_subst_keeps(f, g, v, e, fs);
    if xor_on_integers(f) {
        assert forall|i: int|
            #![trigger g.inst(i)]
            0 <= i < g.insts@.len() && g.inst(i).op is Xor implies g.types@[i] != Ty::Bool by {
            assert(g.insts@[i]@ == crate::ir::subst_inst(f.insts@[i]@, v, e));
            assert(f.inst(i).op is Xor);
        }
    }
}

/// Turning one value into zero. An exclusive or of a bool with itself would
/// become an integer, so there must be none.
proof fn lemma_zero_keeps(f: Function, g: Function, v: Value, n: i64, fs: FloatSem)
    requires
        tame(f),
        v.0 < f.insts@.len(),
        rewrite_of(f, v.0 as int) == Some(Rewrite::BecomeConst(n)),
        is_updated(f, g, v.0 as int, model0(Op::ConstI64(n))),
    ensures
        healthy(g),
        refines(f, g, fs),
        xor_on_integers(g),
{
    let m = f.inst(v.0 as int);
    let z = model0(Op::ConstI64(n));
    lemma_shape(f, v.0 as int);
    assert forall|b: int, pos: int| #[trigger] def_at(f, v.0 as int, b, pos) implies !(z.op is Phi)
        && inst_ok(g, b, pos) && never_traps(f, b, pos, fs) && update_ok(
        f,
        v.0 as int,
        z,
        b,
        pos,
        fs,
    ) by {
        assert(f.listed(b)[pos] == v);
        assert(inst_ok(f, b, pos));
        assert(!(m.op is Div) && !(m.op is Rem));
        lemma_never_traps(f, b, pos, fs);
        assert(g.listed(b)[pos] == v);
        assert(type_defect(g, v, z) is None);
        assert forall|
            rank: spec_fn(int) -> int,
            vals: Frame,
            prev: Option<Block>,
            args: Seq<RtValue>,
        | #[trigger]
            before_value(f, f.listed(b)[pos], b, pos, rank, vals, prev, args, fs) implies eval_inst(
            z,
            vals,
            prev,
            args,
            fs,
        ) is Some && same(
            eval_inst(m, vals, prev, args, fs).unwrap(),
            eval_inst(z, vals, prev, args, fs).unwrap(),
        ) by {
            assert(readable(m, vals));
            let a = m.args[0];
            assert(slot(vals, a) is Some);
            assert(vals[a.0 as int] is Some);
            let x = slot(vals, a).unwrap();
            assert(value_ty(x) == f.types@[a.0 as int]);
            assert(operand_values(m, vals)[0] == x);
            assert(slot(vals, m.args[1]) is Some);
            assert(operand_values(m, vals)[1] == x);
            match x {
                RtValue::I64(i) => lemma_int_identities(i),
                _ => {},
            }
        }
    }
    lemma_update_keeps(f, g, v.0 as int, z, fs);
    assert forall|i: int|
        #![trigger g.inst(i)]
        0 <= i < g.insts@.len() && g.inst(i).op is Xor implies g.types@[i] != Ty::Bool by {
        if i != v.0 {
            assert(g.insts@[i]@ == f.insts@[i]@);
            assert(f.inst(i).op is Xor);
        }
    }
}

/// `g` is `f` with value `i` simplified.
pub open spec fn simplify_step(f: Function, g: Function, i: int) -> bool {
    match rewrite_of(f, i) {
        Some(Rewrite::UseExisting(e)) => is_subst(f, g, Value(i as u32), e),
        Some(Rewrite::BecomeConst(n)) => is_updated(f, g, i, model0(Op::ConstI64(n))),
        None => g == f,
    }
}

/// Step `i` of `h` simplifies value `i`.
pub open spec fn linked(h: Seq<Function>, i: int) -> bool {
    simplify_step(h[i], h[i + 1], i)
}

/// `h` leads from `f` to `g`, simplifying one value of the table after the
/// other.
pub open spec fn simplify_steps(f: Function, g: Function, h: Seq<Function>) -> bool {
    &&& h.len() == f.insts@.len() + 1
    &&& h[0] == f
    &&& h[h.len() - 1] == g
    &&& forall|i: int| 0 <= i < h.len() - 1 ==> #[trigger] linked(h, i)
}

/// Some value on the way was simplified.
pub open spec fn simplified_any(h: Seq<Function>) -> bool {
    exists|i: int| 0 <= i < h.len() - 1 && #[trigger] simplifies(h, i)
}

pub open spec fn simplifies(h: Seq<Function>, i: int) -> bool {
    rewrite_of(h[i], i) is Some
}

proof fn lemma_extend(h: Seq<Function>, t: Function)
    requires
        h.len() > 0,
        simplify_step(h[h.len() - 1], t, h.len() - 1),
        forall|i: int| 0 <= i < h.len() - 1 ==> #[trigger] linked(h, i),
    ensures
        forall|i: int| 0 <= i < h.len() ==> #[trigger] linked(h.push(t), i),
        simplified_any(h.push(t)) <==> simplified_any(h) || rewrite_of(
            h[h.len() - 1],
            h.len() - 1,
        ) is Some,
{
    let g = h.push(t);
    assert forall|i: int| 0 <= i < h.len() implies #[trigger] linked(g, i) by {
        if i < h.len() - 1 {
            assert(linked(h, i));
            assert(h[i] == g[i] && h[i + 1] == g[i + 1]);
        } else {
            assert(g[i] == h[h.len() - 1]);
            assert(g[i + 1] == t);
        }
    }
    if simplified_any(h) {
        let i = choose|i: int| 0 <= i < h.len() - 1 && #[trigger] simplifies(h, i);
        assert(g[i] == h[i]);
        assert(simplifies(g, i));
    }
    if rewrite_of(h[h.len() - 1], h.len() - 1) is Some {
        assert(g[h.len() - 1] == h[h.len() - 1]);
        assert(simplifies(g, h.len() - 1));
    }
    if simplified_any(g) {
        let i = choose|i: int| 0 <= i < g.len() - 1 && #[trigger] simplifies(g, i);
        assert(g[i] == h[i]);
        if i < h.len() - 1 {
            assert(simplifies(h, i));
        }
    }
}

/// One step keeps the meaning.
proof fn lemma_step_always(f: Function, g: Function, i: int)
    requires
        0 <= i < f.insts@.len() <= u32::MAX,
        simplify_step(f, g, i),
    ensures
        keeps_always(f, g),
{
    let v = Value(i as u32);
    if tame(f) && rewrite_of(f, i) is Some {
        reveal(keeps_always);
        let none = |op: FloatOp, a: u64, b: u64, c: u64| 0u64;
        match rewrite_of(f, i) {
            Some(Rewrite::UseExisting(e)) => {
                assert forall|fs: FloatSem| #[trigger] refines(f, g, fs) by {
                    lemma_redirect_keeps(f, g, v, e, fs);
                }
                lemma_redirect_keeps(f, g, v, e, none);
            },
            Some(Rewrite::BecomeConst(n)) => {
                assert forall|fs: FloatSem| #[trigger] refines(f, g, fs) by {
                    lemma_zero_keeps(f, g, v, n, fs);
                }
                lemma_zero_keeps(f, g, v, n, none);
            },
            None => {},
        }
    } else if tame(f) {
        lemma_always_refl(f);
    } else {
        lemma_always_wild(f, g);
    }
}

impl Pass for AlgebraicSimplify {
    open spec fn ready(&self) -> bool {
        true
    }

    open spec fn keeps_meaning(&self, fs: FloatSem) -> bool {
        true
    }

    open spec fn title(&self) -> Seq<char> {
        "algebraic-simplify"@
    }

    open spec fn does(&self, before: Function, after: Function, changed: bool) -> bool {
        exists|h: Seq<Function>| #[trigger]
            simplify_steps(before, after, h) && (changed <==> simplified_any(h))
    }

    fn name(&self) -> (r: &'static str) {
        "algebraic-simplify"
    }

    fn run(&mut self, f: &mut Function) -> (changed: bool)
        ensures
            exists|h: Seq<Function>|
                #[trigger] simplify_steps(*old(f), *final(f), h) && (changed <==> simplified_any(h)),
    {
        let ghost start = *f;
        let ghost mut h: Seq<Function> = seq![*f];
        let mut changed: bool = false;
        let mut i: usize = 0;
        let ghost n = f.insts@.len();
        proof {
            lemma_always_refl(start);
        }
        while i < f.insts.len()
            invariant
                start == *old(f),
                n == start.insts@.len(),
                n <= u32::MAX,
                f.insts@.len() == n,
                f.blocks@.len() <= u32::MAX,
                i <= n,
                h.len() == i + 1,
                h[0] == start,
                h[i as int] == *f,
                forall|j: int| 0 <= j < h.len() - 1 ==> #[trigger] linked(h, j),
                changed <==> simplified_any(h),
                !changed ==> *f == start,
                keeps_always(start, *f),
            decreases n - i,
        {
            let ghost before = *f;
            let v: Value = Value(i as u32);
            match try_simplify(f, v) {
                Some(Rewrite::UseExisting(existing)) => {
                    replace_value_everywhere(f, v, existing);
                    changed = true;
                },
                Some(Rewrite::BecomeConst(number)) => {
                    f.insts.set(i, Inst::ConstI64(number));
                    changed = true;
                    assert(is_updated(before, *f, i as int, model0(Op::ConstI64(number))));
                },
                None => {},
            }
            proof {
                assert(simplify_step(before, *f, i as int));
                lemma_step_always(before, *f, i as int);
                lemma_always_trans(start, before, *f);
                lemma_extend(h, *f);
                h = h.push(*f);
            }
            i += 1;
        }
        proof {
            reveal(keeps_always);
        }
        assert(simplify_steps(*old(f), *f, h));
        changed
    }
}

} // verus!
