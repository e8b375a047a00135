//! Strength reduction of integer multiplication, division and remainder by a
//! literal power of two:
//!
//! - `x * 2^k` becomes `x << k`
//! - `x / 2^k` becomes `(x + ((x >> 63) & (2^k - 1))) >> k`
//! - `x % 2^k` becomes `x - (q << k)`, with the quotient `q` from the rule
//!   above
//!
//! Truncating division rounds toward zero, while an arithmetic shift rounds
//! toward negative infinity. They disagree for a negative `x`, so `2^k - 1` is
//! added before the shift when `x` is negative: `x >> 63` is all ones exactly
//! then. The remainder is not `x & (2^k - 1)`, which is never negative; it
//! follows from `x == q * 2^k + r`.
use crate::arith::{quotient, remainder, sar64, shl64, wrap};
use crate::dominance::dom;
use crate::float::{FloatOp, FloatSem};
use crate::interp::{
    eval_binary, eval_inst, int_binary, operand_values, readable, slot, Frame, RtValue,
};
use crate::ir::{model0, model2, InstModel, Op};
use crate::ir::{Block, Function, Inst, Ty, Value};
use crate::opt::intcode::{
    code_of, in_tables, int_code, int_inst, is_int_op, is_reduced, lemma_in_tables,
    lemma_int_splice_keeps, lemma_pair_eval, nth, usable, Reduced,
};
use crate::opt::intcode::{nth_value, splice};
use crate::opt::keep::healthy;
use crate::opt::pow2::{lemma_div_is_biased_shift, lemma_rem_from_quotient, lemma_shl_is_mul};
use crate::opt::rewrite::{before_value, padded, run_fresh, splice_agrees};
use crate::opt::simulate::{lemma_refines_trans, may_trap, refines};
use crate::opt::{keeps_always, lemma_always_refl, tame, xor_on_integers, Pass};
use crate::verify::{def_at, inst_ok, use_ok, valid};
use vstd::arithmetic::power2::{
    lemma_pow2_pos, lemma_pow2_strictly_increases, lemma_pow2_unfold, pow2,
};
use vstd::prelude::*;

verus! {

pub struct StrengthReduceShifts;

/// `n` is `2^k` for a `k` that a shift can stand for. `1` and `0` are left to
/// the algebraic rules.
pub open spec fn is_power(n: i64, k: u32) -> bool {
    1 <= k < 63 && n == pow2(k as nat)
}

/// `v` is the literal `2^k`.
pub open spec fn power_literal(f: Function, v: Value, k: u32) -> bool {
    &&& v.0 < f.insts@.len()
    &&& f.inst(v.0 as int).op matches Op::ConstI64(n) && is_power(n, k)
}

/// The exponent of `n`, if it is a power of two.
pub fn power_of_two_k(n: i64) -> (r: Option<u32>)
    ensures
        match r {
            Some(k) => is_power(n, k),
            None => forall|k: u32| !is_power(n, k),
        },
{
    let mut k: u32 = 1;
    let mut p: i64 = 2;
    proof {
        vstd::arithmetic::power2::lemma2_to64();
    }
    while k < 63
        invariant
            1 <= k <= 63,
            k < 63 ==> p == pow2(k as nat),
            forall|j: u32| j < k ==> !is_power(n, j),
        decreases 63 - k,
    {
        if p == n {
            return Some(k);
        }
        proof {
            lemma_pow2_unfold((k + 1) as nat);
            if k < 62 {
                vstd::arithmetic::power2::lemma2_to64_rest();
                if k + 1 < 62 {
                    lemma_pow2_strictly_increases((k + 1) as nat, 62);
                }
            }
        }
        k = k + 1;
        if k < 63 {
            p = p * 2;
        }
    }
    None
}

fn const_pow2_k(f: &Function, v: Value) -> (r: Option<u32>)
    ensures
        match r {
            Some(k) => power_literal(*f, v, k),
            None => forall|k: u32| !power_literal(*f, v, k),
        },
{
    if v.0 as usize >= f.insts.len() {
        return None;
    }
    match &f.insts[v.0 as usize] {
        Inst::ConstI64(n) => power_of_two_k(*n),
        _ => None,
    }
}

pub open spec fn int_const(n: int) -> InstModel {
    model0(Op::ConstI64(n as i64))
}

/// The sign fix-up shared by quotient and remainder: `x` with `2^k - 1` added
/// if it is negative, and `k`. The instructions get the numbers from `n` on.
pub open spec fn bias_code(x: Value, k: u32, n: int) -> Seq<InstModel> {
    seq![
        int_const(63),
        model2(Op::Sar, x, nth(n, 0)),
        int_const(pow2(k as nat) - 1),
        model2(Op::And, nth(n, 1), nth(n, 2)),
        model2(Op::Add, x, nth(n, 3)),
        int_const(k as int),
    ]
}

pub open spec fn reduced_mul(x: Value, k: u32, n: int) -> Reduced {
    Reduced { code: seq![int_const(k as int)], last: model2(Op::Shl, x, nth(n, 0)) }
}

pub open spec fn reduced_div(x: Value, k: u32, n: int) -> Reduced {
    Reduced { code: bias_code(x, k, n), last: model2(Op::Sar, nth(n, 4), nth(n, 5)) }
}

pub open spec fn reduced_rem(x: Value, k: u32, n: int) -> Reduced {
    Reduced {
        code: bias_code(x, k, n).push(model2(Op::Sar, nth(n, 4), nth(n, 5))).push(
            model2(Op::Shl, nth(n, 6), nth(n, 5)),
        ),
        last: model2(Op::Sub, x, nth(n, 7)),
    }
}

/// `r` is what value `v` is reduced to. A product looks at its second factor
/// first.
pub open spec fn is_reduction(f: Function, v: int, r: Reduced) -> bool {
    let m = f.inst(v);
    let n = f.insts@.len() as int;
    let a = m.args[0];
    let b = m.args[1];
    match m.op {
        Op::Mul => (exists|k: u32| #[trigger] power_literal(f, b, k) && r == reduced_mul(a, k, n))
            || ((forall|k: u32| !power_literal(f, b, k)) && exists|k: u32| #[trigger]
            power_literal(f, a, k) && r == reduced_mul(b, k, n)),
        Op::Div => exists|k: u32| #[trigger] power_literal(f, b, k) && r == reduced_div(a, k, n),
        Op::Rem => exists|k: u32| #[trigger] power_literal(f, b, k) && r == reduced_rem(a, k, n),
        _ => false,
    }
}

/// There is room for the numbers of the new values.
pub open spec fn has_room(f: Function) -> bool {
    f.insts@.len() + 8 <= u32::MAX
}

fn power_minus_one(k: u32) -> (r: i64)
    requires
        1 <= k < 63,
    ensures
        r == pow2(k as nat) - 1,
{
    let mut p: i64 = 2;
    let mut j: u32 = 1;
    proof {
        vstd::arithmetic::power2::lemma2_to64();
        vstd::arithmetic::power2::lemma2_to64_rest();
    }
    while j < k
        invariant
            1 <= j <= k < 63,
            p == pow2(j as nat),
            pow2(62) == 0x4000000000000000,
        decreases k - j,
    {
        proof {
            lemma_pow2_unfold((j + 1) as nat);
            if j + 1 < 62 {
                lemma_pow2_strictly_increases((j + 1) as nat, 62);
            }
        }
        p = p * 2;
        j = j + 1;
    }
    proof {
        lemma_pow2_pos(k as nat);
    }
    p - 1
}

/// The sign fix-up of a division by `2^k`.
fn emit_div_bias(x: Value, k: u32, n: usize) -> (r: Vec<Inst>)
    requires
        1 <= k < 63,
        n + 8 <= u32::MAX,
    ensures
        code_of(r@) == bias_code(x, k, n as int),
{
    let mut code: Vec<Inst> = Vec::new();
    code.push(Inst::ConstI64(63));
    code.push(Inst::Sar(x, nth_value(n, 0)));
    code.push(Inst::ConstI64(power_minus_one(k)));
    code.push(Inst::And(nth_value(n, 1), nth_value(n, 2)));
    code.push(Inst::Add(x, nth_value(n, 3)));
    code.push(Inst::ConstI64(k as i64));
    assert(code_of(code@) =~= bias_code(x, k, n as int));
    code
}

fn mul_pow2(f: &Function, a: Value, b: Value) -> (r: Option<(Vec<Inst>, Inst)>)
    requires
        has_room(*f),
    ensures
        match r {
            Some((code, last)) => {
                let red = Reduced { code: code_of(code@), last: last@ };
                let n = f.insts@.len() as int;
                (exists|k: u32| #[trigger] power_literal(*f, b, k) && red == reduced_mul(a, k, n))
                    || ((forall|k: u32| !power_literal(*f, b, k)) && exists|k: u32| #[trigger]
                    power_literal(*f, a, k) && red == reduced_mul(b, k, n))
            },
            None => forall|k: u32| !power_literal(*f, a, k) && !power_literal(*f, b, k),
        },
{
    let n: usize = f.insts.len();
    let (x, k): (Value, u32) = match const_pow2_k(f, b) {
        Some(k) => (a, k),
        None => match const_pow2_k(f, a) {
            Some(k) => (b, k),
            None => return None,
        },
    };
    let mut code: Vec<Inst> = Vec::new();
    code.push(Inst::ConstI64(k as i64));
    let last: Inst = Inst::Shl(x, nth_value(n, 0));
    proof {
        let red = Reduced { code: code_of(code@), last: last@ };
        assert(red.code =~= reduced_mul(x, k, n as int).code);
        assert(red == reduced_mul(x, k, n as int));
    }
    Some((code, last))
}

fn div_pow2(f: &Function, a: Value, b: Value) -> (r: Option<(Vec<Inst>, Inst)>)
    requires
        has_room(*f),
    ensures
        match r {
            Some((code, last)) => {
                let red = Reduced { code: code_of(code@), last: last@ };
                exists|k: u32| #[trigger]
                    power_literal(*f, b, k) && red == reduced_div(a, k, f.insts@.len() as int)
            },
            None => forall|k: u32| !power_literal(*f, b, k),
        },
{
    let n: usize = f.insts.len();
    let k: u32 = match const_pow2_k(f, b) {
        Some(k) => k,
        None => return None,
    };
    let code: Vec<Inst> = emit_div_bias(a, k, n);
    let last: Inst = Inst::Sar(nth_value(n, 4), nth_value(n, 5));
    proof {
        let red = Reduced { code: code_of(code@), last: last@ };
        assert(red == reduced_div(a, k, n as int));
    }
    Some((code, last))
}

fn rem_pow2(f: &Function, a: Value, b: Value) -> (r: Option<(Vec<Inst>, Inst)>)
    requires
        has_room(*f),
    ensures
        match r {
            Some((code, last)) => {
                let red = Reduced { code: code_of(code@), last: last@ };
                exists|k: u32| #[trigger]
                    power_literal(*f, b, k) && red == reduced_rem(a, k, f.insts@.len() as int)
            },
            None => forall|k: u32| !power_literal(*f, b, k),
        },
{
    let n: usize = f.insts.len();
    let k: u32 = match const_pow2_k(f, b) {
        Some(k) => k,
        None => return None,
    };
    let mut code: Vec<Inst> = emit_div_bias(a, k, n);
    let ghost code0 = code@;
    code.push(Inst::Sar(nth_value(n, 4), nth_value(n, 5)));
    code.push(Inst::Shl(nth_value(n, 6), nth_value(n, 5)));
    let last: Inst = Inst::Sub(a, nth_value(n, 7));
    proof {
        let red = Reduced { code: code_of(code@), last: last@ };
        assert(code_of(code@) =~= code_of(code0).push(code@[6]@).push(code@[7]@));
        assert(red == reduced_rem(a, k, n as int));
    }
    Some((code, last))
}

/// What value `v` is reduced to.
pub fn try_reduce(f: &Function, v: Value) -> (r: Option<(Vec<Inst>, Inst)>)
    requires
        v.0 < f.insts@.len(),
        has_room(*f),
    ensures
        match r {
            Some((code, last)) => is_reduction(
                *f,
                v.0 as int,
                Reduced { code: code_of(code@), last: last@ },
            ),
            None => forall|r: Reduced| !is_reduction(*f, v.0 as int, r),
        },
{
    let ghost m = f.inst(v.0 as int);
    match &f.insts[v.0 as usize] {
        Inst::Mul(a, b) => {
            assert(m.args[0] == a && m.args[1] == b);
            mul_pow2(f, *a, *b)
        },
        Inst::Div(a, b) => {
            assert(m.args[0] == a && m.args[1] == b);
            div_pow2(f, *a, *b)
        },
        Inst::Rem(a, b) => {
            assert(m.args[0] == a && m.args[1] == b);
            rem_pow2(f, *a, *b)
        },
        _ => None,
    }
}

// ---------------------------------------------------------------------------
// The reduced code is well-formed

proof fn lemma_reductions_int(x: Value, k: u32, n: int)
    requires
        1 <= k < 63,
        0 <= n,
        n + 8 <= u32::MAX,
    ensures
        int_code(reduced_mul(x, k, n), set![x], n),
        int_code(reduced_div(x, k, n), set![x], n),
        int_code(reduced_rem(x, k, n), set![x], n),
{
    let c = bias_code(x, k, n);
    assert(int_inst(c[0], set![x], n, 0));
    assert(int_inst(c[1], set![x], n, 1));
    assert(int_inst(c[2], set![x], n, 2));
    assert(int_inst(c[3], set![x], n, 3));
    assert(int_inst(c[4], set![x], n, 4));
    assert(int_inst(c[5], set![x], n, 5));
    let d = reduced_rem(x, k, n).code;
    assert forall|i: int| #![trigger d[i]] 0 <= i < d.len() implies int_inst(d[i], set![x], n, i) by {
        if i < 6 {
            assert(d[i] == c[i]);
        }
    }
}

// ---------------------------------------------------------------------------
// The reduced code computes the same

proof fn lemma_fresh_const(
    g: Function,
    n: int,
    i: int,
    start: Frame,
    e: Frame,
    c: i64,
    args: Seq<RtValue>,
    fs: FloatSem,
)
    requires
        0 <= i,
        run_fresh(g, n, i, start, args, fs) == Some(e),
        g.inst(n + i) == model0(Op::ConstI64(c)),
    ensures
        run_fresh(g, n, i + 1, start, args, fs) == Some(e.update(n + i, Some(RtValue::I64(c)))),
{
}

proof fn lemma_fresh_pair(
    g: Function,
    n: int,
    i: int,
    start: Frame,
    e: Frame,
    op: Op,
    a: Value,
    b: Value,
    p: i64,
    q: i64,
    args: Seq<RtValue>,
    fs: FloatSem,
)
    requires
        0 <= i,
        run_fresh(g, n, i, start, args, fs) == Some(e),
        g.inst(n + i) == model2(op, a, b),
        is_int_op(op),
        slot(e, a) == Some(RtValue::I64(p)),
        slot(e, b) == Some(RtValue::I64(q)),
    ensures
        run_fresh(g, n, i + 1, start, args, fs) == Some(
            e.update(n + i, Some(RtValue::I64(int_binary(op, p, q).unwrap()))),
        ),
{
    lemma_pair_eval(op, a, b, p, q, e, None, args, fs);
}

/// The frame after the sign fix-up.
proof fn lemma_bias_runs(
    g: Function,
    n: int,
    count: int,
    vals: Frame,
    x: Value,
    xv: i64,
    k: u32,
    power: i64,
    args: Seq<RtValue>,
    fs: FloatSem,
) -> (e: Frame)
    requires
        vals.len() == n,
        6 <= count <= 8,
        0 <= n,
        n + 8 <= u32::MAX,
        is_power(power, k),
        slot(vals, x) == Some(RtValue::I64(xv)),
        forall|i: int| #![trigger g.inst(n + i)] 0 <= i < 6 ==> g.inst(n + i) == bias_code(x, k, n)[i],
    ensures
        run_fresh(g, n, 6, padded(vals, count), args, fs) == Some(e),
        e.len() == n + count,
        slot(e, x) == Some(RtValue::I64(xv)),
        slot(e, nth(n, 4)) == Some(
            RtValue::I64(wrap(xv + (sar64(xv, 63) & ((power - 1) as i64)))),
        ),
        slot(e, nth(n, 5)) == Some(RtValue::I64(k as i64)),
{
    let e0 = padded(vals, count);
    let code = bias_code(x, k, n);
    assert(run_fresh(g, n, 0, e0, args, fs) == Some(e0));
    assert(slot(e0, x) == Some(RtValue::I64(xv)));
    assert(g.inst(n + 0) == code[0]);
    lemma_fresh_const(g, n, 0, e0, e0, 63, args, fs);
    let e1 = e0.update(n + 0, Some(RtValue::I64(63)));
    assert(g.inst(n + 1) == code[1]);
    lemma_fresh_pair(g, n, 1, e0, e1, Op::Sar, x, nth(n, 0), xv, 63, args, fs);
    let sign = sar64(xv, 63);
    let e2 = e1.update(n + 1, Some(RtValue::I64(sign)));
    assert(g.inst(n + 2) == code[2]);
    let mask = (power - 1) as i64;
    lemma_fresh_const(g, n, 2, e0, e2, mask, args, fs);
    let e3 = e2.update(n + 2, Some(RtValue::I64(mask)));
    assert(g.inst(n + 3) == code[3]);
    lemma_fresh_pair(g, n, 3, e0, e3, Op::And, nth(n, 1), nth(n, 2), sign, mask, args, fs);
    let bias = sign & mask;
    let e4 = e3.update(n + 3, Some(RtValue::I64(bias)));
    assert(g.inst(n + 4) == code[4]);
    lemma_fresh_pair(g, n, 4, e0, e4, Op::Add, x, nth(n, 3), xv, bias, args, fs);
    let biased = wrap(xv + bias);
    let e5 = e4.update(n + 4, Some(RtValue::I64(biased)));
    assert(g.inst(n + 5) == code[5]);
    lemma_fresh_const(g, n, 5, e0, e5, k as i64, args, fs);
    e5.update(n + 5, Some(RtValue::I64(k as i64)))
}

/// What the instruction `last` computes after the `count` new instructions.
spec fn code_yields(
    g: Function,
    n: int,
    count: int,
    last: InstModel,
    vals: Frame,
    prev: Option<Block>,
    args: Seq<RtValue>,
    fs: FloatSem,
) -> Option<RtValue> {
    match run_fresh(g, n, count, padded(vals, count), args, fs) {
        None => None,
        Some(w) => eval_inst(last, w, prev, args, fs),
    }
}

/// The new instructions of `g` are `code`.
spec fn has_code(g: Function, n: int, code: Seq<InstModel>) -> bool {
    forall|i: int| #![trigger code[i]] 0 <= i < code.len() ==> g.inst(n + i) == code[i]
}

proof fn lemma_mul_runs(
    g: Function,
    n: int,
    vals: Frame,
    x: Value,
    xv: i64,
    k: u32,
    power: i64,
    prev: Option<Block>,
    args: Seq<RtValue>,
    fs: FloatSem,
)
    requires
        vals.len() == n,
        0 <= n,
        n + 8 <= u32::MAX,
        is_power(power, k),
        slot(vals, x) == Some(RtValue::I64(xv)),
        has_code(g, n, reduced_mul(x, k, n).code),
    ensures
        code_yields(g, n, 1, reduced_mul(x, k, n).last, vals, prev, args, fs) == Some(
            RtValue::I64(wrap(xv * power)),
        ),
{
    let code = reduced_mul(x, k, n).code;
    let e0 = padded(vals, 1);
    assert(slot(e0, x) == Some(RtValue::I64(xv)));
    assert(run_fresh(g, n, 0, e0, args, fs) == Some(e0));
    assert(code[0] == int_const(k as int));
    assert(g.inst(n + 0) == code[0]);
    lemma_fresh_const(g, n, 0, e0, e0, k as i64, args, fs);
    let e1 = e0.update(n + 0, Some(RtValue::I64(k as i64)));
    lemma_pair_eval(Op::Shl, x, nth(n, 0), xv, k as i64, e1, prev, args, fs);
    lemma_shl_is_mul(xv, k as i64);
}

proof fn lemma_div_runs(
    g: Function,
    n: int,
    vals: Frame,
    x: Value,
    xv: i64,
    k: u32,
    power: i64,
    prev: Option<Block>,
    args: Seq<RtValue>,
    fs: FloatSem,
)
    requires
        vals.len() == n,
        0 <= n,
        n + 8 <= u32::MAX,
        is_power(power, k),
        slot(vals, x) == Some(RtValue::I64(xv)),
        has_code(g, n, reduced_div(x, k, n).code),
    ensures
        code_yields(g, n, 6, reduced_div(x, k, n).last, vals, prev, args, fs) == Some(
            RtValue::I64(wrap(quotient(xv as int, power as int))),
        ),
{
    let code = reduced_div(x, k, n).code;
    assert forall|i: int| #![trigger g.inst(n + i)] 0 <= i < 6 implies g.inst(n + i) == bias_code(
        x,
        k,
        n,
    )[i] by {
        assert(g.inst(n + i) == code[i]);
    }
    let e = lemma_bias_runs(g, n, 6, vals, x, xv, k, power, args, fs);
    lemma_div_is_biased_shift(xv, k as i64, power);
    let biased = wrap(xv + (sar64(xv, 63) & ((power - 1) as i64)));
    lemma_pair_eval(Op::Sar, nth(n, 4), nth(n, 5), biased, k as i64, e, prev, args, fs);
}

proof fn lemma_rem_runs(
    g: Function,
    n: int,
    vals: Frame,
    x: Value,
    xv: i64,
    k: u32,
    power: i64,
    prev: Option<Block>,
    args: Seq<RtValue>,
    fs: FloatSem,
)
    requires
        vals.len() == n,
        0 <= n,
        n + 8 <= u32::MAX,
        is_power(power, k),
        slot(vals, x) == Some(RtValue::I64(xv)),
        has_code(g, n, reduced_rem(x, k, n).code),
    ensures
        code_yields(g, n, 8, reduced_rem(x, k, n).last, vals, prev, args, fs) == Some(
            RtValue::I64(wrap(remainder(xv as int, power as int))),
        ),
{
    let code = reduced_rem(x, k, n).code;
    assert forall|i: int| #![trigger g.inst(n + i)] 0 <= i < 6 implies g.inst(n + i) == bias_code(
        x,
        k,
        n,
    )[i] by {
        assert(g.inst(n + i) == code[i]);
    }
    let e0 = padded(vals, 8);
    let e = lemma_bias_runs(g, n, 8, vals, x, xv, k, power, args, fs);
    lemma_div_is_biased_shift(xv, k as i64, power);
    let biased = wrap(xv + (sar64(xv, 63) & ((power - 1) as i64)));
    let q = sar64(biased, k as i64);
    assert(g.inst(n + 6) == code[6]);
    assert(g.inst(n + 7) == code[7]);
    lemma_fresh_pair(
        g,
        n,
        6,
        e0,
        e,
        Op::Sar,
        nth(n, 4),
        nth(n, 5),
        biased,
        k as i64,
        args,
        fs,
    );
    let e7 = e.update(n + 6, Some(RtValue::I64(q)));
    assert(slot(e7, nth(n, 5)) == Some(RtValue::I64(k as i64)));
    lemma_fresh_pair(g, n, 7, e0, e7, Op::Shl, nth(n, 6), nth(n, 5), q, k as i64, args, fs);
    let shifted = shl64(q, k as i64);
    let e8 = e7.update(n + 7, Some(RtValue::I64(shifted)));
    assert(slot(e8, x) == Some(RtValue::I64(xv)));
    lemma_pair_eval(Op::Sub, x, nth(n, 7), xv, shifted, e8, prev, args, fs);
    lemma_rem_from_quotient(xv, k as i64, power, q);
}

/// `r` is what `m`, which has the operands `x` and the literal `y`, becomes.
spec fn reduces_to(m: InstModel, x: Value, y: Value, k: u32, n: int, r: Reduced) -> bool {
    ||| m == model2(Op::Mul, x, y) && r == reduced_mul(x, k, n)
    ||| m == model2(Op::Mul, y, x) && r == reduced_mul(x, k, n)
    ||| m == model2(Op::Div, x, y) && r == reduced_div(x, k, n)
    ||| m == model2(Op::Rem, x, y) && r == reduced_rem(x, k, n)
}

/// What such an instruction computes, in terms of its operands.
proof fn lemma_operand_integers(
    m: InstModel,
    x: Value,
    y: Value,
    k: u32,
    n: int,
    r: Reduced,
    power: i64,
    vals: Frame,
    prev: Option<Block>,
    args: Seq<RtValue>,
    fs: FloatSem,
) -> (xv: i64)
    requires
        reduces_to(m, x, y, k, n, r),
        is_power(power, k),
        eval_inst(m, vals, prev, args, fs) is Some,
        slot(vals, y) is Some ==> slot(vals, y) == Some(RtValue::I64(power)),
    ensures
        slot(vals, x) == Some(RtValue::I64(xv)),
        m.op is Mul ==> eval_inst(m, vals, prev, args, fs) == Some(
            RtValue::I64(wrap(xv * power)),
        ),
        m.op is Div ==> eval_inst(m, vals, prev, args, fs) == Some(
            RtValue::I64(wrap(quotient(xv as int, power as int))),
        ),
        m.op is Rem ==> eval_inst(m, vals, prev, args, fs) == Some(
            RtValue::I64(wrap(remainder(xv as int, power as int))),
        ),
{
    assert(readable(m, vals));
    assert(m.args.len() == 2);
    assert(slot(vals, m.args[0]) is Some);
    assert(slot(vals, m.args[1]) is Some);
    assert(slot(vals, y) == Some(RtValue::I64(power)));
    let vs = operand_values(m, vals);
    assert(vs[0] == slot(vals, m.args[0]).unwrap());
    assert(vs[1] == slot(vals, m.args[1]).unwrap());
    assert(eval_binary(m.op, vs[0], vs[1], fs) is Some);
    let xr = slot(vals, x).unwrap();
    assert(xr is I64);
    let xv = xr->I64_0;
    assert(xv * power == power * xv) by (nonlinear_arith);
    xv
}

/// What a running function holds for a literal.
proof fn lemma_power_slot(
    f: Function,
    y: Value,
    k: u32,
    v0: Value,
    b: int,
    pos: int,
    rank: spec_fn(int) -> int,
    vals: Frame,
    prev: Option<Block>,
    args: Seq<RtValue>,
    fs: FloatSem,
)
    requires
        power_literal(f, y, k),
        before_value(f, v0, b, pos, rank, vals, prev, args, fs),
    ensures
        vals.len() == f.insts@.len(),
        slot(vals, y) is Some ==> slot(vals, y) == Some(
            RtValue::I64(f.inst(y.0 as int).op->ConstI64_0),
        ),
        eval_inst(f.inst(v0.0 as int), vals, prev, args, fs) is Some,
{
    if slot(vals, y) is Some {
        assert(vals[y.0 as int] is Some);
        assert(eval_inst(f.inst(y.0 as int), vals, None, args, fs) == vals[y.0 as int]);
    }
}

proof fn lemma_has_code(f: Function, g: Function, b: int, pos: int, r: Reduced)
    requires
        is_reduced(f, g, b, pos, r),
    ensures
        has_code(g, f.insts@.len() as int, r.code),
        g.inst(f.listed(b)[pos].0 as int) == r.last,
{
}

/// The reduced code computes what the instruction computed.
proof fn lemma_reduced_core(
    f: Function,
    g: Function,
    v0: Value,
    r: Reduced,
    x: Value,
    y: Value,
    k: u32,
    power: i64,
    vals: Frame,
    prev: Option<Block>,
    args: Seq<RtValue>,
    fs: FloatSem,
)
    requires
        has_room(f),
        has_code(g, f.insts@.len() as int, r.code),
        g.inst(v0.0 as int) == r.last,
        vals.len() == f.insts@.len(),
        is_power(power, k),
        slot(vals, y) is Some ==> slot(vals, y) == Some(RtValue::I64(power)),
        eval_inst(f.inst(v0.0 as int), vals, prev, args, fs) is Some,
        reduces_to(f.inst(v0.0 as int), x, y, k, f.insts@.len() as int, r),
    ensures
        splice_agrees(f, g, v0, r.code.len() as int, vals, prev, args, fs),
{
    let n = f.insts@.len() as int;
    let m = f.inst(v0.0 as int);
    let xv = lemma_operand_integers(m, x, y, k, n, r, power, vals, prev, args, fs);
    match m.op {
        Op::Mul => {
            lemma_mul_runs(g, n, vals, x, xv, k, power, prev, args, fs);
        },
        Op::Div => {
            lemma_div_runs(g, n, vals, x, xv, k, power, prev, args, fs);
        },
        _ => {
            lemma_rem_runs(g, n, vals, x, xv, k, power, prev, args, fs);
        },
    }
}

/// The operands of a value that is reduced: the literal, and the other one.
proof fn lemma_reduction_operands(f: Function, b: int, pos: int, r: Reduced) -> (w: (
    Value,
    Value,
    u32,
))
    requires
        valid(f),
        0 <= b < f.blocks@.len(),
        0 <= pos < f.listed(b).len(),
        is_reduction(f, f.listed(b)[pos].0 as int, r),
    ensures
        power_literal(f, w.1, w.2),
        reduces_to(
            f.inst(f.listed(b)[pos].0 as int),
            w.0,
            w.1,
            w.2,
            f.insts@.len() as int,
            r,
        ),
        use_ok(f, w.0.0 as int, b, pos),
        w.0.0 < f.types@.len(),
        f.types@[w.0.0 as int] == Ty::I64,
        f.types@[f.listed(b)[pos].0 as int] == Ty::I64,
{
    let n = f.insts@.len() as int;
    let v0 = f.listed(b)[pos];
    let m = f.inst(v0.0 as int);
    assert(inst_ok(f, b, pos));
    assert(m.args.len() == 2);
    assert(m.args =~= seq![m.args[0], m.args[1]]);
    assert(use_ok(f, m.args[0].0 as int, b, pos));
    assert(use_ok(f, m.args[1].0 as int, b, pos));
    let in_second = m.op !is Mul || exists|k: u32| #[trigger]
        power_literal(f, m.args[1], k) && r == reduced_mul(m.args[0], k, n);
    let x = if in_second {
        m.args[0]
    } else {
        m.args[1]
    };
    let y = if in_second {
        m.args[1]
    } else {
        m.args[0]
    };
    let k = choose|k: u32| #[trigger] power_literal(f, y, k) && reduces_to(m, x, y, k, n, r);
    assert(m == model2(m.op, m.args[0], m.args[1]));
    assert(exists|k: u32| #[trigger] power_literal(f, y, k) && reduces_to(m, x, y, k, n, r));
    // The literal is an integer, so everything is.
    let (c, l) = choose|c: int, l: int| #[trigger]
        def_at(f, y.0 as int, c, l) && dom(f, c, b) && (c == b ==> l < pos);
    assert(f.listed(c)[l] == y);
    assert(inst_ok(f, c, l));
    assert(f.types@[y.0 as int] == Ty::I64);
    (x, y, k)
}

/// What is reduced divides by a power of two, if it divides at all.
proof fn lemma_reduction_safe(f: Function, v: int, r: Reduced)
    requires
        is_reduction(f, v, r),
    ensures
        !may_trap(f, v),
{
    let m = f.inst(v);
    match m.op {
        Op::Div => {
            let k = choose|k: u32| #[trigger] power_literal(f, m.args[1], k);
            assert(power_literal(f, m.args[1], k));
            lemma_pow2_pos(k as nat);
        },
        Op::Rem => {
            let k = choose|k: u32| #[trigger] power_literal(f, m.args[1], k);
            assert(power_literal(f, m.args[1], k));
            lemma_pow2_pos(k as nat);
        },
        _ => {},
    }
}

/// Reducing one value.
pub proof fn lemma_reduce_keeps(
    f: Function,
    g: Function,
    b: int,
    pos: int,
    r: Reduced,
    fs: FloatSem,
)
    requires
        healthy(f),
        has_room(f),
        0 <= b < f.blocks@.len(),
        0 <= pos < f.listed(b).len(),
        is_reduction(f, f.listed(b)[pos].0 as int, r),
        is_reduced(f, g, b, pos, r),
    ensures
        healthy(g),
        refines(f, g, fs),
        xor_on_integers(f) ==> xor_on_integers(g),
{
    let n = f.insts@.len() as int;
    let v0 = f.listed(b)[pos];
    let count = r.code.len() as int;
    let (x, y, k) = lemma_reduction_operands(f, b, pos, r);
    lemma_reductions_int(x, k, n);
    assert(usable(f, set![x], b, pos));
    assert forall|
        rank: spec_fn(int) -> int,
        vals: Frame,
        prev: Option<Block>,
        args: Seq<RtValue>,
    | #[trigger]
        before_value(f, v0, b, pos, rank, vals, prev, args, fs) implies splice_agrees(
        f,
        g,
        v0,
        count,
        vals,
        prev,
        args,
        fs,
    ) by {
        lemma_power_slot(f, y, k, v0, b, pos, rank, vals, prev, args, fs);
        lemma_has_code(f, g, b, pos, r);
        let power = f.inst(y.0 as int).op->ConstI64_0;
        lemma_reduced_core(f, g, v0, r, x, y, k, power, vals, prev, args, fs);
    }
    lemma_reduction_safe(f, v0.0 as int, r);
    lemma_int_splice_keeps(f, g, b, pos, r, set![x], fs);
}

// ---------------------------------------------------------------------------
// The pass

/// The place `pos` of block `b` holds a value that can be reduced.
pub open spec fn reducible(f: Function, b: int, pos: int) -> bool {
    &&& pos < f.listed(b).len()
    &&& has_room(f)
    &&& exists|r: Reduced| #[trigger] is_reduction(f, f.listed(b)[pos].0 as int, r)
}

/// The pass has come to place `pos` of block `b`.
pub struct Spot {
    pub f: Function,
    pub b: int,
    pub pos: int,
}

/// `r` was reduced at the place `s`, and the pass went on behind it.
pub open spec fn reduced_at(s: Spot, t: Spot, r: Reduced) -> bool {
    &&& is_reduction(s.f, s.f.listed(s.b)[s.pos].0 as int, r)
    &&& is_reduced(s.f, t.f, s.b, s.pos, r)
    &&& t.b == s.b
    &&& t.pos == s.pos + r.code.len() + 1
}

/// The pass takes each place in turn.
pub open spec fn reduce_step(s: Spot, t: Spot) -> bool {
    if s.pos >= s.f.listed(s.b).len() {
        t == Spot { f: s.f, b: s.b + 1, pos: 0 }
    } else if reducible(s.f, s.b, s.pos) {
        exists|r: Reduced| reduced_at(s, t, r)
    } else {
        t == Spot { f: s.f, b: s.b, pos: s.pos + 1 }
    }
}

/// `h` leads from `f` to `g`, through all places of all blocks.
pub open spec fn reduce_steps(f: Function, g: Function, h: Seq<Spot>) -> bool {
    &&& h.len() > 0
    &&& h[0] == Spot { f, b: 0, pos: 0 }
    &&& h[h.len() - 1].f == g
    &&& h[h.len() - 1].b == f.blocks@.len()
    &&& forall|i: int| #![trigger h[i]] 0 < i < h.len() ==> reduce_step(h[i - 1], h[i])
    &&& forall|i: int| #![trigger h[i]] 0 <= i < h.len() - 1 ==> 0 <= h[i].b < f.blocks@.len()
}

/// Some place on the way held a value that could be reduced.
pub open spec fn reduced_any(h: Seq<Spot>) -> bool {
    exists|i: int|
        #![trigger h[i]]
        0 <= i < h.len() - 1 && reducible(h[i].f, h[i].b, h[i].pos)
}

proof fn lemma_extend_steps(h: Seq<Spot>, t: Spot)
    requires
        h.len() > 0,
        reduce_step(h[h.len() - 1], t),
        forall|i: int| #![trigger h[i]] 0 < i < h.len() ==> reduce_step(h[i - 1], h[i]),
    ensures
        forall|i: int|
            #![trigger h.push(t)[i]]
            0 < i <= h.len() ==> reduce_step(h.push(t)[i - 1], h.push(t)[i]),
        reduced_any(h.push(t)) <==> reduced_any(h) || reducible(
            h[h.len() - 1].f,
            h[h.len() - 1].b,
            h[h.len() - 1].pos,
        ),
{
    let g = h.push(t);
    assert forall|i: int| #![trigger g[i]] 0 < i <= h.len() implies reduce_step(g[i - 1], g[i]) by {
        if i < h.len() {
            assert(h[i] == g[i] && h[i - 1] == g[i - 1]);
        } else {
            assert(g[i - 1] == h[h.len() - 1]);
        }
    }
    if reduced_any(h) {
        let i = choose|i: int|
            #![trigger h[i]]
            0 <= i < h.len() - 1 && reducible(h[i].f, h[i].b, h[i].pos);
        assert(g[i] == h[i]);
    }
    if reducible(h[h.len() - 1].f, h[h.len() - 1].b, h[h.len() - 1].pos) {
        assert(g[h.len() - 1] == h[h.len() - 1]);
    }
    if reduced_any(g) {
        let i = choose|i: int|
            #![trigger g[i]]
            0 <= i < g.len() - 1 && reducible(g[i].f, g[i].b, g[i].pos);
        assert(g[i] == h[i]);
    }
}

proof fn lemma_always_reduce(f: Function, g: Function, k: Function, b: int, pos: int, r: Reduced)
    requires
        keeps_always(f, g),
        has_room(g),
        0 <= b < g.blocks@.len(),
        0 <= pos < g.listed(b).len(),
        is_reduction(g, g.listed(b)[pos].0 as int, r),
        is_reduced(g, k, b, pos, r),
    ensures
        keeps_always(f, k),
{
    reveal(keeps_always);
    if tame(f) {
        assert forall|fs: FloatSem| #[trigger] refines(f, k, fs) by {
            lemma_reduce_keeps(g, k, b, pos, r, fs);
            assert(refines(f, g, fs));
            lemma_refines_trans(f, g, k, fs);
        }
        lemma_reduce_keeps(g, k, b, pos, r, |op: FloatOp, a: u64, b: u64, c: u64| 0u64);
    }
}

impl Pass for StrengthReduceShifts {
    open spec fn ready(&self) -> bool {
        true
    }

    open spec fn keeps_meaning(&self, fs: FloatSem) -> bool {
        true
    }

    open spec fn title(&self) -> Seq<char> {
        "strength-reduce-shifts"@
    }

    open spec fn does(&self, before: Function, after: Function, changed: bool) -> bool {
        exists|h: Seq<Spot>| #[trigger]
            reduce_steps(before, after, h) && (changed <==> reduced_any(h))
    }

    fn name(&self) -> (r: &'static str) {
        "strength-reduce-shifts"
    }

    fn run(&mut self, f: &mut Function) -> (changed: bool)
        ensures
            exists|h: Seq<Spot>|
                #[trigger] reduce_steps(*old(f), *final(f), h) && (changed <==> reduced_any(h)),
    {
        let ghost start = *f;
        let ghost mut h: Seq<Spot> = seq![Spot { f: *f, b: 0, pos: 0 }];
        let mut changed: bool = false;
        let mut b: usize = 0;
        let mut pos: usize = 0;
        proof {
            lemma_always_refl(start);
        }
        while b < f.blocks.len()
            invariant
                start == *old(f),
                f.blocks@.len() == start.blocks@.len(),
                start.blocks@.len() <= u32::MAX,
                in_tables(*f),
                b <= start.blocks@.len(),
                b < start.blocks@.len() ==> pos <= f.listed(b as int).len(),
                h.len() > 0,
                h[0] == (Spot { f: start, b: 0, pos: 0 }),
                h[h.len() - 1] == (Spot { f: *f, b: b as int, pos: pos as int }),
                forall|j: int| #![trigger h[j]] 0 < j < h.len() ==> reduce_step(h[j - 1], h[j]),
                forall|j: int|
                    #![trigger h[j]]
                    0 <= j < h.len() - 1 ==> 0 <= h[j].b < start.blocks@.len(),
                changed <==> reduced_any(h),
                !changed ==> *f == start,
                keeps_always(start, *f),
            decreases start.blocks@.len() - b, f.listed(b as int).len() - pos,
        {
            let ghost before = *f;
            let ghost at = Spot { f: before, b: b as int, pos: pos as int };
            let len: usize = f.blocks[b].insts.len();
            let mut reduced: Option<(Vec<Inst>, Inst)> = None;
            if pos < len && f.insts.len() <= u32::MAX as usize - 8 {
                let v: Value = f.blocks[b].insts[pos];
                assert(v == before.listed(b as int)[pos as int]);
                reduced = try_reduce(f, v);
            }
            if pos >= len {
                b += 1;
                pos = 0;
            } else {
                match reduced {
                    None => {
                        pos += 1;
                    },
                    Some((code, last)) => {
                        let count: usize = code.len();
                        let ghost r = Reduced { code: code_of(code@), last: last@ };
                        proof {
                            let w = before.listed(b as int)[pos as int].0 as int;
                            assert(is_reduction(before, w, r));
                            assert(r.code.len() == count);
                        }
                        proof {
                            lemma_reduction_short(
                                before,
                                before.listed(b as int)[pos as int].0 as int,
                                r,
                            );
                        }
                        splice(f, Block(b as u32), pos, code, last);
                        changed = true;
                        proof {
                            lemma_in_tables(before, *f, b as int, pos as int, r);
                            lemma_always_reduce(start, before, *f, b as int, pos as int, r);
                            let t = Spot { f: *f, b: b as int, pos: pos + count + 1 };
                            assert(reduced_at(at, t, r));
                            assert(f.listed(b as int).len() == before.listed(b as int).len()
                                + count);
                        }
                        let new_len: usize = f.blocks[b].insts.len();
                        pos = pos + count + 1;
                    },
                }
            }
            proof {
                let t = Spot { f: *f, b: b as int, pos: pos as int };
                assert(reduce_step(at, t));
                lemma_extend_steps(h, t);
                h = h.push(t);
            }
        }
        proof {
            reveal(keeps_always);
        }
        assert(reduce_steps(*old(f), *f, h));
        changed
    }
}

/// At most eight instructions come before the reduced one.
proof fn lemma_reduction_short(f: Function, v: int, r: Reduced)
    requires
        is_reduction(f, v, r),
    ensures
        r.code.len() <= 8,
{
}

} // verus!
