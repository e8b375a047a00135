//! What the passes achieve: what they leave in a function, and what they do
//! not.
use crate::float::FloatSem;
use crate::interp::{eval, reads, RtValue};
use crate::ir::{model1, model2, CmpOp, Function, InstModel, Op, Terminator, Ty, Value};
use crate::opt::dce::{is_live, is_swept, live, live_within, reads_value, root, term_reads};
use crate::opt::fold::{after_fold, const_in, fold_of, is_folded, literal_values};
use crate::opt::gvn::{canonical, is_merged, is_scan, linked, scan_path, scan_step, Scan};
use crate::opt::intcode::Reduced;
use crate::opt::models;
use crate::opt::simplify::{is_zero, rewrite_of, Rewrite};
use crate::opt::strength::{is_reduction, power_literal, reduced_div, reduced_mul, reduced_rem};
use crate::opt::table::knows;
use crate::verify::def_at;
use vstd::arithmetic::power2::pow2;
use vstd::prelude::*;

verus! {

// ---------------------------------------------------------------------------
// Folding

/// The instruction is the constant `x`.
pub open spec fn is_constant(op: Op, x: RtValue) -> bool {
    ||| op matches Op::ConstF64(bits) && x == RtValue::F64(bits)
    ||| op matches Op::ConstI64(n) && x == RtValue::I64(n)
    ||| op matches Op::ConstBool(b) && x == RtValue::Bool(b)
}

/// After folding, no instruction is left that computes a value from constants
/// that come before it: it would be a constant itself. An exclusive or of
/// bools stays.
pub proof fn lemma_nothing_left_to_fold(
    f: Function,
    g: Function,
    fs: FloatSem,
    i: int,
    xs: Seq<RtValue>,
    y: RtValue,
)
    requires
        is_folded(f, g, fs),
        0 <= i < g.insts@.len(),
        !(g.inst(i).op is Param) && !(g.inst(i).op is Phi),
        xs.len() == g.inst(i).args.len() == reads(g.inst(i).op),
        forall|j: int|
            #![trigger xs[j]]
            0 <= j < xs.len() ==> g.inst(i).args[j].0 < i && is_constant(
                g.inst(g.inst(i).args[j].0 as int).op,
                xs[j],
            ),
        eval(g.inst(i).op, xs, Seq::empty(), fs) == Some(y),
    ensures
        is_constant(g.inst(i).op, y) || (g.inst(i).op is Xor && y is Bool),
{
    let ms = models(f);
    let ns = models(g);
    let mixed = ns.take(i) + ms.skip(i);
    let m = g.inst(i);
    assert(ns[i] == m);
    assert(ns[i] == after_fold(mixed, ms[i], fs));
    assert forall|j: int| #![trigger m.args[j]] 0 <= j < xs.len() implies mixed[m.args[j].0 as int]
        == g.inst(m.args[j].0 as int) by {
        assert(xs[j] == xs[j]);
        assert(mixed[m.args[j].0 as int] == ns[m.args[j].0 as int]);
    }
    if fold_of(mixed, ms[i], fs) is None {
        assert(m == ms[i]);
        assert forall|j: int| #![trigger m.args[j]] 0 <= j < reads(m.op) implies const_in(
            mixed,
            m.args[j],
        ) == Some(xs[j]) by {
            assert(mixed[m.args[j].0 as int] == g.inst(m.args[j].0 as int));
            assert(is_constant(g.inst(m.args[j].0 as int).op, xs[j]));
        }
        assert(literal_values(mixed, m) =~= xs);
    }
}

// ---------------------------------------------------------------------------
// Dead code

/// Each value of the chain is an operand of the next one.
pub open spec fn chained(f: Function, p: Seq<Value>) -> bool {
    forall|i: int|
        #![trigger p[i]]
        0 < i < p.len() ==> p[i].0 < f.insts@.len() && f.inst(p[i].0 as int).args.contains(p[i - 1])
}

/// A terminator returns the value, or branches on it.
pub open spec fn ends_with(f: Function, v: Value) -> bool {
    exists|b: int|
        #![trigger f.term(b)]
        0 <= b < f.blocks@.len() && (f.term(b) == Some(Terminator::Return(v)) || (f.term(
            b,
        ) matches Some(Terminator::Branch { cond, .. }) && cond == v))
}

/// A listed division of integers, unless its divisor is a constant other than
/// zero.
pub open spec fn divides(f: Function, v: Value) -> bool {
    let m = f.inst(v.0 as int);
    &&& exists|b: int, k: int| #[trigger] def_at(f, v.0 as int, b, k)
    &&& m.op is Div || m.op is Rem
    &&& f.types@[v.0 as int] == Ty::I64
    &&& m.args.len() == 2
    &&& !(m.args[1].0 < f.insts@.len() && (f.inst(
        m.args[1].0 as int,
    ).op matches Op::ConstI64(n) && n != 0))
}

/// The value is needed: something that is returned, branched on, or may trap
/// is computed from it.
pub open spec fn needed(f: Function, v: Value) -> bool {
    exists|p: Seq<Value>|
        #![trigger chained(f, p)]
        p.len() > 0 && p[0] == v && chained(f, p) && (ends_with(f, p.last()) || divides(
            f,
            p.last(),
        ))
}

proof fn lemma_root(f: Function, v: Value)
    ensures
        root(f, v.0 as int) <==> ends_with(f, v) || divides(f, v),
{
    if term_reads(f, v.0 as int) {
        let b = choose|b: int|
            #![trigger f.term(b)]
            0 <= b < f.blocks@.len() && match f.term(b) {
                Some(Terminator::Return(u)) => u.0 == v.0 as int,
                Some(Terminator::Branch { cond, .. }) => cond.0 == v.0 as int,
                _ => false,
            };
        assert(f.term(b) == f.term(b));
        assert(ends_with(f, v));
    }
    if ends_with(f, v) {
        let b = choose|b: int|
            #![trigger f.term(b)]
            0 <= b < f.blocks@.len() && (f.term(b) == Some(Terminator::Return(v)) || (f.term(
                b,
            ) matches Some(Terminator::Branch { cond, .. }) && cond == v));
        assert(f.term(b) == f.term(b));
        assert(term_reads(f, v.0 as int));
    }
}

proof fn lemma_live_chain(f: Function, v: Value, steps: nat)
    requires
        live_within(f, v.0 as int, steps),
        f.insts@.len() <= u32::MAX,
    ensures
        needed(f, v),
    decreases steps,
{
    if root(f, v.0 as int) {
        lemma_root(f, v);
        let p = seq![v];
        assert(chained(f, p));
        assert(p.last() == v);
    } else {
        let u = choose|u: int| #[trigger]
            reads_value(f, u, v.0 as int) && live_within(f, u, (steps - 1) as nat);
        let w = Value(u as u32);
        assert(w.0 == u);
        assert(Value(v.0 as int as u32) == v);
        lemma_live_chain(f, w, (steps - 1) as nat);
        let q = choose|q: Seq<Value>|
            #![trigger chained(f, q)]
            q.len() > 0 && q[0] == w && chained(f, q) && (ends_with(f, q.last()) || divides(
                f,
                q.last(),
            ));
        let p = seq![v] + q;
        assert forall|i: int| #![trigger p[i]] 0 < i < p.len() implies p[i].0 < f.insts@.len()
            && f.inst(p[i].0 as int).args.contains(p[i - 1]) by {
            assert(p[i] == q[i - 1]);
            if i > 1 {
                assert(p[i - 1] == q[i - 2]);
                assert(q[i - 1] == q[i - 1]);
            }
        }
        assert(chained(f, p));
        assert(p.last() == q.last());
    }
}

proof fn lemma_chain_live(f: Function, p: Seq<Value>)
    requires
        p.len() > 0,
        chained(f, p),
        root(f, p.last().0 as int),
    ensures
        live_within(f, p[0].0 as int, (p.len() - 1) as nat),
    decreases p.len(),
{
    if p.len() > 1 {
        let q = p.skip(1);
        assert forall|i: int| #![trigger q[i]] 0 < i < q.len() implies q[i].0 < f.insts@.len()
            && f.inst(q[i].0 as int).args.contains(q[i - 1]) by {
            assert(q[i] == p[i + 1]);
            assert(q[i - 1] == p[i]);
        }
        assert(q.last() == p.last());
        lemma_chain_live(f, q);
        assert(p[1].0 < f.insts@.len() && f.inst(p[1].0 as int).args.contains(p[0]));
        assert(Value(p[0].0 as int as u32) == p[0]);
        assert(reads_value(f, p[1].0 as int, p[0].0 as int));
    }
}

/// A sweep keeps a listed value exactly where it is needed.
pub proof fn lemma_needed_is_kept(f: Function, g: Function, b: int, v: Value)
    requires
        is_swept(f, g),
        f.insts@.len() <= u32::MAX,
        0 <= b < f.blocks@.len(),
    ensures
        g.listed(b).contains(v) <==> f.listed(b).contains(v) && needed(f, v),
{
    broadcast use Seq::lemma_filter_contains, Seq::lemma_filter_contains_rev, Seq::lemma_filter_pred;

    let pred = is_live(f);
    let kept = f.listed(b).filter(pred);
    assert(g.blocks@[b] == g.blocks@[b]);
    if kept.contains(v) {
        let k = choose|k: int| 0 <= k < kept.len() && kept[k] == v;
        assert(pred(kept[k]));
        let n = choose|n: nat| live_within(f, v.0 as int, n);
        lemma_live_chain(f, v, n);
    }
    if f.listed(b).contains(v) && needed(f, v) {
        let p = choose|p: Seq<Value>|
            #![trigger chained(f, p)]
            p.len() > 0 && p[0] == v && chained(f, p) && (ends_with(f, p.last()) || divides(
                f,
                p.last(),
            ));
        lemma_root(f, p.last());
        lemma_chain_live(f, p);
        assert(live(f, v.0 as int));
        let k = choose|k: int| 0 <= k < f.listed(b).len() && f.listed(b)[k] == v;
        assert(pred(f.listed(b)[k]));
    }
}

// ---------------------------------------------------------------------------
// Values computed twice

/// Operands may change places under exactly these operations; everything else
/// is looked up as it stands.
pub proof fn lemma_order_of_operands(op: Op, a: Value, b: Value)
    ensures
        canonical(model2(op, a, b)) == canonical(model2(op, b, a)) <==> a == b || op == Op::Add
            || op == Op::Mul || op == Op::And || op == Op::Or || op == Op::Xor || op
            == Op::Compare(CmpOp::Eq) || op == Op::Compare(CmpOp::Ne),
        canonical(model2(op, a, b)) == model2(op, a, b) || canonical(model2(op, a, b)) == model2(
            op,
            b,
            a,
        ),
{
    let m = model2(op, a, b);
    let w = model2(op, b, a);
    assert(m.args[0] == a && m.args[1] == b && w.args[0] == b && w.args[1] == a);
    assert(seq![m.args[1], m.args[0]] =~= w.args);
    assert(seq![w.args[1], w.args[0]] =~= m.args);
}

/// The instruction that state `i` of a scan looks up.
pub open spec fn looked_up(h: Seq<Scan>, i: int, b: int) -> InstModel {
    canonical(h[i].f.inst(h[i].f.listed(b)[h[i].pos].0 as int))
}

proof fn lemma_table_grows(h: Seq<Scan>, b: int, i: int, j: int, key: InstModel)
    requires
        scan_path(h, b),
        0 <= i <= j < h.len(),
        exists|e: Value| knows(h[i].table, key, e),
    ensures
        exists|e: Value| knows(h[j].table, key, e),
    decreases j - i,
{
    if i < j {
        lemma_table_grows(h, b, i, j - 1, key);
        let l = j - 1;
        assert(linked(h, l, b));
        let e = choose|e: Value| knows(h[l].table, key, e);
        let n = choose|n: int| 0 <= n < h[l].table.len() && #[trigger] h[l].table[n] == (key, e);
        assert(scan_step(h[l], h[l + 1], b));
        assert(h[j].table[n] == (key, e));
        assert(knows(h[j].table, key, e));
    }
}

/// What was looked up once is merged whenever it is looked up again: the
/// second value goes, and what read it reads another one.
pub proof fn lemma_second_is_merged(
    h: Seq<Scan>,
    b: int,
    f: Function,
    table: Seq<(InstModel, Value)>,
    i: int,
    j: int,
)
    requires
        is_scan(h, b, f, table),
        0 <= i < j < h.len() - 1,
        looked_up(h, i, b) == looked_up(h, j, b),
    ensures
        h[j + 1].changed,
        h[j + 1].f.listed(b) == h[j].f.listed(b).remove(h[j].pos),
        exists|e: Value| #[trigger] is_merged(h[j].f, h[j + 1].f, b, h[j].pos, e),
{
    let key = looked_up(h, i, b);
    assert(linked(h, i, b));
    assert(scan_step(h[i], h[i + 1], b));
    let next = h[i + 1];
    assert(exists|e: Value| #[trigger] knows(next.table, key, e)) by {
        if exists|e: Value| knows(h[i].table, key, e) {
            let e = choose|e: Value| knows(h[i].table, key, e);
            assert(knows(next.table, key, e));
        } else {
            let v = h[i].f.listed(b)[h[i].pos];
            let n = h[i].table.len() as int;
            assert(next.table[n] == (key, v));
            assert(knows(next.table, key, v));
        }
    }
    lemma_table_grows(h, b, i + 1, j, key);
    assert(linked(h, j, b));
    assert(scan_step(h[j], h[j + 1], b));
}

// ---------------------------------------------------------------------------
// Powers of two

/// A product with a power of two, and a quotient or a remainder by one, are
/// reduced, and nothing else is. The powers are those from two on that an
/// integer holds.
pub proof fn lemma_powers_are_reduced(f: Function, v: int)
    ensures
        (exists|r: Reduced| #[trigger] is_reduction(f, v, r)) <==> {
            let m = f.inst(v);
            ||| m.op is Mul && (is_power_of_two(f, m.args[0]) || is_power_of_two(f, m.args[1]))
            ||| (m.op is Div || m.op is Rem) && is_power_of_two(f, m.args[1])
        },
{
    let m = f.inst(v);
    let n = f.insts@.len() as int;
    let a = m.args[0];
    let b = m.args[1];
    lemma_power(f, a);
    lemma_power(f, b);
    if is_power_of_two(f, b) {
        let k = choose|k: u32| power_literal(f, b, k);
        if m.op is Mul {
            assert(is_reduction(f, v, reduced_mul(a, k, n)));
        }
        if m.op is Div {
            assert(is_reduction(f, v, reduced_div(a, k, n)));
        }
        if m.op is Rem {
            assert(is_reduction(f, v, reduced_rem(a, k, n)));
        }
    } else if is_power_of_two(f, a) {
        let k = choose|k: u32| power_literal(f, a, k);
        if m.op is Mul {
            assert(is_reduction(f, v, reduced_mul(b, k, n)));
        }
    }
}

/// The value is the literal 2, 4, 8 and so on, up to the largest power of two
/// that an integer holds.
pub open spec fn is_power_of_two(f: Function, v: Value) -> bool {
    exists|k: nat|
        #![trigger pow2(k)]
        0 < k < 63 && v.0 < f.insts@.len() && (f.inst(v.0 as int).op matches Op::ConstI64(n) && n
            == pow2(k))
}

proof fn lemma_power(f: Function, v: Value)
    ensures
        is_power_of_two(f, v) <==> exists|k: u32| power_literal(f, v, k),
{
    if is_power_of_two(f, v) {
        let k = choose|k: nat|
            #![trigger pow2(k)]
            0 < k < 63 && v.0 < f.insts@.len() && (f.inst(v.0 as int).op matches Op::ConstI64(n)
                && n == pow2(k));
        assert(power_literal(f, v, k as u32));
    }
    if exists|k: u32| power_literal(f, v, k) {
        let k = choose|k: u32| power_literal(f, v, k);
        assert(pow2(k as nat) == pow2(k as nat));
    }
}

// ---------------------------------------------------------------------------
// Identities

pub open spec fn is_double(f: Function, v: Value) -> bool {
    v.0 < f.types@.len() && f.types@[v.0 as int] == Ty::F64
}

pub open spec fn is_literal(f: Function, v: Value, op: Op) -> bool {
    v.0 < f.insts@.len() && f.inst(v.0 as int).op == op
}

/// What has a neutral operand is its other operand, a product with zero is
/// zero, a value less itself is zero, a value and itself is itself, and what
/// is negated twice is as before. Doubles have their own neutral operands,
/// and only these.
pub proof fn lemma_identities(f: Function, v: int, x: Value, y: Value)
    ensures
        ({
            let m = f.inst(v);
            let r = rewrite_of(f, v);
            let zero = is_literal(f, y, Op::ConstI64(0));
            let one = is_literal(f, y, Op::ConstI64(1));
            let minus_zero = is_literal(f, y, Op::ConstF64(0x8000_0000_0000_0000));
            let plus_zero = is_literal(f, y, Op::ConstF64(0));
            let plus_one = is_literal(f, y, Op::ConstF64(0x3ff0_0000_0000_0000));
            let stays = r == Some(Rewrite::UseExisting(x));
            &&& m == model2(Op::Add, x, y) && !is_double(f, x) && zero ==> stays
            &&& m == model2(Op::Add, y, x) && !is_double(f, y) && zero && !is_literal(
                f,
                x,
                Op::ConstI64(0),
            ) ==> stays
            &&& m == model2(Op::Add, x, y) && is_double(f, x) && minus_zero ==> stays
            &&& m == model2(Op::Sub, x, y) && !is_double(f, x) && zero ==> stays
            &&& m == model2(Op::Sub, x, y) && is_double(f, x) && plus_zero && x != y ==> stays
            &&& m == model2(Op::Sub, x, x) && !is_double(f, x) && !is_literal(
                f,
                x,
                Op::ConstI64(0),
            ) ==> r == Some(Rewrite::BecomeConst(0))
            &&& m == model2(Op::Sub, x, x) && is_double(f, x) ==> r is None
            &&& m == model2(Op::Mul, x, y) && !is_double(f, x) && zero ==> r == Some(
                Rewrite::UseExisting(y),
            )
            &&& m == model2(Op::Mul, x, y) && !is_double(f, x) && one && !is_literal(
                f,
                x,
                Op::ConstI64(0),
            ) ==> stays
            &&& m == model2(Op::Mul, x, y) && is_double(f, x) && plus_one ==> stays
            &&& m == model2(Op::Div, x, y) && !is_double(f, x) && one ==> stays
            &&& m == model2(Op::Div, x, y) && is_double(f, x) && plus_one ==> stays
            &&& m == model2(Op::And, x, x) ==> stays
            &&& m == model2(Op::Xor, x, x) ==> r == Some(Rewrite::BecomeConst(0))
            &&& m == model1(Op::Neg, y) && y.0 < f.insts@.len() && f.inst(y.0 as int) == model1(
                Op::Neg,
                x,
            ) ==> stays
        }),
{
    let m = f.inst(v);
    assert(model2(m.op, x, y).args[0] == x && model2(m.op, x, y).args[1] == y);
    assert(model2(m.op, y, x).args[0] == y && model2(m.op, y, x).args[1] == x);
    assert(model2(m.op, x, x).args[0] == x && model2(m.op, x, x).args[1] == x);
    assert(model1(Op::Neg, x).args[0] == x && model1(Op::Neg, y).args[0] == y);
    reveal_with_fuel(is_zero, 2);
}

} // verus!
