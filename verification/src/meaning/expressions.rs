//! The code of an expression computes its value.
use crate::builder::{
    emitted, lemma_undefined_bounded, next_value, phi_of, shaped, with_seal, written, State,
};
use crate::float::FloatSem;
use crate::interp::RtValue;
use crate::interp::{edge_from, eval, reads};
use crate::ir::{Block, Op, Span, Terminator, Ty, Value};
use crate::ir::{edge_blocks, model0, model1};
use crate::lower::{Expr, ExprKind};
use crate::lower::{
    all_ifs, all_nodes, all_lowerable, binary_model, call_model, fits, forked, ifs, intrinsic_arity,
    is_arithmetic, joined, lemma_advanced_trans, lemma_args, lemma_emitted, lemma_forked,
    lemma_joined, lemma_merged, lemma_nodes_positive, lemma_same_blocks, lemma_split, lowered,
    lowered_args, nodes, operands, read_now, ready, unary_model, used, lowerable, widened,
};
use crate::meaning::operators::{
    lemma_binary_lowered, lemma_call_lowered, lemma_unary_lowered, lemma_widen_lowered, widen,
};
use crate::meaning::{all_binds, all_scoped, binds, scoped, value_of, values_of};
use crate::meaning::steps::{
    has, known, later, lemma_bind, lemma_emit, lemma_fork, lemma_forked_blocks, lemma_join,
    lemma_meet, lemma_moves_trans, met, moves, split, stands,
};
use crate::meaning::trace::{
    computes, count_at, earlier, learned, lemma_add, lemma_add_aside, lemma_read, richer, sound,
    Trace,
};
use vstd::prelude::*;

verus! {

// ---------------------------------------------------------------------------
// Lowering expressions

/// None of the names is there yet.
pub open spec fn apart(names: Set<Seq<char>>, h: Trace) -> bool {
    forall|name: Seq<char>| #![trigger names.contains(name)] names.contains(name)
        ==> !h.seen.contains(name)
}

/// An expression over the names in scope can be lowered in block `cur`.
pub open spec fn begins(
    s: State,
    cur: Block,
    h: Trace,
    live: bool,
    scope: Set<Seq<char>>,
    env: Map<Seq<char>, RtValue>,
    args: Seq<RtValue>,
    fs: FloatSem,
) -> bool {
    &&& sound(s, h, Set::empty(), args, fs)
    &&& ready(s, cur)
    &&& stands(h, cur, live)
    &&& scope.subset_of(h.avail[cur.0 as int])
    &&& forall|name: Seq<char>|
        #![trigger env.dom().contains(name)]
        live && env.dom().contains(name) ==> h.env.dom().contains(name) && h.env[name] == env[name]
}

pub(crate) proof fn lemma_begins_next(
    s: State,
    cur: Block,
    h: Trace,
    live: bool,
    scope: Set<Seq<char>>,
    env: Map<Seq<char>, RtValue>,
    exit: Block,
    t: State,
    g: Trace,
    names: Set<Seq<char>>,
    args: Seq<RtValue>,
    fs: FloatSem,
)
    requires
        begins(s, cur, h, live, scope, env, args, fs),
        moves(s, cur, h, live, exit, t, g, names, args, fs),
    ensures
        begins(t, exit, g, live, scope, env, args, fs),
{
    assert forall|name: Seq<char>|
        #![trigger env.dom().contains(name)]
        live && env.dom().contains(name) implies g.env.dom().contains(name) && g.env[name]
        == env[name] by {
        assert(h.env.dom().contains(name));
    }
}

/// Nothing was added.
pub(crate) proof fn lemma_stays(
    s: State,
    cur: Block,
    h: Trace,
    live: bool,
    args: Seq<RtValue>,
    fs: FloatSem,
)
    requires
        sound(s, h, Set::empty(), args, fs),
        ready(s, cur),
        stands(h, cur, live),
    ensures
        moves(s, cur, h, live, cur, s, h, Set::empty(), args, fs),
{
    lemma_same_blocks(s, s, cur);
}

/// Only parameters read the arguments of the function.
pub(crate) proof fn lemma_eval_args(op: Op, vs: Seq<RtValue>, a: Seq<RtValue>, b: Seq<RtValue>, fs: FloatSem)
    requires
        !(op is Param),
    ensures
        eval(op, vs, a, fs) == eval(op, vs, b, fs),
{
}

pub(crate) proof fn lemma_widened(
    s: State,
    cur: Block,
    h: Trace,
    live: bool,
    v: Value,
    ty: Ty,
    span: Span,
    x: RtValue,
    y: RtValue,
    args: Seq<RtValue>,
    fs: FloatSem,
) -> (g: Trace)
    requires
        sound(s, h, Set::empty(), args, fs),
        ready(s, cur),
        stands(h, cur, live),
        has(s, h, live, v, x),
        s.ir.insts.len() < u32::MAX,
        live ==> widen(x, ty, fs) == Some(y),
    ensures
        ({
            let (r, t) = widened(s, cur, v, ty, span);
            &&& moves(s, cur, h, live, cur, t, g, Set::empty(), args, fs)
            &&& has(t, g, live, r, y)
            &&& t.ir.insts.len() <= s.ir.insts.len() + 1
            &&& t.ir.blocks.len() == s.ir.blocks.len()
        }),
{
    if ty == Ty::I64 {
        let m = model1(Op::IToF, v);
        if live {
            assert(Seq::new(reads(m.op), |j: int| h.facts[m.args[j].0].x) =~= seq![x]);
            lemma_eval_args(Op::IToF, seq![x], Seq::empty(), args, fs);
            lemma_widen_lowered(x, fs);
        }
        lemma_emit(s, cur, h, live, m, Ty::F64, span, y, args, fs)
    } else {
        lemma_stays(s, cur, h, live, args, fs);
        h
    }
}

/// What an expression gives, or anything where the run does not come.
pub open spec fn expected(
    e: Expr,
    env: Map<Seq<char>, RtValue>,
    fs: FloatSem,
    live: bool,
    x: RtValue,
) -> bool {
    live ==> value_of(e, env, fs) == Some(x)
}

pub open spec fn some_value(e: Expr, env: Map<Seq<char>, RtValue>, fs: FloatSem) -> RtValue {
    match value_of(e, env, fs) {
        Some(x) => x,
        None => RtValue::Bool(false),
    }
}

/// Lowering an expression adds code that computes its value.
#[verifier::rlimit(60)]
pub(crate) proof fn lemma_lowered(
    s: State,
    cur: Block,
    e: Expr,
    h: Trace,
    live: bool,
    scope: Set<Seq<char>>,
    env: Map<Seq<char>, RtValue>,
    x: RtValue,
    limit: nat,
    args: Seq<RtValue>,
    fs: FloatSem,
) -> (g: Trace)
    requires
        begins(s, cur, h, live, scope, env, args, fs),
        lowerable(e),
        scoped(e, scope),
        apart(binds(e), h),
        fits(s, nodes(e), ifs(e), limit),
        expected(e, env, fs, live, x),
    ensures
        ({
            let (v, exit, t) = lowered(s, cur, e);
            &&& moves(s, cur, h, live, exit, t, g, binds(e), args, fs)
            &&& has(t, g, live, v, x)
            &&& used(s, t, nodes(e), ifs(e), limit)
        }),
    decreases e, 1nat,
{
    let c = limit + 3;
    lemma_split(0, 0, c);
    match e.kind {
        ExprKind::Float(bits) => {
            let m = model0(Op::ConstF64(bits));
            lemma_emit(s, cur, h, live, m, e.ty, e.span, x, args, fs)
        },
        ExprKind::Int(n) => {
            let m = model0(Op::ConstI64(n));
            lemma_emit(s, cur, h, live, m, e.ty, e.span, x, args, fs)
        },
        ExprKind::Bool(b) => {
            let m = model0(Op::ConstBool(b));
            lemma_emit(s, cur, h, live, m, e.ty, e.span, x, args, fs)
        },
        ExprKind::Ident(name) => {
            let n = s.ir.blocks.len();
            lemma_undefined_bounded(s.defs, name@, s.defs.len());
            assert(h.avail[cur.0 as int].contains(name@));
            let g = lemma_read(n, n, s, h, Set::empty(), name@, cur, e.ty, args, fs);
            let (v, t) = read_now(s, name@, cur, e.ty);
            lemma_same_blocks(s, t, cur);
            if live {
                assert(g.path.len() > 0) by {
                    reveal(sound);
                }
                let i = g.path.len() - 1;
                assert(g.path[i] == cur.0);
            }
            assert(moves(s, cur, h, live, cur, t, g, binds(e), args, fs));
            assert(used(s, t, 1, 0, limit));
            g
        },
        ExprKind::Unary { .. } => lemma_unary(s, cur, e, h, live, scope, env, x, limit, args, fs),
        ExprKind::Binary { .. } => lemma_binary(s, cur, e, h, live, scope, env, x, limit, args, fs),
        ExprKind::Call { .. } => lemma_call(s, cur, e, h, live, scope, env, x, limit, args, fs),
        ExprKind::If { .. } => lemma_if(s, cur, e, h, live, scope, env, x, limit, args, fs),
        ExprKind::Let { .. } => lemma_let(s, cur, e, h, live, scope, env, x, limit, args, fs),
        ExprKind::Index { .. } => h,
    }
}

#[verifier::rlimit(60)]
pub(crate) proof fn lemma_unary(
    s: State,
    cur: Block,
    e: Expr,
    h: Trace,
    live: bool,
    scope: Set<Seq<char>>,
    env: Map<Seq<char>, RtValue>,
    x: RtValue,
    limit: nat,
    args: Seq<RtValue>,
    fs: FloatSem,
) -> (g: Trace)
    requires
        e.kind is Unary,
        begins(s, cur, h, live, scope, env, args, fs),
        lowerable(e),
        scoped(e, scope),
        apart(binds(e), h),
        fits(s, nodes(e), ifs(e), limit),
        expected(e, env, fs, live, x),
    ensures
        ({
            let (v, exit, t) = lowered(s, cur, e);
            &&& moves(s, cur, h, live, exit, t, g, binds(e), args, fs)
            &&& has(t, g, live, v, x)
            &&& used(s, t, nodes(e), ifs(e), limit)
        }),
    decreases e, 0nat,
{
    let operand = *e.kind->operand;
    let op = e.kind->Unary_op;
    let a = some_value(operand, env, fs);
    lemma_split(nodes(operand), 0, limit + 3);
    let f = lemma_lowered(s, cur, operand, h, live, scope, env, a, limit, args, fs);
    let (v, b, t) = lowered(s, cur, operand);
    let m = unary_model(op, v);
    if live {
        assert(Seq::new(reads(m.op), |j: int| f.facts[m.args[j].0].x) =~= seq![a]);
        lemma_eval_args(m.op, seq![a], Seq::empty(), args, fs);
        lemma_unary_lowered(op, a, fs);
    }
    let g = lemma_emit(t, b, f, live, m, e.ty, e.span, x, args, fs);
    let z = emitted(t, b, m, e.ty, e.span);
    lemma_moves_trans(s, cur, h, live, b, t, f, binds(operand), b, z, g, Set::empty(), args, fs);
    assert(binds(operand).union(Set::empty()) =~= binds(e));
    g
}

#[verifier::rlimit(80)]
pub(crate) proof fn lemma_binary(
    s: State,
    cur: Block,
    e: Expr,
    h: Trace,
    live: bool,
    scope: Set<Seq<char>>,
    env: Map<Seq<char>, RtValue>,
    x: RtValue,
    limit: nat,
    args: Seq<RtValue>,
    fs: FloatSem,
) -> (g: Trace)
    requires
        e.kind is Binary,
        begins(s, cur, h, live, scope, env, args, fs),
        lowerable(e),
        scoped(e, scope),
        apart(binds(e), h),
        fits(s, nodes(e), ifs(e), limit),
        expected(e, env, fs, live, x),
    ensures
        ({
            let (v, exit, t) = lowered(s, cur, e);
            &&& moves(s, cur, h, live, exit, t, g, binds(e), args, fs)
            &&& has(t, g, live, v, x)
            &&& used(s, t, nodes(e), ifs(e), limit)
        }),
    decreases e, 0nat,
{
    let lhs = *e.kind->lhs;
    let rhs = *e.kind->rhs;
    let op = e.kind->Binary_op;
    let a = some_value(lhs, env, fs);
    let d = some_value(rhs, env, fs);
    lemma_split(nodes(lhs), nodes(rhs), limit + 3);
    lemma_split(nodes(lhs) + nodes(rhs), 0, limit + 3);
    assert forall|name: Seq<char>|
        #![trigger binds(lhs).contains(name)]
        binds(lhs).contains(name) implies !h.seen.contains(name) by {
        assert(binds(e).contains(name));
    }
    let f1 = lemma_lowered(s, cur, lhs, h, live, scope, env, a, limit, args, fs);
    let (l, b, t) = lowered(s, cur, lhs);
    lemma_begins_next(s, cur, h, live, scope, env, b, t, f1, binds(lhs), args, fs);
    assert(apart(binds(rhs), f1)) by {
        assert forall|name: Seq<char>|
            #![trigger binds(rhs).contains(name)]
            binds(rhs).contains(name) implies !f1.seen.contains(name) by {
            assert(binds(e).contains(name));
            assert(!binds(lhs).contains(name));
        }
    }
    let f2 = lemma_lowered(t, b, rhs, f1, live, scope, env, d, limit, args, fs);
    let (r, c, w) = lowered(t, b, rhs);
    assert(has(t, f1, live, l, a));
    lemma_moves_trans(s, cur, h, live, b, t, f1, binds(lhs), c, w, f2, binds(rhs), args, fs);
    let both = binds(lhs).union(binds(rhs));
    assert(both =~= binds(e));
    let (p, q, z) = operands(w, c, e, op, (l, lhs.ty), (r, rhs.ty));
    let m = binary_model(op, p, q);
    let wide = is_arithmetic(op) && e.ty == Ty::F64;
    let (g, y0, y1) = if wide {
        let y0 = match widen(a, lhs.ty, fs) {
            Some(y) => y,
            None => a,
        };
        let y1 = match widen(d, rhs.ty, fs) {
            Some(y) => y,
            None => d,
        };
        let g1 = lemma_widened(w, c, f2, live, l, lhs.ty, e.span, a, y0, args, fs);
        let (p1, w1) = widened(w, c, l, lhs.ty, e.span);
        assert(has(w, f2, live, r, d));
        lemma_moves_trans(s, cur, h, live, c, w, f2, both, c, w1, g1, Set::empty(), args, fs);
        assert(both.union(Set::empty()) =~= both);
        let g2 = lemma_widened(w1, c, g1, live, r, rhs.ty, e.span, d, y1, args, fs);
        assert(has(w1, g1, live, p1, y0));
        lemma_moves_trans(s, cur, h, live, c, w1, g1, both, c, z, g2, Set::empty(), args, fs);
        (g2, y0, y1)
    } else {
        assert(has(w, f2, live, r, d));
        (f2, a, d)
    };
    assert(both.union(Set::empty()) =~= both);
    assert(has(z, g, live, p, y0));
    assert(has(z, g, live, q, y1));
    assert(moves(s, cur, h, live, c, z, g, both, args, fs));
    if live {
        assert(Seq::new(reads(m.op), |j: int| g.facts[m.args[j].0].x) =~= seq![y0, y1]);
        lemma_eval_args(m.op, seq![y0, y1], Seq::empty(), args, fs);
        lemma_binary_lowered(op, y0, y1, fs);
    }
    let k = lemma_emit(z, c, g, live, m, e.ty, e.span, x, args, fs);
    let end = emitted(z, c, m, e.ty, e.span);
    lemma_moves_trans(s, cur, h, live, c, z, g, both, c, end, k, Set::empty(), args, fs);
    k
}

#[verifier::rlimit(80)]
pub(crate) proof fn lemma_let(
    s: State,
    cur: Block,
    e: Expr,
    h: Trace,
    live: bool,
    scope: Set<Seq<char>>,
    env: Map<Seq<char>, RtValue>,
    x: RtValue,
    limit: nat,
    args: Seq<RtValue>,
    fs: FloatSem,
) -> (g: Trace)
    requires
        e.kind is Let,
        begins(s, cur, h, live, scope, env, args, fs),
        lowerable(e),
        scoped(e, scope),
        apart(binds(e), h),
        fits(s, nodes(e), ifs(e), limit),
        expected(e, env, fs, live, x),
    ensures
        ({
            let (v, exit, t) = lowered(s, cur, e);
            &&& moves(s, cur, h, live, exit, t, g, binds(e), args, fs)
            &&& has(t, g, live, v, x)
            &&& used(s, t, nodes(e), ifs(e), limit)
        }),
    decreases e, 0nat,
{
    let name = e.kind->name@;
    let value = *e.kind->value;
    let body = *e.kind->body;
    let a = some_value(value, env, fs);
    lemma_split(nodes(value), nodes(body), limit + 3);
    lemma_split(nodes(value) + nodes(body), 0, limit + 3);
    assert forall|other: Seq<char>|
        #![trigger binds(value).contains(other)]
        binds(value).contains(other) implies !h.seen.contains(other) by {
        assert(binds(e).contains(other));
    }
    let f = lemma_lowered(s, cur, value, h, live, scope, env, a, limit, args, fs);
    let (v, b, t) = lowered(s, cur, value);
    assert(!f.seen.contains(name)) by {
        assert(binds(e).contains(name));
    }
    lemma_begins_next(s, cur, h, live, scope, env, b, t, f, binds(value), args, fs);
    let g = lemma_bind(t, b, f, live, name, v, a, args, fs);
    let w = written(t, name, b, v);
    let single = Set::empty().insert(name);
    lemma_moves_trans(s, cur, h, live, b, t, f, binds(value), b, w, g, single, args, fs);
    lemma_begins_next(t, b, f, live, scope, env, b, w, g, single, args, fs);
    let inner = scope.insert(name);
    let more = env.insert(name, a);
    assert forall|other: Seq<char>|
        #![trigger more.dom().contains(other)]
        live && more.dom().contains(other) implies g.env.dom().contains(other) && g.env[other]
        == more[other] by {
        if other != name {
            assert(env.dom().contains(other));
        }
    }
    assert(begins(w, b, g, live, inner, more, args, fs));
    assert(apart(binds(body), g)) by {
        assert forall|other: Seq<char>|
            #![trigger binds(body).contains(other)]
            binds(body).contains(other) implies !g.seen.contains(other) by {
            assert(binds(e).contains(other));
            assert(!binds(value).contains(other));
        }
    }
    let k = lemma_lowered(w, b, body, g, live, inner, more, x, limit, args, fs);
    let (r, exit, z) = lowered(w, b, body);
    let so_far = binds(value).union(single);
    lemma_moves_trans(s, cur, h, live, b, w, g, so_far, exit, z, k, binds(body), args, fs);
    assert(so_far.union(binds(body)) =~= binds(e));
    k
}

/// Lowering the arguments of a call.
#[verifier::rlimit(80)]
pub(crate) proof fn lemma_lowered_args(
    s: State,
    cur: Block,
    span: Span,
    es: Seq<Expr>,
    k: nat,
    h: Trace,
    live: bool,
    scope: Set<Seq<char>>,
    env: Map<Seq<char>, RtValue>,
    xs: Seq<RtValue>,
    limit: nat,
    args: Seq<RtValue>,
    fs: FloatSem,
) -> (g: Trace)
    requires
        begins(s, cur, h, live, scope, env, args, fs),
        k <= es.len(),
        all_lowerable(es, es.len()),
        all_scoped(es, scope, k),
        apart(all_binds(es, k), h),
        fits(s, all_nodes(es, es.len()) + 1, all_ifs(es, es.len()), limit),
        live ==> values_of(es, env, fs, k) == Some(xs),
    ensures
        ({
            let (values, b, t) = lowered_args(s, cur, span, es, k);
            &&& moves(s, cur, h, live, b, t, g, all_binds(es, k), args, fs)
            &&& values.len() == k
            &&& live ==> xs.len() == k
            &&& forall|j: int|
                #![trigger values[j]]
                0 <= j < k ==> has(t, g, live, values[j], xs[j])
            &&& t.ir.blocks.len() == s.ir.blocks.len() + 3 * all_ifs(es, k)
            &&& t.ir.insts.len() <= s.ir.insts.len() + all_nodes(es, k) * (limit + 3)
        }),
    decreases es, k,
{
    let c = limit + 3;
    if k == 0 {
        lemma_stays(s, cur, h, live, args, fs);
        assert(0 * c == 0);
        h
    } else {
        let l = (k - 1) as nat;
        let e = es[k - 1];
        let prev = match values_of(es, env, fs, l) {
            Some(ys) => ys,
            None => xs,
        };
        lemma_args(es, l);
        let all = all_nodes(es, es.len());
        let sofar = all_nodes(es, l);
        lemma_split(sofar, nodes(e), c);
        assert((sofar + nodes(e)) * c <= all * c) by (nonlinear_arith)
            requires
                sofar + nodes(e) <= all,
        ;
        lemma_split(all, 1, c);
        lemma_nodes_positive(e);
        assert(apart(all_binds(es, l), h)) by {
            assert forall|name: Seq<char>|
                #![trigger all_binds(es, l).contains(name)]
                all_binds(es, l).contains(name) implies !h.seen.contains(name) by {
                assert(all_binds(es, k).contains(name));
            }
        }
        let f = lemma_lowered_args(
            s,
            cur,
            span,
            es,
            l,
            h,
            live,
            scope,
            env,
            prev,
            limit,
            args,
            fs,
        );
        let (before, b, t) = lowered_args(s, cur, span, es, l);
        lemma_begins_next(s, cur, h, live, scope, env, b, t, f, all_binds(es, l), args, fs);
        assert(apart(binds(e), f)) by {
            assert forall|name: Seq<char>|
                #![trigger binds(e).contains(name)]
                binds(e).contains(name) implies !f.seen.contains(name) by {
                assert(all_binds(es, k).contains(name));
                assert(!all_binds(es, l).contains(name));
            }
        }
        let a = some_value(e, env, fs);
        let g1 = lemma_lowered(t, b, e, f, live, scope, env, a, limit, args, fs);
        let (v, d, w) = lowered(t, b, e);
        lemma_moves_trans(
            s,
            cur,
            h,
            live,
            b,
            t,
            f,
            all_binds(es, l),
            d,
            w,
            g1,
            binds(e),
            args,
            fs,
        );
        let y = match widen(a, e.ty, fs) {
            Some(y) => y,
            None => a,
        };
        let g = lemma_widened(w, d, g1, live, v, e.ty, span, a, y, args, fs);
        let (r, z) = widened(w, d, v, e.ty, span);
        let names = all_binds(es, l).union(binds(e));
        lemma_moves_trans(s, cur, h, live, d, w, g1, names, d, z, g, Set::empty(), args, fs);
        assert(names.union(Set::empty()) =~= all_binds(es, k));
        let values = before.push(r);
        assert forall|j: int| #![trigger values[j]] 0 <= j < k implies has(
            z,
            g,
            live,
            values[j],
            xs[j],
        ) by {
            if j < l {
                assert(values[j] == before[j]);
                assert(has(t, f, live, before[j], prev[j]));
                assert(has(w, g1, live, before[j], prev[j]));
                if live {
                    assert(xs == prev.push(y));
                }
            }
        }
        g
    }
}

#[verifier::rlimit(80)]
pub(crate) proof fn lemma_call(
    s: State,
    cur: Block,
    e: Expr,
    h: Trace,
    live: bool,
    scope: Set<Seq<char>>,
    env: Map<Seq<char>, RtValue>,
    x: RtValue,
    limit: nat,
    args: Seq<RtValue>,
    fs: FloatSem,
) -> (g: Trace)
    requires
        e.kind is Call,
        begins(s, cur, h, live, scope, env, args, fs),
        lowerable(e),
        scoped(e, scope),
        apart(binds(e), h),
        fits(s, nodes(e), ifs(e), limit),
        expected(e, env, fs, live, x),
    ensures
        ({
            let (v, exit, t) = lowered(s, cur, e);
            &&& moves(s, cur, h, live, exit, t, g, binds(e), args, fs)
            &&& has(t, g, live, v, x)
            &&& used(s, t, nodes(e), ifs(e), limit)
        }),
    decreases e, 0nat,
{
    let callee = e.kind->callee@;
    let es = e.kind->args@;
    let n = es.len();
    let xs = match values_of(es, env, fs, n) {
        Some(xs) => xs,
        None => Seq::empty(),
    };
    lemma_split(all_nodes(es, n), 1, limit + 3);
    let f = lemma_lowered_args(s, cur, e.span, es, n, h, live, scope, env, xs, limit, args, fs);
    let (values, b, t) = lowered_args(s, cur, e.span, es, n);
    let m = call_model(callee, values);
    lemma_call_reads(callee, values, n);
    assert(m.op == call_model(callee, Seq::empty()).op);
    if live {
        assert forall|j: int| #![trigger m.args[j]] 0 <= j < reads(m.op) implies known(
            f,
            m.args[j],
            xs[j],
        ) by {
            assert(m.args[j] == values[j]);
            assert(has(t, f, live, values[j], xs[j]));
        }
        let seen = Seq::new(reads(m.op), |j: int| f.facts[m.args[j].0].x);
        assert(seen =~= xs) by {
            assert forall|j: int| 0 <= j < n implies seen[j] == xs[j] by {
                assert(known(f, m.args[j], xs[j]));
            }
        }
        lemma_eval_args(m.op, xs, Seq::empty(), args, fs);
        lemma_call_lowered(callee, xs, fs);
    }
    let g = lemma_emit(t, b, f, live, m, e.ty, e.span, x, args, fs);
    let z = emitted(t, b, m, e.ty, e.span);
    lemma_moves_trans(s, cur, h, live, b, t, f, binds(e), b, z, g, Set::empty(), args, fs);
    assert(binds(e).union(Set::empty()) =~= binds(e));
    g
}

/// A call reads all its arguments, in order.
pub(crate) proof fn lemma_call_reads(name: Seq<char>, values: Seq<Value>, n: nat)
    requires
        intrinsic_arity(name) == Some(n),
        values.len() == n,
    ensures
        reads(call_model(name, values).op) == n,
        call_model(name, values).args == values,
        !(call_model(name, values).op is Phi),
        !(call_model(name, values).op is Param),
{
    let m = call_model(name, values);
    assert(m.args =~= values);
}

/// Both branches of a conditional were lowered: the ways meet, and a phi takes
/// the value of the branch that was taken.
#[verifier::rlimit(100)]
pub(crate) proof fn lemma_branches(
    t: State,
    b: Block,
    cond: Value,
    h: Trace,
    live: bool,
    chosen: bool,
    first: Block,
    x: Value,
    x_exit: Block,
    after: State,
    h3: Trace,
    then_names: Set<Seq<char>>,
    second: Block,
    y: Value,
    y_exit: Block,
    done: State,
    h4: Trace,
    else_names: Set<Seq<char>>,
    merge: Block,
    ty: Ty,
    span: Span,
    value: RtValue,
    args: Seq<RtValue>,
    fs: FloatSem,
) -> (g: Trace)
    requires
        sound(t, h, Set::empty(), args, fs),
        ready(t, b),
        stands(h, b, live),
        live ==> known(h, cond, RtValue::Bool(chosen)),
        t.ir.blocks.len() + 3 <= u32::MAX,
        first.0 == t.ir.blocks.len(),
        second.0 == t.ir.blocks.len() + 1,
        merge.0 == t.ir.blocks.len() + 2,
        moves(
            forked(t, b, cond),
            first,
            split(t, b, h, live, chosen),
            live && chosen,
            x_exit,
            after,
            h3,
            then_names,
            args,
            fs,
        ),
        has(after, h3, live && chosen, x, value),
        moves(
            joined(after, x_exit, merge),
            second,
            h3,
            live && !chosen,
            y_exit,
            done,
            h4,
            else_names,
            args,
            fs,
        ),
        has(done, h4, live && !chosen, y, value),
        done.ir.insts.len() < u32::MAX,
    ensures
        ({
            let w = with_seal(joined(done, y_exit, merge), merge);
            let z = emitted(w, merge, phi_of(seq![(x_exit, x), (y_exit, y)]), ty, span);
            &&& moves(t, b, h, live, merge, z, g, then_names.union(else_names), args, fs)
            &&& has(z, g, live, next_value(w), value)
        }),
{
    let n = t.ir.blocks.len() as int;
    let m = merge.0 as int;
    let c = b.0 as int;
    let f = forked(t, b, cond);
    let h2 = split(t, b, h, live, chosen);
    let j = joined(after, x_exit, merge);
    let k = joined(done, y_exit, merge);
    let w = with_seal(k, merge);
    let names = h.avail[c];
    assert(h.avail.len() == n && h.path.len() > 0 && h4.avail.len() == done.ir.blocks.len()
        && h3.avail.len() == after.ir.blocks.len()) by {
        reveal(sound);
    }
    lemma_forked(t, b, cond);
    lemma_forked_blocks(t, b, cond);
    assert(!after.sealed[m]) by {
        assert(after.ir.blocks[m].preds == f.ir.blocks[m].preds);
    }
    lemma_joined(after, x_exit, merge);
    assert(after.ir.blocks[m].preds == f.ir.blocks[m].preds);
    assert(done.ir.blocks[m].preds == j.ir.blocks[m].preds);
    assert(!done.sealed[m]);
    assert(y_exit != merge);
    assert(x_exit != y_exit);
    lemma_joined(done, y_exit, merge);
    assert(k.ir.blocks[m].preds =~= seq![x_exit, y_exit]);
    assert(h4.path.contains(y_exit.0 as int) ==> h4.path.last() == y_exit.0);
    lemma_join(done, y_exit, merge, h4, args, fs);
    assert(shaped(k)) by {
        reveal(sound);
    }
    lemma_merged(t, b, cond, first, after, x_exit, second, done, y_exit, merge);
    // The variables that can be read where the ways meet.
    assert(h2.avail[n] == names && h2.avail[n + 1] == names);
    assert(h3.avail[n + 1] == h2.avail[n + 1]);
    assert(h4.avail[x_exit.0 as int] == h3.avail[x_exit.0 as int]);
    assert(names.subset_of(h4.avail[x_exit.0 as int]));
    assert(names.subset_of(h4.avail[y_exit.0 as int]));
    if live {
        if chosen {
            assert(h4.path == h3.path);
            assert(h3.facts.dom().contains(x.0));
            assert(j.ir.blocks[x_exit.0 as int].term == Some(Terminator::Jump(merge)));
            assert(done.ir.blocks[x_exit.0 as int].term == j.ir.blocks[x_exit.0 as int].term);
            assert(k.ir.blocks[x_exit.0 as int].term == done.ir.blocks[x_exit.0 as int].term);
        } else {
            assert(k.ir.blocks[y_exit.0 as int].term == Some(Terminator::Jump(merge)));
        }
    }
    lemma_meet(k, merge, h4, live, names, x_exit, y_exit, args, fs);
    let h5 = met(h4, merge, names, live);
    assert forall|v: u32| #![trigger h4.facts[v]] h4.facts.dom().contains(v) implies 0
        <= h4.facts[v].i < h4.path.len() by {
        reveal(sound);
    }
    assert forall|i: int| 0 <= i < h.path.len() implies #[trigger] h.path[i] < n by {
        reveal(sound);
    }
    assert(!live ==> h4.path == h.path);
    assert(h4.path.len() > 0);
    let edges = seq![(x_exit, x), (y_exit, y)];
    let phi = phi_of(edges);
    let z = emitted(w, merge, phi, ty, span);
    let g = lemma_meeting_phi(
        w,
        merge,
        h4,
        h5,
        names,
        live,
        chosen,
        x_exit,
        x,
        y_exit,
        y,
        ty,
        span,
        value,
        args,
        fs,
    );
    assert(shaped(z)) by {
        reveal(sound);
    }
    lemma_emitted(w, merge, phi, ty, span);
    lemma_advanced_trans(t, b, w, merge, z, merge);
    lemma_if_later(n as nat, b, h, live, chosen, h2, h3, then_names, h4, else_names, h5, g, merge, names);
    assert(g.avail[m] == names);
    if live {
        assert(g.path.last() == m);
    }
    assert(stands(g, merge, live));
    assert(t.ir.insts.len() <= z.ir.insts.len());
    g
}

/// The phi where two ways meet.
#[verifier::rlimit(60)]
pub(crate) proof fn lemma_meeting_phi(
    w: State,
    merge: Block,
    h: Trace,
    met_h: Trace,
    names: Set<Seq<char>>,
    live: bool,
    chosen: bool,
    x_exit: Block,
    x: Value,
    y_exit: Block,
    y: Value,
    ty: Ty,
    span: Span,
    value: RtValue,
    args: Seq<RtValue>,
    fs: FloatSem,
) -> (g: Trace)
    requires
        sound(w, met_h, Set::empty(), args, fs),
        met_h == met(h, merge, names, live),
        ready(w, merge),
        x_exit != y_exit,
        w.ir.insts.len() < u32::MAX,
        h.path.len() > 0,
        forall|v: u32|
            #![trigger h.facts[v]]
            h.facts.dom().contains(v) ==> 0 <= h.facts[v].i < h.path.len(),
        live ==> if chosen {
            h.path.last() == x_exit.0 && known(h, x, value)
        } else {
            h.path.last() == y_exit.0 && known(h, y, value)
        },
        !live ==> !h.path.contains(merge.0 as int),
    ensures
        ({
            let z = emitted(w, merge, phi_of(seq![(x_exit, x), (y_exit, y)]), ty, span);
            &&& sound(z, g, Set::empty(), args, fs)
            &&& has(z, g, live, next_value(w), value)
            &&& richer(met_h, g)
        }),
{
    let edges = seq![(x_exit, x), (y_exit, y)];
    let phi = phi_of(edges);
    if live {
        let i = met_h.path.len() - 1;
        assert(met_h.path[i] == merge.0);
        assert(met_h.path[i - 1] == h.path.last());
        let froms = edge_blocks(edges);
        let p = Block(met_h.path[i - 1] as u32);
        assert(froms =~= seq![x_exit, y_exit]);
        if chosen {
            assert(edge_from(froms, p, 0) == Some(0int));
            assert(phi.args[0] == x);
            assert(earlier(met_h, x, i, 0)) by {
                assert(0 <= h.facts[x.0].i < h.path.len());
            }
        } else {
            assert(edge_from(froms, p, 1) == Some(1int));
            assert(edge_from(froms, p, 0) == Some(1int));
            assert(phi.args[1] == y);
            assert(earlier(met_h, y, i, 0)) by {
                assert(0 <= h.facts[y.0].i < h.path.len());
            }
        }
        assert(computes(met_h, phi, i, count_at(w, met_h, i), value, args, fs));
        lemma_add(w, met_h, Set::empty(), i, phi, ty, span, value, args, fs);
        assert(Block(met_h.path[i] as u32) == merge);
        learned(w, met_h, i, value)
    } else {
        lemma_add_aside(w, met_h, Set::empty(), merge, phi, ty, span, args, fs);
        met_h
    }
}

/// The trace went on through a conditional.
#[verifier::rlimit(40)]
pub(crate) proof fn lemma_if_later(
    n: nat,
    b: Block,
    h: Trace,
    live: bool,
    chosen: bool,
    h2: Trace,
    h3: Trace,
    then_names: Set<Seq<char>>,
    h4: Trace,
    else_names: Set<Seq<char>>,
    h5: Trace,
    g: Trace,
    merge: Block,
    names: Set<Seq<char>>,
)
    requires
        b.0 < n,
        n + 3 <= u32::MAX,
        h.avail.len() == n,
        merge.0 == n + 2,
        h2.facts == h.facts,
        h2.env == h.env,
        h2.seen == h.seen,
        h2.path == h.path || h2.path == h.path.push(n as int) || h2.path == h.path.push((n + 1) as int),
        h2.avail == h.avail.push(names).push(names).push(Set::empty()),
        later(n + 3, Block(n as u32), h2, h3, then_names),
        exists|len: nat| len >= n + 3 && #[trigger] later(len, Block((n + 1) as u32), h3, h4, else_names),
        h5 == met(h4, merge, names, live),
        richer(h5, g),
    ensures
        later(n, b, h, g, then_names.union(else_names)),
{
    let len = choose|len: nat|
        len >= n + 3 && #[trigger] later(len, Block((n + 1) as u32), h3, h4, else_names);
    assert forall|u: u32| #![trigger h.facts.dom().contains(u)] h.facts.dom().contains(u) implies {
        &&& g.facts.dom().contains(u)
        &&& g.facts[u] == h.facts[u]
    } by {
        assert(h2.facts.dom().contains(u));
        assert(h3.facts.dom().contains(u));
        assert(h4.facts.dom().contains(u));
        assert(h5.facts.dom().contains(u));
    }
    assert forall|i: int| #![trigger g.path[i]] 0 <= i < g.path.len() implies if i < h.path.len() {
        g.path[i] == h.path[i]
    } else {
        g.path[i] >= n
    } by {
        if i < h4.path.len() {
            assert(h4.path[i] == g.path[i]);
            if i < h3.path.len() {
                assert(h3.path[i] == h4.path[i]);
                if i < h2.path.len() {
                    assert(h2.path[i] == h3.path[i]);
                }
            }
        }
    }
    assert forall|name: Seq<char>|
        #![trigger h.env.dom().contains(name)]
        h.env.dom().contains(name) implies g.env.dom().contains(name) && g.env[name]
        == h.env[name] by {
        assert(h2.env.dom().contains(name));
        assert(h3.env.dom().contains(name));
    }
    assert forall|name: Seq<char>|
        #![trigger g.seen.contains(name)]
        g.seen.contains(name) implies h.seen.contains(name) || then_names.union(
        else_names,
    ).contains(name) by {
        assert(h4.seen.contains(name));
        if !else_names.contains(name) {
            assert(h3.seen.contains(name));
        }
    }
    assert forall|i: int| #![trigger g.avail[i]] 0 <= i < n implies g.avail[i] == h.avail[i] by {
        assert(h2.avail[i] == h.avail[i]);
        assert(h3.avail[i] == h2.avail[i]);
        assert(h4.avail[i] == h3.avail[i]);
        assert(h5.avail[i] == h4.avail[i]);
    }
}

#[verifier::rlimit(100)]
pub(crate) proof fn lemma_if(
    s: State,
    cur: Block,
    e: Expr,
    h: Trace,
    live: bool,
    scope: Set<Seq<char>>,
    env: Map<Seq<char>, RtValue>,
    x: RtValue,
    limit: nat,
    args: Seq<RtValue>,
    fs: FloatSem,
) -> (g: Trace)
    requires
        e.kind is If,
        begins(s, cur, h, live, scope, env, args, fs),
        lowerable(e),
        scoped(e, scope),
        apart(binds(e), h),
        fits(s, nodes(e), ifs(e), limit),
        expected(e, env, fs, live, x),
    ensures
        ({
            let (v, exit, t) = lowered(s, cur, e);
            &&& moves(s, cur, h, live, exit, t, g, binds(e), args, fs)
            &&& has(t, g, live, v, x)
            &&& used(s, t, nodes(e), ifs(e), limit)
        }),
    decreases e, 0nat,
{
    let cond = *e.kind->cond;
    let then_ = *e.kind->then_;
    let else_ = *e.kind->else_;
    let chosen = value_of(cond, env, fs) == Some(RtValue::Bool(true));
    let w = limit + 3;
    lemma_split(nodes(cond), nodes(then_), w);
    lemma_split(nodes(cond) + nodes(then_), nodes(else_), w);
    lemma_split(nodes(cond) + nodes(then_) + nodes(else_), 0, w);
    let then_names = binds(then_);
    let else_names = binds(else_);
    assert forall|name: Seq<char>|
        #![trigger binds(cond).contains(name)]
        binds(cond).contains(name) implies !h.seen.contains(name) by {
        assert(binds(e).contains(name));
    }
    let bit = RtValue::Bool(chosen);
    let h1 = lemma_lowered(s, cur, cond, h, live, scope, env, bit, limit, args, fs);
    let (c, b, t) = lowered(s, cur, cond);
    lemma_begins_next(s, cur, h, live, scope, env, b, t, h1, binds(cond), args, fs);
    let n = t.ir.blocks.len();
    let first = Block(n as u32);
    let second = Block((n + 1) as u32);
    let merge = Block((n + 2) as u32);
    lemma_fork(t, b, c, h1, live, chosen, args, fs);
    lemma_forked(t, b, c);
    let f = forked(t, b, c);
    let h2 = split(t, b, h1, live, chosen);
    assert(h1.avail.len() == n && h1.path.len() > 0) by {
        reveal(sound);
    }
    assert forall|i: int| 0 <= i < h1.path.len() implies 0 <= #[trigger] h1.path[i] < n by {
        reveal(sound);
    }
    // The first branch.
    assert(stands(h2, first, live && chosen));
    assert(h2.avail[n as int] == h1.avail[b.0 as int]);
    assert(begins(f, first, h2, live && chosen, scope, env, args, fs));
    assert(apart(then_names, h2)) by {
        assert forall|name: Seq<char>|
            #![trigger then_names.contains(name)]
            then_names.contains(name) implies !h2.seen.contains(name) by {
            assert(binds(e).contains(name));
            assert(!binds(cond).contains(name));
        }
    }
    let h3 = lemma_lowered(
        f,
        first,
        then_,
        h2,
        live && chosen,
        scope,
        env,
        x,
        limit,
        args,
        fs,
    );
    let (xv, x_exit, after) = lowered(f, first, then_);
    // The second branch.
    assert(after.ir.blocks[merge.0 as int].preds == f.ir.blocks[merge.0 as int].preds);
    lemma_joined(after, x_exit, merge);
    assert(h3.path.contains(x_exit.0 as int) ==> h3.path.last() == x_exit.0);
    lemma_join(after, x_exit, merge, h3, args, fs);
    let j = joined(after, x_exit, merge);
    assert(ready(j, second)) by {
        reveal(sound);
        assert(after.ir.blocks[second.0 as int].preds == f.ir.blocks[second.0 as int].preds);
        assert(j.ir.blocks[second.0 as int].term == after.ir.blocks[second.0 as int].term);
    }
    assert(stands(h3, second, live && !chosen)) by {
        assert forall|i: int| 0 <= i < h3.path.len() && live && chosen implies #[trigger] h3.path[i]
            != second.0 by {
            if i < h2.path.len() {
                assert(h3.path[i] == h2.path[i]);
            }
        }
        assert forall|i: int| 0 <= i < h1.path.len() implies #[trigger] h1.path[i] != second.0 by {}
    }
    assert(h3.avail[second.0 as int] == h2.avail[second.0 as int]);
    assert(begins(j, second, h3, live && !chosen, scope, env, args, fs)) by {
        assert forall|name: Seq<char>|
            #![trigger env.dom().contains(name)]
            live && !chosen && env.dom().contains(name) implies h3.env.dom().contains(name)
            && h3.env[name] == env[name] by {
            assert(h2.env.dom().contains(name));
        }
    }
    assert(apart(else_names, h3)) by {
        assert forall|name: Seq<char>|
            #![trigger else_names.contains(name)]
            else_names.contains(name) implies !h3.seen.contains(name) by {
            assert(binds(e).contains(name));
            assert(!binds(cond).contains(name));
            assert(!then_names.contains(name));
        }
    }
    let h4 = lemma_lowered(
        j,
        second,
        else_,
        h3,
        live && !chosen,
        scope,
        env,
        x,
        limit,
        args,
        fs,
    );
    let (yv, y_exit, done) = lowered(j, second, else_);
    let g = lemma_branches(
        t,
        b,
        c,
        h1,
        live,
        chosen,
        first,
        xv,
        x_exit,
        after,
        h3,
        then_names,
        second,
        yv,
        y_exit,
        done,
        h4,
        else_names,
        merge,
        e.ty,
        e.span,
        x,
        args,
        fs,
    );
    let end = with_seal(joined(done, y_exit, merge), merge);
    let z = emitted(end, merge, phi_of(seq![(x_exit, xv), (y_exit, yv)]), e.ty, e.span);
    lemma_moves_trans(
        s,
        cur,
        h,
        live,
        b,
        t,
        h1,
        binds(cond),
        merge,
        z,
        g,
        then_names.union(else_names),
        args,
        fs,
    );
    assert(binds(cond).union(then_names.union(else_names)) =~= binds(e));
    g
}

} // verus!
