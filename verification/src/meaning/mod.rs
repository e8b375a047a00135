//! What expressions mean, and that lowering keeps it.
pub mod blocks;
pub mod expressions;
pub mod finished;
pub mod loops;
pub mod lowered;
pub mod operators;
pub mod progress;
pub mod rows;
pub mod shape;
pub mod steps;
pub mod trace;
pub mod typing;

use crate::builder::{
    emitted, empty_state, ir_of, next_value, with_block, with_param, with_seal, with_term,
    written, State,
};
use crate::float::FloatSem;
use crate::interp::RtValue;
use crate::interp::{
    after_block, edge_from, empty_frame, eval_inst, operand_values, reads, run, run_insts, slot,
    yields, Frame, Next,
};
use crate::ir::{Block, Function, InstModel, Op, Span, Terminator, Ty, Value};
use crate::ir::model0;
use crate::lower::{BinaryOp, Expr, ExprKind, TypedAst};
use crate::lower::{
    ifs, lemma_nodes_positive, lemma_params_ready, lowered, lowered_function, nodes, small_enough,
    lowerable, with_params,
};
use crate::meaning::expressions::{apart, begins, lemma_begins_next, lemma_lowered};
use crate::meaning::operators::{binary_result, call_result, unary_result, widen};
use crate::meaning::steps::{known, lemma_bind, lemma_emit};
use crate::meaning::trace::{
    at, computes, count_at, earlier, holds_at, leads, lemma_facts_same, names_ok, path_ok,
    reachable, sound, tables_ok, Trace,
};
use vstd::prelude::*;

verus! {

// ---------------------------------------------------------------------------
// What expressions mean

/// The value of an expression with the values of its variables. There is none
/// where operands do not fit an operation or an integer is divided by zero.
/// Of a conditional only the branch that is taken counts.
pub open spec fn value_of(e: Expr, env: Map<Seq<char>, RtValue>, fs: FloatSem) -> Option<RtValue>
    decreases e, 0nat,
{
    match e.kind {
        ExprKind::Float(bits) => Some(RtValue::F64(bits)),
        ExprKind::Int(n) => Some(RtValue::I64(n)),
        ExprKind::Bool(b) => Some(RtValue::Bool(b)),
        ExprKind::Ident(name) => if env.dom().contains(name@) {
            Some(env[name@])
        } else {
            None
        },
        ExprKind::Unary { op, operand } => match value_of(*operand, env, fs) {
            Some(x) => unary_result(op, x),
            None => None,
        },
        ExprKind::Binary { op, lhs, rhs } => match (
            value_of(*lhs, env, fs),
            value_of(*rhs, env, fs),
        ) {
            (Some(l), Some(r)) => apply(op, e.ty, (l, lhs.ty), (r, rhs.ty), fs),
            _ => None,
        },
        ExprKind::Call { callee, args } => match values_of(args@, env, fs, args@.len()) {
            Some(vs) => call_result(callee@, vs, fs),
            None => None,
        },
        ExprKind::If { cond, then_, else_ } => match value_of(*cond, env, fs) {
            Some(RtValue::Bool(true)) => value_of(*then_, env, fs),
            Some(RtValue::Bool(false)) => value_of(*else_, env, fs),
            _ => None,
        },
        ExprKind::Let { name, value, body } => match value_of(*value, env, fs) {
            Some(x) => value_of(*body, env.insert(name@, x), fs),
            None => None,
        },
        ExprKind::Index { .. } => None,
    }
}

/// The operands of a binary operation are widened where arithmetic is on
/// doubles.
pub open spec fn apply(
    op: BinaryOp,
    ty: Ty,
    l: (RtValue, Ty),
    r: (RtValue, Ty),
    fs: FloatSem,
) -> Option<RtValue> {
    if (op is Add || op is Sub || op is Mul || op is Div || op is Rem) && ty == Ty::F64 {
        match (widen(l.0, l.1, fs), widen(r.0, r.1, fs)) {
            (Some(x), Some(y)) => binary_result(op, x, y, fs),
            _ => None,
        }
    } else {
        binary_result(op, l.0, r.0, fs)
    }
}

/// The values of the first `k` arguments of a call, as doubles.
pub open spec fn values_of(
    args: Seq<Expr>,
    env: Map<Seq<char>, RtValue>,
    fs: FloatSem,
    k: nat,
) -> Option<Seq<RtValue>>
    decreases args, k,
{
    if k == 0 || k > args.len() {
        Some(Seq::empty())
    } else {
        match (values_of(args, env, fs, (k - 1) as nat), value_of(args[k - 1], env, fs)) {
            (Some(vs), Some(x)) => match widen(x, args[k - 1].ty, fs) {
                Some(y) => Some(vs.push(y)),
                None => None,
            },
            _ => None,
        }
    }
}

/// The names that an expression binds.
pub open spec fn binds(e: Expr) -> Set<Seq<char>>
    decreases e, 0nat,
{
    match e.kind {
        ExprKind::Unary { operand, .. } => binds(*operand),
        ExprKind::Binary { lhs, rhs, .. } => binds(*lhs).union(binds(*rhs)),
        ExprKind::Call { args, .. } => all_binds(args@, args@.len()),
        ExprKind::If { cond, then_, else_ } => binds(*cond).union(
            binds(*then_).union(binds(*else_)),
        ),
        ExprKind::Let { name, value, body } => binds(*value).union(
            Set::empty().insert(name@).union(binds(*body)),
        ),
        _ => Set::empty(),
    }
}

pub open spec fn all_binds(args: Seq<Expr>, k: nat) -> Set<Seq<char>>
    decreases args, k,
{
    if k == 0 || k > args.len() {
        Set::empty()
    } else {
        all_binds(args, (k - 1) as nat).union(binds(args[k - 1]))
    }
}

/// Every variable that is read is in scope, and every name is bound once.
pub open spec fn scoped(e: Expr, scope: Set<Seq<char>>) -> bool
    decreases e, 0nat,
{
    match e.kind {
        ExprKind::Ident(name) => scope.contains(name@),
        ExprKind::Unary { operand, .. } => scoped(*operand, scope),
        ExprKind::Binary { lhs, rhs, .. } => scoped(*lhs, scope) && scoped(*rhs, scope) && binds(
            *lhs,
        ).disjoint(binds(*rhs)),
        ExprKind::Call { args, .. } => all_scoped(args@, scope, args@.len()),
        ExprKind::If { cond, then_, else_ } => {
            &&& scoped(*cond, scope) && scoped(*then_, scope) && scoped(*else_, scope)
            &&& binds(*cond).disjoint(binds(*then_)) && binds(*cond).disjoint(binds(*else_))
            &&& binds(*then_).disjoint(binds(*else_))
        },
        ExprKind::Let { name, value, body } => {
            &&& scoped(*value, scope) && scoped(*body, scope.insert(name@))
            &&& !binds(*value).contains(name@) && !binds(*body).contains(name@)
            &&& binds(*value).disjoint(binds(*body))
        },
        _ => true,
    }
}

pub open spec fn all_scoped(args: Seq<Expr>, scope: Set<Seq<char>>, k: nat) -> bool
    decreases args, k,
{
    if k == 0 || k > args.len() {
        true
    } else {
        scoped(args[k - 1], scope) && all_scoped(args, scope, (k - 1) as nat) && all_binds(
            args,
            (k - 1) as nat,
        ).disjoint(binds(args[k - 1]))
    }
}

// ---------------------------------------------------------------------------
// Lowering functions

/// The names of the first `k` parameters.
pub open spec fn param_names(params: Seq<(String, Ty)>, k: nat) -> Set<Seq<char>>
    decreases k,
{
    if k == 0 {
        Set::empty()
    } else {
        param_names(params, (k - 1) as nat).insert(params[k - 1].0@)
    }
}

/// The values of the first `k` parameters.
pub open spec fn param_env(params: Seq<(String, Ty)>, args: Seq<RtValue>, k: nat) -> Map<
    Seq<char>,
    RtValue,
>
    decreases k,
{
    if k == 0 {
        Map::empty()
    } else {
        param_env(params, args, (k - 1) as nat).insert(params[k - 1].0@, args[k - 1])
    }
}

/// No two of the first `k` parameters have the same name.
pub open spec fn params_distinct(params: Seq<(String, Ty)>, k: nat) -> bool
    decreases k,
{
    k > 0 ==> {
        &&& params_distinct(params, (k - 1) as nat)
        &&& !param_names(params, (k - 1) as nat).contains(params[k - 1].0@)
    }
}

/// The function starts with its entry, and nothing in it.
#[verifier::rlimit(60)]
pub(crate) proof fn lemma_start(args: Seq<RtValue>, fs: FloatSem) -> (h: Trace)
    ensures
        ({
            let s = with_seal(with_block(empty_state()), Block(0));
            &&& begins(s, Block(0), h, true, Set::empty(), Map::empty(), args, fs)
            &&& h.seen == Set::<Seq<char>>::empty()
            &&& s.ir.insts.len() == 0
            &&& s.ir.blocks.len() == 1
            &&& s.ir.entry == Block(0)
        }),
{
    reveal(sound);
    let s = with_seal(with_block(empty_state()), Block(0));
    let h = Trace {
        path: seq![0],
        facts: Map::empty(),
        env: Map::empty(),
        avail: seq![Set::empty()],
        seen: Set::empty(),
    };
    assert(s.pending[0] =~= Map::empty());
    assert(s.pending[0].dom() =~= Set::empty());
    assert(s.defs[0] =~= Map::empty());
    assert(h.path[0] == 0);
    assert(s.sealed[0]);
    assert(path_ok(s, h));
    assert(names_ok(s, h));
    h
}

/// The parameters do not touch the code.
#[verifier::rlimit(60)]
pub(crate) proof fn lemma_param_added(
    s: State,
    h: Trace,
    name: Seq<char>,
    ty: Ty,
    args: Seq<RtValue>,
    fs: FloatSem,
)
    requires
        sound(s, h, Set::empty(), args, fs),
    ensures
        sound(with_param(s, name, ty), h, Set::empty(), args, fs),
{
    reveal(sound);
    let t = with_param(s, name, ty);
    assert(t.ir.blocks == s.ir.blocks);
    assert forall|b: int, k: int|
        #![trigger t.ir.blocks[b].preds[k]]
        0 <= b < t.ir.blocks.len() && t.sealed[b] && 0 <= k < t.ir.blocks[b].preds.len() implies t.sealed[t.ir.blocks[b].preds[k].0 as int] by {
        assert(s.sealed[s.ir.blocks[b].preds[k].0 as int]);
    }
    assert forall|b: int|
        #![trigger t.ir.blocks[b]]
        0 <= b < t.ir.blocks.len() && t.sealed[b] && t.ir.blocks[b].preds.len() == 1 implies t.ir.blocks[b].preds[0].0
        < b by {
        assert(s.ir.blocks[b].preds[0].0 < b);
    }
    assert(tables_ok(t));
    assert forall|i: int| #![trigger leads(t, h, i)] 0 <= i < h.path.len() - 1 implies leads(
        t,
        h,
        i,
    ) by {
        assert(leads(s, h, i));
    }
    assert(path_ok(t, h));
    lemma_facts_same(s, t, h, Set::empty(), args, fs);
    assert forall|i: int, name: Seq<char>|
        #![trigger t.defs[h.path[i]].dom().contains(name)]
        0 <= i < h.path.len() && t.defs[h.path[i]].dom().contains(name) implies holds_at(
        t,
        h,
        i,
        name,
    ) by {
        assert(s.defs[h.path[i]].dom().contains(name));
        assert(holds_at(s, h, i, name));
    }
    assert forall|b: int, name: Seq<char>|
        #![trigger h.avail[b].contains(name)]
        0 <= b < h.avail.len() && h.avail[b].contains(name) implies h.seen.contains(name)
        && reachable(t, h, b, name) by {
        assert(reachable(s, h, b, name));
    }
}

/// The entry with its parameters.
#[verifier::rlimit(40)]
pub(crate) proof fn lemma_params(
    params: Seq<(String, Ty)>,
    span: Span,
    k: nat,
    args: Seq<RtValue>,
    fs: FloatSem,
) -> (h: Trace)
    requires
        k <= params.len(),
        params.len() <= args.len(),
        params.len() <= u32::MAX,
        params_distinct(params, k),
    ensures
        ({
            let s = with_params(params, span, k);
            &&& begins(
                s,
                Block(0),
                h,
                true,
                param_names(params, k),
                param_env(params, args, k),
                args,
                fs,
            )
            &&& h.seen.subset_of(param_names(params, k))
            &&& s.ir.insts.len() == k
            &&& s.ir.blocks.len() == 1
            &&& s.ir.entry == Block(0)
        }),
    decreases k,
{
    if k == 0 {
        lemma_start(args, fs)
    } else {
        let l = (k - 1) as nat;
        let h0 = lemma_params(params, span, l, args, fs);
        let s = with_params(params, span, l);
        let name = params[k - 1].0@;
        let ty = params[k - 1].1;
        let names = param_names(params, l);
        let env = param_env(params, args, l);
        let v = next_value(s);
        let m = model0(Op::Param(l as u32, ty));
        let x = args[l as int];
        let h1 = lemma_emit(s, Block(0), h0, true, m, ty, span, x, args, fs);
        let t = emitted(s, Block(0), m, ty, span);
        lemma_begins_next(s, Block(0), h0, true, names, env, Block(0), t, h1, Set::empty(), args, fs);
        lemma_param_added(t, h1, name, ty, args, fs);
        lemma_params_ready(t, Block(0), name, ty);
        let p = with_param(t, name, ty);
        let g = lemma_bind(p, Block(0), h1, true, name, v, x, args, fs);
        let w = written(p, name, Block(0), v);
        let more = param_env(params, args, k);
        assert forall|other: Seq<char>|
            #![trigger more.dom().contains(other)]
            more.dom().contains(other) implies g.env.dom().contains(other) && g.env[other]
            == more[other] by {
            if other != name {
                assert(env.dom().contains(other));
                assert(h1.env.dom().contains(other));
            }
        }
        g
    }
}

/// What is known before place `k` of block number `i` stands in the frame.
pub open spec fn framed(h: Trace, w: Frame, i: int, k: int) -> bool {
    forall|v: u32|
        #![trigger h.facts.dom().contains(v)]
        earlier(h, Value(v), i, k) ==> v < w.len() && w[v as int] == Some(h.facts[v].x)
}

/// The function is the one that was lowered, but for the terminator of its
/// last block.
pub open spec fn is_built(f: Function, t: State) -> bool {
    &&& f.insts@.len() == t.ir.insts.len()
    &&& f.blocks@.len() == t.ir.blocks.len()
    &&& forall|v: int| #![trigger f.inst(v)] 0 <= v < f.insts@.len() ==> f.inst(v) == t.ir.insts[v]
    &&& forall|b: int|
        #![trigger f.listed(b)]
        0 <= b < f.blocks@.len() ==> f.listed(b) == t.ir.blocks[b].insts
}

pub open spec fn came_from(h: Trace, i: int) -> Option<Block> {
    if i == 0 {
        None
    } else {
        Some(Block(h.path[i - 1] as u32))
    }
}

/// An instruction of the run gives what is known of it.
pub(crate) proof fn lemma_evaluated(
    h: Trace,
    m: InstModel,
    i: int,
    k: int,
    x: RtValue,
    w: Frame,
    args: Seq<RtValue>,
    fs: FloatSem,
)
    requires
        computes(h, m, i, k, x, args, fs),
        0 <= k,
        framed(h, w, i, k),
    ensures
        eval_inst(m, w, came_from(h, i), args, fs) == Some(x),
{
    if m.op is Phi {
        let j = edge_from(m.op->Phi_0, Block(h.path[i - 1] as u32), 0).unwrap();
        assert(h.facts.dom().contains(m.args[j].0));
        assert(Value(m.args[j].0) == m.args[j]);
        assert(earlier(h, Value(m.args[j].0), i, k));
    } else {
        assert forall|j: int| #![trigger m.args[j]] 0 <= j < reads(m.op) implies slot(w, m.args[j])
            == Some(h.facts[m.args[j].0].x) by {
            assert(earlier(h, m.args[j], i, k));
            assert(h.facts.dom().contains(m.args[j].0));
            assert(Value(m.args[j].0) == m.args[j]);
        }
        assert(operand_values(m, w) =~= Seq::new(
            reads(m.op),
            |j: int| h.facts[m.args[j].0].x,
        ));
    }
}

/// What is known of value `k` of block number `i`.
pub(crate) proof fn lemma_fact_at(
    t: State,
    h: Trace,
    i: int,
    k: int,
    args: Seq<RtValue>,
    fs: FloatSem,
)
    requires
        sound(t, h, Set::empty(), args, fs),
        0 <= i < h.path.len(),
        0 <= k < count_at(t, h, i),
    ensures
        ({
            let v = at(t, h, i, k);
            &&& h.facts.dom().contains(v.0)
            &&& h.facts[v.0].i == i
            &&& h.facts[v.0].k == k
            &&& v.0 < t.ir.insts.len()
            &&& computes(h, t.ir.insts[v.0 as int], i, k, h.facts[v.0].x, args, fs)
            &&& 0 <= h.path[i] < t.ir.blocks.len()
        }),
{
    reveal(sound);
    let v = at(t, h, i, k);
}

/// Where a value stands that is known.
pub(crate) proof fn lemma_place_of(
    t: State,
    h: Trace,
    u: u32,
    args: Seq<RtValue>,
    fs: FloatSem,
)
    requires
        sound(t, h, Set::empty(), args, fs),
        h.facts.dom().contains(u),
    ensures
        ({
            let fact = h.facts[u];
            &&& 0 <= fact.i < h.path.len()
            &&& 0 <= fact.k < count_at(t, h, fact.i)
            &&& at(t, h, fact.i, fact.k) == Value(u)
        }),
{
    reveal(sound);
    let fact = h.facts[u];
}

/// The first `k` values of block number `i` of the run are computed.
pub(crate) proof fn lemma_block_runs(
    f: Function,
    t: State,
    h: Trace,
    i: int,
    k: int,
    w: Frame,
    args: Seq<RtValue>,
    fs: FloatSem,
)
    requires
        sound(t, h, Set::empty(), args, fs),
        is_built(f, t),
        0 <= i < h.path.len(),
        0 <= k <= count_at(t, h, i),
        w.len() == f.insts@.len(),
        framed(h, w, i, 0),
    ensures
        run_insts(f, h.path[i], k, w, came_from(h, i), args, fs) matches Some(z) && z.len()
            == f.insts@.len() && framed(h, z, i, k),
    decreases k,
{
    if k > 0 {
        lemma_block_runs(f, t, h, i, k - 1, w, args, fs);
        let y = run_insts(f, h.path[i], k - 1, w, came_from(h, i), args, fs).unwrap();
        let v = at(t, h, i, k - 1);
        lemma_fact_at(t, h, i, k - 1, args, fs);
        assert(f.listed(h.path[i])[k - 1] == v);
        let x = h.facts[v.0].x;
        assert(f.inst(v.0 as int) == t.ir.insts[v.0 as int]);
        lemma_evaluated(h, t.ir.insts[v.0 as int], i, k - 1, x, y, args, fs);
        let z = y.update(v.0 as int, Some(x));
        assert forall|u: u32|
            #![trigger h.facts.dom().contains(u)]
            earlier(h, Value(u), i, k) implies u < z.len() && z[u as int] == Some(
            h.facts[u].x,
        ) by {
            if u != v.0 {
                lemma_place_of(t, h, u, args, fs);
                assert(earlier(h, Value(u), i, k - 1));
            }
        }
    }
}

/// The run from block number `i` on ends with the value.
#[verifier::rlimit(60)]
pub(crate) proof fn lemma_rest_runs(
    f: Function,
    t: State,
    h: Trace,
    i: int,
    w: Frame,
    v: Value,
    x: RtValue,
    args: Seq<RtValue>,
    fs: FloatSem,
)
    requires
        sound(t, h, Set::empty(), args, fs),
        is_built(f, t),
        0 <= i < h.path.len(),
        w.len() == f.insts@.len(),
        framed(h, w, i, 0),
        known(h, v, x),
        forall|b: int|
            #![trigger f.term(b)]
            0 <= b < f.blocks@.len() ==> f.term(b) == if b == h.path.last() {
                Some(Terminator::Return(v))
            } else {
                t.ir.blocks[b].term
            },
    ensures
        run(f, h.path[i], came_from(h, i), w, args, fs, (h.path.len() - i) as nat) == Some(x),
    decreases h.path.len() - i,
{
    let b = h.path[i];
    let n = count_at(t, h, i);
    let last = h.path.len() - 1;
    assert(0 <= b < t.ir.blocks.len() && (i < last ==> leads(t, h, i) && b != h.path[last])) by {
        reveal(sound);
    }
    lemma_block_runs(f, t, h, i, n, w, args, fs);
    assert(f.listed(b).len() == n);
    let z = run_insts(f, b, n, w, came_from(h, i), args, fs).unwrap();
    assert forall|u: u32|
        #![trigger h.facts.dom().contains(u)]
        earlier(h, Value(u), i + 1, 0) implies u < z.len() && z[u as int] == Some(
        h.facts[u].x,
    ) by {
        lemma_place_of(t, h, u, args, fs);
        assert(earlier(h, Value(u), i, n));
    }
    assert(framed(h, z, i + 1, 0));
    if i == last {
        lemma_place_of(t, h, v.0, args, fs);
        assert(earlier(h, Value(v.0), i + 1, 0));
        assert(f.term(b) == Some(Terminator::Return(v)));
        assert(after_block(f.term(b), z) == Next::Done(x));
    } else {
        assert(f.term(b) == t.ir.blocks[b].term);
        lemma_rest_runs(f, t, h, i + 1, z, v, x, args, fs);
        if let Some(Terminator::Branch { cond, .. }) = f.term(b) {
            assert(h.facts.dom().contains(cond.0));
            assert(earlier(h, Value(cond.0), i + 1, 0));
        }
        assert(after_block(f.term(b), z) == Next::Goto(h.path[i + 1]));
        assert(came_from(h, i + 1) == Some(Block(b as u32)));
    }
}

/// Lowering keeps the meaning: where an expression has a value, the function
/// that it is lowered to yields that value.
#[verifier::rlimit(60)]
pub proof fn lemma_lowering_keeps_meaning(
    typed: TypedAst,
    f: Function,
    args: Seq<RtValue>,
    fs: FloatSem,
    x: RtValue,
)
    requires
        lowerable(typed.root),
        small_enough(typed),
        params_distinct(typed.params@, typed.params@.len()),
        scoped(typed.root, param_names(typed.params@, typed.params@.len())),
        binds(typed.root).disjoint(param_names(typed.params@, typed.params@.len())),
        ir_of(f) == lowered_function(typed),
        args.len() == typed.params@.len(),
        value_of(typed.root, param_env(typed.params@, args, args.len()), fs) == Some(x),
    ensures
        yields(f, args, fs, x),
{
    let params = typed.params@;
    let n = params.len();
    let root = typed.root;
    let span = root.span;
    let limit = 1 + 3 * ifs(root);
    lemma_nodes_positive(root);
    assert(nodes(root) * (limit + 3) >= 0) by (nonlinear_arith);
    let h = lemma_params(params, span, n, args, fs);
    let s = with_params(params, span, n);
    let names = param_names(params, n);
    let env = param_env(params, args, n);
    assert(apart(binds(root), h));
    let g = lemma_lowered(s, Block(0), root, h, true, names, env, x, limit, args, fs);
    let (v, b, t) = lowered(s, Block(0), root);
    let z = with_term(t, b, Terminator::Return(v)).ir;
    assert(z == lowered_function(typed));
    assert(is_built(f, t)) by {
        assert(ir_of(f).insts.len() == f.insts@.len());
        assert(ir_of(f).blocks.len() == f.blocks@.len());
        assert forall|u: int| #![trigger f.inst(u)] 0 <= u < f.insts@.len() implies f.inst(u)
            == t.ir.insts[u] by {
            assert(ir_of(f).insts[u] == f.inst(u));
        }
        assert forall|c: int| #![trigger f.listed(c)] 0 <= c < f.blocks@.len() implies f.listed(c)
            == t.ir.blocks[c].insts by {
            assert(ir_of(f).blocks[c].insts == f.listed(c));
        }
    }
    assert forall|c: int| #![trigger f.term(c)] 0 <= c < f.blocks@.len() implies f.term(c) == if c
        == g.path.last() {
        Some(Terminator::Return(v))
    } else {
        t.ir.blocks[c].term
    } by {
        assert(ir_of(f).blocks[c].term == f.term(c));
    }
    let w = empty_frame(f.insts@.len());
    assert(g.path.len() > 0 && g.path[0] == 0) by {
        reveal(sound);
    }
    assert(framed(g, w, 0, 0)) by {
        assert forall|u: u32|
            #![trigger g.facts.dom().contains(u)]
            earlier(g, Value(u), 0, 0) implies u < w.len() && w[u as int] == Some(
            g.facts[u].x,
        ) by {
            reveal(sound);
            let fact = g.facts[u];
            assert(0 <= fact.i < g.path.len());
        }
    }
    lemma_rest_runs(f, t, g, 0, w, v, x, args, fs);
    assert(f.entry == Block(0));
    assert(run(f, f.entry.0 as int, None, w, args, fs, g.path.len()) == Some(x));
}

} // verus!
