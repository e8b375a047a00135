//! Every expression that type-checks is lowered to a well-formed function,
//! which the optimizer may take.
use crate::builder::{
    emitted, lemma_undefined_bounded, next_value, phi_of, shaped, with_seal, written, State,
};
use crate::dominance::dom;
use crate::ir::{edge_blocks, model0, model1};
use crate::ir::{Block, InstModel, Op, Span, Ty, Value};
use crate::lower::{
    advanced, all_ifs, all_nodes, all_lowerable, binary_model, call_model, fits, forked, ifs,
    intrinsic_arity, is_arithmetic, joined, lowered, lowered_args, nodes, operands, read_now, ready,
    unary_model, used, lowerable, widened,
};
use crate::lower::{
    lemma_advanced_trans, lemma_args, lemma_emitted, lemma_forked, lemma_joined, lemma_merged,
    lemma_nodes_positive, lemma_same_blocks, lemma_split, lemma_written,
};
use crate::lower::{BinaryOp, Expr, ExprKind, UnaryOp};
use crate::meaning::blocks::{
    counted, lemma_counted_same, lemma_fork_code, lemma_join_code, lemma_meet_code, plan_forked,
    plan_joined, plan_met,
};
use crate::meaning::shape::{
    code_ok, ends_ok, gives, graph_ok, has_type, lemma_emit_code, lemma_read_code, lemma_write_code,
    over_all, readable, supplied, there, there_at, with_home, Plan,
};
use crate::meaning::{all_binds, all_scoped, binds, scoped};
use vstd::prelude::*;

verus! {

// ---------------------------------------------------------------------------
// Types of expressions

/// The operands of the operator have these types, and it gives a `ty`. An
/// integer may stand where arithmetic is on doubles.
pub open spec fn operator_gives(op: BinaryOp, l: Ty, r: Ty, ty: Ty) -> bool {
    match op {
        BinaryOp::Add | BinaryOp::Sub | BinaryOp::Mul | BinaryOp::Div | BinaryOp::Rem => if ty
            == Ty::F64 {
            l != Ty::Bool && r != Ty::Bool
        } else {
            ty == Ty::I64 && l == Ty::I64 && r == Ty::I64
        },
        BinaryOp::BitAnd | BinaryOp::BitOr | BinaryOp::BitXor | BinaryOp::Shl | BinaryOp::Shr => l
            == Ty::I64 && r == Ty::I64 && ty == Ty::I64,
        BinaryOp::And | BinaryOp::Or => l == Ty::Bool && r == Ty::Bool && ty == Ty::Bool,
        BinaryOp::Eq | BinaryOp::Ne => l == r && ty == Ty::Bool,
        BinaryOp::Lt | BinaryOp::Le | BinaryOp::Gt | BinaryOp::Ge => l == r && l != Ty::Bool && ty
            == Ty::Bool,
    }
}

pub open spec fn unary_gives(op: UnaryOp, operand: Ty, ty: Ty) -> bool {
    operand == ty && match op {
        UnaryOp::Neg => ty != Ty::Bool,
        UnaryOp::Not => ty == Ty::Bool,
        UnaryOp::BitNot => ty == Ty::I64,
    }
}

/// The expression type-checks: with variables of these types, every part of it
/// has the type it is marked with.
pub open spec fn typed_tree(e: Expr, env: Map<Seq<char>, Ty>) -> bool
    decreases e, 0nat,
{
    match e.kind {
        ExprKind::Float(_) => e.ty == Ty::F64,
        ExprKind::Int(_) => e.ty == Ty::I64,
        ExprKind::Bool(_) => e.ty == Ty::Bool,
        ExprKind::Ident(name) => env.dom().contains(name@) && env[name@] == e.ty,
        ExprKind::Unary { op, operand } => typed_tree(*operand, env) && unary_gives(
            op,
            operand.ty,
            e.ty,
        ),
        ExprKind::Binary { op, lhs, rhs } => typed_tree(*lhs, env) && typed_tree(*rhs, env)
            && operator_gives(op, lhs.ty, rhs.ty, e.ty),
        ExprKind::Call { callee, args } => intrinsic_arity(callee@) == Some(args@.len())
            && typed_args(args@, env, args@.len()) && e.ty == Ty::F64,
        ExprKind::If { cond, then_, else_ } => {
            &&& typed_tree(*cond, env) && typed_tree(*then_, env) && typed_tree(*else_, env)
            &&& cond.ty == Ty::Bool && then_.ty == e.ty && else_.ty == e.ty
        },
        ExprKind::Let { name, value, body } => {
            &&& typed_tree(*value, env) && typed_tree(*body, env.insert(name@, value.ty))
            &&& body.ty == e.ty
        },
        ExprKind::Index { .. } => false,
    }
}

/// The first `k` arguments type-check, and are numbers.
pub open spec fn typed_args(args: Seq<Expr>, env: Map<Seq<char>, Ty>, k: nat) -> bool
    decreases args, k,
{
    if k == 0 || k > args.len() {
        true
    } else {
        typed_tree(args[k - 1], env) && args[k - 1].ty != Ty::Bool && typed_args(
            args,
            env,
            (k - 1) as nat,
        )
    }
}

// ---------------------------------------------------------------------------
// Going on

/// Code can be added to block `cur`, and the plan says how things stand.
pub open spec fn built(s: State, cur: Block, p: Plan, tys: Map<Seq<char>, Ty>) -> bool {
    &&& graph_ok(s, p)
    &&& code_ok(s, p, tys, Set::empty())
    &&& counted(s)
    &&& ready(s, cur)
}

/// The plan went on from block `cur`, of `n` blocks, to block `exit`.
pub open spec fn goes_on(p: Plan, q: Plan, n: nat, cur: Block, exit: Block) -> bool {
    &&& p.home.len() <= q.home.len()
    &&& forall|v: int| #![trigger q.home[v]] 0 <= v < p.home.len() ==> q.home[v] == p.home[v]
    &&& n <= q.over.len()
    &&& forall|b: int| #![trigger q.over[b]] 0 <= b < n ==> q.over[b] == p.over[b]
    &&& forall|b: int|
        #![trigger q.avail[b]]
        0 <= b < n && b != cur.0 ==> q.avail[b] == p.avail[b]
    &&& p.over[cur.0 as int].subset_of(q.over[exit.0 as int])
    &&& p.avail[cur.0 as int].subset_of(q.avail[exit.0 as int])
}

/// The types of the values stay.
pub open spec fn types_stay(s: State, t: State) -> bool {
    &&& s.ir.types.len() <= t.ir.types.len()
    &&& forall|i: int|
        #![trigger t.ir.types[i]]
        0 <= i < s.ir.types.len() ==> t.ir.types[i] == s.ir.types[i]
}

/// The variables keep their types, and only those in `names` are new.
pub open spec fn names_added(
    tys: Map<Seq<char>, Ty>,
    more: Map<Seq<char>, Ty>,
    names: Set<Seq<char>>,
) -> bool {
    &&& forall|x: Seq<char>|
        #![trigger more.dom().contains(x)]
        #![trigger tys.dom().contains(x)]
        tys.dom().contains(x) ==> more.dom().contains(x) && more[x] == tys[x]
    &&& forall|x: Seq<char>|
        #![trigger more.dom().contains(x)]
        more.dom().contains(x) ==> tys.dom().contains(x) || names.contains(x)
}

/// Code was added from block `cur` on, up to block `exit`.
pub open spec fn went(
    s: State,
    cur: Block,
    p: Plan,
    tys: Map<Seq<char>, Ty>,
    t: State,
    exit: Block,
    q: Plan,
    more: Map<Seq<char>, Ty>,
    names: Set<Seq<char>>,
) -> bool {
    &&& built(t, exit, q, more)
    &&& advanced(s, cur, t, exit)
    &&& goes_on(p, q, s.ir.blocks.len(), cur, exit)
    &&& types_stay(s, t)
    &&& names_added(tys, more, names)
}

proof fn lemma_went_trans(
    s: State,
    a: Block,
    p: Plan,
    tys: Map<Seq<char>, Ty>,
    t: State,
    b: Block,
    q: Plan,
    more: Map<Seq<char>, Ty>,
    names: Set<Seq<char>>,
    w: State,
    c: Block,
    r: Plan,
    most: Map<Seq<char>, Ty>,
    others: Set<Seq<char>>,
)
    requires
        built(s, a, p, tys),
        went(s, a, p, tys, t, b, q, more, names),
        went(t, b, q, more, w, c, r, most, others),
    ensures
        went(s, a, p, tys, w, c, r, most, names.union(others)),
{
    lemma_advanced_trans(s, a, t, b, w, c);
    let n = s.ir.blocks.len();
    assert forall|v: int| #![trigger r.home[v]] 0 <= v < p.home.len() implies r.home[v]
        == p.home[v] by {
        assert(q.home[v] == p.home[v]);
    }
    assert forall|i: int| #![trigger r.over[i]] 0 <= i < n implies r.over[i] == p.over[i] by {
        assert(q.over[i] == p.over[i]);
    }
    assert forall|i: int| #![trigger r.avail[i]] 0 <= i < n && i != a.0 implies r.avail[i]
        == p.avail[i] by {
        assert(q.avail[i] == p.avail[i]);
    }
    assert forall|i: int| #![trigger w.ir.types[i]] 0 <= i < s.ir.types.len() implies w.ir.types[i]
        == s.ir.types[i] by {
        assert(t.ir.types[i] == s.ir.types[i]);
    }
    assert forall|x: Seq<char>|
        #![trigger most.dom().contains(x)]
        #![trigger tys.dom().contains(x)]
        tys.dom().contains(x) implies most.dom().contains(x) && most[x] == tys[x] by {
        assert(more.dom().contains(x));
    }
    assert forall|x: Seq<char>| #![trigger most.dom().contains(x)] most.dom().contains(x) implies
        tys.dom().contains(x) || names.union(others).contains(x) by {
        if !others.contains(x) {
            assert(more.dom().contains(x));
        }
    }
}

/// Nothing was added.
proof fn lemma_went_nowhere(s: State, cur: Block, p: Plan, tys: Map<Seq<char>, Ty>)
    requires
        built(s, cur, p, tys),
    ensures
        went(s, cur, p, tys, s, cur, p, tys, Set::empty()),
{
    lemma_same_blocks(s, s, cur);
    assert(p.over.len() == s.ir.blocks.len()) by {
        reveal(graph_ok);
    }
}

/// A value that was there still is.
proof fn lemma_still_there(p: Plan, q: Plan, n: nat, cur: Block, exit: Block, v: Value)
    requires
        goes_on(p, q, n, cur, exit),
        there(p, v, cur.0 as int),
    ensures
        there(q, v, exit.0 as int),
{
    assert(q.home[v.0 as int] == p.home[v.0 as int]);
}

/// One more instruction.
pub(crate) proof fn lemma_add_inst(
    s: State,
    cur: Block,
    p: Plan,
    tys: Map<Seq<char>, Ty>,
    m: InstModel,
    ty: Ty,
    span: Span,
)
    requires
        built(s, cur, p, tys),
        s.ir.insts.len() < u32::MAX,
        gives(s.ir.types, s.ir.params, m, ty),
        match m.op {
            Op::Phi(froms) => supplied(s, p, m, cur.0 as int, 0),
            _ => forall|j: int|
                #![trigger m.args[j]]
                0 <= j < m.args.len() ==> there(p, m.args[j], cur.0 as int),
        },
    ensures
        ({
            let t = emitted(s, cur, m, ty, span);
            let q = with_home(s, p, cur.0 as int);
            &&& went(s, cur, p, tys, t, cur, q, tys, Set::empty())
            &&& there(q, next_value(s), cur.0 as int)
            &&& has_type(t.ir.types, next_value(s), ty)
        }),
{
    let t = emitted(s, cur, m, ty, span);
    let b = cur.0 as int;
    let q = with_home(s, p, b);
    let k = s.ir.blocks[b].insts.len() as int;
    assert(supplied(s, p, m, b, k)) by {
        if !(m.op is Phi) {
            assert forall|j: int| #![trigger m.args[j]] 0 <= j < m.args.len() implies there_at(
                p,
                m.args[j],
                b,
                k,
            ) by {
                reveal(code_ok);
                assert(there(p, m.args[j], b));
                let h = p.home[m.args[j].0 as int];
                assert(h.1 < s.ir.blocks[h.0].insts.len());
            }
        }
    }
    lemma_emit_code(s, p, tys, Set::empty(), cur, m, ty, span, false);
    lemma_emitted(s, cur, m, ty, span);
    lemma_counted_same(s, t);
    assert(p.over.len() == s.ir.blocks.len()) by {
        reveal(graph_ok);
    }
}

/// An integer becomes a double.
proof fn lemma_widen_code(
    s: State,
    cur: Block,
    p: Plan,
    tys: Map<Seq<char>, Ty>,
    v: Value,
    ty: Ty,
    span: Span,
) -> (q: Plan)
    requires
        built(s, cur, p, tys),
        s.ir.insts.len() < u32::MAX,
        there(p, v, cur.0 as int),
        has_type(s.ir.types, v, ty),
        ty != Ty::Bool,
    ensures
        ({
            let (x, t) = widened(s, cur, v, ty, span);
            &&& went(s, cur, p, tys, t, cur, q, tys, Set::empty())
            &&& there(q, x, cur.0 as int)
            &&& has_type(t.ir.types, x, Ty::F64)
            &&& t.ir.insts.len() <= s.ir.insts.len() + 1
            &&& t.ir.blocks.len() == s.ir.blocks.len()
        }),
{
    if ty == Ty::I64 {
        let m = model1(Op::IToF, v);
        assert(gives(s.ir.types, s.ir.params, m, Ty::F64)) by {
            reveal(gives);
        }
        lemma_add_inst(s, cur, p, tys, m, Ty::F64, span);
        with_home(s, p, cur.0 as int)
    } else {
        lemma_went_nowhere(s, cur, p, tys);
        p
    }
}

/// The names in scope can be read and have the types of `env`.
pub open spec fn in_scope(
    p: Plan,
    cur: Block,
    tys: Map<Seq<char>, Ty>,
    scope: Set<Seq<char>>,
    env: Map<Seq<char>, Ty>,
) -> bool {
    forall|x: Seq<char>|
        #![trigger scope.contains(x)]
        scope.contains(x) ==> p.avail[cur.0 as int].contains(x) && tys.dom().contains(x) && (
        env.dom().contains(x) ==> tys[x] == env[x])
}

/// None of the names has been used.
pub open spec fn unused(tys: Map<Seq<char>, Ty>, names: Set<Seq<char>>) -> bool {
    forall|x: Seq<char>| #![trigger names.contains(x)] names.contains(x) ==> !tys.dom().contains(x)
}

proof fn lemma_scope_stays(
    p: Plan,
    q: Plan,
    n: nat,
    cur: Block,
    exit: Block,
    tys: Map<Seq<char>, Ty>,
    more: Map<Seq<char>, Ty>,
    names: Set<Seq<char>>,
    scope: Set<Seq<char>>,
    env: Map<Seq<char>, Ty>,
)
    requires
        in_scope(p, cur, tys, scope, env),
        goes_on(p, q, n, cur, exit),
        names_added(tys, more, names),
    ensures
        in_scope(q, exit, more, scope, env),
{
    assert forall|x: Seq<char>| #![trigger scope.contains(x)] scope.contains(x) implies q.avail[exit.0 as int].contains(
        x,
    ) && more.dom().contains(x) && (env.dom().contains(x) ==> more[x] == env[x]) by {
        assert(tys.dom().contains(x));
        assert(p.avail[cur.0 as int].contains(x));
    }
}

proof fn lemma_unused_stays(
    tys: Map<Seq<char>, Ty>,
    more: Map<Seq<char>, Ty>,
    names: Set<Seq<char>>,
    later: Set<Seq<char>>,
)
    requires
        unused(tys, later),
        names_added(tys, more, names),
        names.disjoint(later),
    ensures
        unused(more, later),
{
    assert forall|x: Seq<char>| #![trigger later.contains(x)] later.contains(x) implies
        !more.dom().contains(x) by {
        if more.dom().contains(x) {
            assert(!names.contains(x));
        }
    }
}

/// What lowering an expression needs.
pub open spec fn can_lower_here(
    s: State,
    cur: Block,
    e: Expr,
    p: Plan,
    tys: Map<Seq<char>, Ty>,
    scope: Set<Seq<char>>,
    env: Map<Seq<char>, Ty>,
    limit: nat,
) -> bool {
    &&& built(s, cur, p, tys)
    &&& lowerable(e)
    &&& typed_tree(e, env)
    &&& scoped(e, scope)
    &&& in_scope(p, cur, tys, scope, env)
    &&& unused(tys, binds(e))
    &&& fits(s, nodes(e), ifs(e), limit)
}

/// What lowering an expression leaves.
pub open spec fn lowered_here(
    s: State,
    cur: Block,
    e: Expr,
    p: Plan,
    tys: Map<Seq<char>, Ty>,
    limit: nat,
    q: Plan,
    more: Map<Seq<char>, Ty>,
) -> bool {
    let (v, exit, t) = lowered(s, cur, e);
    &&& went(s, cur, p, tys, t, exit, q, more, binds(e))
    &&& there(q, v, exit.0 as int)
    &&& has_type(t.ir.types, v, e.ty)
    &&& used(s, t, nodes(e), ifs(e), limit)
}

/// Lowering an expression keeps the plan right.
#[verifier::rlimit(60)]
pub(crate) proof fn lemma_lower_code(
    s: State,
    cur: Block,
    e: Expr,
    p: Plan,
    tys: Map<Seq<char>, Ty>,
    scope: Set<Seq<char>>,
    env: Map<Seq<char>, Ty>,
    limit: nat,
) -> (r: (Plan, Map<Seq<char>, Ty>))
    requires
        can_lower_here(s, cur, e, p, tys, scope, env, limit),
    ensures
        lowered_here(s, cur, e, p, tys, limit, r.0, r.1),
    decreases e, 1nat,
{
    lemma_split(0, 0, limit + 3);
    match e.kind {
        ExprKind::Float(bits) => {
            lemma_constant(s, cur, p, tys, model0(Op::ConstF64(bits)), e.ty, e.span);
            assert(binds(e) =~= Set::empty());
            (with_home(s, p, cur.0 as int), tys)
        },
        ExprKind::Int(n) => {
            lemma_constant(s, cur, p, tys, model0(Op::ConstI64(n)), e.ty, e.span);
            assert(binds(e) =~= Set::empty());
            (with_home(s, p, cur.0 as int), tys)
        },
        ExprKind::Bool(b) => {
            lemma_constant(s, cur, p, tys, model0(Op::ConstBool(b)), e.ty, e.span);
            assert(binds(e) =~= Set::empty());
            (with_home(s, p, cur.0 as int), tys)
        },
        ExprKind::Ident(name) => {
            let n = s.ir.blocks.len();
            lemma_undefined_bounded(s.defs, name@, s.defs.len());
            assert(scope.contains(name@));
            let q = lemma_read_code(n, n, n, s, p, tys, Set::empty(), name@, cur, e.ty);
            let (v, t) = read_now(s, name@, cur, e.ty);
            lemma_same_blocks(s, t, cur);
            lemma_counted_same(s, t);
            assert(p.over.len() == n) by {
                reveal(graph_ok);
            }
            assert(binds(e) =~= Set::empty());
            (q, tys)
        },
        ExprKind::Unary { .. } => lemma_lower_unary(s, cur, e, p, tys, scope, env, limit),
        ExprKind::Binary { .. } => lemma_lower_binary(s, cur, e, p, tys, scope, env, limit),
        ExprKind::Call { .. } => lemma_lower_call(s, cur, e, p, tys, scope, env, limit),
        ExprKind::If { .. } => lemma_lower_if(s, cur, e, p, tys, scope, env, limit),
        ExprKind::Let { .. } => lemma_lower_let(s, cur, e, p, tys, scope, env, limit),
        ExprKind::Index { .. } => (p, tys),
    }
}

proof fn lemma_constant(
    s: State,
    cur: Block,
    p: Plan,
    tys: Map<Seq<char>, Ty>,
    m: InstModel,
    ty: Ty,
    span: Span,
)
    requires
        built(s, cur, p, tys),
        s.ir.insts.len() < u32::MAX,
        m.args.len() == 0,
        m.op is ConstF64 && ty == Ty::F64 || m.op is ConstI64 && ty == Ty::I64 || m.op is ConstBool
            && ty == Ty::Bool,
    ensures
        ({
            let t = emitted(s, cur, m, ty, span);
            let q = with_home(s, p, cur.0 as int);
            &&& went(s, cur, p, tys, t, cur, q, tys, Set::empty())
            &&& there(q, next_value(s), cur.0 as int)
            &&& has_type(t.ir.types, next_value(s), ty)
        }),
{
    assert(gives(s.ir.types, s.ir.params, m, ty)) by {
        reveal(gives);
    }
    lemma_add_inst(s, cur, p, tys, m, ty, span);
}

#[verifier::rlimit(60)]
proof fn lemma_lower_unary(
    s: State,
    cur: Block,
    e: Expr,
    p: Plan,
    tys: Map<Seq<char>, Ty>,
    scope: Set<Seq<char>>,
    env: Map<Seq<char>, Ty>,
    limit: nat,
) -> (r: (Plan, Map<Seq<char>, Ty>))
    requires
        e.kind is Unary,
        can_lower_here(s, cur, e, p, tys, scope, env, limit),
    ensures
        lowered_here(s, cur, e, p, tys, limit, r.0, r.1),
    decreases e, 0nat,
{
    let operand = *e.kind->operand;
    let op = e.kind->Unary_op;
    lemma_split(nodes(operand), 0, limit + 3);
    assert(binds(operand) == binds(e));
    let (q, more) = lemma_lower_code(s, cur, operand, p, tys, scope, env, limit);
    let (v, b, t) = lowered(s, cur, operand);
    let m = unary_model(op, v);
    assert(gives(t.ir.types, t.ir.params, m, e.ty)) by {
        reveal(gives);
    }
    lemma_add_inst(t, b, q, more, m, e.ty, e.span);
    let z = emitted(t, b, m, e.ty, e.span);
    let r = with_home(t, q, b.0 as int);
    lemma_went_trans(
        s,
        cur,
        p,
        tys,
        t,
        b,
        q,
        more,
        binds(operand),
        z,
        b,
        r,
        more,
        Set::empty(),
    );
    assert(binds(operand).union(Set::empty()) =~= binds(e));
    (r, more)
}

/// The operands of a binary operation, widened where they must be, fit it.
proof fn lemma_operator(types: Seq<Ty>, params: Seq<(Seq<char>, Ty)>, op: BinaryOp, x: Value, y: Value, l: Ty, r: Ty, ty: Ty)
    requires
        operator_gives(op, l, r, ty),
        has_type(
            types,
            x,
            if is_arithmetic(op) && ty == Ty::F64 {
                Ty::F64
            } else {
                l
            },
        ),
        has_type(
            types,
            y,
            if is_arithmetic(op) && ty == Ty::F64 {
                Ty::F64
            } else {
                r
            },
        ),
    ensures
        gives(types, params, binary_model(op, x, y), ty),
{
    reveal(gives);
    let m = binary_model(op, x, y);
    assert(m.args.len() == 2 && m.args[0] == x && m.args[1] == y);
    if l == Ty::F64 {
        assert(has_type(types, m.args[0], Ty::F64));
    }
}

#[verifier::rlimit(80)]
proof fn lemma_lower_binary(
    s: State,
    cur: Block,
    e: Expr,
    p: Plan,
    tys: Map<Seq<char>, Ty>,
    scope: Set<Seq<char>>,
    env: Map<Seq<char>, Ty>,
    limit: nat,
) -> (r: (Plan, Map<Seq<char>, Ty>))
    requires
        e.kind is Binary,
        can_lower_here(s, cur, e, p, tys, scope, env, limit),
    ensures
        lowered_here(s, cur, e, p, tys, limit, r.0, r.1),
    decreases e, 0nat,
{
    let lhs = *e.kind->lhs;
    let rhs = *e.kind->rhs;
    let op = e.kind->Binary_op;
    let w = limit + 3;
    lemma_split(nodes(lhs), nodes(rhs), w);
    lemma_split(nodes(lhs) + nodes(rhs), 0, w);
    assert(unused(tys, binds(lhs))) by {
        assert forall|x: Seq<char>| binds(lhs).contains(x) implies #[trigger] binds(e).contains(
            x,
        ) by {}
        assert forall|x: Seq<char>| #![trigger binds(lhs).contains(x)] binds(lhs).contains(
            x,
        ) implies !tys.dom().contains(x) by {
            assert(binds(e).contains(x));
        }
    }
    let (p1, tys1) = lemma_lower_code(s, cur, lhs, p, tys, scope, env, limit);
    let (l, b, t) = lowered(s, cur, lhs);
    lemma_scope_stays(p, p1, s.ir.blocks.len(), cur, b, tys, tys1, binds(lhs), scope, env);
    assert(unused(tys, binds(rhs))) by {
        assert forall|x: Seq<char>| #![trigger binds(rhs).contains(x)] binds(rhs).contains(
            x,
        ) implies !tys.dom().contains(x) by {
            assert(binds(e).contains(x));
        }
    }
    lemma_unused_stays(tys, tys1, binds(lhs), binds(rhs));
    let (p2, tys2) = lemma_lower_code(t, b, rhs, p1, tys1, scope, env, limit);
    let (r, c, z) = lowered(t, b, rhs);
    lemma_still_there(p1, p2, t.ir.blocks.len(), b, c, l);
    assert(has_type(z.ir.types, l, lhs.ty)) by {
        assert(z.ir.types[l.0 as int] == t.ir.types[l.0 as int]);
    }
    lemma_went_trans(s, cur, p, tys, t, b, p1, tys1, binds(lhs), z, c, p2, tys2, binds(rhs));
    let names = binds(lhs).union(binds(rhs));
    assert(names =~= binds(e));
    let (x, y, a) = operands(z, c, e, op, (l, lhs.ty), (r, rhs.ty));
    let p4 = if is_arithmetic(op) && e.ty == Ty::F64 {
        let (lv, z1) = widened(z, c, l, lhs.ty, e.span);
        let p3 = lemma_widen_code(z, c, p2, tys2, l, lhs.ty, e.span);
        lemma_still_there(p2, p3, z.ir.blocks.len(), c, c, r);
        assert(has_type(z1.ir.types, r, rhs.ty)) by {
            assert(z1.ir.types[r.0 as int] == z.ir.types[r.0 as int]);
        }
        let p4 = lemma_widen_code(z1, c, p3, tys2, r, rhs.ty, e.span);
        lemma_still_there(p3, p4, z1.ir.blocks.len(), c, c, lv);
        assert(has_type(a.ir.types, lv, Ty::F64)) by {
            assert(a.ir.types[lv.0 as int] == z1.ir.types[lv.0 as int]);
        }
        lemma_went_trans(s, cur, p, tys, z, c, p2, tys2, names, z1, c, p3, tys2, Set::empty());
        assert(names.union(Set::empty()) =~= names);
        lemma_went_trans(s, cur, p, tys, z1, c, p3, tys2, names, a, c, p4, tys2, Set::empty());
        p4
    } else {
        p2
    };
    assert(names.union(Set::empty()) =~= names);
    lemma_operator(a.ir.types, a.ir.params, op, x, y, lhs.ty, rhs.ty, e.ty);
    let m = binary_model(op, x, y);
    lemma_add_inst(a, c, p4, tys2, m, e.ty, e.span);
    let last = emitted(a, c, m, e.ty, e.span);
    let q = with_home(a, p4, c.0 as int);
    lemma_went_trans(s, cur, p, tys, a, c, p4, tys2, names, last, c, q, tys2, Set::empty());
    (q, tys2)
}

/// The first `k` arguments of a call.
#[verifier::rlimit(80)]
proof fn lemma_lower_args(
    s: State,
    cur: Block,
    span: Span,
    args: Seq<Expr>,
    p: Plan,
    tys: Map<Seq<char>, Ty>,
    scope: Set<Seq<char>>,
    env: Map<Seq<char>, Ty>,
    limit: nat,
    k: nat,
) -> (r: (Plan, Map<Seq<char>, Ty>))
    requires
        k <= args.len(),
        built(s, cur, p, tys),
        all_lowerable(args, args.len()),
        typed_args(args, env, k),
        all_scoped(args, scope, k),
        in_scope(p, cur, tys, scope, env),
        unused(tys, all_binds(args, k)),
        fits(s, all_nodes(args, args.len()), all_ifs(args, args.len()), limit),
    ensures
        ({
            let (values, exit, t) = lowered_args(s, cur, span, args, k);
            &&& went(s, cur, p, tys, t, exit, r.0, r.1, all_binds(args, k))
            &&& values.len() == k
            &&& forall|j: int|
                #![trigger values[j]]
                0 <= j < k ==> there(r.0, values[j], exit.0 as int) && has_type(
                    t.ir.types,
                    values[j],
                    Ty::F64,
                )
            &&& t.ir.blocks.len() == s.ir.blocks.len() + 3 * all_ifs(args, k)
            &&& t.ir.insts.len() <= s.ir.insts.len() + all_nodes(args, k) * (limit + 3)
        }),
    decreases args, k,
{
    let w = limit + 3;
    if k == 0 {
        lemma_went_nowhere(s, cur, p, tys);
        assert(0 * w == 0);
        (p, tys)
    } else {
        let j = (k - 1) as nat;
        let arg = args[k - 1];
        assert(unused(tys, all_binds(args, j))) by {
            assert forall|x: Seq<char>| #![trigger all_binds(args, j).contains(x)] all_binds(
                args,
                j,
            ).contains(x) implies !tys.dom().contains(x) by {
                assert(all_binds(args, k).contains(x));
            }
        }
        assert(unused(tys, binds(arg))) by {
            assert forall|x: Seq<char>| #![trigger binds(arg).contains(x)] binds(arg).contains(
                x,
            ) implies !tys.dom().contains(x) by {
                assert(all_binds(args, k).contains(x));
            }
        }
        let (p1, tys1) = lemma_lower_args(s, cur, span, args, p, tys, scope, env, limit, j);
        let (values, b, t) = lowered_args(s, cur, span, args, j);
        lemma_args(args, j);
        lemma_split(all_nodes(args, j), nodes(arg), w);
        lemma_scope_stays(
            p,
            p1,
            s.ir.blocks.len(),
            cur,
            b,
            tys,
            tys1,
            all_binds(args, j),
            scope,
            env,
        );
        lemma_unused_stays(tys, tys1, all_binds(args, j), binds(arg));
        assert((all_nodes(args, j) + nodes(arg)) * w <= all_nodes(args, args.len()) * w)
            by (nonlinear_arith)
            requires
                all_nodes(args, j) + nodes(arg) <= all_nodes(args, args.len()),
                w >= 0,
        ;
        let (p2, tys2) = lemma_lower_code(t, b, arg, p1, tys1, scope, env, limit);
        let (v, c, z) = lowered(t, b, arg);
        lemma_went_trans(
            s,
            cur,
            p,
            tys,
            t,
            b,
            p1,
            tys1,
            all_binds(args, j),
            z,
            c,
            p2,
            tys2,
            binds(arg),
        );
        let names = all_binds(args, j).union(binds(arg));
        assert(names == all_binds(args, k));
        let (x, a) = widened(z, c, v, arg.ty, span);
        let q = lemma_widen_code(z, c, p2, tys2, v, arg.ty, span);
        lemma_went_trans(s, cur, p, tys, z, c, p2, tys2, names, a, c, q, tys2, Set::empty());
        assert(names.union(Set::empty()) =~= names);
        let all = values.push(x);
        assert forall|i: int| #![trigger all[i]] 0 <= i < k implies there(q, all[i], c.0 as int)
            && has_type(a.ir.types, all[i], Ty::F64) by {
            if i < j {
                assert(all[i] == values[i]);
                lemma_still_there(p1, p2, t.ir.blocks.len(), b, c, values[i]);
                lemma_still_there(p2, q, z.ir.blocks.len(), c, c, values[i]);
                assert(z.ir.types[values[i].0 as int] == t.ir.types[values[i].0 as int]);
                assert(a.ir.types[values[i].0 as int] == z.ir.types[values[i].0 as int]);
            }
        }
        (q, tys2)
    }
}

/// A call of a known function on doubles gives a double.
#[verifier::rlimit(60)]
proof fn lemma_call_gives(
    types: Seq<Ty>,
    params: Seq<(Seq<char>, Ty)>,
    name: Seq<char>,
    values: Seq<Value>,
)
    requires
        intrinsic_arity(name) == Some(values.len()),
        forall|j: int| #![trigger values[j]] 0 <= j < values.len() ==> has_type(
            types,
            values[j],
            Ty::F64,
        ),
    ensures
        gives(types, params, call_model(name, values), Ty::F64),
        !(call_model(name, values).op is Phi),
        forall|j: int|
            #![trigger call_model(name, values).args[j]]
            0 <= j < call_model(name, values).args.len() ==> values.contains(
                call_model(name, values).args[j],
            ),
{
    reveal(gives);
    reveal_strlit("sqrt");
    reveal_strlit("abs");
    reveal_strlit("floor");
    reveal_strlit("ceil");
    reveal_strlit("round");
    reveal_strlit("trunc");
    reveal_strlit("min");
    reveal_strlit("max");
    reveal_strlit("fma");
    reveal_strlit("sin");
    reveal_strlit("cos");
    reveal_strlit("tan");
    reveal_strlit("exp");
    reveal_strlit("log");
    reveal_strlit("pow");
    let m = call_model(name, values);
    assert forall|j: int| #![trigger m.args[j]] 0 <= j < m.args.len() implies m.args[j]
        == values[j] && values.contains(m.args[j]) && has_type(types, m.args[j], Ty::F64) by {
        assert(0 <= j < values.len());
        assert(m.args[j] == values[j]);
    }
    assert(m.args.len() == values.len());
}

#[verifier::rlimit(60)]
proof fn lemma_lower_call(
    s: State,
    cur: Block,
    e: Expr,
    p: Plan,
    tys: Map<Seq<char>, Ty>,
    scope: Set<Seq<char>>,
    env: Map<Seq<char>, Ty>,
    limit: nat,
) -> (r: (Plan, Map<Seq<char>, Ty>))
    requires
        e.kind is Call,
        can_lower_here(s, cur, e, p, tys, scope, env, limit),
    ensures
        lowered_here(s, cur, e, p, tys, limit, r.0, r.1),
    decreases e, 0nat,
{
    let callee = e.kind->callee;
    let args = e.kind->args@;
    let k = args.len();
    lemma_split(all_nodes(args, k), 0, limit + 3);
    assert(binds(e) == all_binds(args, k));
    let (q, more) = lemma_lower_args(s, cur, e.span, args, p, tys, scope, env, limit, k);
    let (values, b, t) = lowered_args(s, cur, e.span, args, k);
    lemma_call_gives(t.ir.types, t.ir.params, callee@, values);
    let m = call_model(callee@, values);
    assert forall|j: int| #![trigger m.args[j]] 0 <= j < m.args.len() implies there(
        q,
        m.args[j],
        b.0 as int,
    ) by {
        let i = choose|i: int| 0 <= i < values.len() && values[i] == m.args[j];
        assert(there(q, values[i], b.0 as int));
    }
    lemma_add_inst(t, b, q, more, m, e.ty, e.span);
    let z = emitted(t, b, m, e.ty, e.span);
    let r = with_home(t, q, b.0 as int);
    lemma_went_trans(s, cur, p, tys, t, b, q, more, binds(e), z, b, r, more, Set::empty());
    assert(binds(e).union(Set::empty()) =~= binds(e));
    (r, more)
}

/// More variables are known.
pub(crate) proof fn lemma_more_names(
    s: State,
    p: Plan,
    tys: Map<Seq<char>, Ty>,
    more: Map<Seq<char>, Ty>,
    names: Set<Seq<char>>,
)
    requires
        code_ok(s, p, tys, Set::empty()),
        names_added(tys, more, names),
    ensures
        code_ok(s, p, more, Set::empty()),
{
    reveal(code_ok);
    let n = s.ir.blocks.len();
    assert forall|b: int, name: Seq<char>|
        #![trigger s.defs[b].dom().contains(name)]
        0 <= b < n && s.defs[b].dom().contains(name) implies {
        &&& there(p, Value(s.defs[b][name]), b)
        &&& more.dom().contains(name)
        &&& s.ir.types[s.defs[b][name] as int] == more[name]
    } by {
        assert(tys.dom().contains(name));
    }
    assert forall|b: int, name: Seq<char>|
        #![trigger p.avail[b].contains(name)]
        0 <= b < n && p.avail[b].contains(name) implies more.dom().contains(name) && readable(
        s,
        p,
        b,
        name,
    ) by {
        assert(tys.dom().contains(name));
    }
}

/// The plan in which block `b` lets a variable be read.
pub open spec fn with_name(p: Plan, b: int, name: Seq<char>) -> Plan {
    Plan { avail: p.avail.update(b, p.avail[b].insert(name)), ..p }
}

/// A variable that a block defines can be read there.
#[verifier::rlimit(40)]
pub(crate) proof fn lemma_name_known(
    s: State,
    p: Plan,
    tys: Map<Seq<char>, Ty>,
    b: int,
    name: Seq<char>,
)
    requires
        graph_ok(s, p),
        code_ok(s, p, tys, Set::empty()),
        0 <= b < s.ir.blocks.len(),
        s.sealed[b],
        s.defs[b].dom().contains(name),
        tys.dom().contains(name),
    ensures
        graph_ok(s, with_name(p, b, name)),
        code_ok(s, with_name(p, b, name), tys, Set::empty()),
{
    let q = with_name(p, b, name);
    let n = s.ir.blocks.len();
    assert(graph_ok(s, q)) by {
        reveal(graph_ok);
        assert forall|c: int, d: int|
            #![trigger over_all(s, q, c, d)]
            over_all(s, q, c, d) == over_all(s, p, c, d) by {}
        assert forall|c: int, d: int|
            #![trigger q.over[c].contains(d)]
            0 <= c < n && q.over[c].contains(d) && d != c implies over_all(s, q, c, d) by {
            assert(over_all(s, p, c, d));
            assert(over_all(s, q, c, d) == over_all(s, p, c, d));
        }
    }
    assert(p.avail.len() == n && shaped(s)) by {
        reveal(graph_ok);
    }
    reveal(code_ok);
    assert forall|v: int| #![trigger s.ir.insts[v]] 0 <= v < s.ir.insts.len() implies supplied(
        s,
        q,
        s.ir.insts[v],
        q.home[v].0,
        q.home[v].1,
    ) by {
        assert(!Set::<u32>::empty().contains(v as u32));
        let m = s.ir.insts[v];
        assert(supplied(s, p, m, p.home[v].0, p.home[v].1));
        match m.op {
            Op::Phi(froms) => {
                assert forall|j: int| #![trigger m.args[j]] 0 <= j < m.args.len() implies there(
                    q,
                    m.args[j],
                    froms[j].0 as int,
                ) by {
                    assert(there(p, m.args[j], froms[j].0 as int));
                }
            },
            _ => {
                assert forall|j: int| #![trigger m.args[j]] 0 <= j < m.args.len() implies there_at(
                    q,
                    m.args[j],
                    p.home[v].0,
                    p.home[v].1,
                ) by {
                    assert(there_at(p, m.args[j], p.home[v].0, p.home[v].1));
                }
            },
        }
    }
    assert forall|c: int, x: Seq<char>|
        #![trigger q.avail[c].contains(x)]
        0 <= c < n && q.avail[c].contains(x) implies tys.dom().contains(x) && readable(
        s,
        q,
        c,
        x,
    ) by {
        if c == b && x == name {
        } else {
            assert(p.avail[c].contains(x));
            assert(readable(s, p, c, x));
            assert forall|k: int|
                #![trigger s.ir.blocks[c].preds[k]]
                !s.defs[c].dom().contains(x) && 0 <= k
                    < s.ir.blocks[c].preds.len() implies q.avail[s.ir.blocks[c].preds[k].0 as int].contains(
                x,
            ) by {
                assert(p.avail[s.ir.blocks[c].preds[k].0 as int].contains(x));
            }
        }
    }
    assert forall|c: int| #![trigger s.ir.blocks[c]] 0 <= c < n implies ends_ok(s, q, c) by {
        assert(ends_ok(s, p, c));
    }
}

#[verifier::rlimit(80)]
proof fn lemma_lower_let(
    s: State,
    cur: Block,
    e: Expr,
    p: Plan,
    tys: Map<Seq<char>, Ty>,
    scope: Set<Seq<char>>,
    env: Map<Seq<char>, Ty>,
    limit: nat,
) -> (r: (Plan, Map<Seq<char>, Ty>))
    requires
        e.kind is Let,
        can_lower_here(s, cur, e, p, tys, scope, env, limit),
    ensures
        lowered_here(s, cur, e, p, tys, limit, r.0, r.1),
    decreases e, 0nat,
{
    let name = e.kind->name@;
    let value = *e.kind->value;
    let body = *e.kind->body;
    let one = Set::empty().insert(name);
    lemma_split(nodes(value), nodes(body), limit + 3);
    lemma_split(nodes(value) + nodes(body), 0, limit + 3);
    assert forall|x: Seq<char>|
        #![trigger binds(value).contains(x)]
        binds(value).contains(x) implies !tys.dom().contains(x) by {
        assert(binds(e).contains(x));
    }
    assert forall|x: Seq<char>|
        #![trigger binds(body).contains(x)]
        binds(body).contains(x) implies !tys.dom().contains(x) by {
        assert(binds(e).contains(x));
    }
    assert(binds(e).contains(name));
    let (p1, tys1) = lemma_lower_code(s, cur, value, p, tys, scope, env, limit);
    let (v, b, t) = lowered(s, cur, value);
    let tys2 = tys1.insert(name, value.ty);
    assert(!tys1.dom().contains(name));
    assert(names_added(tys1, tys2, one));
    lemma_more_names(t, p1, tys1, tys2, one);
    lemma_write_code(t, p1, tys2, Set::empty(), name, b, v);
    let w = written(t, name, b, v);
    lemma_written(t, b, name, v);
    lemma_counted_same(t, w);
    assert(w.defs[b.0 as int].dom().contains(name));
    lemma_name_known(w, p1, tys2, b.0 as int, name);
    let p2 = with_name(p1, b.0 as int, name);
    assert(p1.over.len() == t.ir.blocks.len() && p1.avail.len() == t.ir.blocks.len()) by {
        reveal(graph_ok);
    }
    assert(went(t, b, p1, tys1, w, b, p2, tys2, one));
    lemma_went_trans(s, cur, p, tys, t, b, p1, tys1, binds(value), w, b, p2, tys2, one);
    let inner = scope.insert(name);
    let bound = env.insert(name, value.ty);
    lemma_scope_stays(p, p1, s.ir.blocks.len(), cur, b, tys, tys1, binds(value), scope, env);
    assert(in_scope(p2, b, tys2, inner, bound)) by {
        assert forall|x: Seq<char>| #![trigger inner.contains(x)] inner.contains(x) implies p2.avail[b.0 as int].contains(
            x,
        ) && tys2.dom().contains(x) && (bound.dom().contains(x) ==> tys2[x] == bound[x]) by {
            if x != name {
                assert(scope.contains(x));
            }
        }
    }
    assert(unused(tys2, binds(body))) by {
        lemma_unused_stays(tys, tys1, binds(value), binds(body));
    }
    let (q, most) = lemma_lower_code(w, b, body, p2, tys2, inner, bound, limit);
    let (y, c, z) = lowered(w, b, body);
    lemma_went_trans(
        s,
        cur,
        p,
        tys,
        w,
        b,
        p2,
        tys2,
        binds(value).union(one),
        z,
        c,
        q,
        most,
        binds(body),
    );
    assert(binds(value).union(one).union(binds(body)) =~= binds(e));
    (q, most)
}

#[verifier::rlimit(100)]
#[verifier::spinoff_prover]
proof fn lemma_lower_if(
    s: State,
    cur: Block,
    e: Expr,
    p: Plan,
    tys: Map<Seq<char>, Ty>,
    scope: Set<Seq<char>>,
    env: Map<Seq<char>, Ty>,
    limit: nat,
) -> (r: (Plan, Map<Seq<char>, Ty>))
    requires
        e.kind is If,
        can_lower_here(s, cur, e, p, tys, scope, env, limit),
    ensures
        lowered_here(s, cur, e, p, tys, limit, r.0, r.1),
    decreases e, 0nat,
{
    let cond = *e.kind->cond;
    let then_ = *e.kind->then_;
    let else_ = *e.kind->else_;
    let w = limit + 3;
    lemma_split(nodes(cond), nodes(then_), w);
    lemma_split(nodes(cond) + nodes(then_), nodes(else_), w);
    lemma_split(nodes(cond) + nodes(then_) + nodes(else_), 0, w);
    assert forall|x: Seq<char>|
        #![trigger binds(cond).contains(x)]
        binds(cond).contains(x) implies !tys.dom().contains(x) by {
        assert(binds(e).contains(x));
    }
    assert forall|x: Seq<char>|
        #![trigger binds(then_).contains(x)]
        binds(then_).contains(x) implies !tys.dom().contains(x) by {
        assert(binds(e).contains(x));
    }
    assert forall|x: Seq<char>|
        #![trigger binds(else_).contains(x)]
        binds(else_).contains(x) implies !tys.dom().contains(x) by {
        assert(binds(e).contains(x));
    }
    let (p1, tys1) = lemma_lower_code(s, cur, cond, p, tys, scope, env, limit);
    let (c, b, t) = lowered(s, cur, cond);
    lemma_scope_stays(p, p1, s.ir.blocks.len(), cur, b, tys, tys1, binds(cond), scope, env);
    lemma_unused_stays(tys, tys1, binds(cond), binds(then_));
    lemma_unused_stays(tys, tys1, binds(cond), binds(else_));
    let n = t.ir.blocks.len();
    let first = Block(n as u32);
    let second = Block((n + 1) as u32);
    let merge = Block((n + 2) as u32);
    lemma_nodes_positive(then_);
    lemma_nodes_positive(else_);
    lemma_fork_code(t, p1, tys1, b, c);
    lemma_forked(t, b, c);
    let f = forked(t, b, c);
    let p2 = plan_forked(p1, b.0 as int);
    assert(p1.over.len() == n && p1.avail.len() == n) by {
        reveal(graph_ok);
    }
    assert(p2.avail[n as int] == p1.avail[b.0 as int]);
    assert(p2.avail[n as int + 1] == p1.avail[b.0 as int]);
    assert(in_scope(p2, first, tys1, scope, env)) by {
        assert forall|x: Seq<char>| #![trigger scope.contains(x)] scope.contains(x) implies p2.avail[first.0 as int].contains(
            x,
        ) by {
            assert(p1.avail[b.0 as int].contains(x));
        }
    }
    assert(ready(f, first));
    let (p3, tys3) = lemma_lower_code(f, first, then_, p2, tys1, scope, env, limit);
    let (x, x_exit, after) = lowered(f, first, then_);
    assert(after.ir.blocks[merge.0 as int].preds == f.ir.blocks[merge.0 as int].preds);
    assert(merge != x_exit);
    lemma_join_code(after, p3, tys3, x_exit, merge);
    lemma_joined(after, x_exit, merge);
    let j = joined(after, x_exit, merge);
    let p4 = plan_joined(p3, x_exit.0 as int, merge.0 as int);
    assert(after.ir.blocks[second.0 as int].preds == f.ir.blocks[second.0 as int].preds);
    assert(second != x_exit && second != first);
    assert(ready(j, second)) by {
        assert(j.ir.blocks[second.0 as int].term == after.ir.blocks[second.0 as int].term);
        assert(after.ir.blocks[second.0 as int].term == f.ir.blocks[second.0 as int].term);
    }
    assert(p4.avail[second.0 as int] == p2.avail[second.0 as int]) by {
        assert(p3.avail[second.0 as int] == p2.avail[second.0 as int]);
    }
    assert(in_scope(p4, second, tys3, scope, env)) by {
        assert forall|y: Seq<char>| #![trigger scope.contains(y)] scope.contains(y) implies p4.avail[second.0 as int].contains(
            y,
        ) && tys3.dom().contains(y) && (env.dom().contains(y) ==> tys3[y] == env[y]) by {
            assert(p1.avail[b.0 as int].contains(y));
            assert(tys1.dom().contains(y));
        }
    }
    lemma_unused_stays(tys1, tys3, binds(then_), binds(else_));
    let (p5, tys5) = lemma_lower_code(j, second, else_, p4, tys3, scope, env, limit);
    let (y, y_exit, done) = lowered(j, second, else_);
    assert(done.ir.blocks[merge.0 as int].preds == j.ir.blocks[merge.0 as int].preds);
    assert(merge != y_exit && !done.sealed[merge.0 as int]);
    lemma_join_code(done, p5, tys5, y_exit, merge);
    lemma_joined(done, y_exit, merge);
    let k = joined(done, y_exit, merge);
    let p6 = plan_joined(p5, y_exit.0 as int, merge.0 as int);
    assert(k.ir.blocks[merge.0 as int].preds =~= seq![x_exit, y_exit]);
    lemma_meet_code(k, p6, tys5, x_exit, y_exit, merge);
    let z = with_seal(k, merge);
    let p7 = plan_met(p6, x_exit.0 as int, y_exit.0 as int, merge.0 as int);
    lemma_merged(t, b, c, first, after, x_exit, second, done, y_exit, merge);
    assert(p5.over.len() == done.ir.blocks.len() && p5.avail.len() == done.ir.blocks.len()) by {
        reveal(graph_ok);
    }
    lemma_if_meets(
        t,
        b,
        c,
        p1,
        first,
        after,
        p3,
        x_exit,
        x,
        second,
        j,
        p4,
        done,
        p5,
        y_exit,
        y,
        p7,
        merge,
    );
    assert(names_added(tys1, tys5, binds(then_).union(binds(else_)))) by {
        assert forall|q: Seq<char>|
            #![trigger tys5.dom().contains(q)]
            #![trigger tys1.dom().contains(q)]
            tys1.dom().contains(q) implies tys5.dom().contains(q) && tys5[q] == tys1[q] by {
            assert(tys3.dom().contains(q));
        }
        assert forall|q: Seq<char>| #![trigger tys5.dom().contains(q)] tys5.dom().contains(
            q,
        ) implies tys1.dom().contains(q) || binds(then_).union(binds(else_)).contains(q) by {
            if !binds(else_).contains(q) {
                assert(tys3.dom().contains(q));
            }
        }
    }
    assert(types_stay(t, z)) by {
        assert forall|i: int| #![trigger z.ir.types[i]] 0 <= i < t.ir.types.len() implies z.ir.types[i]
            == t.ir.types[i] by {
            assert(after.ir.types[i] == f.ir.types[i]);
            assert(done.ir.types[i] == j.ir.types[i]);
        }
    }
    let names = binds(then_).union(binds(else_));
    assert(went(t, b, p1, tys1, z, merge, p7, tys5, names));
    lemma_went_trans(s, cur, p, tys, t, b, p1, tys1, binds(cond), z, merge, p7, tys5, names);
    let m = phi_of(seq![(x_exit, x), (y_exit, y)]);
    assert(gives(z.ir.types, z.ir.params, m, e.ty)) by {
        assert(m.args =~= seq![x, y]);
        assert(edge_blocks(seq![(x_exit, x), (y_exit, y)]) =~= seq![x_exit, y_exit]);
        assert(done.ir.types[x.0 as int] == j.ir.types[x.0 as int]);
        assert(has_type(z.ir.types, x, e.ty) && has_type(z.ir.types, y, e.ty));
        reveal(gives);
    }
    assert(supplied(z, p7, m, merge.0 as int, 0)) by {
        assert(m.args =~= seq![x, y]);
        assert(edge_blocks(seq![(x_exit, x), (y_exit, y)]) =~= seq![x_exit, y_exit]);
    }
    lemma_add_inst(z, merge, p7, tys5, m, e.ty, e.span);
    let last = emitted(z, merge, m, e.ty, e.span);
    let q = with_home(z, p7, merge.0 as int);
    let all = binds(cond).union(names);
    lemma_went_trans(s, cur, p, tys, z, merge, p7, tys5, all, last, merge, q, tys5, Set::empty());
    assert(all.union(Set::empty()) =~= binds(e));
    (q, tys5)
}

/// The plan behind a conditional goes on from the one before it.
#[verifier::rlimit(60)]
proof fn lemma_if_meets(
    t: State,
    b: Block,
    c: Value,
    p1: Plan,
    first: Block,
    after: State,
    p3: Plan,
    x_exit: Block,
    x: Value,
    second: Block,
    j: State,
    p4: Plan,
    done: State,
    p5: Plan,
    y_exit: Block,
    y: Value,
    p7: Plan,
    merge: Block,
)
    requires
        graph_ok(t, p1),
        b.0 < t.ir.blocks.len(),
        t.ir.blocks.len() + 3 <= u32::MAX,
        first.0 == t.ir.blocks.len(),
        second.0 == t.ir.blocks.len() + 1,
        merge.0 == t.ir.blocks.len() + 2,
        goes_on(plan_forked(p1, b.0 as int), p3, t.ir.blocks.len() + 3, first, x_exit),
        p4 == plan_joined(p3, x_exit.0 as int, merge.0 as int),
        j.ir.blocks.len() >= t.ir.blocks.len() + 3,
        goes_on(p4, p5, j.ir.blocks.len(), second, y_exit),
        p7 == plan_met(
            plan_joined(p5, y_exit.0 as int, merge.0 as int),
            x_exit.0 as int,
            y_exit.0 as int,
            merge.0 as int,
        ),
        x_exit == first || x_exit.0 >= t.ir.blocks.len() + 3,
        y_exit == second || y_exit.0 >= j.ir.blocks.len(),
        x_exit.0 < j.ir.blocks.len(),
        there(p3, x, x_exit.0 as int),
        there(p5, y, y_exit.0 as int),
        p5.over.len() == p5.avail.len(),
        merge.0 < p5.over.len(),
        y_exit.0 < p5.over.len(),
    ensures
        goes_on(p1, p7, t.ir.blocks.len(), b, merge),
        there(p7, x, x_exit.0 as int),
        there(p7, y, y_exit.0 as int),
{
    let n = t.ir.blocks.len();
    let p2 = plan_forked(p1, b.0 as int);
    let b0 = b.0 as int;
    assert(p1.over.len() == n && p1.avail.len() == n) by {
        reveal(graph_ok);
    }
    assert(p2.over[n as int] == p1.over[b0].insert(n as int));
    assert(p2.over[n as int + 1] == p1.over[b0].insert(n as int + 1));
    assert(p2.avail[n as int] == p1.avail[b0] && p2.avail[n as int + 1] == p1.avail[b0]);
    let xe = x_exit.0 as int;
    let ye = y_exit.0 as int;
    assert(p5.over[xe] == p4.over[xe]);
    assert(p5.avail[xe] == p4.avail[xe]);
    assert(p4.over[second.0 as int] == p3.over[second.0 as int]);
    assert(p3.over[second.0 as int] == p2.over[second.0 as int]);
    assert(p3.avail[second.0 as int] == p2.avail[second.0 as int]);
    assert(p7.over[merge.0 as int] == p5.over[xe].intersect(p5.over[ye]).insert(merge.0 as int));
    assert(p7.avail[merge.0 as int] == p5.avail[xe].intersect(p5.avail[ye]));
    assert forall|d: int| p1.over[b0].contains(d) implies p7.over[merge.0 as int].contains(d) by {
        assert(p2.over[n as int].contains(d));
        assert(p2.over[n as int + 1].contains(d));
        assert(p3.over[xe].contains(d));
        assert(p4.over[second.0 as int].contains(d));
    }
    assert forall|d: Seq<char>| p1.avail[b0].contains(d) implies p7.avail[merge.0 as int].contains(
        d,
    ) by {
        assert(p3.avail[xe].contains(d));
        assert(p4.avail[second.0 as int].contains(d));
    }
    assert forall|v: int| #![trigger p7.home[v]] 0 <= v < p1.home.len() implies p7.home[v]
        == p1.home[v] by {
        assert(p3.home[v] == p2.home[v]);
        assert(p5.home[v] == p4.home[v]);
    }
    assert forall|i: int| #![trigger p7.over[i]] 0 <= i < n implies p7.over[i] == p1.over[i] by {
        assert(p2.over[i] == p1.over[i]);
        assert(p3.over[i] == p2.over[i]);
        assert(p5.over[i] == p4.over[i]);
    }
    assert forall|i: int| #![trigger p7.avail[i]] 0 <= i < n && i != b.0 implies p7.avail[i]
        == p1.avail[i] by {
        assert(p2.avail[i] == p1.avail[i]);
        assert(p3.avail[i] == p2.avail[i]);
        assert(p5.avail[i] == p4.avail[i]);
    }
    assert(p5.home[x.0 as int] == p4.home[x.0 as int]);
    assert(p7.over[xe] == p5.over[xe]);
    assert(p7.over[ye] == p5.over[ye]);
}

} // verus!
