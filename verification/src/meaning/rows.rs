//! What vectorized programs mean: every row is what its expression says.
use crate::array::TypedArray;
use crate::array::{
    all_loads, all_rewrites, constant_of, is_rewrite, is_scalar, load_of, loads_of, synthetic,
};
use crate::builder::ir_of;
use crate::float::FloatSem;
use crate::interp::RtValue;
use crate::interp::yields;
use crate::ir::Function;
use crate::lower::{lowered_function, small_enough, lowerable};
use crate::lower::{BinaryOp, Expr, ExprKind, TypedAst, UnaryOp};
use crate::meaning::{
    apply, binds, lemma_lowering_keeps_meaning, param_env, param_names, params_distinct, scoped,
    value_of, values_of,
};
use crate::meaning::operators::{call_result, unary_result, widen};
use vstd::prelude::*;

verus! {

/// What the columns hold, by name and row.
pub type Columns = spec_fn(Seq<char>, int) -> RtValue;

/// The value of an expression in a row. A column is read at its distance from
/// the row.
pub open spec fn row_value(
    e: Expr,
    induction: Seq<char>,
    columns: Columns,
    row: int,
    env: Map<Seq<char>, RtValue>,
    fs: FloatSem,
) -> Option<RtValue>
    decreases e, 0nat,
{
    match e.kind {
        ExprKind::Float(bits) => Some(RtValue::F64(bits)),
        ExprKind::Int(n) => Some(RtValue::I64(n)),
        ExprKind::Bool(b) => Some(RtValue::Bool(b)),
        ExprKind::Ident(name) => if env.dom().contains(name@) {
            Some(env[name@])
        } else {
            None
        },
        ExprKind::Unary { op, operand } => match row_value(
            *operand,
            induction,
            columns,
            row,
            env,
            fs,
        ) {
            Some(x) => unary_result(op, x),
            None => None,
        },
        ExprKind::Binary { op, lhs, rhs } => match (
            row_value(*lhs, induction, columns, row, env, fs),
            row_value(*rhs, induction, columns, row, env, fs),
        ) {
            (Some(l), Some(r)) => apply(op, e.ty, (l, lhs.ty), (r, rhs.ty), fs),
            _ => None,
        },
        ExprKind::Call { callee, args } => match row_values(
            args@,
            induction,
            columns,
            row,
            env,
            fs,
            args@.len(),
        ) {
            Some(vs) => call_result(callee@, vs, fs),
            None => None,
        },
        ExprKind::If { cond, then_, else_ } => match row_value(
            *cond,
            induction,
            columns,
            row,
            env,
            fs,
        ) {
            Some(RtValue::Bool(true)) => row_value(*then_, induction, columns, row, env, fs),
            Some(RtValue::Bool(false)) => row_value(*else_, induction, columns, row, env, fs),
            _ => None,
        },
        ExprKind::Let { name, value, body } => match row_value(
            *value,
            induction,
            columns,
            row,
            env,
            fs,
        ) {
            Some(x) => row_value(*body, induction, columns, row, env.insert(name@, x), fs),
            None => None,
        },
        ExprKind::Index { base, index } => match load_of(*base, *index, induction) {
            Ok((name, offset)) => Some(columns(name, row + offset)),
            Err(_) => None,
        },
    }
}

pub open spec fn row_values(
    args: Seq<Expr>,
    induction: Seq<char>,
    columns: Columns,
    row: int,
    env: Map<Seq<char>, RtValue>,
    fs: FloatSem,
    k: nat,
) -> Option<Seq<RtValue>>
    decreases args, k,
{
    if k == 0 || k > args.len() {
        Some(Seq::empty())
    } else {
        match (
            row_values(args, induction, columns, row, env, fs, (k - 1) as nat),
            row_value(args[k - 1], induction, columns, row, env, fs),
        ) {
            (Some(vs), Some(x)) => match widen(x, args[k - 1].ty, fs) {
                Some(y) => Some(vs.push(y)),
                None => None,
            },
            _ => None,
        }
    }
}

/// A name that a program can use: the parameters that stand for uses of
/// columns have a percent sign in theirs.
pub open spec fn is_plain(name: Seq<char>) -> bool {
    !name.contains('%')
}

/// The program binds and reads plain names only.
pub open spec fn plain_names(e: Expr) -> bool
    decreases e, 0nat,
{
    match e.kind {
        ExprKind::Ident(name) => is_plain(name@),
        ExprKind::Unary { operand, .. } => plain_names(*operand),
        ExprKind::Binary { lhs, rhs, .. } => plain_names(*lhs) && plain_names(*rhs),
        ExprKind::Call { args, .. } => all_plain(args@, args@.len()),
        ExprKind::If { cond, then_, else_ } => plain_names(*cond) && plain_names(*then_)
            && plain_names(*else_),
        ExprKind::Let { name, value, body } => is_plain(name@) && plain_names(*value)
            && plain_names(*body),
        _ => true,
    }
}

pub open spec fn all_plain(args: Seq<Expr>, k: nat) -> bool
    decreases args, k,
{
    if k == 0 || k > args.len() {
        true
    } else {
        plain_names(args[k - 1]) && all_plain(args, (k - 1) as nat)
    }
}

/// The two environments agree on plain names.
pub open spec fn agree(env: Map<Seq<char>, RtValue>, inner: Map<Seq<char>, RtValue>) -> bool {
    forall|name: Seq<char>|
        #![trigger env.dom().contains(name)]
        #![trigger inner.dom().contains(name)]
        is_plain(name) ==> env.dom().contains(name) == inner.dom().contains(name) && (
        env.dom().contains(name) ==> env[name] == inner[name])
}

/// The parameter that stands for the `j`-th use of a column is what the column
/// holds there.
pub open spec fn loaded_at(
    inner: Map<Seq<char>, RtValue>,
    l: (Seq<char>, i32),
    j: nat,
    columns: Columns,
    row: int,
) -> bool {
    &&& inner.dom().contains(synthetic(l.0, j))
    &&& inner[synthetic(l.0, j)] == columns(l.0, row + l.1)
}

/// The uses, counted from `n`, are loaded.
pub open spec fn loaded(
    inner: Map<Seq<char>, RtValue>,
    loads: Seq<(Seq<char>, i32)>,
    n: nat,
    columns: Columns,
    row: int,
) -> bool {
    forall|j: int|
        #![trigger loads[j]]
        0 <= j < loads.len() ==> loaded_at(inner, loads[j], (n + j) as nat, columns, row)
}

pub(crate) proof fn lemma_not_plain(name: Seq<char>, n: nat)
    ensures
        !is_plain(synthetic(name, n)),
{
    reveal_strlit("%array_load_");
    let s = synthetic(name, n);
    assert(s[name.len() as int] == '%');
}

/// A plain name changes nothing of what was loaded.
proof fn lemma_loaded_kept(
    inner: Map<Seq<char>, RtValue>,
    name: Seq<char>,
    x: RtValue,
    loads: Seq<(Seq<char>, i32)>,
    n: nat,
    columns: Columns,
    row: int,
)
    requires
        is_plain(name),
        loaded(inner, loads, n, columns, row),
    ensures
        loaded(inner.insert(name, x), loads, n, columns, row),
{
    assert forall|j: int| #![trigger loads[j]] 0 <= j < loads.len() implies loaded_at(
        inner.insert(name, x),
        loads[j],
        (n + j) as nat,
        columns,
        row,
    ) by {
        assert(loaded_at(inner, loads[j], (n + j) as nat, columns, row));
        lemma_not_plain(loads[j].0, (n + j) as nat);
    }
}

/// The parts of a list of uses are loaded.
proof fn lemma_loaded_parts(
    inner: Map<Seq<char>, RtValue>,
    a: Seq<(Seq<char>, i32)>,
    b: Seq<(Seq<char>, i32)>,
    n: nat,
    columns: Columns,
    row: int,
)
    requires
        loaded(inner, a + b, n, columns, row),
    ensures
        loaded(inner, a, n, columns, row),
        loaded(inner, b, n + a.len(), columns, row),
{
    assert forall|j: int| #![trigger a[j]] 0 <= j < a.len() implies loaded_at(
        inner,
        a[j],
        (n + j) as nat,
        columns,
        row,
    ) by {
        assert((a + b)[j] == a[j]);
    }
    assert forall|j: int| #![trigger b[j]] 0 <= j < b.len() implies loaded_at(
        inner,
        b[j],
        (n + a.len() + j) as nat,
        columns,
        row,
    ) by {
        assert((a + b)[a.len() + j] == b[j]);
    }
}

proof fn lemma_rewrite_type(e: Expr, t: Expr, induction: Seq<char>, n: nat)
    requires
        is_rewrite(e, t, induction, n),
    ensures
        t.ty == e.ty,
{
}

/// Turning uses of columns into parameters keeps the value of a row.
#[verifier::rlimit(60)]
proof fn lemma_rewrite_value(
    e: Expr,
    t: Expr,
    induction: Seq<char>,
    n: nat,
    columns: Columns,
    row: int,
    env: Map<Seq<char>, RtValue>,
    inner: Map<Seq<char>, RtValue>,
    fs: FloatSem,
)
    requires
        is_rewrite(e, t, induction, n),
        loads_of(e, induction) is Ok,
        plain_names(e),
        agree(env, inner),
        loaded(inner, loads_of(e, induction)->Ok_0, n, columns, row),
    ensures
        value_of(t, inner, fs) == row_value(e, induction, columns, row, env, fs),
    decreases e, 1nat,
{
    match e.kind {
        ExprKind::Index { base, index } => {
            let l = load_of(*base, *index, induction)->Ok_0;
            let loads = loads_of(e, induction)->Ok_0;
            assert(loads[0] == l);
        },
        ExprKind::Unary { operand, .. } => {
            lemma_rewrite_value(
                *operand,
                *t.kind->operand,
                induction,
                n,
                columns,
                row,
                env,
                inner,
                fs,
            );
        },
        ExprKind::Binary { lhs, rhs, .. } => {
            let a = loads_of(*lhs, induction)->Ok_0;
            let b = loads_of(*rhs, induction)->Ok_0;
            lemma_loaded_parts(inner, a, b, n, columns, row);
            let x = *t.kind->lhs;
            let y = *t.kind->rhs;
            lemma_rewrite_value(*lhs, x, induction, n, columns, row, env, inner, fs);
            lemma_rewrite_value(*rhs, y, induction, n + a.len(), columns, row, env, inner, fs);
            lemma_rewrite_type(*lhs, x, induction, n);
            lemma_rewrite_type(*rhs, y, induction, n + a.len());
        },
        ExprKind::Call { args, .. } => {
            let ts = t.kind->args@;
            lemma_rewrite_values(
                args@,
                ts,
                induction,
                n,
                args@.len(),
                columns,
                row,
                env,
                inner,
                fs,
            );
        },
        ExprKind::If { cond, then_, else_ } => {
            let a = loads_of(*cond, induction)->Ok_0;
            let b = loads_of(*then_, induction)->Ok_0;
            let c = loads_of(*else_, induction)->Ok_0;
            lemma_loaded_parts(inner, a + b, c, n, columns, row);
            lemma_loaded_parts(inner, a, b, n, columns, row);
            let x = *t.kind->cond;
            let y = *t.kind->then_;
            let z = *t.kind->else_;
            lemma_rewrite_value(*cond, x, induction, n, columns, row, env, inner, fs);
            lemma_rewrite_value(*then_, y, induction, n + a.len(), columns, row, env, inner, fs);
            lemma_rewrite_value(
                *else_,
                z,
                induction,
                n + a.len() + b.len(),
                columns,
                row,
                env,
                inner,
                fs,
            );
        },
        ExprKind::Let { name, value, body } => {
            let a = loads_of(*value, induction)->Ok_0;
            let b = loads_of(*body, induction)->Ok_0;
            lemma_loaded_parts(inner, a, b, n, columns, row);
            let x = *t.kind->value;
            let y = *t.kind->body;
            lemma_rewrite_value(*value, x, induction, n, columns, row, env, inner, fs);
            if let Some(v) = row_value(*value, induction, columns, row, env, fs) {
                let more = env.insert(name@, v);
                let within = inner.insert(name@, v);
                lemma_loaded_kept(inner, name@, v, b, n + a.len(), columns, row);
                assert(agree(more, within)) by {
                    assert forall|other: Seq<char>|
                        #![trigger more.dom().contains(other)]
                        #![trigger within.dom().contains(other)]
                        is_plain(other) implies more.dom().contains(other)
                        == within.dom().contains(other) && (more.dom().contains(other)
                        ==> more[other] == within[other]) by {
                        if other != name@ {
                            assert(env.dom().contains(other) == inner.dom().contains(other));
                        }
                    }
                }
                lemma_rewrite_value(
                    *body,
                    y,
                    induction,
                    n + a.len(),
                    columns,
                    row,
                    more,
                    within,
                    fs,
                );
            }
        },
        ExprKind::Ident(name) => {
            assert(env.dom().contains(name@) == inner.dom().contains(name@));
        },
        _ => {},
    }
}

#[verifier::rlimit(40)]
proof fn lemma_rewrite_values(
    args: Seq<Expr>,
    ts: Seq<Expr>,
    induction: Seq<char>,
    n: nat,
    k: nat,
    columns: Columns,
    row: int,
    env: Map<Seq<char>, RtValue>,
    inner: Map<Seq<char>, RtValue>,
    fs: FloatSem,
)
    requires
        k <= args.len(),
        ts.len() == args.len(),
        all_rewrites(args, ts, induction, n, k),
        all_loads(args, induction, k) is Ok,
        all_plain(args, k),
        agree(env, inner),
        loaded(inner, all_loads(args, induction, k)->Ok_0, n, columns, row),
    ensures
        values_of(ts, inner, fs, k) == row_values(args, induction, columns, row, env, fs, k),
    decreases args, k,
{
    if k > 0 {
        let l = (k - 1) as nat;
        let a = all_loads(args, induction, l)->Ok_0;
        let b = loads_of(args[k - 1], induction)->Ok_0;
        lemma_loaded_parts(inner, a, b, n, columns, row);
        lemma_rewrite_values(args, ts, induction, n, l, columns, row, env, inner, fs);
        lemma_rewrite_value(
            args[k - 1],
            ts[k - 1],
            induction,
            n + a.len(),
            columns,
            row,
            env,
            inner,
            fs,
        );
        assert(ts[k - 1].ty == args[k - 1].ty);
    }
}

/// A row of a vectorized program: the scalar function, called with the
/// elements of the columns at the offsets of their uses and with the scalars,
/// yields what the expression of the program is in that row.
pub proof fn lemma_row_computes(
    typed: TypedArray,
    loads: Seq<(Seq<char>, i32)>,
    ast: TypedAst,
    element: Function,
    columns: Columns,
    row: int,
    env: Map<Seq<char>, RtValue>,
    args: Seq<RtValue>,
    fs: FloatSem,
    x: RtValue,
)
    requires
        loads_of(typed.root, typed.index@) == Ok::<
            Seq<(Seq<char>, i32)>,
            crate::array::ArrayError,
        >(loads),
        is_scalar(typed, loads, ast),
        ir_of(element) == lowered_function(ast),
        plain_names(typed.root),
        lowerable(ast.root),
        small_enough(ast),
        params_distinct(ast.params@, ast.params@.len()),
        scoped(ast.root, param_names(ast.params@, ast.params@.len())),
        binds(ast.root).disjoint(param_names(ast.params@, ast.params@.len())),
        args.len() == ast.params@.len(),
        agree(env, param_env(ast.params@, args, args.len())),
        loaded(param_env(ast.params@, args, args.len()), loads, 0, columns, row),
        row_value(typed.root, typed.index@, columns, row, env, fs) == Some(x),
    ensures
        yields(element, args, fs, x),
{
    let inner = param_env(ast.params@, args, args.len());
    lemma_rewrite_value(typed.root, ast.root, typed.index@, 0, columns, row, env, inner, fs);
    lemma_lowering_keeps_meaning(ast, element, args, fs, x);
}

// ---------------------------------------------------------------------------
// Indices

/// The number that an index is in a row, for the indices made of the induction
/// variable, constants, sums, differences and negations.
pub open spec fn index_value(e: Expr, induction: Seq<char>, row: int) -> Option<int>
    decreases e,
{
    match e.kind {
        ExprKind::Ident(name) => if name@ == induction {
            Some(row)
        } else {
            None
        },
        ExprKind::Int(n) => Some(n as int),
        ExprKind::Unary { op: UnaryOp::Neg, operand } => match index_value(
            *operand,
            induction,
            row,
        ) {
            Some(x) => Some(-x),
            None => None,
        },
        ExprKind::Binary { op: BinaryOp::Add, lhs, rhs } => match (
            index_value(*lhs, induction, row),
            index_value(*rhs, induction, row),
        ) {
            (Some(x), Some(y)) => Some(x + y),
            _ => None,
        },
        ExprKind::Binary { op: BinaryOp::Sub, lhs, rhs } => match (
            index_value(*lhs, induction, row),
            index_value(*rhs, induction, row),
        ) {
            (Some(x), Some(y)) => Some(x - y),
            _ => None,
        },
        _ => None,
    }
}

proof fn lemma_constant_value(e: Expr, induction: Seq<char>, row: int)
    ensures
        constant_of(e) matches Some(n) ==> index_value(e, induction, row) == Some(n as int),
    decreases e,
{
    if let ExprKind::Unary { op: UnaryOp::Neg, operand } = e.kind {
        lemma_constant_value(*operand, induction, row);
    }
}

/// A column is read in the row that its index says, whatever the row is: the
/// offset of a load is how far the index is from the row.
pub proof fn lemma_index_is_row(base: Expr, index: Expr, induction: Seq<char>, row: int)
    ensures
        load_of(base, index, induction) matches Ok((name, offset)) ==> {
            &&& base.kind matches ExprKind::Ident(n) && n@ == name
            &&& index_value(index, induction, row) == Some(row + offset)
        },
{
    if let ExprKind::Binary { lhs, rhs, .. } = index.kind {
        lemma_constant_value(*lhs, induction, row);
        lemma_constant_value(*rhs, induction, row);
    }
}

} // verus!
