//! From typed expressions to SSA.
use crate::builder::Builder;
use crate::builder::{
    closed_off, emitted, empty_state, ir_of, lemma_closed_stays, lemma_sealed_empty,
    lemma_undefined_bounded, next_value, phi_of, preds_of, read, room_to_seal, same_shape, shaped,
    walks_end, with_block, with_param, with_pred, with_seal, with_term, written, Ir, State,
};
use crate::builder::{is_rank, a_rank, orders};
use crate::collections::{EdgeList, ValueList};
use crate::ir::{model0, model1, model2, InstModel, Op};
use crate::ir::{Block, CmpOp, Function, Inst, LibFunc, Span, Terminator, Ty, Value};
use vstd::prelude::*;

verus! {

// ---------------------------------------------------------------------------
// Expressions

#[derive(Clone, Copy, PartialEq, Eq, Debug, Structural)]
pub enum UnaryOp {
    Neg,
    Not,
    BitNot,
}

#[derive(Clone, Copy, PartialEq, Eq, Debug, Structural)]
pub enum BinaryOp {
    Add,
    Sub,
    Mul,
    Div,
    Rem,
    BitAnd,
    BitOr,
    BitXor,
    Shl,
    Shr,
    Eq,
    Ne,
    Lt,
    Le,
    Gt,
    Ge,
    And,
    Or,
}

/// An expression with its type and its place in the source. Every name is
/// bound once.
#[derive(Debug)]
pub struct Expr {
    pub kind: ExprKind,
    pub ty: Ty,
    pub span: Span,
}

#[allow(inconsistent_fields)]
#[derive(Debug)]
pub enum ExprKind {
    /// The bits of a double.
    Float(u64),
    Int(i64),
    Bool(bool),
    Ident(String),
    Unary { op: UnaryOp, operand: Box<Expr> },
    Binary { op: BinaryOp, lhs: Box<Expr>, rhs: Box<Expr> },
    Call { callee: String, args: Vec<Expr> },
    If { cond: Box<Expr>, then_: Box<Expr>, else_: Box<Expr> },
    Let { name: String, value: Box<Expr>, body: Box<Expr> },
    /// An element of a column; it stands in vectorized programs only.
    Index { base: Box<Expr>, index: Box<Expr> },
}

/// An expression and its parameters.
#[derive(Debug)]
pub struct TypedAst {
    pub root: Expr,
    pub params: Vec<(String, Ty)>,
}

/// How many arguments a known function takes.
pub open spec fn intrinsic_arity(name: Seq<char>) -> Option<nat> {
    if name == "sqrt"@ || name == "abs"@ || name == "floor"@ || name == "ceil"@ || name
        == "round"@ || name == "trunc"@ {
        Some(1)
    } else if name == "min"@ || name == "max"@ {
        Some(2)
    } else if name == "fma"@ {
        Some(3)
    } else if name == "sin"@ || name == "cos"@ || name == "tan"@ || name == "exp"@ || name
        == "log"@ {
        Some(1)
    } else if name == "pow"@ {
        Some(2)
    } else {
        None
    }
}

/// Every function that is called is known and gets the arguments it takes, and
/// no column is indexed.
pub open spec fn lowerable(e: Expr) -> bool
    decreases e, 0nat,
{
    match e.kind {
        ExprKind::Unary { operand, .. } => lowerable(*operand),
        ExprKind::Binary { lhs, rhs, .. } => lowerable(*lhs) && lowerable(*rhs),
        ExprKind::Call { callee, args } => intrinsic_arity(callee@) == Some(args@.len())
            && all_lowerable(args@, args@.len()),
        ExprKind::If { cond, then_, else_ } => lowerable(*cond) && lowerable(*then_)
            && lowerable(*else_),
        ExprKind::Let { value, body, .. } => lowerable(*value) && lowerable(*body),
        ExprKind::Index { .. } => false,
        _ => true,
    }
}

pub open spec fn all_lowerable(args: Seq<Expr>, k: nat) -> bool
    decreases args, k,
{
    if k == 0 || k > args.len() {
        true
    } else {
        lowerable(args[k - 1]) && all_lowerable(args, (k - 1) as nat)
    }
}

/// How many expressions there are.
pub open spec fn nodes(e: Expr) -> nat
    decreases e, 0nat,
{
    1 + match e.kind {
        ExprKind::Unary { operand, .. } => nodes(*operand),
        ExprKind::Binary { lhs, rhs, .. } => nodes(*lhs) + nodes(*rhs),
        ExprKind::Call { args, .. } => all_nodes(args@, args@.len()),
        ExprKind::If { cond, then_, else_ } => nodes(*cond) + nodes(*then_) + nodes(*else_),
        ExprKind::Let { value, body, .. } => nodes(*value) + nodes(*body),
        ExprKind::Index { base, index } => nodes(*base) + nodes(*index),
        _ => 0,
    }
}

pub open spec fn all_nodes(args: Seq<Expr>, k: nat) -> nat
    decreases args, k,
{
    if k == 0 || k > args.len() {
        0
    } else {
        nodes(args[k - 1]) + all_nodes(args, (k - 1) as nat)
    }
}

/// How many conditionals there are.
pub open spec fn ifs(e: Expr) -> nat
    decreases e, 0nat,
{
    match e.kind {
        ExprKind::Unary { operand, .. } => ifs(*operand),
        ExprKind::Binary { lhs, rhs, .. } => ifs(*lhs) + ifs(*rhs),
        ExprKind::Call { args, .. } => all_ifs(args@, args@.len()),
        ExprKind::If { cond, then_, else_ } => 1 + ifs(*cond) + ifs(*then_) + ifs(*else_),
        ExprKind::Let { value, body, .. } => ifs(*value) + ifs(*body),
        ExprKind::Index { base, index } => ifs(*base) + ifs(*index),
        _ => 0,
    }
}

pub open spec fn all_ifs(args: Seq<Expr>, k: nat) -> nat
    decreases args, k,
{
    if k == 0 || k > args.len() {
        0
    } else {
        ifs(args[k - 1]) + all_ifs(args, (k - 1) as nat)
    }
}

// ---------------------------------------------------------------------------
// Instructions

pub open spec fn unary_model(op: UnaryOp, v: Value) -> InstModel {
    match op {
        UnaryOp::Neg => model1(Op::Neg, v),
        _ => model1(Op::Not, v),
    }
}

pub open spec fn binary_model(op: BinaryOp, l: Value, r: Value) -> InstModel {
    match op {
        BinaryOp::Add => model2(Op::Add, l, r),
        BinaryOp::Sub => model2(Op::Sub, l, r),
        BinaryOp::Mul => model2(Op::Mul, l, r),
        BinaryOp::Div => model2(Op::Div, l, r),
        BinaryOp::Rem => model2(Op::Rem, l, r),
        BinaryOp::BitAnd | BinaryOp::And => model2(Op::And, l, r),
        BinaryOp::BitOr | BinaryOp::Or => model2(Op::Or, l, r),
        BinaryOp::BitXor => model2(Op::Xor, l, r),
        BinaryOp::Shl => model2(Op::Shl, l, r),
        BinaryOp::Shr => model2(Op::Shr, l, r),
        BinaryOp::Eq => model2(Op::Compare(CmpOp::Eq), l, r),
        BinaryOp::Ne => model2(Op::Compare(CmpOp::Ne), l, r),
        BinaryOp::Lt => model2(Op::Compare(CmpOp::Lt), l, r),
        BinaryOp::Le => model2(Op::Compare(CmpOp::Le), l, r),
        BinaryOp::Gt => model2(Op::Compare(CmpOp::Gt), l, r),
        BinaryOp::Ge => model2(Op::Compare(CmpOp::Ge), l, r),
    }
}

/// The instruction that calls a known function.
pub open spec fn call_model(name: Seq<char>, args: Seq<Value>) -> InstModel {
    if name == "sqrt"@ {
        model1(Op::Sqrt, args[0])
    } else if name == "abs"@ {
        model1(Op::Abs, args[0])
    } else if name == "floor"@ {
        model1(Op::Floor, args[0])
    } else if name == "ceil"@ {
        model1(Op::Ceil, args[0])
    } else if name == "round"@ {
        model1(Op::Round, args[0])
    } else if name == "trunc"@ {
        model1(Op::Trunc, args[0])
    } else if name == "min"@ {
        model2(Op::Min, args[0], args[1])
    } else if name == "max"@ {
        model2(Op::Max, args[0], args[1])
    } else if name == "fma"@ {
        InstModel { op: Op::Fma, args: seq![args[0], args[1], args[2]] }
    } else {
        InstModel { op: Op::Call(library_function(name)), args }
    }
}

pub open spec fn library_function(name: Seq<char>) -> LibFunc {
    if name == "sin"@ {
        LibFunc::Sin
    } else if name == "cos"@ {
        LibFunc::Cos
    } else if name == "tan"@ {
        LibFunc::Tan
    } else if name == "exp"@ {
        LibFunc::Exp
    } else if name == "log"@ {
        LibFunc::Log
    } else {
        LibFunc::Pow
    }
}

fn lower_unary(op: UnaryOp, v: Value) -> (r: Inst)
    ensures
        r@ == unary_model(op, v),
{
    match op {
        UnaryOp::Neg => Inst::Neg(v),
        UnaryOp::Not | UnaryOp::BitNot => Inst::Not(v),
    }
}

fn lower_binary(op: BinaryOp, l: Value, r: Value) -> (inst: Inst)
    ensures
        inst@ == binary_model(op, l, r),
{
    match op {
        BinaryOp::Add => Inst::Add(l, r),
        BinaryOp::Sub => Inst::Sub(l, r),
        BinaryOp::Mul => Inst::Mul(l, r),
        BinaryOp::Div => Inst::Div(l, r),
        BinaryOp::Rem => Inst::Rem(l, r),
        BinaryOp::BitAnd | BinaryOp::And => Inst::And(l, r),
        BinaryOp::BitOr | BinaryOp::Or => Inst::Or(l, r),
        BinaryOp::BitXor => Inst::Xor(l, r),
        BinaryOp::Shl => Inst::Shl(l, r),
        BinaryOp::Shr => Inst::Shr(l, r),
        BinaryOp::Eq => Inst::Cmp { op: CmpOp::Eq, lhs: l, rhs: r },
        BinaryOp::Ne => Inst::Cmp { op: CmpOp::Ne, lhs: l, rhs: r },
        BinaryOp::Lt => Inst::Cmp { op: CmpOp::Lt, lhs: l, rhs: r },
        BinaryOp::Le => Inst::Cmp { op: CmpOp::Le, lhs: l, rhs: r },
        BinaryOp::Gt => Inst::Cmp { op: CmpOp::Gt, lhs: l, rhs: r },
        BinaryOp::Ge => Inst::Cmp { op: CmpOp::Ge, lhs: l, rhs: r },
    }
}

/// Whether the name is this text.
fn is_text(name: &String, text: &str) -> (r: bool)
    ensures
        r == (name@ == text@),
{
    let wanted: String = text.to_owned();
    *name == wanted
}

fn find_library_function(name: &String) -> (r: LibFunc)
    ensures
        r == library_function(name@),
{
    if is_text(name, "sin") {
        LibFunc::Sin
    } else if is_text(name, "cos") {
        LibFunc::Cos
    } else if is_text(name, "tan") {
        LibFunc::Tan
    } else if is_text(name, "exp") {
        LibFunc::Exp
    } else if is_text(name, "log") {
        LibFunc::Log
    } else {
        LibFunc::Pow
    }
}

fn argument_list(args: &Vec<Value>) -> (r: ValueList)
    ensures
        r@ == args@,
{
    let mut r: ValueList = ValueList::new();
    let mut i: usize = 0;
    assert(r@ =~= args@.take(0));
    while i < args.len()
        invariant
            i <= args@.len(),
            r@ == args@.take(i as int),
        decreases args@.len() - i,
    {
        r.push(args[i]);
        assert(r@ =~= args@.take(i + 1));
        i += 1;
    }
    assert(args@.take(i as int) =~= args@);
    r
}

/// The call of a known function.
fn lower_call(callee: &String, args: &Vec<Value>) -> (r: Inst)
    requires
        intrinsic_arity(callee@) == Some(args@.len()),
    ensures
        r@ == call_model(callee@, args@),
{
    if is_text(callee, "sqrt") {
        Inst::Sqrt(args[0])
    } else if is_text(callee, "abs") {
        Inst::Abs(args[0])
    } else if is_text(callee, "floor") {
        Inst::Floor(args[0])
    } else if is_text(callee, "ceil") {
        Inst::Ceil(args[0])
    } else if is_text(callee, "round") {
        Inst::Round(args[0])
    } else if is_text(callee, "trunc") {
        Inst::Trunc(args[0])
    } else if is_text(callee, "min") {
        Inst::Min(args[0], args[1])
    } else if is_text(callee, "max") {
        Inst::Max(args[0], args[1])
    } else if is_text(callee, "fma") {
        Inst::Fma { a: args[0], b: args[1], c: args[2] }
    } else {
        Inst::Call { func: find_library_function(callee), args: argument_list(args) }
    }
}

// ---------------------------------------------------------------------------
// What lowering makes of an expression

/// The value of a variable at the end of a block.
pub open spec fn read_now(s: State, name: Seq<char>, block: Block, ty: Ty) -> (Value, State) {
    let n = s.ir.blocks.len();
    read(n, n, n, s, name, block, ty)
}

/// An integer becomes a double.
pub open spec fn widened(s: State, block: Block, v: Value, ty: Ty, span: Span) -> (Value, State) {
    if ty == Ty::I64 {
        (next_value(s), emitted(s, block, model1(Op::IToF, v), Ty::F64, span))
    } else {
        (v, s)
    }
}

/// The operator mixes integers and doubles.
pub open spec fn is_arithmetic(op: BinaryOp) -> bool {
    op == BinaryOp::Add || op == BinaryOp::Sub || op == BinaryOp::Mul || op == BinaryOp::Div || op
        == BinaryOp::Rem
}

/// The operands of an arithmetic operation on doubles are doubles.
pub open spec fn operands(
    s: State,
    block: Block,
    e: Expr,
    op: BinaryOp,
    l: (Value, Ty),
    r: (Value, Ty),
) -> (Value, Value, State) {
    if is_arithmetic(op) && e.ty == Ty::F64 {
        let (lv, t) = widened(s, block, l.0, l.1, e.span);
        let (rv, w) = widened(t, block, r.0, r.1, e.span);
        (lv, rv, w)
    } else {
        (l.0, r.0, s)
    }
}

/// Three new blocks, and a branch from `block` to the first two.
pub open spec fn forked(s: State, block: Block, cond: Value) -> State {
    let then_ = Block(s.ir.blocks.len() as u32);
    let else_ = Block((s.ir.blocks.len() + 1) as u32);
    let made = with_block(with_block(with_block(s)));
    let branch = with_term(made, block, Terminator::Branch { cond, then_, else_ });
    let known = with_pred(with_pred(branch, then_, block), else_, block);
    with_seal(with_seal(known, then_), else_)
}

/// Block `exit` goes on to block `merge`.
pub open spec fn joined(s: State, exit: Block, merge: Block) -> State {
    with_pred(with_term(s, exit, Terminator::Jump(merge)), merge, exit)
}

/// The value of an expression, the block in which it is known, and the
/// function so far.
pub open spec fn lowered(s: State, cur: Block, e: Expr) -> (Value, Block, State)
    decreases e, 0nat,
{
    match e.kind {
        ExprKind::Float(bits) => (
            next_value(s),
            cur,
            emitted(s, cur, model0(Op::ConstF64(bits)), e.ty, e.span),
        ),
        ExprKind::Int(n) => (
            next_value(s),
            cur,
            emitted(s, cur, model0(Op::ConstI64(n)), e.ty, e.span),
        ),
        ExprKind::Bool(v) => (
            next_value(s),
            cur,
            emitted(s, cur, model0(Op::ConstBool(v)), e.ty, e.span),
        ),
        ExprKind::Ident(name) => {
            let (v, t) = read_now(s, name@, cur, e.ty);
            (v, cur, t)
        },
        ExprKind::Unary { op, operand } => {
            let (v, b, t) = lowered(s, cur, *operand);
            (next_value(t), b, emitted(t, b, unary_model(op, v), e.ty, e.span))
        },
        ExprKind::Binary { op, lhs, rhs } => {
            let (l, b, t) = lowered(s, cur, *lhs);
            let (r, c, w) = lowered(t, b, *rhs);
            let (x, y, z) = operands(w, c, e, op, (l, lhs.ty), (r, rhs.ty));
            (next_value(z), c, emitted(z, c, binary_model(op, x, y), e.ty, e.span))
        },
        ExprKind::Call { callee, args } => {
            let (values, b, t) = lowered_args(s, cur, e.span, args@, args@.len());
            (next_value(t), b, emitted(t, b, call_model(callee@, values), e.ty, e.span))
        },
        ExprKind::If { cond, then_, else_ } => {
            let (c, b, t) = lowered(s, cur, *cond);
            let first = Block(t.ir.blocks.len() as u32);
            let second = Block((t.ir.blocks.len() + 1) as u32);
            let merge = Block((t.ir.blocks.len() + 2) as u32);
            let (x, x_exit, after) = lowered(forked(t, b, c), first, *then_);
            let (y, y_exit, done) = lowered(joined(after, x_exit, merge), second, *else_);
            let w = with_seal(joined(done, y_exit, merge), merge);
            (
                next_value(w),
                merge,
                emitted(w, merge, phi_of(seq![(x_exit, x), (y_exit, y)]), e.ty, e.span),
            )
        },
        ExprKind::Let { name, value, body } => {
            let (v, b, t) = lowered(s, cur, *value);
            lowered(written(t, name@, b, v), b, *body)
        },
        ExprKind::Index { .. } => (next_value(s), cur, s),
    }
}

/// The values of the first `k` arguments, as doubles.
pub open spec fn lowered_args(
    s: State,
    cur: Block,
    span: Span,
    args: Seq<Expr>,
    k: nat,
) -> (Seq<Value>, Block, State)
    decreases args, k,
{
    if k == 0 || k > args.len() {
        (Seq::empty(), cur, s)
    } else {
        let (values, b, t) = lowered_args(s, cur, span, args, (k - 1) as nat);
        let (v, c, w) = lowered(t, b, args[k - 1]);
        let (x, z) = widened(w, c, v, args[k - 1].ty, span);
        (values.push(x), c, z)
    }
}

/// The entry block with the first `k` parameters.
pub open spec fn with_params(params: Seq<(String, Ty)>, span: Span, k: nat) -> State
    decreases k,
{
    if k == 0 {
        with_seal(with_block(empty_state()), Block(0))
    } else {
        let s = with_params(params, span, (k - 1) as nat);
        let (name, ty) = params[k - 1];
        let v = next_value(s);
        let m = model0(Op::Param((k - 1) as u32, ty));
        written(with_param(emitted(s, Block(0), m, ty, span), name@, ty), name@, Block(0), v)
    }
}

/// The function of an expression.
pub open spec fn lowered_function(typed: TypedAst) -> Ir {
    let s = with_params(typed.params@, typed.root.span, typed.params@.len());
    let (v, b, t) = lowered(s, Block(0), typed.root);
    with_term(t, b, Terminator::Return(v)).ir
}

// ---------------------------------------------------------------------------
// What holds while lowering

/// A sealed block with a single predecessor comes after it.
pub open spec fn backward(s: State) -> bool {
    forall|b: int|
        #![trigger s.ir.blocks[b]]
        0 <= b < s.ir.blocks.len() && s.sealed[b] && s.ir.blocks[b].preds.len() == 1
            ==> s.ir.blocks[b].preds[0].0 < b
}

/// No phi waits for operands.
pub open spec fn none_wait(s: State) -> bool {
    forall|b: int|
        #![trigger s.pending[b]]
        0 <= b < s.pending.len() ==> s.pending[b].dom() == Set::<Seq<char>>::empty()
}

/// Code can be added to block `cur`.
pub open spec fn ready(s: State, cur: Block) -> bool {
    &&& shaped(s)
    &&& cur.0 < s.ir.blocks.len()
    &&& s.sealed[cur.0 as int]
    &&& s.ir.blocks[cur.0 as int].term is None
    &&& closed_off(s)
    &&& backward(s)
    &&& none_wait(s)
}

/// From `s` to `t`, code was added from block `cur` on and ends in block
/// `exit`: the other blocks stay, and every new one but the last has its
/// terminator.
pub open spec fn advanced(s: State, cur: Block, t: State, exit: Block) -> bool {
    let n = s.ir.blocks.len();
    &&& n <= t.ir.blocks.len()
    &&& forall|b: int|
        #![trigger t.ir.blocks[b]]
        0 <= b < n ==> {
            &&& t.sealed[b] == s.sealed[b]
            &&& t.ir.blocks[b].preds == s.ir.blocks[b].preds
            &&& b != cur.0 ==> t.ir.blocks[b].term == s.ir.blocks[b].term
        }
    &&& forall|b: int|
        #![trigger t.ir.blocks[b]]
        n <= b < t.ir.blocks.len() && b != exit.0 ==> t.ir.blocks[b].term is Some
    &&& exit != cur ==> exit.0 >= n && t.ir.blocks[cur.0 as int].term is Some
    &&& t.ir.entry == s.ir.entry
    &&& t.ir.params == s.ir.params
}

pub(crate) proof fn lemma_advanced_trans(s: State, a: Block, t: State, b: Block, w: State, c: Block)
    requires
        advanced(s, a, t, b),
        advanced(t, b, w, c),
        ready(s, a),
        ready(t, b),
        ready(w, c),
    ensures
        advanced(s, a, w, c),
{
    let n = s.ir.blocks.len();
    assert forall|i: int| #![trigger w.ir.blocks[i]] 0 <= i < n implies {
        &&& w.sealed[i] == s.sealed[i]
        &&& w.ir.blocks[i].preds == s.ir.blocks[i].preds
        &&& i != a.0 ==> w.ir.blocks[i].term == s.ir.blocks[i].term
    } by {
        assert(t.ir.blocks[i].preds == s.ir.blocks[i].preds);
    }
    assert forall|i: int|
        #![trigger w.ir.blocks[i]]
        n <= i < w.ir.blocks.len() && i != c.0 implies w.ir.blocks[i].term is Some by {
        if i < t.ir.blocks.len() && i != b.0 {
            assert(t.ir.blocks[i].term is Some);
        }
    }
    if c != a && b != a {
        assert(w.ir.blocks[a.0 as int].term == t.ir.blocks[a.0 as int].term);
    }
}

/// What reading, writing and emitting do not touch.
pub open spec fn same_blocks(s: State, t: State) -> bool {
    &&& same_shape(s, t)
    &&& t.pending == s.pending
}

pub(crate) proof fn lemma_same_blocks(s: State, t: State, cur: Block)
    requires
        ready(s, cur),
        shaped(t),
        same_blocks(s, t),
    ensures
        ready(t, cur),
        advanced(s, cur, t, cur),
{
    lemma_closed_stays(s, t);
    assert forall|b: int|
        #![trigger t.ir.blocks[b]]
        0 <= b < t.ir.blocks.len() && t.sealed[b] && t.ir.blocks[b].preds.len() == 1 implies t.ir.blocks[b].preds[0].0
        < b by {
        assert(t.ir.blocks[b].preds == s.ir.blocks[b].preds);
    }
    assert(t.ir.blocks[cur.0 as int].term == s.ir.blocks[cur.0 as int].term);
}

/// Emitting touches the instructions only.
pub(crate) proof fn lemma_emitted(s: State, cur: Block, m: InstModel, ty: Ty, span: Span)
    requires
        ready(s, cur),
        shaped(emitted(s, cur, m, ty, span)),
    ensures
        ready(emitted(s, cur, m, ty, span), cur),
        advanced(s, cur, emitted(s, cur, m, ty, span), cur),
{
    lemma_same_blocks(s, emitted(s, cur, m, ty, span), cur);
}

pub(crate) proof fn lemma_written(s: State, cur: Block, name: Seq<char>, v: Value)
    requires
        ready(s, cur),
        shaped(written(s, name, cur, v)),
    ensures
        ready(written(s, name, cur, v), cur),
        advanced(s, cur, written(s, name, cur, v), cur),
{
    lemma_same_blocks(s, written(s, name, cur, v), cur);
}

/// Looking for variables ends: blocks with a single predecessor come after it.
proof fn lemma_walks_end(s: State)
    requires
        shaped(s),
        backward(s),
    ensures
        walks_end(s),
{
    let rank = Seq::new(s.ir.blocks.len(), |b: int| b as nat);
    assert forall|b: int|
        #![trigger preds_of(s)[b]]
        0 <= b < preds_of(s).len() && s.sealed[b] && preds_of(s)[b].len() == 1 implies rank[preds_of(
        s,
    )[b][0].0 as int] < rank[b] by {
        assert(s.ir.blocks[b].preds[0].0 < b);
    }
    assert(is_rank(s.sealed, preds_of(s), rank));
}

/// The three blocks of a conditional are made.
pub(crate) proof fn lemma_forked(s: State, block: Block, cond: Value)
    requires
        ready(s, block),
        s.ir.blocks.len() + 3 <= u32::MAX,
    ensures
        ({
            let t = forked(s, block, cond);
            let n = s.ir.blocks.len() as int;
            &&& t.ir.blocks.len() == n + 3
            &&& closed_off(t)
            &&& backward(t)
            &&& none_wait(t)
            &&& t.sealed[n] && t.sealed[n + 1] && !t.sealed[n + 2]
            &&& t.ir.blocks[n].term is None
            &&& t.ir.blocks[n + 1].term is None
            &&& t.ir.blocks[n + 2].term is None
            &&& t.ir.blocks[n + 2].preds.len() == 0
            &&& t.ir.blocks[block.0 as int].term is Some
            &&& t.ir.entry == s.ir.entry
            &&& t.ir.params == s.ir.params
            &&& t.ir.insts == s.ir.insts
            &&& forall|b: int|
                #![trigger t.ir.blocks[b]]
                0 <= b < n ==> {
                    &&& t.sealed[b] == s.sealed[b]
                    &&& t.ir.blocks[b].preds == s.ir.blocks[b].preds
                    &&& b != block.0 ==> t.ir.blocks[b].term == s.ir.blocks[b].term
                }
        }),
{
    let t = forked(s, block, cond);
    let n = s.ir.blocks.len() as int;
    assert(t.ir.blocks[n].preds =~= seq![block]);
    assert(t.ir.blocks[n + 1].preds =~= seq![block]);
    assert forall|b: int, k: int|
        #![trigger t.ir.blocks[b].preds[k]]
        0 <= b < t.ir.blocks.len() && t.sealed[b] && 0 <= k < t.ir.blocks[b].preds.len() implies t.sealed[t.ir.blocks[b].preds[k].0 as int] by {
        if b < n {
            assert(t.ir.blocks[b].preds == s.ir.blocks[b].preds);
            assert(s.ir.blocks[b].preds[k].0 < n);
            assert(s.sealed[s.ir.blocks[b].preds[k].0 as int]);
        }
    }
    assert forall|b: int|
        #![trigger t.ir.blocks[b]]
        0 <= b < t.ir.blocks.len() && t.sealed[b] && t.ir.blocks[b].preds.len() == 1 implies t.ir.blocks[b].preds[0].0
        < b by {
        if b < n {
            assert(s.ir.blocks[b].preds[0].0 < b);
        }
    }
    assert forall|b: int| #![trigger t.pending[b]] 0 <= b < t.pending.len() implies t.pending[b].dom()
        == Set::<Seq<char>>::empty() by {
        if b < n {
            assert(s.pending[b].dom() == Set::<Seq<char>>::empty());
        }
    }
}

/// A block that ends in a jump to an open block.
pub(crate) proof fn lemma_joined(s: State, exit: Block, merge: Block)
    requires
        ready(s, exit),
        merge.0 < s.ir.blocks.len(),
        !s.sealed[merge.0 as int],
        merge != exit,
    ensures
        ({
            let t = joined(s, exit, merge);
            &&& closed_off(t)
            &&& backward(t)
            &&& none_wait(t)
            &&& t.sealed == s.sealed
            &&& t.ir.blocks.len() == s.ir.blocks.len()
            &&& t.ir.blocks[exit.0 as int].term is Some
            &&& t.ir.blocks[merge.0 as int].preds == s.ir.blocks[merge.0 as int].preds.push(exit)
            &&& t.ir.entry == s.ir.entry
            &&& t.ir.params == s.ir.params
            &&& t.ir.insts == s.ir.insts
            &&& forall|b: int|
                #![trigger t.ir.blocks[b]]
                0 <= b < s.ir.blocks.len() ==> {
                    &&& b != merge.0 ==> t.ir.blocks[b].preds == s.ir.blocks[b].preds
                    &&& b != exit.0 ==> t.ir.blocks[b].term == s.ir.blocks[b].term
                }
        }),
{
    let t = joined(s, exit, merge);
    assert forall|b: int, k: int|
        #![trigger t.ir.blocks[b].preds[k]]
        0 <= b < t.ir.blocks.len() && t.sealed[b] && 0 <= k < t.ir.blocks[b].preds.len() implies t.sealed[t.ir.blocks[b].preds[k].0 as int] by {
        assert(t.ir.blocks[b].preds == s.ir.blocks[b].preds);
        assert(s.sealed[s.ir.blocks[b].preds[k].0 as int]);
    }
    assert forall|b: int|
        #![trigger t.ir.blocks[b]]
        0 <= b < t.ir.blocks.len() && t.sealed[b] && t.ir.blocks[b].preds.len() == 1 implies t.ir.blocks[b].preds[0].0
        < b by {
        assert(t.ir.blocks[b].preds == s.ir.blocks[b].preds);
        assert(s.ir.blocks[b].preds[0].0 < b);
    }
    assert(t.pending == s.pending);
}

// ---------------------------------------------------------------------------
// Lowering

/// The instructions of so many expressions still fit the tables; there will be
/// at most `limit` blocks.
pub open spec fn fits(s: State, count: nat, conditionals: nat, limit: nat) -> bool {
    &&& s.ir.blocks.len() + 3 * conditionals <= limit
    &&& limit <= u32::MAX
    &&& s.ir.insts.len() + count * (limit + 3) <= u32::MAX
}

/// Lowering used less than what so many expressions may need.
pub open spec fn used(s: State, t: State, count: nat, conditionals: nat, limit: nat) -> bool {
    &&& t.ir.blocks.len() == s.ir.blocks.len() + 3 * conditionals
    &&& t.ir.insts.len() < s.ir.insts.len() + count * (limit + 3)
}

pub(crate) proof fn lemma_split(a: nat, b: nat, c: nat)
    ensures
        (a + b) * c == a * c + b * c,
        (1 + a) * c == c + a * c,
        1 * c == c,
{
    assert((a + b) * c == a * c + b * c) by (nonlinear_arith);
    assert((1 + a) * c == c + a * c) by (nonlinear_arith);
}

fn coerce_to_f64(b: &mut Builder, block: Block, v: Value, ty: Ty, span: Span) -> (r: Value)
    requires
        ready(old(b)@, block),
        old(b)@.ir.insts.len() < u32::MAX,
        old(b).cur_block == block,
    ensures
        (r, final(b)@) == widened(old(b)@, block, v, ty, span),
        ready(final(b)@, block),
        advanced(old(b)@, block, final(b)@, block),
        final(b).cur_block == block,
        final(b)@.ir.insts.len() <= old(b)@.ir.insts.len() + 1,
        final(b)@.ir.blocks.len() == old(b)@.ir.blocks.len(),
{
    let ghost s = b@;
    if ty == Ty::I64 {
        let inst: Inst = Inst::IToF(v);
        let r: Value = b.emit(block, inst, Ty::F64, span);
        proof {
            lemma_emitted(s, block, model1(Op::IToF, v), Ty::F64, span);
        }
        r
    } else {
        proof {
            lemma_same_blocks(s, s, block);
        }
        v
    }
}

/// Adds one instruction to the current block.
fn emit_here(b: &mut Builder, inst: Inst, ty: Ty, span: Span) -> (r: Value)
    requires
        ready(old(b)@, old(b).cur_block),
        old(b)@.ir.insts.len() < u32::MAX,
    ensures
        r == next_value(old(b)@),
        final(b)@ == emitted(old(b)@, old(b).cur_block, inst@, ty, span),
        ready(final(b)@, old(b).cur_block),
        advanced(old(b)@, old(b).cur_block, final(b)@, old(b).cur_block),
        final(b).cur_block == old(b).cur_block,
        final(b)@.ir.insts.len() == old(b)@.ir.insts.len() + 1,
        final(b)@.ir.blocks.len() == old(b)@.ir.blocks.len(),
{
    let ghost s = b@;
    let ghost m = inst@;
    let block: Block = b.cur_block;
    let r: Value = b.emit(block, inst, ty, span);
    proof {
        lemma_emitted(s, block, m, ty, span);
    }
    r
}

fn lower_ident(b: &mut Builder, name: &String, ty: Ty, Ghost(limit): Ghost<nat>) -> (r: Value)
    requires
        ready(old(b)@, old(b).cur_block),
        fits(old(b)@, 1, 0, limit),
    ensures
        (r, final(b)@) == read_now(old(b)@, name@, old(b).cur_block, ty),
        ready(final(b)@, old(b).cur_block),
        advanced(old(b)@, old(b).cur_block, final(b)@, old(b).cur_block),
        final(b).cur_block == old(b).cur_block,
        used(old(b)@, final(b)@, 1, 0, limit),
{
    let ghost s = b@;
    let ghost n = s.ir.blocks.len();
    let block: Block = b.cur_block;
    proof {
        lemma_walks_end(s);
        lemma_undefined_bounded(s.defs, name@, s.defs.len());
        assert(is_rank(s.sealed, preds_of(s), a_rank(s)));
        assert(a_rank(s)[block.0 as int] < n);
    }
    let r: Value = b.read_variable(name.as_str(), block, ty);
    proof {
        let t = b@;
        assert(read(n, n, n, s, name@, block, ty) == (r, t));
        lemma_same_blocks(s, t, block);
    }
    r
}

fn lower_if_blocks(b: &mut Builder, cond: Value) -> (r: (Block, Block, Block))
    requires
        ready(old(b)@, old(b).cur_block),
        old(b)@.ir.blocks.len() + 3 <= u32::MAX,
        old(b)@.ir.insts.len() <= u32::MAX,
    ensures
        r.0.0 == old(b)@.ir.blocks.len(),
        r.1.0 == old(b)@.ir.blocks.len() + 1,
        r.2.0 == old(b)@.ir.blocks.len() + 2,
        final(b)@ == forked(old(b)@, old(b).cur_block, cond),
        final(b).wf(),
{
    let ghost s = b@;
    let block: Block = b.cur_block;
    let then_: Block = b.create_block();
    let else_: Block = b.create_block();
    let merge: Block = b.create_block();
    b.terminate(block, Terminator::Branch { cond, then_, else_ });
    b.add_pred(then_, block);
    b.add_pred(else_, block);
    let ghost known = b@;
    proof {
        lemma_forked(s, block, cond);
        lemma_open_walks_end(known, s);
        assert(known.pending[then_.0 as int] =~= Map::empty());
        lemma_nothing_waits(known, then_);
    }
    b.seal_block(then_);
    proof {
        lemma_sealed_empty(known, then_, b@);
    }
    let ghost half = b@;
    proof {
        assert(half.pending[else_.0 as int] =~= Map::empty());
        lemma_nothing_waits(half, else_);
        assert forall|i: int|
            #![trigger half.ir.blocks[i]]
            0 <= i < half.ir.blocks.len() && half.sealed[i] && half.ir.blocks[i].preds.len() == 1 implies half.ir.blocks[i].preds[0].0
            < i by {
            if i < s.ir.blocks.len() {
                assert(half.ir.blocks[i].preds == s.ir.blocks[i].preds);
                assert(s.ir.blocks[i].preds[0].0 < i);
            } else {
                assert(half.ir.blocks[then_.0 as int].preds =~= seq![block]);
            }
        }
        lemma_walks_end(half);
    }
    b.seal_block(else_);
    proof {
        lemma_sealed_empty(half, else_, b@);
    }
    (then_, else_, merge)
}

proof fn lemma_open_walks_end(t: State, s: State)
    requires
        shaped(t),
        shaped(s),
        backward(s),
        s.ir.blocks.len() <= t.ir.blocks.len(),
        forall|b: int|
            #![trigger t.ir.blocks[b]]
            0 <= b < s.ir.blocks.len() ==> t.sealed[b] == s.sealed[b] && t.ir.blocks[b].preds
                == s.ir.blocks[b].preds,
        forall|b: int|
            #![trigger t.sealed[b]]
            s.ir.blocks.len() <= b < t.ir.blocks.len() ==> !t.sealed[b],
    ensures
        walks_end(t),
{
    assert forall|b: int|
        #![trigger t.ir.blocks[b]]
        0 <= b < t.ir.blocks.len() && t.sealed[b] && t.ir.blocks[b].preds.len() == 1 implies t.ir.blocks[b].preds[0].0
        < b by {
        assert(b < s.ir.blocks.len());
        assert(s.ir.blocks[b].preds[0].0 < b);
    }
    lemma_walks_end(t);
}

/// With no phi waiting there is room to seal.
proof fn lemma_nothing_waits(s: State, block: Block)
    requires
        s.ir.insts.len() <= u32::MAX,
        s.pending[block.0 as int].dom() == Set::<Seq<char>>::empty(),
    ensures
        room_to_seal(s, block),
{
    assert forall|order: Seq<(Seq<char>, u32)>|
        #![trigger orders(order, s.pending[block.0 as int])]
        orders(order, s.pending[block.0 as int]) implies s.ir.insts.len() + order.len()
        * s.ir.blocks.len() <= u32::MAX by {
        if order.len() > 0 {
            assert(s.pending[block.0 as int].dom().contains(order[0].0));
        }
        assert(order.len() * s.ir.blocks.len() == 0) by (nonlinear_arith)
            requires
                order.len() == 0,
        ;
    }
}

fn join(b: &mut Builder, exit: Block, merge: Block)
    requires
        ready(old(b)@, exit),
        merge.0 < old(b)@.ir.blocks.len(),
        !old(b)@.sealed[merge.0 as int],
        merge != exit,
    ensures
        final(b)@ == joined(old(b)@, exit, merge),
        final(b).wf(),
        final(b).cur_block == old(b).cur_block,
{
    b.terminate(exit, Terminator::Jump(merge));
    b.add_pred(merge, exit);
}

fn merge_edges(x: (Block, Value), y: (Block, Value)) -> (r: Inst)
    ensures
        r@ == phi_of(seq![x, y]),
{
    let mut incoming: EdgeList = EdgeList::new();
    incoming.push(x);
    incoming.push(y);
    assert(incoming@ =~= seq![x, y]);
    Inst::Phi { incoming }
}

/// Both sides of a conditional are done: the merge block is sealed.
pub(crate) proof fn lemma_merged(
    t: State,
    b: Block,
    cond: Value,
    first: Block,
    after: State,
    x_exit: Block,
    second: Block,
    done: State,
    y_exit: Block,
    merge: Block,
)
    requires
        ready(t, b),
        t.ir.blocks.len() + 3 <= u32::MAX,
        first.0 == t.ir.blocks.len(),
        second.0 == t.ir.blocks.len() + 1,
        merge.0 == t.ir.blocks.len() + 2,
        ready(after, x_exit),
        advanced(forked(t, b, cond), first, after, x_exit),
        ready(done, y_exit),
        advanced(joined(after, x_exit, merge), second, done, y_exit),
        shaped(joined(done, y_exit, merge)),
    ensures
        ({
            let w = with_seal(joined(done, y_exit, merge), merge);
            &&& ready(w, merge)
            &&& advanced(t, b, w, merge)
        }),
        !done.sealed[merge.0 as int],
        merge != y_exit,
        done.pending[merge.0 as int].dom() == Set::<Seq<char>>::empty(),
{
    let f = forked(t, b, cond);
    let j = joined(after, x_exit, merge);
    let k = joined(done, y_exit, merge);
    let w = with_seal(k, merge);
    let n = t.ir.blocks.len();
    lemma_forked(t, b, cond);
    assert(!after.sealed[merge.0 as int]) by {
        assert(after.ir.blocks[merge.0 as int].preds == f.ir.blocks[merge.0 as int].preds);
    }
    lemma_joined(after, x_exit, merge);
    assert(done.ir.blocks[merge.0 as int].preds == j.ir.blocks[merge.0 as int].preds);
    assert(!done.sealed[merge.0 as int]);
    lemma_joined(done, y_exit, merge);
    assert(done.sealed[x_exit.0 as int]) by {
        assert(done.ir.blocks[x_exit.0 as int].preds == j.ir.blocks[x_exit.0 as int].preds);
    }
    assert(w.ir.blocks[merge.0 as int].preds =~= seq![x_exit, y_exit]);
    assert forall|i: int, e: int|
        #![trigger w.ir.blocks[i].preds[e]]
        0 <= i < w.ir.blocks.len() && w.sealed[i] && 0 <= e < w.ir.blocks[i].preds.len() implies w.sealed[w.ir.blocks[i].preds[e].0 as int] by {
        if i != merge.0 {
            assert(k.sealed[k.ir.blocks[i].preds[e].0 as int]);
        }
    }
    assert forall|i: int|
        #![trigger w.ir.blocks[i]]
        0 <= i < w.ir.blocks.len() && w.sealed[i] && w.ir.blocks[i].preds.len() == 1 implies w.ir.blocks[i].preds[0].0
        < i by {
        assert(k.ir.blocks[i].preds[0].0 < i);
    }
    assert(w.ir.blocks[merge.0 as int].term is None) by {
        assert(after.ir.blocks[merge.0 as int].term == f.ir.blocks[merge.0 as int].term);
        assert(done.ir.blocks[merge.0 as int].term == j.ir.blocks[merge.0 as int].term);
    }
    assert forall|i: int| #![trigger w.ir.blocks[i]] 0 <= i < n implies {
        &&& w.sealed[i] == t.sealed[i]
        &&& w.ir.blocks[i].preds == t.ir.blocks[i].preds
        &&& i != b.0 ==> w.ir.blocks[i].term == t.ir.blocks[i].term
    } by {
        assert(f.ir.blocks[i].preds == t.ir.blocks[i].preds);
        assert(after.ir.blocks[i].preds == f.ir.blocks[i].preds);
        assert(j.ir.blocks[i].preds == after.ir.blocks[i].preds);
        assert(done.ir.blocks[i].preds == j.ir.blocks[i].preds);
        assert(k.ir.blocks[i].preds == done.ir.blocks[i].preds);
    }
    assert forall|i: int|
        #![trigger w.ir.blocks[i]]
        n <= i < w.ir.blocks.len() && i != merge.0 implies w.ir.blocks[i].term is Some by {
        if i == y_exit.0 {
        } else {
            assert(k.ir.blocks[i].term == done.ir.blocks[i].term);
            if i < j.ir.blocks.len() {
                if i == second.0 {
                } else {
                    assert(done.ir.blocks[i].term == j.ir.blocks[i].term);
                    if i == x_exit.0 {
                    } else {
                        assert(j.ir.blocks[i].term == after.ir.blocks[i].term);
                    }
                }
            }
        }
    }
    assert(w.ir.blocks[b.0 as int].term is Some) by {
        assert(after.ir.blocks[b.0 as int].term == f.ir.blocks[b.0 as int].term);
        assert(j.ir.blocks[b.0 as int].term == after.ir.blocks[b.0 as int].term);
        assert(done.ir.blocks[b.0 as int].term == j.ir.blocks[b.0 as int].term);
    }
}

/// Adds an expression to the current block and returns its value and the
/// block in which it is known, which is then the current one.
fn lower_expr(b: &mut Builder, e: &Expr, Ghost(limit): Ghost<nat>) -> (r: (Value, Block))
    requires
        lowerable(*e),
        ready(old(b)@, old(b).cur_block),
        fits(old(b)@, nodes(*e), ifs(*e), limit),
    ensures
        (r.0, r.1, final(b)@) == lowered(old(b)@, old(b).cur_block, *e),
        ready(final(b)@, r.1),
        advanced(old(b)@, old(b).cur_block, final(b)@, r.1),
        used(old(b)@, final(b)@, nodes(*e), ifs(*e), limit),
        final(b).cur_block == r.1,
    decreases *e, 1nat,
{
    let ghost c = limit + 3;
    match &e.kind {
        ExprKind::Float(bits) => {
            proof {
                lemma_split(0, 0, c);
            }
            let v: Value = emit_here(b, Inst::ConstF64(*bits), e.ty, e.span);
            (v, b.cur_block)
        },
        ExprKind::Int(n) => {
            proof {
                lemma_split(0, 0, c);
            }
            let v: Value = emit_here(b, Inst::ConstI64(*n), e.ty, e.span);
            (v, b.cur_block)
        },
        ExprKind::Bool(v) => {
            proof {
                lemma_split(0, 0, c);
            }
            let v: Value = emit_here(b, Inst::ConstBool(*v), e.ty, e.span);
            (v, b.cur_block)
        },
        ExprKind::Ident(name) => {
            let v: Value = lower_ident(b, name, e.ty, Ghost(limit));
            (v, b.cur_block)
        },
        ExprKind::Unary { op, operand } => lower_unary_expr(b, e, *op, operand, Ghost(limit)),
        ExprKind::Binary { op, lhs, rhs } => lower_binary_expr(b, e, *op, lhs, rhs, Ghost(limit)),
        ExprKind::Call { callee, args } => lower_call_expr(b, e, callee, args, Ghost(limit)),
        ExprKind::If { cond, then_, else_ } => lower_if(b, e, cond, then_, else_, Ghost(limit)),
        ExprKind::Let { name, value, body } => lower_let(b, e, name, value, body, Ghost(limit)),
        ExprKind::Index { .. } => (Value(0), b.cur_block),
    }
}

fn lower_unary_expr(
    b: &mut Builder,
    e: &Expr,
    op: UnaryOp,
    operand: &Expr,
    Ghost(limit): Ghost<nat>,
) -> (r: (Value, Block))
    requires
        e.kind matches ExprKind::Unary { op: o, operand: x } && o == op && *x == *operand,
        lowerable(*e),
        ready(old(b)@, old(b).cur_block),
        fits(old(b)@, nodes(*e), ifs(*e), limit),
    ensures
        (r.0, r.1, final(b)@) == lowered(old(b)@, old(b).cur_block, *e),
        ready(final(b)@, r.1),
        advanced(old(b)@, old(b).cur_block, final(b)@, r.1),
        used(old(b)@, final(b)@, nodes(*e), ifs(*e), limit),
        final(b).cur_block == r.1,
    decreases *e, 0nat,
{
    let ghost s = b@;
    let ghost cur = b.cur_block;
    proof {
        lemma_split(nodes(*operand), 0, limit + 3);
    }
    let (v, block): (Value, Block) = lower_expr(b, operand, Ghost(limit));
    let ghost t = b@;
    let r: Value = emit_here(b, lower_unary(op, v), e.ty, e.span);
    proof {
        lemma_advanced_trans(s, cur, t, block, b@, block);
    }
    (r, block)
}

fn lower_binary_expr(
    b: &mut Builder,
    e: &Expr,
    op: BinaryOp,
    lhs: &Expr,
    rhs: &Expr,
    Ghost(limit): Ghost<nat>,
) -> (r: (Value, Block))
    requires
        e.kind matches ExprKind::Binary { op: o, lhs: x, rhs: y } && o == op && *x == *lhs && *y
            == *rhs,
        lowerable(*e),
        ready(old(b)@, old(b).cur_block),
        fits(old(b)@, nodes(*e), ifs(*e), limit),
    ensures
        (r.0, r.1, final(b)@) == lowered(old(b)@, old(b).cur_block, *e),
        ready(final(b)@, r.1),
        advanced(old(b)@, old(b).cur_block, final(b)@, r.1),
        used(old(b)@, final(b)@, nodes(*e), ifs(*e), limit),
        final(b).cur_block == r.1,
    decreases *e, 0nat,
{
    let ghost s = b@;
    let ghost cur = b.cur_block;
    proof {
        lemma_split(nodes(*lhs), nodes(*rhs), limit + 3);
        lemma_split(nodes(*lhs) + nodes(*rhs), 0, limit + 3);
    }
    let (l, first): (Value, Block) = lower_expr(b, lhs, Ghost(limit));
    let ghost t = b@;
    let (r, block): (Value, Block) = lower_expr(b, rhs, Ghost(limit));
    let ghost w = b@;
    proof {
        lemma_advanced_trans(s, cur, t, first, w, block);
    }
    let arithmetic: bool = match op {
        BinaryOp::Add | BinaryOp::Sub | BinaryOp::Mul | BinaryOp::Div | BinaryOp::Rem => true,
        _ => false,
    };
    let mut x: Value = l;
    let mut y: Value = r;
    if arithmetic && e.ty == Ty::F64 {
        x = coerce_to_f64(b, block, l, lhs.ty, e.span);
        let ghost z = b@;
        proof {
            lemma_advanced_trans(s, cur, w, block, z, block);
        }
        y = coerce_to_f64(b, block, r, rhs.ty, e.span);
        proof {
            lemma_advanced_trans(s, cur, z, block, b@, block);
        }
    }
    let ghost z = b@;
    let v: Value = emit_here(b, lower_binary(op, x, y), e.ty, e.span);
    proof {
        lemma_advanced_trans(s, cur, z, block, b@, block);
    }
    (v, block)
}

/// The bounds hold for each argument in turn.
pub(crate) proof fn lemma_args(args: Seq<Expr>, k: nat)
    requires
        k < args.len(),
        all_lowerable(args, args.len()),
    ensures
        lowerable(args[k as int]),
        all_nodes(args, k) + nodes(args[k as int]) <= all_nodes(args, args.len()),
        all_ifs(args, k) + ifs(args[k as int]) <= all_ifs(args, args.len()),
    decreases args.len() - k,
{
    lemma_args_from(args, k, args.len());
}

proof fn lemma_args_from(args: Seq<Expr>, k: nat, n: nat)
    requires
        k < n <= args.len(),
        all_lowerable(args, n),
    ensures
        lowerable(args[k as int]),
        all_nodes(args, k) + nodes(args[k as int]) <= all_nodes(args, n),
        all_ifs(args, k) + ifs(args[k as int]) <= all_ifs(args, n),
    decreases n - k,
{
    if k + 1 < n {
        lemma_args_from(args, k, (n - 1) as nat);
    }
}

fn lower_call_expr(
    b: &mut Builder,
    e: &Expr,
    callee: &String,
    args: &Vec<Expr>,
    Ghost(limit): Ghost<nat>,
) -> (r: (Value, Block))
    requires
        e.kind matches ExprKind::Call { callee: x, args: y } && x == *callee && y == *args,
        lowerable(*e),
        ready(old(b)@, old(b).cur_block),
        fits(old(b)@, nodes(*e), ifs(*e), limit),
    ensures
        (r.0, r.1, final(b)@) == lowered(old(b)@, old(b).cur_block, *e),
        ready(final(b)@, r.1),
        advanced(old(b)@, old(b).cur_block, final(b)@, r.1),
        used(old(b)@, final(b)@, nodes(*e), ifs(*e), limit),
        final(b).cur_block == r.1,
    decreases *e, 0nat,
{
    let ghost s = b@;
    let ghost cur = b.cur_block;
    let ghost c = limit + 3;
    let mut values: Vec<Value> = Vec::new();
    let mut k: usize = 0;
    proof {
        lemma_same_blocks(s, s, cur);
        lemma_split(all_nodes(args@, args@.len()), 0, c);
        assert(values@ =~= Seq::empty());
        assert(0 * c == 0);
    }
    while k < args.len()
        invariant
            e.kind matches ExprKind::Call { callee: x, args: y } && x == *callee && y == *args,
            k <= args@.len(),
            s == old(b)@,
            cur == old(b).cur_block,
            c == limit + 3,
            all_lowerable(args@, args@.len()),
            fits(s, all_nodes(args@, args@.len()) + 1, all_ifs(args@, args@.len()), limit),
            ready(s, cur),
            (values@, b.cur_block, b@) == lowered_args(s, cur, e.span, args@, k as nat),
            ready(b@, b.cur_block),
            advanced(s, cur, b@, b.cur_block),
            b@.ir.blocks.len() == s.ir.blocks.len() + 3 * all_ifs(args@, k as nat),
            b@.ir.insts.len() <= s.ir.insts.len() + all_nodes(args@, k as nat) * c,
            values@.len() == k,
        decreases args@.len() - k,
    {
        let ghost t = b@;
        let ghost before = b.cur_block;
        let arg: &Expr = &args[k];
        proof {
            lemma_args(args@, k as nat);
            let all = all_nodes(args@, args@.len());
            let sofar = all_nodes(args@, k as nat);
            lemma_split(sofar, nodes(*arg), c);
            assert((sofar + nodes(*arg)) * c <= all * c) by (nonlinear_arith)
                requires
                    sofar + nodes(*arg) <= all,
            ;
            lemma_split(all, 1, c);
            lemma_nodes_positive(*arg);
        }
        let (v, block): (Value, Block) = lower_arg(b, e, args, k, Ghost(limit));
        let ghost w = b@;
        proof {
            lemma_advanced_trans(s, cur, t, before, w, block);
        }
        let x: Value = coerce_to_f64(b, block, v, arg.ty, e.span);
        proof {
            lemma_advanced_trans(s, cur, w, block, b@, block);
        }
        values.push(x);
        k += 1;
    }
    let ghost t = b@;
    let block: Block = b.cur_block;
    proof {
        lemma_split(all_nodes(args@, args@.len()), 1, c);
    }
    let v: Value = emit_here(b, lower_call(callee, &values), e.ty, e.span);
    proof {
        lemma_advanced_trans(s, cur, t, block, b@, block);
    }
    (v, block)
}

pub(crate) proof fn lemma_nodes_positive(e: Expr)
    ensures
        nodes(e) >= 1,
{
}

fn lower_let(
    b: &mut Builder,
    e: &Expr,
    name: &String,
    value: &Expr,
    body: &Expr,
    Ghost(limit): Ghost<nat>,
) -> (r: (Value, Block))
    requires
        e.kind matches ExprKind::Let { name: m, value: x, body: y } && m == *name && *x == *value
            && *y == *body,
        lowerable(*e),
        ready(old(b)@, old(b).cur_block),
        fits(old(b)@, nodes(*e), ifs(*e), limit),
    ensures
        (r.0, r.1, final(b)@) == lowered(old(b)@, old(b).cur_block, *e),
        ready(final(b)@, r.1),
        advanced(old(b)@, old(b).cur_block, final(b)@, r.1),
        used(old(b)@, final(b)@, nodes(*e), ifs(*e), limit),
        final(b).cur_block == r.1,
    decreases *e, 0nat,
{
    let ghost s = b@;
    let ghost cur = b.cur_block;
    proof {
        lemma_split(nodes(*value), nodes(*body), limit + 3);
        lemma_split(nodes(*value) + nodes(*body), 0, limit + 3);
    }
    let (v, block): (Value, Block) = lower_expr(b, value, Ghost(limit));
    let ghost t = b@;
    b.write_variable(name.as_str(), block, v);
    let ghost w = b@;
    proof {
        lemma_written(t, block, name@, v);
        lemma_advanced_trans(s, cur, t, block, w, block);
    }
    let (r, exit): (Value, Block) = lower_expr(b, body, Ghost(limit));
    proof {
        lemma_advanced_trans(s, cur, w, block, b@, exit);
    }
    (r, exit)
}

fn lower_if(
    b: &mut Builder,
    e: &Expr,
    cond: &Expr,
    then_: &Expr,
    else_: &Expr,
    Ghost(limit): Ghost<nat>,
) -> (r: (Value, Block))
    requires
        e.kind matches ExprKind::If { cond: x, then_: y, else_: z } && *x == *cond && *y == *then_
            && *z == *else_,
        lowerable(*e),
        ready(old(b)@, old(b).cur_block),
        fits(old(b)@, nodes(*e), ifs(*e), limit),
    ensures
        (r.0, r.1, final(b)@) == lowered(old(b)@, old(b).cur_block, *e),
        ready(final(b)@, r.1),
        advanced(old(b)@, old(b).cur_block, final(b)@, r.1),
        used(old(b)@, final(b)@, nodes(*e), ifs(*e), limit),
        final(b).cur_block == r.1,
    decreases *e, 0nat,
{
    let ghost s = b@;
    let ghost cur = b.cur_block;
    let ghost c = limit + 3;
    proof {
        lemma_split(nodes(*cond), nodes(*then_), c);
        lemma_split(nodes(*cond) + nodes(*then_), nodes(*else_), c);
        lemma_split(nodes(*cond) + nodes(*then_) + nodes(*else_), 0, c);
    }
    let (bit, block): (Value, Block) = lower_expr(b, cond, Ghost(limit));
    let ghost t = b@;
    proof {
        lemma_forked(t, block, bit);
    }
    let (first, second, merge): (Block, Block, Block) = lower_if_blocks(b, bit);
    let ghost f = b@;
    b.cur_block = first;
    let (x, x_exit): (Value, Block) = lower_expr(b, then_, Ghost(limit));
    let ghost after = b@;
    proof {
        assert(after.ir.blocks[merge.0 as int].preds == f.ir.blocks[merge.0 as int].preds);
        lemma_joined(after, x_exit, merge);
    }
    join(b, x_exit, merge);
    let ghost j = b@;
    proof {
        assert(after.ir.blocks[second.0 as int].preds == f.ir.blocks[second.0 as int].preds);
        assert(j.ir.blocks[second.0 as int].term == after.ir.blocks[second.0 as int].term);
    }
    b.cur_block = second;
    let (y, y_exit): (Value, Block) = lower_expr(b, else_, Ghost(limit));
    let ghost done = b@;
    proof {
        assert(done.ir.blocks[merge.0 as int].preds == j.ir.blocks[merge.0 as int].preds);
    }
    join(b, y_exit, merge);
    let ghost k = b@;
    proof {
        lemma_merged(t, block, bit, first, after, x_exit, second, done, y_exit, merge);
        lemma_joined(done, y_exit, merge);
        lemma_nothing_waits(k, merge);
        lemma_walks_end(k);
    }
    b.seal_block(merge);
    let ghost w = b@;
    proof {
        lemma_sealed_empty(k, merge, w);
        lemma_advanced_trans(s, cur, t, block, w, merge);
    }
    b.cur_block = merge;
    let phi: Inst = merge_edges((x_exit, x), (y_exit, y));
    let r: Value = emit_here(b, phi, e.ty, e.span);
    proof {
        lemma_advanced_trans(s, cur, w, merge, b@, merge);
    }
    (r, merge)
}

/// One argument of a call.
fn lower_arg(
    b: &mut Builder,
    e: &Expr,
    args: &Vec<Expr>,
    k: usize,
    Ghost(limit): Ghost<nat>,
) -> (r: (Value, Block))
    requires
        e.kind matches ExprKind::Call { callee: x, args: y } && y == *args,
        k < args@.len(),
        lowerable(args@[k as int]),
        ready(old(b)@, old(b).cur_block),
        fits(old(b)@, nodes(args@[k as int]), ifs(args@[k as int]), limit),
    ensures
        (r.0, r.1, final(b)@) == lowered(old(b)@, old(b).cur_block, args@[k as int]),
        ready(final(b)@, r.1),
        advanced(old(b)@, old(b).cur_block, final(b)@, r.1),
        used(old(b)@, final(b)@, nodes(args@[k as int]), ifs(args@[k as int]), limit),
        final(b).cur_block == r.1,
    decreases args@, 0nat,
{
    lower_expr(b, &args[k], Ghost(limit))
}

/// The instructions of the function fit its tables.
pub open spec fn small_enough(typed: TypedAst) -> bool {
    let limit = 1 + 3 * ifs(typed.root);
    &&& limit <= u32::MAX
    &&& typed.params@.len() + nodes(typed.root) * (limit + 3) <= u32::MAX
}

/// Every block has a terminator.
pub open spec fn all_terminated(f: Ir) -> bool {
    forall|b: int| #![trigger f.blocks[b]] 0 <= b < f.blocks.len() ==> f.blocks[b].term is Some
}

/// Starts a function: the entry block and the parameters.
fn lower_params(typed: &TypedAst) -> (b: Builder)
    requires
        typed.params@.len() <= u32::MAX,
    ensures
        b@ == with_params(typed.params@, typed.root.span, typed.params@.len()),
        ready(b@, Block(0)),
        b.cur_block == Block(0),
        b@.ir.blocks.len() == 1,
        b@.ir.insts.len() == typed.params@.len(),
{
    let mut b: Builder = Builder::new();
    let entry: Block = b.create_block();
    b.f.entry = entry;
    b.cur_block = entry;
    let span: Span = typed.root.span;
    let ghost open = b@;
    proof {
        assert(open =~= with_block(empty_state()));
        assert(open.pending[0] =~= Map::empty());
        lemma_nothing_waits(open, entry);
        lemma_walks_end(open);
    }
    b.seal_block(entry);
    proof {
        lemma_sealed_empty(open, entry, b@);
        assert(b@ =~= with_params(typed.params@, span, 0));
        assert(b@.pending[0] =~= Map::empty());
    }
    let mut i: usize = 0;
    while i < typed.params.len()
        invariant
            i <= typed.params@.len(),
            typed.params@.len() <= u32::MAX,
            entry == Block(0),
            span == typed.root.span,
            b@ == with_params(typed.params@, span, i as nat),
            ready(b@, entry),
            b.cur_block == entry,
            b@.ir.blocks.len() == 1,
            b@.ir.insts.len() == i,
        decreases typed.params@.len() - i,
    {
        let ghost s = b@;
        let ty: Ty = typed.params[i].1;
        let name: String = typed.params[i].0.clone();
        let inst: Inst = Inst::Param { index: i as u32, ty };
        let v: Value = emit_here(&mut b, inst, ty, span);
        let ghost t = b@;
        let ghost m = model0(Op::Param(i as u32, ty));
        b.f.params.push((name, ty));
        let ghost p = b@;
        proof {
            assert(p =~= with_param(t, name@, ty));
            lemma_params_ready(t, entry, name@, ty);
        }
        b.write_variable(typed.params[i].0.as_str(), entry, v);
        proof {
            lemma_written(p, entry, name@, v);
        }
        i += 1;
    }
    b
}

pub(crate) proof fn lemma_params_ready(s: State, cur: Block, name: Seq<char>, ty: Ty)
    requires
        ready(s, cur),
    ensures
        ready(with_param(s, name, ty), cur),
{
    let t = with_param(s, name, ty);
    assert(t.ir.blocks == s.ir.blocks);
    assert forall|b: int, k: int|
        #![trigger t.ir.blocks[b].preds[k]]
        0 <= b < t.ir.blocks.len() && t.sealed[b] && 0 <= k < t.ir.blocks[b].preds.len() implies t.sealed[t.ir.blocks[b].preds[k].0 as int] by {
        assert(s.sealed[s.ir.blocks[b].preds[k].0 as int]);
    }
    assert forall|b: int|
        #![trigger t.ir.blocks[b]]
        0 <= b < t.ir.blocks.len() && t.sealed[b] && t.ir.blocks[b].preds.len() == 1 implies t.ir.blocks[b].preds[0].0
        < b by {
        assert(s.ir.blocks[b].preds[0].0 < b);
    }
}

/// Lowers a typed expression to SSA. An integer that is used as a double is
/// widened where it is used. Every block of the result has a terminator.
pub fn lower(typed: &TypedAst) -> (r: Function)
    requires
        lowerable(typed.root),
        small_enough(*typed),
    ensures
        ir_of(r) == lowered_function(*typed),
        all_terminated(ir_of(r)),
        r.insts@.len() <= u32::MAX,
        r.blocks@.len() <= u32::MAX,
{
    let ghost limit = 1 + 3 * ifs(typed.root);
    proof {
        lemma_nodes_positive(typed.root);
        assert(nodes(typed.root) * (limit + 3) >= 0) by (nonlinear_arith);
    }
    let mut b: Builder = lower_params(typed);
    let ghost s = b@;
    let (result, exit): (Value, Block) = lower_expr(&mut b, &typed.root, Ghost(limit));
    let ghost t = b@;
    b.terminate(exit, Terminator::Return(result));
    proof {
        let w = b@;
        assert forall|i: int| #![trigger w.ir.blocks[i]] 0 <= i < w.ir.blocks.len() implies w.ir.blocks[i].term is Some by {
            if i != exit.0 {
                assert(t.ir.blocks[i].term is Some);
            }
        }
    }
    b.f
}

// ---------------------------------------------------------------------------
// What can be lowered

/// A count, up to the first number that no table has room for.
pub open spec fn capped(n: nat) -> nat {
    if n < 0x1_0000_0000 {
        n
    } else {
        0x1_0000_0000
    }
}

fn sum(a: u64, b: u64) -> (r: u64)
    requires
        a <= 0x1_0000_0000,
        b <= 0x1_0000_0000,
    ensures
        r == capped((a + b) as nat),
{
    if a + b < 0x1_0000_0000 {
        a + b
    } else {
        0x1_0000_0000
    }
}

fn find_arity(name: &String) -> (r: Option<usize>)
    ensures
        match r {
            Some(n) => intrinsic_arity(name@) == Some(n as nat),
            None => intrinsic_arity(name@) is None,
        },
{
    if is_text(name, "sqrt") || is_text(name, "abs") || is_text(name, "floor") || is_text(
        name,
        "ceil",
    ) || is_text(name, "round") || is_text(name, "trunc") {
        Some(1)
    } else if is_text(name, "min") || is_text(name, "max") {
        Some(2)
    } else if is_text(name, "fma") {
        Some(3)
    } else if is_text(name, "sin") || is_text(name, "cos") || is_text(name, "tan") || is_text(
        name,
        "exp",
    ) || is_text(name, "log") {
        Some(1)
    } else if is_text(name, "pow") {
        Some(2)
    } else {
        None
    }
}

/// Whether an expression is lowerable, and how many expressions and
/// conditionals it is made of.
fn census(e: &Expr) -> (r: (bool, u64, u64))
    ensures
        r.0 == lowerable(*e),
        r.1 == capped(nodes(*e)),
        r.2 == capped(ifs(*e)),
    decreases *e, 1nat,
{
    match &e.kind {
        ExprKind::Unary { operand, .. } => {
            let a: (bool, u64, u64) = census(operand);
            (a.0, sum(1, a.1), a.2)
        },
        ExprKind::Binary { lhs, rhs, .. } => {
            let a: (bool, u64, u64) = census(lhs);
            let b: (bool, u64, u64) = census(rhs);
            (a.0 && b.0, sum(1, sum(a.1, b.1)), sum(a.2, b.2))
        },
        ExprKind::Call { callee, args } => {
            let a: (bool, u64, u64) = census_args(e, callee, args);
            let known: bool = match find_arity(callee) {
                Some(n) => n == args.len(),
                None => false,
            };
            (known && a.0, sum(1, a.1), a.2)
        },
        ExprKind::If { cond, then_, else_ } => {
            let a: (bool, u64, u64) = census(cond);
            let b: (bool, u64, u64) = census(then_);
            let c: (bool, u64, u64) = census(else_);
            (
                a.0 && b.0 && c.0,
                sum(1, sum(a.1, sum(b.1, c.1))),
                sum(1, sum(a.2, sum(b.2, c.2))),
            )
        },
        ExprKind::Let { value, body, .. } => {
            let a: (bool, u64, u64) = census(value);
            let b: (bool, u64, u64) = census(body);
            (a.0 && b.0, sum(1, sum(a.1, b.1)), sum(a.2, b.2))
        },
        ExprKind::Index { base, index } => {
            let a: (bool, u64, u64) = census(base);
            let b: (bool, u64, u64) = census(index);
            (false, sum(1, sum(a.1, b.1)), sum(a.2, b.2))
        },
        _ => (true, 1, 0),
    }
}

fn census_args(e: &Expr, callee: &String, args: &Vec<Expr>) -> (r: (bool, u64, u64))
    requires
        e.kind matches ExprKind::Call { callee: x, args: y } && x == *callee && y == *args,
    ensures
        r.0 == all_lowerable(args@, args@.len()),
        r.1 == capped(all_nodes(args@, args@.len())),
        r.2 == capped(all_ifs(args@, args@.len())),
    decreases *e, 0nat,
{
    let mut typed: bool = true;
    let mut count: u64 = 0;
    let mut conditionals: u64 = 0;
    let mut k: usize = 0;
    while k < args.len()
        invariant
            e.kind matches ExprKind::Call { callee: x, args: y } && x == *callee && y == *args,
            k <= args@.len(),
            typed == all_lowerable(args@, k as nat),
            count == capped(all_nodes(args@, k as nat)),
            conditionals == capped(all_ifs(args@, k as nat)),
        decreases args@.len() - k,
    {
        let a: (bool, u64, u64) = census_arg(e, args, k);
        typed = a.0 && typed;
        count = sum(a.1, count);
        conditionals = sum(a.2, conditionals);
        k += 1;
    }
    (typed, count, conditionals)
}

fn census_arg(e: &Expr, args: &Vec<Expr>, k: usize) -> (r: (bool, u64, u64))
    requires
        e.kind matches ExprKind::Call { callee: x, args: y } && y == *args,
        k < args@.len(),
    ensures
        r.0 == lowerable(args@[k as int]),
        r.1 == capped(nodes(args@[k as int])),
        r.2 == capped(ifs(args@[k as int])),
    decreases args@, 0nat,
{
    census(&args[k])
}

/// Whether an expression can be lowered: its calls are of known functions, it
/// indexes no column, and the tables have room for it.
pub fn can_lower(typed: &TypedAst) -> (r: bool)
    ensures
        r == (lowerable(typed.root) && small_enough(*typed)),
{
    let (well, count, conditionals): (bool, u64, u64) = census(&typed.root);
    let limit: u64 = 1 + 3 * conditionals;
    let ghost n = nodes(typed.root);
    let ghost bound = 1 + 3 * ifs(typed.root);
    proof {
        if conditionals == 0x1_0000_0000 {
            assert(bound > u32::MAX);
        } else {
            assert(limit == bound);
        }
        assert(bound + 3 >= 1);
        assert(n * (bound + 3) >= n) by (nonlinear_arith)
            requires
                bound + 3 >= 1,
                n >= 0,
        ;
        assert(count * (limit + 3) <= 0x1_0000_0000 * 0x4_0000_0004) by (nonlinear_arith)
            requires
                count <= 0x1_0000_0000,
                limit + 3 <= 0x4_0000_0004,
        ;
    }
    well && limit <= 0xffff_ffff && count < 0x1_0000_0000 && typed.params.len() as u128
        + count as u128 * (limit as u128 + 3) <= 0xffff_ffff
}

} // verus!
