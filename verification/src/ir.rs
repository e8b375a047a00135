//! The SSA intermediate representation.
use crate::collections::{BlockList, EdgeList, ValueList};
use vstd::prelude::*;

verus! {

/// A place in the source text.
#[derive(Clone, Copy, PartialEq, Eq, Hash, Debug, Structural)]
pub struct Span {
    pub start: u32,
    pub end: u32,
}

impl Span {
    pub fn new(start: u32, end: u32) -> (r: Span)
        ensures
            r == (Span { start, end }),
    {
        Span { start, end }
    }
}

/// An SSA value: the index of the instruction that computes it.
#[derive(Clone, Copy, PartialEq, Eq, Hash, Debug, Structural)]
pub struct Value(pub u32);

/// A basic block: an index into the block table.
#[derive(Clone, Copy, PartialEq, Eq, Hash, Debug, Structural)]
pub struct Block(pub u32);

#[derive(Clone, Copy, PartialEq, Eq, Hash, Debug, Structural)]
pub enum Ty {
    F64,
    I64,
    Bool,
}

#[derive(Clone, Copy, PartialEq, Eq, Hash, Debug, Structural)]
pub enum CmpOp {
    Eq,
    Ne,
    Lt,
    Le,
    Gt,
    Ge,
}

#[derive(Clone, Copy, PartialEq, Eq, Hash, Debug, Structural)]
pub enum LibFunc {
    Sin,
    Cos,
    Tan,
    Exp,
    Log,
    Pow,
}

#[derive(PartialEq, Eq, Hash, Debug)]
pub enum Inst {
    /// The bits of a floating-point literal.
    ConstF64(u64),
    ConstI64(i64),
    ConstBool(bool),
    Param { index: u32, ty: Ty },
    Add(Value, Value),
    Sub(Value, Value),
    Mul(Value, Value),
    Div(Value, Value),
    Rem(Value, Value),
    Neg(Value),
    /// Computes `a * b + c` with one rounding.
    Fma { a: Value, b: Value, c: Value },
    // `And`, `Or` and `Not` also stand for `&&`, `||` and `!` on bool
    // operands: a 1-bit boolean is representationally identical to the low
    // bit of an i64.
    And(Value, Value),
    Or(Value, Value),
    Xor(Value, Value),
    Not(Value),
    Shl(Value, Value),
    Shr(Value, Value),
    Sar(Value, Value),
    Cmp { op: CmpOp, lhs: Value, rhs: Value },
    Sqrt(Value),
    Abs(Value),
    Min(Value, Value),
    Max(Value, Value),
    Floor(Value),
    Ceil(Value),
    Round(Value),
    Trunc(Value),
    Call { func: LibFunc, args: ValueList },
    IToF(Value),
    FToI(Value),
    Phi { incoming: EdgeList },
}

#[derive(Clone, Copy, PartialEq, Eq, Debug, Structural)]
pub enum Terminator {
    Return(Value),
    Jump(Block),
    Branch { cond: Value, then_: Block, else_: Block },
}

#[derive(Debug)]
pub struct BlockData {
    pub insts: Vec<Value>,
    pub term: Option<Terminator>,
    pub preds: BlockList,
}

impl Default for BlockData {
    fn default() -> (r: BlockData)
        ensures
            r.insts@ == Seq::<Value>::empty(),
            r.term is None,
            r.preds@ == Seq::<Block>::empty(),
    {
        BlockData { insts: Vec::new(), term: None, preds: BlockList::new() }
    }
}

pub struct Function {
    pub insts: Vec<Inst>,
    pub types: Vec<Ty>,
    pub spans: Vec<Span>,
    pub blocks: Vec<BlockData>,
    pub entry: Block,
    pub params: Vec<(String, Ty)>,
}

/// What an instruction computes, apart from the values it reads. A phi names
/// the predecessors that its operands arrive from.
#[verifier::ext_equal]
pub enum Op {
    ConstF64(u64),
    ConstI64(i64),
    ConstBool(bool),
    Param(u32, Ty),
    Add,
    Sub,
    Mul,
    Div,
    Rem,
    Neg,
    Fma,
    And,
    Or,
    Xor,
    Not,
    Shl,
    Shr,
    Sar,
    Compare(CmpOp),
    Sqrt,
    Abs,
    Min,
    Max,
    Floor,
    Ceil,
    Round,
    Trunc,
    Call(LibFunc),
    IToF,
    FToI,
    Phi(Seq<Block>),
}

/// An instruction as an operation and the values it reads, in order.
#[verifier::ext_equal]
pub struct InstModel {
    pub op: Op,
    pub args: Seq<Value>,
}

pub open spec fn model0(op: Op) -> InstModel {
    InstModel { op, args: Seq::empty() }
}

pub open spec fn model1(op: Op, a: Value) -> InstModel {
    InstModel { op, args: seq![a] }
}

pub open spec fn model2(op: Op, a: Value, b: Value) -> InstModel {
    InstModel { op, args: seq![a, b] }
}

/// The predecessors that the edges of a phi name.
pub open spec fn edge_blocks(edges: Seq<(Block, Value)>) -> Seq<Block> {
    edges.map_values(|e: (Block, Value)| e.0)
}

/// The values that the edges of a phi bring.
pub open spec fn edge_values(edges: Seq<(Block, Value)>) -> Seq<Value> {
    edges.map_values(|e: (Block, Value)| e.1)
}

impl View for Inst {
    type V = InstModel;

    open spec fn view(&self) -> InstModel {
        match *self {
            Inst::ConstF64(bits) => model0(Op::ConstF64(bits)),
            Inst::ConstI64(n) => model0(Op::ConstI64(n)),
            Inst::ConstBool(b) => model0(Op::ConstBool(b)),
            Inst::Param { index, ty } => model0(Op::Param(index, ty)),
            Inst::Add(a, b) => model2(Op::Add, a, b),
            Inst::Sub(a, b) => model2(Op::Sub, a, b),
            Inst::Mul(a, b) => model2(Op::Mul, a, b),
            Inst::Div(a, b) => model2(Op::Div, a, b),
            Inst::Rem(a, b) => model2(Op::Rem, a, b),
            Inst::Neg(a) => model1(Op::Neg, a),
            Inst::Fma { a, b, c } => InstModel { op: Op::Fma, args: seq![a, b, c] },
            Inst::And(a, b) => model2(Op::And, a, b),
            Inst::Or(a, b) => model2(Op::Or, a, b),
            Inst::Xor(a, b) => model2(Op::Xor, a, b),
            Inst::Not(a) => model1(Op::Not, a),
            Inst::Shl(a, b) => model2(Op::Shl, a, b),
            Inst::Shr(a, b) => model2(Op::Shr, a, b),
            Inst::Sar(a, b) => model2(Op::Sar, a, b),
            Inst::Cmp { op, lhs, rhs } => model2(Op::Compare(op), lhs, rhs),
            Inst::Sqrt(a) => model1(Op::Sqrt, a),
            Inst::Abs(a) => model1(Op::Abs, a),
            Inst::Min(a, b) => model2(Op::Min, a, b),
            Inst::Max(a, b) => model2(Op::Max, a, b),
            Inst::Floor(a) => model1(Op::Floor, a),
            Inst::Ceil(a) => model1(Op::Ceil, a),
            Inst::Round(a) => model1(Op::Round, a),
            Inst::Trunc(a) => model1(Op::Trunc, a),
            Inst::Call { func, args } => InstModel { op: Op::Call(func), args: args@ },
            Inst::IToF(a) => model1(Op::IToF, a),
            Inst::FToI(a) => model1(Op::FToI, a),
            Inst::Phi { incoming } => InstModel {
                op: Op::Phi(edge_blocks(incoming@)),
                args: edge_values(incoming@),
            },
        }
    }
}

impl Function {
    /// The instruction that computes value `v`.
    pub open spec fn inst(&self, v: int) -> InstModel {
        self.insts@[v]@
    }

    /// The values that block `b` computes, in order.
    pub open spec fn listed(&self, b: int) -> Seq<Value> {
        self.blocks@[b].insts@
    }

    pub open spec fn term(&self, b: int) -> Option<Terminator> {
        self.blocks@[b].term
    }

    pub open spec fn preds(&self, b: int) -> Seq<Block> {
        self.blocks@[b].preds@
    }
}

pub open spec fn subst(v: Value, from: Value, to: Value) -> Value {
    if v == from {
        to
    } else {
        v
    }
}

/// The instruction with every use of `from` turned into a use of `to`.
pub open spec fn subst_inst(m: InstModel, from: Value, to: Value) -> InstModel {
    InstModel { op: m.op, args: m.args.map_values(|v: Value| subst(v, from, to)) }
}

/// The terminator with every use of `from` turned into a use of `to`.
pub open spec fn subst_term(t: Terminator, from: Value, to: Value) -> Terminator {
    match t {
        Terminator::Return(v) => Terminator::Return(subst(v, from, to)),
        Terminator::Jump(b) => Terminator::Jump(b),
        Terminator::Branch { cond, then_, else_ } => Terminator::Branch {
            cond: subst(cond, from, to),
            then_,
            else_,
        },
    }
}

pub open spec fn subst_opt_term(t: Option<Terminator>, from: Value, to: Value) -> Option<
    Terminator,
> {
    match t {
        Some(t) => Some(subst_term(t, from, to)),
        None => None,
    }
}

fn pair(a: Value, b: Value) -> (r: Vec<Value>)
    ensures
        r@ == seq![a, b],
{
    let mut r: Vec<Value> = Vec::new();
    r.push(a);
    r.push(b);
    r
}

fn single(a: Value) -> (r: Vec<Value>)
    ensures
        r@ == seq![a],
{
    let mut r: Vec<Value> = Vec::new();
    r.push(a);
    r
}

fn call_values(args: &ValueList) -> (r: Vec<Value>)
    ensures
        r@ == args@,
{
    let mut r: Vec<Value> = Vec::new();
    let mut i: usize = 0;
    while i < args.len()
        invariant
            i <= args@.len(),
            r@ == args@.take(i as int),
        decreases args@.len() - i,
    {
        r.push(args.get(i));
        i += 1;
    }
    r
}

fn phi_values(incoming: &EdgeList) -> (r: Vec<Value>)
    ensures
        r@ == edge_values(incoming@),
{
    let mut r: Vec<Value> = Vec::new();
    let mut i: usize = 0;
    while i < incoming.len()
        invariant
            i <= incoming@.len(),
            r@ == edge_values(incoming@).take(i as int),
        decreases incoming@.len() - i,
    {
        r.push(incoming.get(i).1);
        i += 1;
    }
    r
}

/// Every use-operand of an instruction.
pub fn uses_of(inst: &Inst) -> (r: Vec<Value>)
    ensures
        r@ == inst@.args,
{
    match inst {
        Inst::Add(a, b)
        | Inst::Sub(a, b)
        | Inst::Mul(a, b)
        | Inst::Div(a, b)
        | Inst::Rem(a, b)
        | Inst::And(a, b)
        | Inst::Or(a, b)
        | Inst::Xor(a, b)
        | Inst::Shl(a, b)
        | Inst::Shr(a, b)
        | Inst::Sar(a, b)
        | Inst::Min(a, b)
        | Inst::Max(a, b) => pair(*a, *b),
        Inst::Neg(a)
        | Inst::Not(a)
        | Inst::Sqrt(a)
        | Inst::Abs(a)
        | Inst::Floor(a)
        | Inst::Ceil(a)
        | Inst::Round(a)
        | Inst::Trunc(a)
        | Inst::IToF(a)
        | Inst::FToI(a) => single(*a),
        Inst::Fma { a, b, c } => {
            let mut r: Vec<Value> = pair(*a, *b);
            r.push(*c);
            r
        },
        Inst::Cmp { lhs, rhs, .. } => pair(*lhs, *rhs),
        Inst::Call { args, .. } => call_values(args),
        Inst::Phi { incoming } => phi_values(incoming),
        Inst::ConstF64(_) | Inst::ConstI64(_) | Inst::ConstBool(_) | Inst::Param { .. } => {
            Vec::new()
        },
    }
}

fn renamed(v: Value, from: Value, to: Value) -> (r: Value)
    ensures
        r == subst(v, from, to),
{
    if v == from {
        to
    } else {
        v
    }
}

fn renamed_args(args: &ValueList, from: Value, to: Value) -> (r: ValueList)
    ensures
        r@ == args@.map_values(|v: Value| subst(v, from, to)),
{
    let mut r: ValueList = ValueList::new();
    let mut i: usize = 0;
    while i < args.len()
        invariant
            i <= args@.len(),
            r@ == args@.map_values(|v: Value| subst(v, from, to)).take(i as int),
        decreases args@.len() - i,
    {
        r.push(renamed(args.get(i), from, to));
        i += 1;
    }
    r
}

fn renamed_edges(incoming: &EdgeList, from: Value, to: Value) -> (r: EdgeList)
    ensures
        edge_blocks(r@) == edge_blocks(incoming@),
        edge_values(r@) == edge_values(incoming@).map_values(|v: Value| subst(v, from, to)),
{
    let mut r: EdgeList = EdgeList::new();
    let mut i: usize = 0;
    while i < incoming.len()
        invariant
            i <= incoming@.len(),
            r@.len() == i,
            forall|j: int|
                #![trigger r@[j]]
                0 <= j < i ==> r@[j] == (incoming@[j].0, subst(incoming@[j].1, from, to)),
        decreases incoming@.len() - i,
    {
        let edge: (Block, Value) = incoming.get(i);
        r.push((edge.0, renamed(edge.1, from, to)));
        i += 1;
    }
    assert(edge_blocks(r@) =~= edge_blocks(incoming@));
    assert(edge_values(r@) =~= edge_values(incoming@).map_values(|v: Value| subst(v, from, to)));
    r
}

/// A copy of `inst` that uses `to` wherever `inst` uses `from`.
#[verifier::rlimit(50)]
pub fn renamed_inst(inst: &Inst, from: Value, to: Value) -> (r: Inst)
    ensures
        r@ == subst_inst(inst@, from, to),
{
    match inst {
        Inst::ConstF64(bits) => Inst::ConstF64(*bits),
        Inst::ConstI64(n) => Inst::ConstI64(*n),
        Inst::ConstBool(b) => Inst::ConstBool(*b),
        Inst::Param { index, ty } => Inst::Param { index: *index, ty: *ty },
        Inst::Add(a, b) => Inst::Add(renamed(*a, from, to), renamed(*b, from, to)),
        Inst::Sub(a, b) => Inst::Sub(renamed(*a, from, to), renamed(*b, from, to)),
        Inst::Mul(a, b) => Inst::Mul(renamed(*a, from, to), renamed(*b, from, to)),
        Inst::Div(a, b) => Inst::Div(renamed(*a, from, to), renamed(*b, from, to)),
        Inst::Rem(a, b) => Inst::Rem(renamed(*a, from, to), renamed(*b, from, to)),
        Inst::Neg(a) => Inst::Neg(renamed(*a, from, to)),
        Inst::Fma { a, b, c } => Inst::Fma {
            a: renamed(*a, from, to),
            b: renamed(*b, from, to),
            c: renamed(*c, from, to),
        },
        Inst::And(a, b) => Inst::And(renamed(*a, from, to), renamed(*b, from, to)),
        Inst::Or(a, b) => Inst::Or(renamed(*a, from, to), renamed(*b, from, to)),
        Inst::Xor(a, b) => Inst::Xor(renamed(*a, from, to), renamed(*b, from, to)),
        Inst::Not(a) => Inst::Not(renamed(*a, from, to)),
        Inst::Shl(a, b) => Inst::Shl(renamed(*a, from, to), renamed(*b, from, to)),
        Inst::Shr(a, b) => Inst::Shr(renamed(*a, from, to), renamed(*b, from, to)),
        Inst::Sar(a, b) => Inst::Sar(renamed(*a, from, to), renamed(*b, from, to)),
        Inst::Cmp { op, lhs, rhs } => Inst::Cmp {
            op: *op,
            lhs: renamed(*lhs, from, to),
            rhs: renamed(*rhs, from, to),
        },
        Inst::Sqrt(a) => Inst::Sqrt(renamed(*a, from, to)),
        Inst::Abs(a) => Inst::Abs(renamed(*a, from, to)),
        Inst::Min(a, b) => Inst::Min(renamed(*a, from, to), renamed(*b, from, to)),
        Inst::Max(a, b) => Inst::Max(renamed(*a, from, to), renamed(*b, from, to)),
        Inst::Floor(a) => Inst::Floor(renamed(*a, from, to)),
        Inst::Ceil(a) => Inst::Ceil(renamed(*a, from, to)),
        Inst::Round(a) => Inst::Round(renamed(*a, from, to)),
        Inst::Trunc(a) => Inst::Trunc(renamed(*a, from, to)),
        Inst::Call { func, args } => Inst::Call {
            func: *func,
            args: renamed_args(args, from, to),
        },
        Inst::IToF(a) => Inst::IToF(renamed(*a, from, to)),
        Inst::FToI(a) => Inst::FToI(renamed(*a, from, to)),
        Inst::Phi { incoming } => Inst::Phi { incoming: renamed_edges(incoming, from, to) },
    }
}

/// Turns every use of `from` in the instruction into a use of `to`.
pub fn replace_in_inst(inst: &mut Inst, from: Value, to: Value)
    ensures
        final(inst)@ == subst_inst(old(inst)@, from, to),
{
    let r: Inst = renamed_inst(inst, from, to);
    *inst = r;
}

/// A copy of `inst`.
pub fn copy_inst(inst: &Inst) -> (r: Inst)
    ensures
        r@ == inst@,
{
    let v: Value = Value(0);
    let r: Inst = renamed_inst(inst, v, v);
    assert(subst_inst(inst@, v, v).args =~= inst@.args);
    r
}

/// `g` is `f` with every use of `from`, in instructions and terminators,
/// turned into a use of `to`.
pub open spec fn is_subst(f: Function, g: Function, from: Value, to: Value) -> bool {
    &&& g.insts@.len() == f.insts@.len()
    &&& forall|i: int|
        #![trigger g.insts@[i]]
        #![trigger f.insts@[i]]
        0 <= i < f.insts@.len() ==> g.inst(i) == subst_inst(f.inst(i), from, to)
    &&& g.types == f.types
    &&& g.spans == f.spans
    &&& g.entry == f.entry
    &&& g.params == f.params
    &&& g.blocks@.len() == f.blocks@.len()
    &&& forall|b: int|
        #![trigger g.blocks@[b]]
        #![trigger f.blocks@[b]]
        0 <= b < f.blocks@.len() ==> {
            &&& g.blocks@[b].insts == f.blocks@[b].insts
            &&& g.blocks@[b].preds == f.blocks@[b].preds
            &&& g.blocks@[b].term == subst_opt_term(f.blocks@[b].term, from, to)
        }
}

/// Redirects every use of `from` to `to`, across both instruction operands
/// and terminator operands (`Return`'s value, `Branch`'s condition).
pub fn replace_value_everywhere(f: &mut Function, from: Value, to: Value)
    ensures
        is_subst(*old(f), *final(f), from, to),
{
    let mut i: usize = 0;
    while i < f.insts.len()
        invariant
            i <= f.insts@.len(),
            f.insts@.len() == old(f).insts@.len(),
            forall|j: int|
                #![trigger f.insts@[j]]
                0 <= j < i ==> f.inst(j) == subst_inst(old(f).inst(j), from, to),
            forall|j: int|
                #![trigger f.insts@[j]]
                i <= j < f.insts@.len() ==> f.insts@[j] == old(f).insts@[j],
            f.types == old(f).types,
            f.spans == old(f).spans,
            f.entry == old(f).entry,
            f.params == old(f).params,
            f.blocks == old(f).blocks,
        decreases f.insts@.len() - i,
    {
        let r: Inst = renamed_inst(&f.insts[i], from, to);
        f.insts.set(i, r);
        i += 1;
    }
    let ghost insts = f.insts;
    let mut b: usize = 0;
    while b < f.blocks.len()
        invariant
            b <= f.blocks@.len(),
            f.insts == insts,
            f.types == old(f).types,
            f.spans == old(f).spans,
            f.entry == old(f).entry,
            f.params == old(f).params,
            f.blocks@.len() == old(f).blocks@.len(),
            forall|c: int|
                #![trigger f.blocks@[c]]
                0 <= c < b ==> {
                    &&& f.blocks@[c].insts == old(f).blocks@[c].insts
                    &&& f.blocks@[c].preds == old(f).blocks@[c].preds
                    &&& f.blocks@[c].term == subst_opt_term(old(f).blocks@[c].term, from, to)
                },
            forall|c: int|
                #![trigger f.blocks@[c]]
                b <= c < f.blocks@.len() ==> f.blocks@[c] == old(f).blocks@[c],
        decreases f.blocks@.len() - b,
    {
        let term: Option<Terminator> = match f.blocks[b].term {
            Some(Terminator::Return(v)) => Some(Terminator::Return(renamed(v, from, to))),
            Some(Terminator::Branch { cond, then_, else_ }) => Some(
                Terminator::Branch { cond: renamed(cond, from, to), then_, else_ },
            ),
            other => other,
        };
        let data: &mut BlockData = &mut f.blocks[b];
        data.term = term;
        b += 1;
    }
}

/// Adds an instruction to the tables, in no block yet.
pub fn append_inst(f: &mut Function, inst: Inst, ty: Ty, span: Span) -> (v: Value)
    requires
        old(f).insts@.len() < u32::MAX,
    ensures
        v.0 == old(f).insts@.len(),
        final(f).insts@ == old(f).insts@.push(inst),
        final(f).types@ == old(f).types@.push(ty),
        final(f).spans@ == old(f).spans@.push(span),
        final(f).blocks == old(f).blocks,
        final(f).entry == old(f).entry,
        final(f).params == old(f).params,
{
    let v: Value = Value(f.insts.len() as u32);
    f.insts.push(inst);
    f.types.push(ty);
    f.spans.push(span);
    v
}

/// Inserts a new instruction into `block` at position `pos` (shifting
/// everything at and after `pos` one slot to the right) and returns its
/// freshly allocated `Value`. Inserting a sequence of instructions before
/// some original position takes a `pos` that grows by one with each call.
pub fn insert_before(
    f: &mut Function,
    block: Block,
    pos: usize,
    inst: Inst,
    ty: Ty,
    span: Span,
) -> (v: Value)
    requires
        old(f).insts@.len() < u32::MAX,
        block.0 < old(f).blocks@.len(),
        pos <= old(f).listed(block.0 as int).len(),
    ensures
        v.0 == old(f).insts@.len(),
        final(f).insts@ == old(f).insts@.push(inst),
        final(f).types@ == old(f).types@.push(ty),
        final(f).spans@ == old(f).spans@.push(span),
        final(f).entry == old(f).entry,
        final(f).params == old(f).params,
        final(f).blocks@.len() == old(f).blocks@.len(),
        final(f).listed(block.0 as int) == old(f).listed(block.0 as int).insert(pos as int, v),
        final(f).term(block.0 as int) == old(f).term(block.0 as int),
        final(f).blocks@[block.0 as int].preds == old(f).blocks@[block.0 as int].preds,
        forall|b: int|
            #![trigger final(f).blocks@[b]]
            0 <= b < old(f).blocks@.len() && b != block.0 ==> final(f).blocks@[b] == old(f).blocks@[b],
{
    let v: Value = append_inst(f, inst, ty, span);
    let data: &mut BlockData = &mut f.blocks[block.0 as usize];
    data.insts.insert(pos, v);
    v
}

} // verus!
