//! Constant folding.
use crate::arith::neg64;
use crate::float::{compute, float_op_of, FloatOp};
use crate::float::{is_float_unit, sem_of, FloatSem};
use crate::interp::{eval_compare, eval_pair, BinaryInst, RtValue};
use crate::interp::{eval, eval_inst, operand_values, readable, reads, slot, Frame};
use crate::ir::{Block, Function, Inst, LibFunc, Ty, Value};
use crate::ir::{model0, InstModel, Op};
use crate::opt::edit::{is_updated, lemma_update_keeps, update_ok};
use crate::opt::keep::{healthy, lemma_shape};
use crate::opt::rewrite::before_value;
use crate::opt::simulate::{
    inv, lemma_eval_typed, lemma_refines_refl, lemma_refines_trans, refines, same, value_ty,
};
use crate::opt::{models, xor_on_integers, Pass};
use crate::verify::{def_at, inst_ok, type_defect, valid};
use crate::opt::simulate::{lemma_never_traps, may_trap, never_traps};
use vstd::prelude::*;

verus! {

/// The literal that an instruction is.
pub open spec fn literal(op: Op) -> Option<RtValue> {
    match op {
        Op::ConstF64(bits) => Some(RtValue::F64(bits)),
        Op::ConstI64(n) => Some(RtValue::I64(n)),
        Op::ConstBool(b) => Some(RtValue::Bool(b)),
        _ => None,
    }
}

/// The literal that value `v` is.
pub open spec fn const_in(ms: Seq<InstModel>, v: Value) -> Option<RtValue> {
    if v.0 < ms.len() {
        literal(ms[v.0 as int].op)
    } else {
        None
    }
}

/// The instruction that a literal is.
pub open spec fn const_op(x: RtValue) -> Op {
    match x {
        RtValue::F64(bits) => Op::ConstF64(bits),
        RtValue::I64(n) => Op::ConstI64(n),
        RtValue::Bool(b) => Op::ConstBool(b),
    }
}

/// Every operand that the operation reads is a literal.
pub open spec fn literal_operands(ms: Seq<InstModel>, m: InstModel) -> bool {
    &&& reads(m.op) <= m.args.len()
    &&& forall|j: int|
        #![trigger m.args[j]]
        0 <= j < reads(m.op) ==> const_in(ms, m.args[j]) is Some
}

pub open spec fn literal_values(ms: Seq<InstModel>, m: InstModel) -> Seq<RtValue> {
    Seq::new(reads(m.op), |j: int| const_in(ms, m.args[j]).unwrap())
}

/// What instruction `m` folds to: the literal that it computes when all its
/// operands are literals. There is no exclusive or of bools to fold, and a
/// division of integers by zero is left alone.
pub open spec fn fold_of(ms: Seq<InstModel>, m: InstModel, fs: FloatSem) -> Option<RtValue> {
    if literal(m.op) is Some || m.op is Param || m.op is Phi || !literal_operands(ms, m) {
        None
    } else {
        match eval(m.op, literal_values(ms, m), Seq::empty(), fs) {
            Some(x) => if m.op is Xor && x is Bool {
                None
            } else {
                Some(x)
            },
            None => None,
        }
    }
}

/// The instruction after folding.
pub open spec fn after_fold(ms: Seq<InstModel>, m: InstModel, fs: FloatSem) -> InstModel {
    match fold_of(ms, m, fs) {
        Some(x) => model0(const_op(x)),
        None => m,
    }
}

/// `g` is `f` with every instruction folded, in table order: each sees its
/// operands before it folded already.
pub open spec fn is_folded(f: Function, g: Function, fs: FloatSem) -> bool {
    let ms = models(f);
    let ns = models(g);
    &&& ns.len() == ms.len()
    &&& forall|i: int|
        #![trigger ns[i]]
        0 <= i < ns.len() ==> ns[i] == after_fold(ns.take(i) + ms.skip(i), ms[i], fs)
    &&& g.types == f.types
    &&& g.spans == f.spans
    &&& g.blocks == f.blocks
    &&& g.entry == f.entry
    &&& g.params == f.params
}

/// Folds instructions whose operands are all literal constants. Computing
/// the result now is always safe for every op, including ones that produce
/// NaN/Inf: folding does not change what the program computes, it just
/// computes it earlier.
pub struct ConstFold<F: Fn(FloatOp, u64, u64, u64) -> u64> {
    pub unit: F,
}

fn as_const(f: &Function, v: Value) -> (r: Option<RtValue>)
    ensures
        r == const_in(models(*f), v),
{
    if v.0 as usize >= f.insts.len() {
        return None;
    }
    assert(models(*f)[v.0 as int] == f.inst(v.0 as int));
    match &f.insts[v.0 as usize] {
        Inst::ConstF64(bits) => Some(RtValue::F64(*bits)),
        Inst::ConstI64(n) => Some(RtValue::I64(*n)),
        Inst::ConstBool(b) => Some(RtValue::Bool(*b)),
        _ => None,
    }
}

fn fold_pair<F: Fn(FloatOp, u64, u64, u64) -> u64>(
    f: &Function,
    op: BinaryInst,
    a: Value,
    b: Value,
    unit: &F,
    Ghost(m): Ghost<InstModel>,
) -> (r: Option<RtValue>)
    requires
        is_float_unit(*unit),
        m == crate::ir::model2(op.op(), a, b),
    ensures
        r == fold_of(models(*f), m, sem_of(*unit)),
{
    assert(m.args[0] == a && m.args[1] == b);
    match (as_const(f, a), as_const(f, b)) {
        (Some(l), Some(r)) => {
            assert(literal_operands(models(*f), m));
            match eval_pair(op, l, r, unit) {
                Some(RtValue::Bool(x)) => match op {
                    BinaryInst::Xor => None,
                    _ => Some(RtValue::Bool(x)),
                },
                other => other,
            }
        },
        _ => None,
    }
}

fn fold_rounding<F: Fn(FloatOp, u64, u64, u64) -> u64>(
    f: &Function,
    op: FloatOp,
    a: Value,
    unit: &F,
) -> (r: Option<RtValue>)
    requires
        is_float_unit(*unit),
    ensures
        r == (match const_in(models(*f), a) {
            Some(RtValue::F64(x)) => Some(RtValue::F64(sem_of(*unit)(op, x, 0, 0))),
            _ => None,
        }),
{
    match as_const(f, a) {
        Some(RtValue::F64(x)) => Some(RtValue::F64(compute(unit, op, x, 0, 0))),
        _ => None,
    }
}

/// The literal that value `v` folds to.
#[verifier::rlimit(60)]
pub fn try_fold<F: Fn(FloatOp, u64, u64, u64) -> u64>(f: &Function, v: Value, unit: &F) -> (r:
    Option<RtValue>)
    requires
        is_float_unit(*unit),
        v.0 < f.insts@.len(),
    ensures
        r == fold_of(models(*f), f.inst(v.0 as int), sem_of(*unit)),
{
    let inst: &Inst = &f.insts[v.0 as usize];
    let ghost m = inst@;
    match inst {
        Inst::ConstF64(_)
        | Inst::ConstI64(_)
        | Inst::ConstBool(_)
        | Inst::Param { .. }
        | Inst::Phi { .. } => None,
        Inst::Add(a, b) => fold_pair(f, BinaryInst::Add, *a, *b, unit, Ghost(m)),
        Inst::Sub(a, b) => fold_pair(f, BinaryInst::Sub, *a, *b, unit, Ghost(m)),
        Inst::Mul(a, b) => fold_pair(f, BinaryInst::Mul, *a, *b, unit, Ghost(m)),
        Inst::Div(a, b) => fold_pair(f, BinaryInst::Div, *a, *b, unit, Ghost(m)),
        Inst::Rem(a, b) => fold_pair(f, BinaryInst::Rem, *a, *b, unit, Ghost(m)),
        Inst::And(a, b) => fold_pair(f, BinaryInst::And, *a, *b, unit, Ghost(m)),
        Inst::Or(a, b) => fold_pair(f, BinaryInst::Or, *a, *b, unit, Ghost(m)),
        Inst::Xor(a, b) => fold_pair(f, BinaryInst::Xor, *a, *b, unit, Ghost(m)),
        Inst::Shl(a, b) => fold_pair(f, BinaryInst::Shl, *a, *b, unit, Ghost(m)),
        Inst::Shr(a, b) => fold_pair(f, BinaryInst::Shr, *a, *b, unit, Ghost(m)),
        Inst::Sar(a, b) => fold_pair(f, BinaryInst::Sar, *a, *b, unit, Ghost(m)),
        Inst::Min(a, b) => fold_pair(f, BinaryInst::Min, *a, *b, unit, Ghost(m)),
        Inst::Max(a, b) => fold_pair(f, BinaryInst::Max, *a, *b, unit, Ghost(m)),
        Inst::Neg(a) => {
            assert(m.args[0] == a);
            match as_const(f, *a) {
                Some(RtValue::F64(x)) => Some(RtValue::F64(x ^ 0x8000_0000_0000_0000)),
                Some(RtValue::I64(x)) => Some(RtValue::I64(neg64(x))),
                _ => None,
            }
        },
        Inst::Not(a) => {
            assert(m.args[0] == a);
            match as_const(f, *a) {
                Some(RtValue::I64(x)) => Some(RtValue::I64(!x)),
                Some(RtValue::Bool(x)) => Some(RtValue::Bool(!x)),
                _ => None,
            }
        },
        Inst::Abs(a) => {
            assert(m.args[0] == a);
            match as_const(f, *a) {
                Some(RtValue::F64(x)) => Some(RtValue::F64(x & 0x7fff_ffff_ffff_ffff)),
                _ => None,
            }
        },
        Inst::Sqrt(a) => {
            assert(m.args[0] == a);
            fold_rounding(f, FloatOp::Sqrt, *a, unit)
        },
        Inst::Floor(a) => {
            assert(m.args[0] == a);
            fold_rounding(f, FloatOp::Floor, *a, unit)
        },
        Inst::Ceil(a) => {
            assert(m.args[0] == a);
            fold_rounding(f, FloatOp::Ceil, *a, unit)
        },
        Inst::Round(a) => {
            assert(m.args[0] == a);
            fold_rounding(f, FloatOp::Round, *a, unit)
        },
        Inst::Trunc(a) => {
            assert(m.args[0] == a);
            fold_rounding(f, FloatOp::Trunc, *a, unit)
        },
        Inst::Fma { a, b, c } => {
            assert(m.args[0] == a && m.args[1] == b && m.args[2] == c);
            match (as_const(f, *a), as_const(f, *b), as_const(f, *c)) {
                (Some(RtValue::F64(x)), Some(RtValue::F64(y)), Some(RtValue::F64(z))) => Some(
                    RtValue::F64(compute(unit, FloatOp::Fma, x, y, z)),
                ),
                _ => None,
            }
        },
        Inst::Cmp { op, lhs, rhs } => {
            assert(m.args[0] == lhs && m.args[1] == rhs);
            match (as_const(f, *lhs), as_const(f, *rhs)) {
                (Some(l), Some(r)) => match eval_compare(*op, l, r) {
                    Some(b) => Some(RtValue::Bool(b)),
                    None => None,
                },
                _ => None,
            }
        },
        Inst::Call { func, args } => {
            if args.len() == 0 {
                return None;
            }
            let first: Value = args.get(0);
            assert(m.args[0] == first);
            match func {
                LibFunc::Pow => {
                    if args.len() < 2 {
                        return None;
                    }
                    let second: Value = args.get(1);
                    assert(m.args[1] == second);
                    match (as_const(f, first), as_const(f, second)) {
                        (Some(RtValue::F64(x)), Some(RtValue::F64(y))) => Some(
                            RtValue::F64(compute(unit, FloatOp::Pow, x, y, 0)),
                        ),
                        _ => None,
                    }
                },
                _ => fold_rounding(f, float_op_of(*func), first, unit),
            }
        },
        Inst::IToF(a) => {
            assert(m.args[0] == a);
            match as_const(f, *a) {
                Some(RtValue::I64(x)) => Some(
                    RtValue::F64(compute(unit, FloatOp::FromInt, x as u64, 0, 0)),
                ),
                _ => None,
            }
        },
        Inst::FToI(a) => {
            assert(m.args[0] == a);
            match as_const(f, *a) {
                Some(RtValue::F64(x)) => Some(
                    RtValue::I64(compute(unit, FloatOp::ToInt, x, 0, 0) as i64),
                ),
                _ => None,
            }
        },
    }
}

fn const_inst(x: RtValue) -> (r: Inst)
    ensures
        r@ == model0(const_op(x)),
{
    match x {
        RtValue::F64(bits) => Inst::ConstF64(bits),
        RtValue::I64(n) => Inst::ConstI64(n),
        RtValue::Bool(b) => Inst::ConstBool(b),
    }
}

// ---------------------------------------------------------------------------
// Folding keeps what a function computes

/// While a function runs, a literal has its value.
pub proof fn lemma_literal_slot(
    f: Function,
    rank: spec_fn(int) -> int,
    b: int,
    k: int,
    vals: Frame,
    prev: Option<Block>,
    args: Seq<RtValue>,
    fs: FloatSem,
    a: Value,
)
    requires
        inv(f, rank, b, k, vals, prev, args, fs),
        slot(vals, a) is Some,
        const_in(models(f), a) is Some,
    ensures
        slot(vals, a) == const_in(models(f), a),
{
    assert(models(f)[a.0 as int] == f.inst(a.0 as int));
    assert(vals[a.0 as int] is Some);
    let m = f.inst(a.0 as int);
    assert(eval_inst(m, vals, None, args, fs) == vals[a.0 as int]);
}

/// An operand of a listed instruction is listed, so it is well-typed.
pub proof fn lemma_operand_typed(f: Function, b: int, k: int, j: int)
    requires
        valid(f),
        0 <= b < f.blocks@.len(),
        0 <= k < f.listed(b).len(),
        0 <= j < f.inst(f.listed(b)[k].0 as int).args.len(),
        !(f.inst(f.listed(b)[k].0 as int).op is Phi),
    ensures
        ({
            let a = f.inst(f.listed(b)[k].0 as int).args[j];
            a.0 < f.insts@.len() && type_defect(f, a, f.inst(a.0 as int)) is None
        }),
{
    let m = f.inst(f.listed(b)[k].0 as int);
    let a = m.args[j];
    assert(inst_ok(f, b, k));
    assert(crate::verify::use_ok(f, a.0 as int, b, k));
    let (c, l) = choose|c: int, l: int| #[trigger]
        def_at(f, a.0 as int, c, l) && crate::dominance::dom(f, c, b) && (c == b ==> l < k);
    assert(f.listed(c)[l] == a);
    assert(inst_ok(f, c, l));
}

/// A literal operand has the type of the table.
proof fn lemma_literal_typed(f: Function, a: Value)
    requires
        a.0 < f.insts@.len(),
        type_defect(f, a, f.inst(a.0 as int)) is None,
        const_in(models(f), a) is Some,
    ensures
        value_ty(const_in(models(f), a).unwrap()) == f.types@[a.0 as int],
{
    assert(models(f)[a.0 as int] == f.inst(a.0 as int));
}

/// Folding one instruction.
pub proof fn lemma_fold_keeps(f: Function, g: Function, v: int, x: RtValue, fs: FloatSem)
    requires
        healthy(f),
        is_updated(f, g, v, model0(const_op(x))),
        fold_of(models(f), f.inst(v), fs) == Some(x),
    ensures
        healthy(g),
        refines(f, g, fs),
        xor_on_integers(f) ==> xor_on_integers(g),
{
    let m = f.inst(v);
    let n = model0(const_op(x));
    let ms = models(f);
    assert forall|b: int, pos: int| #[trigger] def_at(f, v, b, pos) implies !(n.op is Phi)
        && inst_ok(g, b, pos) && never_traps(f, b, pos, fs) && update_ok(f, v, n, b, pos, fs) by {
        assert(f.listed(b)[pos].0 == v);
        assert(inst_ok(f, b, pos));
        lemma_shape(f, v);
        let vs = literal_values(ms, m);
        assert(!may_trap(f, v)) by {
            if may_trap(f, v) {
                assert(const_in(ms, m.args[0]) is Some);
                assert(const_in(ms, m.args[1]) is Some);
                lemma_operand_typed(f, b, pos, 0);
                lemma_operand_typed(f, b, pos, 1);
                lemma_literal_typed(f, m.args[0]);
                lemma_literal_typed(f, m.args[1]);
                assert(vs[0] == const_in(ms, m.args[0]).unwrap());
                assert(vs[1] == const_in(ms, m.args[1]).unwrap());
                assert(type_defect(f, f.listed(b)[pos], m) is None);
                assert(ms[m.args[1].0 as int] == f.inst(m.args[1].0 as int));
            }
        }
        lemma_never_traps(f, b, pos, fs);
        assert forall|j: int| #![trigger vs[j]] 0 <= j < vs.len() implies m.args[j].0
            < f.types@.len() && value_ty(vs[j]) == f.types@[m.args[j].0 as int] by {
            assert(const_in(ms, m.args[j]) is Some);
            lemma_operand_typed(f, b, pos, j);
            lemma_literal_typed(f, m.args[j]);
        }
        lemma_eval_typed(f, f.listed(b)[pos], m, vs, Seq::empty(), fs);
        assert(g.listed(b)[pos].0 == v);
        assert(type_defect(g, g.listed(b)[pos], n) is None);
        assert forall|
            rank: spec_fn(int) -> int,
            vals: Frame,
            prev: Option<Block>,
            args: Seq<RtValue>,
        | #[trigger]
            before_value(f, f.listed(b)[pos], b, pos, rank, vals, prev, args, fs) implies eval_inst(
            n,
            vals,
            prev,
            args,
            fs,
        ) is Some && same(
            eval_inst(m, vals, prev, args, fs).unwrap(),
            eval_inst(n, vals, prev, args, fs).unwrap(),
        ) by {
            assert(readable(m, vals));
            assert forall|j: int| 0 <= j < reads(m.op) implies slot(vals, #[trigger] m.args[j])
                == const_in(ms, m.args[j]) by {
                lemma_literal_slot(f, rank, b, pos, vals, prev, args, fs, m.args[j]);
            }
            assert(operand_values(m, vals) =~= vs);
            assert(eval(m.op, vs, args, fs) == eval(m.op, vs, Seq::empty(), fs));
        }
    }
    lemma_update_keeps(f, g, v, n, fs);
    if xor_on_integers(f) {
        assert forall|i: int|
            #![trigger g.inst(i)]
            0 <= i < g.insts@.len() && g.inst(i).op is Xor implies g.types@[i] != Ty::Bool by {
            if i != v {
                assert(g.insts@[i]@ == f.insts@[i]@);
                assert(f.inst(i).op is Xor);
            }
        }
    }
}

impl<F: Fn(FloatOp, u64, u64, u64) -> u64> Pass for ConstFold<F> {
    open spec fn ready(&self) -> bool {
        is_float_unit(self.unit)
    }

    open spec fn keeps_meaning(&self, fs: FloatSem) -> bool {
        fs == sem_of(self.unit)
    }

    open spec fn title(&self) -> Seq<char> {
        "const-fold"@
    }

    open spec fn does(&self, before: Function, after: Function, changed: bool) -> bool {
        &&& is_folded(before, after, sem_of(self.unit))
        &&& changed <==> models(after) != models(before)
    }

    fn name(&self) -> (r: &'static str) {
        "const-fold"
    }

    fn run(&mut self, f: &mut Function) -> (changed: bool)
        ensures
            final(self).unit == old(self).unit,
            is_folded(*old(f), *final(f), sem_of(old(self).unit)),
            changed <==> models(*final(f)) != models(*old(f)),
            healthy(*old(f)) ==> healthy(*final(f)) && refines(
                *old(f),
                *final(f),
                sem_of(old(self).unit),
            ),
    {
        let ghost fs = sem_of(self.unit);
        let ghost ms = models(*f);
        let ghost start = *f;
        let mut changed: bool = false;
        let mut i: usize = 0;
        proof {
            lemma_refines_refl(start, fs);
        }
        while i < f.insts.len()
            invariant
                is_float_unit(self.unit),
                self.unit == old(self).unit,
                fs == sem_of(self.unit),
                start == *old(f),
                ms == models(start),
                i <= f.insts@.len(),
                f.insts@.len() == start.insts@.len(),
                f.insts@.len() <= u32::MAX,
                models(*f).len() == ms.len(),
                forall|j: int|
                    #![trigger models(*f)[j]]
                    0 <= j < i ==> models(*f)[j] == after_fold(
                        models(*f).take(j) + ms.skip(j),
                        ms[j],
                        fs,
                    ),
                forall|j: int| #![trigger models(*f)[j]] i <= j < ms.len() ==> models(*f)[j] == ms[j],
                changed <==> models(*f) != ms,
                f.types == start.types,
                f.spans == start.spans,
                f.blocks == start.blocks,
                f.entry == start.entry,
                f.params == start.params,
                healthy(start) ==> healthy(*f) && refines(start, *f, fs),
                healthy(start) && xor_on_integers(start) ==> xor_on_integers(*f),
            decreases f.insts@.len() - i,
        {
            let ghost before = *f;
            let ghost ns = models(*f);
            assert(ns =~= ns.take(i as int) + ms.skip(i as int)) by {
                assert forall|j: int| 0 <= j < ns.len() implies ns[j] == (ns.take(i as int)
                    + ms.skip(i as int))[j] by {
                    assert(models(*f)[j] == ns[j]);
                }
            }
            assert(ns[i as int] == ms[i as int]) by {
                assert(models(*f)[i as int] == ms[i as int]);
            }
            match try_fold(f, Value(i as u32), &self.unit) {
                Some(x) => {
                    f.insts.set(i, const_inst(x));
                    changed = true;
                    proof {
                        let m = model0(const_op(x));
                        assert(is_updated(before, *f, i as int, m));
                        assert(models(*f) =~= ns.update(i as int, m));
                        assert(models(*f)[i as int] != ms[i as int]);
                        assert(fold_of(ns, before.inst(i as int), fs) == Some(x));
                        if healthy(start) {
                            lemma_fold_keeps(before, *f, i as int, x, fs);
                            lemma_refines_trans(start, before, *f, fs);
                        }
                    }
                },
                None => {},
            }
            proof {
                let ps = models(*f);
                assert(ps[i as int] == after_fold(ns, ms[i as int], fs));
                assert forall|j: int|
                    #![trigger models(*f)[j]]
                    0 <= j < i + 1 implies models(*f)[j] == after_fold(
                    models(*f).take(j) + ms.skip(j),
                    ms[j],
                    fs,
                ) by {
                    assert(ps.take(j) =~= ns.take(j));
                    if j < i {
                        assert(ns[j] == after_fold(ns.take(j) + ms.skip(j), ms[j], fs));
                    }
                }
                assert forall|j: int|
                    #![trigger models(*f)[j]]
                    i + 1 <= j < ms.len() implies models(*f)[j] == ms[j] by {
                    assert(ns[j] == ms[j]);
                }
            }
            i += 1;
        }
        changed
    }
}

} // verus!
