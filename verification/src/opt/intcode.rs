//! Straight-line integer code that a pass puts before an instruction.
use crate::dominance::dom;
use crate::float::FloatSem;
use crate::interp::{eval_inst, int_binary, readable, slot, Frame, RtValue};
use crate::ir::{insert_before, Block, Function, Inst, Span, Ty, Value};
use crate::ir::{model2, InstModel, Op};
use crate::opt::edit::{args_below, lemma_splice_keeps};
use crate::opt::keep::{healthy, lemma_same_dom, lemma_same_targets, lemma_spliced_defs, same_graph};
use crate::opt::rewrite::{before_value, fresh, is_spliced, lemma_spliced_list, splice_agrees};
use crate::opt::simulate::refines;
use crate::opt::xor_on_integers;
use crate::verify::{def_at, inst_ok, use_ok, valid};
use crate::opt::simulate::{lemma_never_traps, may_trap};
use vstd::prelude::*;

verus! {

/// The value `i` places behind `n`.
pub open spec fn nth(n: int, i: int) -> Value {
    Value((n + i) as u32)
}

/// What an instruction is reduced to: the instructions that come before it,
/// and its own.
#[verifier::ext_equal]
pub struct Reduced {
    pub code: Seq<InstModel>,
    pub last: InstModel,
}

/// `g` is `f` with the value at place `pos` of block `b` reduced to `r`.
pub open spec fn is_reduced(f: Function, g: Function, b: int, pos: int, r: Reduced) -> bool {
    let n = f.insts@.len() as int;
    let v = f.listed(b)[pos].0 as int;
    &&& is_spliced(f, g, b, pos, r.code.len() as int)
    &&& g.inst(v) == r.last
    &&& forall|i: int|
        #![trigger r.code[i]]
        0 <= i < r.code.len() ==> g.inst(n + i) == r.code[i] && g.types@[f.types@.len() + i]
            == Ty::I64 && g.spans@[f.spans@.len() + i] == f.spans@[v]
    &&& forall|i: int| #![trigger g.spans@[i]] 0 <= i < f.spans@.len() ==> g.spans@[i] == f.spans@[i]
}

pub fn nth_value(n: usize, i: usize) -> (r: Value)
    requires
        n + i <= u32::MAX,
    ensures
        r == nth(n as int, i as int),
{
    Value((n + i) as u32)
}

/// The models of a list of instructions.
pub open spec fn code_of(code: Seq<Inst>) -> Seq<InstModel> {
    code.map_values(|i: Inst| i@)
}

/// Puts `code` before place `pos` of the block and sets the instruction of
/// the value there to `last`.
pub fn splice(f: &mut Function, block: Block, pos: usize, code: Vec<Inst>, last: Inst)
    requires
        block.0 < old(f).blocks@.len(),
        pos < old(f).listed(block.0 as int).len(),
        old(f).listed(block.0 as int)[pos as int].0 < old(f).insts@.len(),
        old(f).types@.len() == old(f).insts@.len(),
        old(f).spans@.len() == old(f).insts@.len(),
        old(f).insts@.len() + code@.len() <= u32::MAX,
    ensures
        is_reduced(
            *old(f),
            *final(f),
            block.0 as int,
            pos as int,
            Reduced { code: code_of(code@), last: last@ },
        ),
{
    let ghost start = *f;
    let ghost models_code = code_of(code@);
    let ghost count = code@.len() as int;
    let n: usize = f.insts.len();
    let v: Value = f.blocks[block.0 as usize].insts[pos];
    let span: Span = f.spans[v.0 as usize];
    let ghost lf = start.listed(block.0 as int);
    let mut rest: Vec<Inst> = Vec::new();
    let mut code: Vec<Inst> = code;
    // Take the instructions from the front: reverse, then pop.
    while code.len() > 0
        invariant
            code@.len() + rest@.len() == count,
            models_code.len() == count,
            forall|i: int|
                #![trigger code@[i]]
                0 <= i < code@.len() ==> code@[i]@ == models_code[i],
            forall|i: int|
                #![trigger rest@[i]]
                0 <= i < rest@.len() ==> rest@[i]@ == models_code[count - 1 - i],
        decreases code@.len(),
    {
        let ghost code0 = code@;
        let inst: Inst = code.pop().unwrap();
        assert(code0[code0.len() - 1] == inst);
        assert forall|i: int| #![trigger code@[i]] 0 <= i < code@.len() implies code@[i]@
            == models_code[i] by {
            assert(code0[i] == code@[i]);
        }
        rest.push(inst);
    }
    let mut i: usize = 0;
    assert(f.listed(block.0 as int) =~= lf.take(pos as int) + fresh(n as int, 0) + lf.skip(
        pos as int,
    ));
    while rest.len() > 0
        invariant
            block.0 < start.blocks@.len(),
            pos < lf.len(),
            lf == start.listed(block.0 as int),
            n == start.insts@.len(),
            start.types@.len() == n,
            start.spans@.len() == n,
            n + count <= u32::MAX,
            i + rest@.len() == count,
            models_code.len() == count,
            forall|j: int|
                #![trigger rest@[j]]
                0 <= j < rest@.len() ==> rest@[j]@ == models_code[count - 1 - j],
            f.insts@.len() == n + i,
            f.types@.len() == n + i,
            f.spans@.len() == n + i,
            forall|j: int| #![trigger f.insts@[j]] 0 <= j < n ==> f.insts@[j] == start.insts@[j],
            forall|j: int|
                #![trigger f.insts@[j]]
                n <= j < n + i ==> f.inst(j) == models_code[j - n],
            forall|j: int| #![trigger f.types@[j]] 0 <= j < n ==> f.types@[j] == start.types@[j],
            forall|j: int| #![trigger f.types@[j]] n <= j < n + i ==> f.types@[j] == Ty::I64,
            forall|j: int| #![trigger f.spans@[j]] 0 <= j < n ==> f.spans@[j] == start.spans@[j],
            forall|j: int| #![trigger f.spans@[j]] n <= j < n + i ==> f.spans@[j] == span,
            f.entry == start.entry,
            f.params == start.params,
            f.blocks@.len() == start.blocks@.len(),
            forall|c: int|
                #![trigger f.blocks@[c]]
                0 <= c < start.blocks@.len() ==> {
                    &&& f.blocks@[c].preds == start.blocks@[c].preds
                    &&& f.blocks@[c].term == start.blocks@[c].term
                    &&& c != block.0 ==> f.listed(c) == start.listed(c)
                },
            f.listed(block.0 as int) == lf.take(pos as int) + fresh(n as int, i as int) + lf.skip(
                pos as int,
            ),
        decreases rest@.len(),
    {
        let ghost before = *f;
        let ghost rest0 = rest@;
        let inst: Inst = rest.pop().unwrap();
        assert(rest0[rest0.len() - 1] == inst);
        assert(inst@ == models_code[i as int]);
        let have: usize = f.blocks[block.0 as usize].insts.len();
        assert(have == lf.len() + i);
        let w: Value = insert_before(f, block, pos + i, inst, Ty::I64, span);
        assert forall|j: int| #![trigger rest@[j]] 0 <= j < rest@.len() implies rest@[j]@
            == models_code[count - 1 - j] by {
            assert(rest0[j] == rest@[j]);
        }
        assert forall|j: int| #![trigger f.insts@[j]] 0 <= j < n implies f.insts@[j]
            == start.insts@[j] by {
            assert(before.insts@[j] == f.insts@[j]);
        }
        assert forall|j: int| #![trigger f.insts@[j]] n <= j < n + i + 1 implies f.inst(j)
            == models_code[j - n] by {
            if j < n + i {
                assert(before.insts@[j] == f.insts@[j]);
            }
        }
        assert forall|c: int| #![trigger f.blocks@[c]] 0 <= c < start.blocks@.len() implies {
            &&& f.blocks@[c].preds == start.blocks@[c].preds
            &&& f.blocks@[c].term == start.blocks@[c].term
            &&& c != block.0 ==> f.listed(c) == start.listed(c)
        } by {
            assert(before.blocks@[c].preds == start.blocks@[c].preds);
            if c == block.0 {
                assert(f.term(c) == before.term(c));
            } else {
                assert(f.blocks@[c] == before.blocks@[c]);
            }
        }
        assert(f.listed(block.0 as int) =~= lf.take(pos as int) + fresh(n as int, i + 1) + lf.skip(
            pos as int,
        )) by {
            let front = lf.take(pos as int) + fresh(n as int, i as int);
            assert(before.listed(block.0 as int) == front + lf.skip(pos as int));
            assert(front.len() == pos + i);
            assert(fresh(n as int, i + 1) =~= fresh(n as int, i as int).push(w));
        }
        i += 1;
    }
    let ghost before = *f;
    f.insts.set(v.0 as usize, last);
    proof {
        let red = Reduced { code: models_code, last: last@ };
        assert forall|j: int|
            #![trigger f.insts@[j]]
            #![trigger start.insts@[j]]
            0 <= j < n && j != v.0 implies f.inst(j) == start.inst(j) by {
            assert(before.insts@[j] == start.insts@[j]);
        }
        assert forall|j: int| #![trigger red.code[j]] 0 <= j < red.code.len() implies f.inst(n + j)
            == red.code[j] && f.types@[start.types@.len() + j] == Ty::I64
            && f.spans@[start.spans@.len() + j] == start.spans@[v.0 as int] by {
            assert(before.insts@[n + j]@ == models_code[j]);
            assert(f.insts@[n + j] == before.insts@[n + j]);
            assert(before.types@[n + j] == Ty::I64);
            assert(before.spans@[n + j] == span);
        }
        assert(is_spliced(start, *f, block.0 as int, pos as int, count));
    }
}

// ---------------------------------------------------------------------------
// The code is well-formed

/// `a` is one of the values outside, or one of the first `i` new values.
pub open spec fn ref_ok(a: Value, outside: Set<Value>, n: int, i: int) -> bool {
    outside.contains(a) || n <= a.0 < n + i
}

/// An operation on two integers.
pub open spec fn is_int_op(op: Op) -> bool {
    op is Sar || op is And || op is Add || op is Shl || op is Sub || op is Mul
}

/// An integer constant, or an integer operation on values outside and the
/// first `i` new values.
pub open spec fn int_inst(m: InstModel, outside: Set<Value>, n: int, i: int) -> bool {
    ||| m.op is ConstI64 && m.args.len() == 0
    ||| is_int_op(m.op) && m.args.len() == 2 && ref_ok(m.args[0], outside, n, i) && ref_ok(
        m.args[1],
        outside,
        n,
        i,
    )
}

pub open spec fn int_code(r: Reduced, outside: Set<Value>, n: int) -> bool {
    &&& forall|i: int|
        #![trigger r.code[i]]
        0 <= i < r.code.len() ==> int_inst(r.code[i], outside, n, i)
    &&& int_inst(r.last, outside, n, r.code.len() as int)
}

/// The values outside are integers that the place can use.
pub open spec fn usable(f: Function, outside: Set<Value>, b: int, pos: int) -> bool {
    forall|a: Value| #[trigger]
        outside.contains(a) ==> use_ok(f, a.0 as int, b, pos) && a.0 < f.insts@.len()
            && f.types@[a.0 as int] == Ty::I64
}

/// A place of the spliced code can use the operands of the instruction that
/// stood there, and the new values before it.
pub proof fn lemma_spliced_ref(
    f: Function,
    g: Function,
    b: int,
    pos: int,
    count: int,
    outside: Set<Value>,
    a: Value,
    i: int,
)
    requires
        valid(f),
        is_spliced(f, g, b, pos, count),
        same_graph(f, g),
        usable(f, outside, b, pos),
        0 <= i <= count,
        ref_ok(a, outside, f.insts@.len() as int, i),
    ensures
        use_ok(g, a.0 as int, b, pos + i),
{
    let n = f.insts@.len() as int;
    lemma_spliced_defs(f, g, b, pos, count);
    if outside.contains(a) {
        assert(use_ok(f, a.0 as int, b, pos));
        let (c, l) = choose|c: int, l: int| #[trigger]
            def_at(f, a.0 as int, c, l) && dom(f, c, b) && (c == b ==> l < pos);
        lemma_same_dom(f, g, c, b);
        assert(def_at(g, a.0 as int, c, l) && dom(g, c, b) && (c == b ==> l < pos + i));
    } else {
        let j = a.0 - n;
        let lf = f.listed(b);
        let front = lf.take(pos) + fresh(n, count);
        assert(g.listed(b) == front + lf.skip(pos));
        assert(g.listed(b)[pos + j] == fresh(n, count)[j]);
        assert(def_at(g, a.0 as int, b, pos + j));
        assert(def_at(g, a.0 as int, b, pos + j) && dom(g, b, b) && (b == b ==> pos + j < pos + i));
    }
}

pub proof fn lemma_int_inst_ok(
    f: Function,
    g: Function,
    b: int,
    pos: int,
    r: Reduced,
    outside: Set<Value>,
    i: int,
)
    requires
        healthy(f),
        is_reduced(f, g, b, pos, r),
        int_code(r, outside, f.insts@.len() as int),
        same_graph(f, g),
        usable(f, outside, b, pos),
        f.types@[f.listed(b)[pos].0 as int] == Ty::I64,
        pos <= i <= pos + r.code.len(),
    ensures
        inst_ok(g, b, i),
        args_below(g.inst(g.listed(b)[i].0 as int), g.insts@.len() as int),
        !(g.inst(g.listed(b)[i].0 as int).op is Phi),
{
    let n = f.insts@.len() as int;
    let count = r.code.len() as int;
    let lf = f.listed(b);
    let w = g.listed(b)[i];
    let m = g.inst(w.0 as int);
    assert(lf[pos].0 < n);
    if i < pos + count {
        let front = lf.take(pos) + fresh(n, count);
        assert(g.listed(b) == front + lf.skip(pos));
        assert(w == fresh(n, count)[i - pos]);
        assert(w.0 == n + (i - pos));
        assert(m == r.code[i - pos]);
        assert(g.types@[f.types@.len() + (i - pos)] == Ty::I64);
    } else {
        lemma_spliced_list(f, g, b, pos, count, pos);
        assert(w == lf[pos]);
        assert(m == r.last);
        assert(g.types@[w.0 as int] == f.types@[w.0 as int]);
    }
    assert(g.types@[w.0 as int] == Ty::I64);
    assert(int_inst(m, outside, n, i - pos));
    assert forall|j: int| #![trigger m.args[j]] 0 <= j < m.args.len() implies use_ok(
        g,
        m.args[j].0 as int,
        b,
        i,
    ) && m.args[j].0 < g.insts@.len() && g.types@[m.args[j].0 as int] == Ty::I64 by {
        let a = m.args[j];
        lemma_spliced_ref(f, g, b, pos, count, outside, a, i - pos);
        if outside.contains(a) {
            assert(g.types@[a.0 as int] == f.types@[a.0 as int]);
        } else {
            assert(r.code[a.0 - n] == r.code[a.0 - n]);
            assert(g.types@[f.types@.len() + (a.0 - n)] == Ty::I64);
        }
    }
    if m.args.len() == 2 {
        assert(m.args[0].0 < g.insts@.len());
        assert(m.args[1].0 < g.insts@.len());
    }
}

/// What an operation on two integers computes.
pub proof fn lemma_pair_eval(
    op: Op,
    a: Value,
    b: Value,
    p: i64,
    q: i64,
    e: Frame,
    prev: Option<Block>,
    args: Seq<RtValue>,
    fs: FloatSem,
)
    requires
        is_int_op(op),
        slot(e, a) == Some(RtValue::I64(p)),
        slot(e, b) == Some(RtValue::I64(q)),
    ensures
        eval_inst(model2(op, a, b), e, prev, args, fs) == Some(
            RtValue::I64(int_binary(op, p, q).unwrap()),
        ),
{
    let m = model2(op, a, b);
    assert(m.args[0] == a && m.args[1] == b);
    assert(readable(m, e));
}

/// Splicing integer code in that computes the same.
pub proof fn lemma_int_splice_keeps(
    f: Function,
    g: Function,
    b: int,
    pos: int,
    r: Reduced,
    outside: Set<Value>,
    fs: FloatSem,
)
    requires
        healthy(f),
        0 <= b < f.blocks@.len(),
        0 <= pos < f.listed(b).len(),
        is_reduced(f, g, b, pos, r),
        int_code(r, outside, f.insts@.len() as int),
        usable(f, outside, b, pos),
        f.types@[f.listed(b)[pos].0 as int] == Ty::I64,
        !may_trap(f, f.listed(b)[pos].0 as int),
        forall|
            rank: spec_fn(int) -> int,
            vals: Frame,
            prev: Option<Block>,
            args: Seq<RtValue>,
        | #[trigger]
            before_value(f, f.listed(b)[pos], b, pos, rank, vals, prev, args, fs) ==> splice_agrees(
                f,
                g,
                f.listed(b)[pos],
                r.code.len() as int,
                vals,
                prev,
                args,
                fs,
            ),
    ensures
        healthy(g),
        refines(f, g, fs),
        xor_on_integers(f) ==> xor_on_integers(g),
{
    let n = f.insts@.len() as int;
    let v0 = f.listed(b)[pos];
    let count = r.code.len() as int;
    assert forall|d: int| #![trigger g.term(d)] 0 <= d < f.blocks@.len() implies g.term(d)
        == crate::ir::subst_opt_term(f.term(d), Value(0), Value(0)) by {
        assert(g.blocks@[d].term == f.blocks@[d].term);
    }
    lemma_same_targets(f, g, Value(0), Value(0));
    assert forall|i: int| #![trigger g.listed(b)[i]] pos <= i <= pos + count implies inst_ok(
        g,
        b,
        i,
    ) by {
        lemma_int_inst_ok(f, g, b, pos, r, outside, i);
    }
    lemma_spliced_list(f, g, b, pos, count, pos);
    lemma_int_inst_ok(f, g, b, pos, r, outside, pos + count);
    assert forall|i: int|
        #![trigger g.inst(i)]
        n <= i < g.insts@.len() implies args_below(g.inst(i), g.insts@.len() as int) && !(g.inst(
        i,
    ).op is Phi) by {
        let lf = f.listed(b);
        let front = lf.take(pos) + fresh(n, count);
        assert(g.listed(b) == front + lf.skip(pos));
        assert(g.listed(b)[pos + (i - n)] == fresh(n, count)[i - n]);
        lemma_int_inst_ok(f, g, b, pos, r, outside, pos + (i - n));
    }
    lemma_never_traps(f, b, pos, fs);
    lemma_splice_keeps(f, g, b, pos, count, fs);
    if xor_on_integers(f) {
        assert forall|i: int|
            #![trigger g.inst(i)]
            0 <= i < g.insts@.len() && g.inst(i).op is Xor implies g.types@[i] != Ty::Bool by {
            if i < n && i != v0.0 {
                assert(g.insts@[i]@ == f.insts@[i]@);
                assert(f.inst(i).op is Xor);
                assert(g.types@[i] == f.types@[i]);
            } else if i >= n {
                assert(r.code[i - n] == g.inst(n + (i - n)));
            }
        }
    }
}

// ---------------------------------------------------------------------------
// The tables

/// What the loop of the pass needs of the tables.
pub open spec fn in_tables(f: Function) -> bool {
    &&& f.types@.len() == f.insts@.len()
    &&& f.spans@.len() == f.insts@.len()
    &&& f.insts@.len() <= u32::MAX
    &&& forall|b: int, i: int|
        #![trigger f.listed(b)[i]]
        0 <= b < f.blocks@.len() && 0 <= i < f.listed(b).len() ==> f.listed(b)[i].0 < f.insts@.len()
}

pub proof fn lemma_in_tables(f: Function, g: Function, b: int, pos: int, r: Reduced)
    requires
        in_tables(f),
        is_reduced(f, g, b, pos, r),
    ensures
        in_tables(g),
{
    let n = f.insts@.len() as int;
    let count = r.code.len() as int;
    assert forall|c: int, i: int|
        #![trigger g.listed(c)[i]]
        0 <= c < g.blocks@.len() && 0 <= i < g.listed(c).len() implies g.listed(c)[i].0
        < g.insts@.len() by {
        let lf = f.listed(b);
        if c != b {
            assert(f.blocks@[c].preds == g.blocks@[c].preds);
            assert(f.listed(c)[i].0 < n);
        } else {
            let front = lf.take(pos) + fresh(n, count);
            assert(g.listed(b) == front + lf.skip(pos));
            if i < pos {
                assert(g.listed(b)[i] == lf[i]);
            } else if i < pos + count {
                assert(g.listed(b)[i] == fresh(n, count)[i - pos]);
            } else {
                assert(g.listed(b)[i] == lf[i - count]);
            }
        }
    }
}

} // verus!
