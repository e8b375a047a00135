//! The three rewrites that the passes are made of, and why each of them keeps
//! what a function computes: splicing new instructions in before one that is
//! rewritten, redirecting the uses of a value, and dropping dead values.
use crate::float::FloatSem;
use crate::interp::{
    divides_by_zero, eval_inst, run_insts, slot, traps_at, traps_in, Frame, RtValue,
};
use crate::ir::{is_subst, subst, subst_inst, subst_opt_term, Block, Function, InstModel, Op, Value};
use crate::opt::simulate::{at_trap, lemma_traps_too, never_traps};
use crate::opt::simulate::{
    agree, at_block, follows, inv, past_block, ranks, regular, same, term_kept,
};
use crate::opt::simulate::{lemma_inst_congruent, lemma_inv_insts, lemma_next_is_new};
use crate::verify::{def_at, valid};
use vstd::prelude::*;

verus! {

/// All values.
pub open spec fn everything() -> Set<int> {
    Set::new(|v: int| true)
}

/// The operands of a phi and the predecessors it names come in pairs.
pub proof fn lemma_phi_pairs(f: Function, v: int)
    requires
        0 <= v < f.insts@.len(),
    ensures
        f.inst(v).op matches Op::Phi(froms) ==> froms.len() == f.inst(v).args.len(),
{
}

/// One step of `g` follows one step of `f` where their instructions have the
/// same operation and their operands agree.
proof fn lemma_step_follows(
    m: InstModel,
    n: InstModel,
    v: int,
    kept: Set<int>,
    v0: Value,
    e0: Value,
    vals: Frame,
    ws: Frame,
    prev: Option<Block>,
    args: Seq<RtValue>,
    fs: FloatSem,
)
    requires
        regular(fs),
        agree(kept, v0, e0, vals, ws),
        m.op == n.op,
        m.args.len() == n.args.len(),
        m.op matches Op::Phi(froms) ==> froms.len() == m.args.len(),
        forall|j: int|
            #![trigger m.args[j]]
            0 <= j < m.args.len() ==> kept.contains(m.args[j].0 as int) && (n.args[j] == subst(
                m.args[j],
                v0,
                e0,
            )),
        eval_inst(m, vals, prev, args, fs) is Some,
    ensures
        eval_inst(n, ws, prev, args, fs) is Some,
        same(
            eval_inst(m, vals, prev, args, fs).unwrap(),
            eval_inst(n, ws, prev, args, fs).unwrap(),
        ),
{
    assert forall|j: int|
        #![trigger m.args[j]]
        0 <= j < m.args.len() && slot(vals, m.args[j]) is Some implies slot(ws, n.args[j]) is Some
        && same(slot(vals, m.args[j]).unwrap(), slot(ws, n.args[j]).unwrap()) by {
        let a = m.args[j];
        assert(vals[a.0 as int] is Some);
    }
    lemma_inst_congruent(m, n, vals, ws, prev, args, fs);
}

/// Where the operands agree, both instructions divide by zero.
proof fn lemma_agreeing_traps(
    m: InstModel,
    n: InstModel,
    kept: Set<int>,
    v0: Value,
    e0: Value,
    vals: Frame,
    ws: Frame,
)
    requires
        agree(kept, v0, e0, vals, ws),
        m.op == n.op,
        m.args.len() == n.args.len(),
        forall|j: int|
            #![trigger m.args[j]]
            0 <= j < m.args.len() ==> kept.contains(m.args[j].0 as int) && (n.args[j] == subst(
                m.args[j],
                v0,
                e0,
            )),
        divides_by_zero(m, vals),
    ensures
        divides_by_zero(n, ws),
{
    assert forall|j: int|
        #![trigger m.args[j]]
        0 <= j < m.args.len() && slot(vals, m.args[j]) is Some implies slot(ws, n.args[j]) is Some
        && same(slot(vals, m.args[j]).unwrap(), slot(ws, n.args[j]).unwrap()) by {
        let a = m.args[j];
        assert(vals[a.0 as int] is Some);
    }
    lemma_traps_too(m, n, vals, ws);
}

/// Agreement after both frames get the value `v`, which is not `v0`.
proof fn lemma_agree_update(
    kept: Set<int>,
    v0: Value,
    e0: Value,
    vals: Frame,
    ws: Frame,
    v: int,
    x: RtValue,
    y: RtValue,
)
    requires
        agree(kept, v0, e0, vals, ws),
        0 <= v < vals.len(),
        v < ws.len(),
        same(x, y),
        vals[v] is None,
        e0.0 == v ==> slot(vals, v0) is None || v0 == e0,
        v0.0 != v || v0 == e0,
    ensures
        agree(kept, v0, e0, vals.update(v, Some(x)), ws.update(v, Some(y))),
{
    let vals2 = vals.update(v, Some(x));
    let ws2 = ws.update(v, Some(y));
    assert forall|u: int|
        #![trigger vals2[u]]
        kept.contains(u) && 0 <= u < vals2.len() && vals2[u] is Some implies u < ws2.len()
        && ws2[u] is Some && same(vals2[u].unwrap(), ws2[u].unwrap()) by {
        if u != v {
            assert(vals[u] is Some);
        }
    }
}

// ---------------------------------------------------------------------------
// Redirecting uses

/// Control stands before the place that computes `v0`, which it can compute.
pub open spec fn before_value(
    f: Function,
    v0: Value,
    b: int,
    k: int,
    rank: spec_fn(int) -> int,
    vals: Frame,
    prev: Option<Block>,
    args: Seq<RtValue>,
    fs: FloatSem,
) -> bool {
    &&& regular(fs)
    &&& ranks(f, rank)
    &&& def_at(f, v0.0 as int, b, k)
    &&& inv(f, rank, b, k, vals, prev, args, fs)
    &&& eval_inst(f.inst(v0.0 as int), vals, prev, args, fs) is Some
}

/// When `v0` is computed, `e0` is there and has the same value.
pub open spec fn stands_for(f: Function, v0: Value, e0: Value, fs: FloatSem) -> bool {
    forall|
        b: int,
        k: int,
        rank: spec_fn(int) -> int,
        vals: Frame,
        prev: Option<Block>,
        args: Seq<RtValue>,
    | #[trigger]
        before_value(f, v0, b, k, rank, vals, prev, args, fs) ==> slot(vals, e0) is Some && same(
            eval_inst(f.inst(v0.0 as int), vals, prev, args, fs).unwrap(),
            slot(vals, e0).unwrap(),
        )
}

proof fn lemma_subst_insts(
    f: Function,
    g: Function,
    v0: Value,
    e0: Value,
    rank: spec_fn(int) -> int,
    b: int,
    k: int,
    prev: Option<Block>,
    vals: Frame,
    ws: Frame,
    args: Seq<RtValue>,
    fs: FloatSem,
)
    requires
        valid(f),
        is_subst(f, g, v0, e0),
        stands_for(f, v0, e0, fs),
        v0 != e0,
        regular(fs),
        ranks(f, rank),
        inv(f, rank, b, 0, vals, prev, args, fs),
        ws.len() == g.insts@.len(),
        agree(everything(), v0, e0, vals, ws),
        0 <= k <= f.listed(b).len(),
        run_insts(f, b, k, vals, prev, args, fs) is Some,
    ensures
        run_insts(g, b, k, ws, prev, args, fs) is Some,
        run_insts(g, b, k, ws, prev, args, fs).unwrap().len() == g.insts@.len(),
        agree(
            everything(),
            v0,
            e0,
            run_insts(f, b, k, vals, prev, args, fs).unwrap(),
            run_insts(g, b, k, ws, prev, args, fs).unwrap(),
        ),
    decreases k,
{
    if k > 0 {
        lemma_subst_insts(f, g, v0, e0, rank, b, k - 1, prev, vals, ws, args, fs);
        lemma_inv_insts(f, rank, b, k - 1, vals, prev, args, fs);
        let w = run_insts(f, b, k - 1, vals, prev, args, fs).unwrap();
        let u = run_insts(g, b, k - 1, ws, prev, args, fs).unwrap();
        assert(g.blocks@[b].insts == f.blocks@[b].insts);
        let v = f.listed(b)[k - 1].0 as int;
        assert(def_at(f, v, b, k - 1));
        lemma_next_is_new(f, rank, b, k - 1, w, prev, args, fs);
        let m = f.inst(v);
        let n = g.inst(v);
        assert(n == subst_inst(m, v0, e0));
        lemma_phi_pairs(f, v);
        lemma_step_follows(m, n, v, everything(), v0, e0, w, u, prev, args, fs);
        let x = eval_inst(m, w, prev, args, fs).unwrap();
        let y = eval_inst(n, u, prev, args, fs).unwrap();
        let w2 = w.update(v, Some(x));
        let u2 = u.update(v, Some(y));
        assert forall|i: int|
            #![trigger w2[i]]
            everything().contains(i) && 0 <= i < w2.len() && w2[i] is Some implies i < u2.len()
            && u2[i] is Some && same(w2[i].unwrap(), u2[i].unwrap()) by {
            if i != v {
                assert(w[i] is Some);
            }
        }
        assert forall|i: int|
            #![trigger u2[i]]
            0 <= i < w2.len() && i < u2.len() && u2[i] is Some implies w2[i] is Some by {
            if i != v {
                assert(u[i] is Some);
            }
        }
        if v == v0.0 {
            assert(before_value(f, v0, b, k - 1, rank, w, prev, args, fs));
            assert(slot(w, e0) is Some);
            assert(w[e0.0 as int] is Some);
        } else if v == e0.0 {
            assert(u[v] is None);
        }
    }
}

/// Redirecting the uses of a value to one that stands for it keeps what the
/// function computes.
pub proof fn lemma_subst_follows(f: Function, g: Function, v0: Value, e0: Value, fs: FloatSem)
    requires
        valid(f),
        is_subst(f, g, v0, e0),
        stands_for(f, v0, e0, fs),
        v0 != e0,
    ensures
        follows(f, g, everything(), v0, e0, fs),
{
    assert forall|
        rank: spec_fn(int) -> int,
        b: int,
        prev: Option<Block>,
        vals: Frame,
        ws: Frame,
        args: Seq<RtValue>,
    | #[trigger]
        at_block(f, g, everything(), v0, e0, rank, b, prev, vals, ws, args, fs) implies past_block(
        f,
        g,
        everything(),
        v0,
        e0,
        b,
        prev,
        vals,
        ws,
        args,
        fs,
    ) by {
        assert(g.blocks@[b].insts == f.blocks@[b].insts);
        lemma_subst_insts(
            f,
            g,
            v0,
            e0,
            rank,
            b,
            f.listed(b).len() as int,
            prev,
            vals,
            ws,
            args,
            fs,
        );
    }
    assert forall|
        rank: spec_fn(int) -> int,
        b: int,
        prev: Option<Block>,
        vals: Frame,
        ws: Frame,
        args: Seq<RtValue>,
        op: Op,
    | #[trigger]
        at_trap(f, g, everything(), v0, e0, rank, b, prev, vals, ws, args, fs, op) implies traps_in(
        g,
        b,
        prev,
        ws,
        args,
        fs,
        op,
    ) by {
        let k = choose|k: int| #[trigger] traps_at(f, b, k, prev, vals, args, fs, op);
        assert(g.blocks@[b].insts == f.blocks@[b].insts);
        lemma_subst_insts(f, g, v0, e0, rank, b, k, prev, vals, ws, args, fs);
        let w = run_insts(f, b, k, vals, prev, args, fs).unwrap();
        let u = run_insts(g, b, k, ws, prev, args, fs).unwrap();
        let m = f.inst(f.listed(b)[k].0 as int);
        let n = g.inst(f.listed(b)[k].0 as int);
        assert(n == subst_inst(m, v0, e0));
        lemma_agreeing_traps(m, n, everything(), v0, e0, w, u);
        assert(traps_at(g, b, k, prev, ws, args, fs, op));
    }
    assert forall|b: int| #![trigger g.term(b)] 0 <= b < f.blocks@.len() implies g.term(b)
        == subst_opt_term(f.term(b), v0, e0) && term_kept(f.term(b), everything()) by {
        assert(g.blocks@[b].term == subst_opt_term(f.blocks@[b].term, v0, e0));
    }
}

// ---------------------------------------------------------------------------
// Splicing

/// `count` new values, from `n` on.
pub open spec fn fresh(n: int, count: int) -> Seq<Value> {
    Seq::new(count as nat, |i: int| Value((n + i) as u32))
}

/// `g` is `f` with `count` new instructions in block `b` before place `pos`,
/// where another instruction may now compute the value that stands there.
pub open spec fn is_spliced(f: Function, g: Function, b: int, pos: int, count: int) -> bool {
    let n = f.insts@.len() as int;
    let v = f.listed(b)[pos].0 as int;
    &&& 0 <= b < f.blocks@.len()
    &&& 0 <= pos < f.listed(b).len()
    &&& 0 <= count
    &&& n + count <= u32::MAX
    &&& g.insts@.len() == n + count
    &&& forall|i: int|
        #![trigger g.insts@[i]]
        #![trigger f.insts@[i]]
        0 <= i < n && i != v ==> g.inst(i) == f.inst(i)
    &&& g.types@.len() == f.types@.len() + count
    &&& forall|i: int| #![trigger g.types@[i]] 0 <= i < f.types@.len() ==> g.types@[i] == f.types@[i]
    &&& g.spans@.len() == f.spans@.len() + count
    &&& g.entry == f.entry
    &&& g.params == f.params
    &&& g.blocks@.len() == f.blocks@.len()
    &&& forall|c: int|
        #![trigger g.blocks@[c]]
        #![trigger f.blocks@[c]]
        0 <= c < f.blocks@.len() ==> {
            &&& g.blocks@[c].preds == f.blocks@[c].preds
            &&& g.blocks@[c].term == f.blocks@[c].term
            &&& c != b ==> g.listed(c) == f.listed(c)
        }
    &&& g.listed(b) == f.listed(b).take(pos) + fresh(n, count) + f.listed(b).skip(pos)
}

/// The frame with room for `count` more values.
pub open spec fn padded(vals: Frame, count: int) -> Frame {
    vals + Seq::new(count as nat, |i: int| None::<RtValue>)
}

/// The frame after the first `i` of the new instructions.
pub open spec fn run_fresh(
    g: Function,
    n: int,
    i: int,
    vals: Frame,
    args: Seq<RtValue>,
    fs: FloatSem,
) -> Option<Frame>
    decreases i,
{
    if i <= 0 {
        Some(vals)
    } else {
        match run_fresh(g, n, i - 1, vals, args, fs) {
            None => None,
            Some(w) => match eval_inst(g.inst(n + i - 1), w, None, args, fs) {
                Some(x) => Some(w.update(n + i - 1, Some(x))),
                None => None,
            },
        }
    }
}

/// After the new instructions, the value at the splice comes out the same.
pub open spec fn splice_agrees(
    f: Function,
    g: Function,
    v0: Value,
    count: int,
    vals: Frame,
    prev: Option<Block>,
    args: Seq<RtValue>,
    fs: FloatSem,
) -> bool {
    match run_fresh(g, f.insts@.len() as int, count, padded(vals, count), args, fs) {
        None => false,
        Some(w) => match eval_inst(g.inst(v0.0 as int), w, prev, args, fs) {
            None => false,
            Some(y) => same(eval_inst(f.inst(v0.0 as int), vals, prev, args, fs).unwrap(), y),
        },
    }
}

/// The splice computes what was computed before.
pub open spec fn splice_ok(
    f: Function,
    g: Function,
    b: int,
    pos: int,
    count: int,
    fs: FloatSem,
) -> bool {
    let v0 = f.listed(b)[pos];
    &&& forall|i: int|
        #![trigger g.inst(i)]
        f.insts@.len() <= i < f.insts@.len() + count ==> !(g.inst(i).op is Phi)
    &&& forall|
        rank: spec_fn(int) -> int,
        vals: Frame,
        prev: Option<Block>,
        args: Seq<RtValue>,
    | #[trigger]
        before_value(f, v0, b, pos, rank, vals, prev, args, fs) ==> splice_agrees(
            f,
            g,
            v0,
            count,
            vals,
            prev,
            args,
            fs,
        )
}

/// Agreement on the first `n` values only looks at those.
spec fn agree_upto(vals: Frame, ws: Frame) -> bool {
    &&& forall|v: int|
        #![trigger vals[v]]
        0 <= v < vals.len() && vals[v] is Some ==> v < ws.len() && ws[v] is Some && same(
            vals[v].unwrap(),
            ws[v].unwrap(),
        )
    &&& forall|v: int|
        #![trigger ws[v]]
        0 <= v < vals.len() && v < ws.len() && ws[v] is Some ==> vals[v] is Some
}

proof fn lemma_agree_plain(vals: Frame, ws: Frame)
    ensures
        agree(everything(), Value(0), Value(0), vals, ws) == agree_upto(vals, ws),
{
    if agree_upto(vals, ws) {
        if slot(vals, Value(0)) is Some {
            assert(vals[0] is Some);
        }
        assert forall|v: int|
            #![trigger vals[v]]
            everything().contains(v) && 0 <= v < vals.len() && vals[v] is Some implies v < ws.len()
            && ws[v] is Some && same(vals[v].unwrap(), ws[v].unwrap()) by {}
    }
    if agree(everything(), Value(0), Value(0), vals, ws) {
        assert forall|v: int|
            #![trigger vals[v]]
            0 <= v < vals.len() && vals[v] is Some implies v < ws.len() && ws[v] is Some && same(
            vals[v].unwrap(),
            ws[v].unwrap(),
        ) by {
            assert(everything().contains(v));
        }
    }
}

/// An instruction computes the same on agreeing frames.
proof fn lemma_same_inst(
    m: InstModel,
    vals: Frame,
    ws: Frame,
    prev: Option<Block>,
    args: Seq<RtValue>,
    fs: FloatSem,
)
    requires
        regular(fs),
        agree_upto(vals, ws),
        m.op matches Op::Phi(froms) ==> froms.len() == m.args.len(),
        eval_inst(m, vals, prev, args, fs) is Some,
    ensures
        eval_inst(m, ws, prev, args, fs) is Some,
        same(
            eval_inst(m, vals, prev, args, fs).unwrap(),
            eval_inst(m, ws, prev, args, fs).unwrap(),
        ),
{
    assert forall|j: int|
        #![trigger m.args[j]]
        0 <= j < m.args.len() && slot(vals, m.args[j]) is Some implies slot(ws, m.args[j]) is Some
        && same(slot(vals, m.args[j]).unwrap(), slot(ws, m.args[j]).unwrap()) by {
        assert(vals[m.args[j].0 as int] is Some);
    }
    lemma_inst_congruent(m, m, vals, ws, prev, args, fs);
}

proof fn lemma_upto_update(vals: Frame, ws: Frame, v: int, x: RtValue, y: RtValue)
    requires
        agree_upto(vals, ws),
        0 <= v < vals.len(),
        v < ws.len(),
        same(x, y),
    ensures
        agree_upto(vals.update(v, Some(x)), ws.update(v, Some(y))),
{
    let p = vals.update(v, Some(x));
    let q = ws.update(v, Some(y));
    assert forall|i: int| #![trigger p[i]] 0 <= i < p.len() && p[i] is Some implies i < q.len()
        && q[i] is Some && same(p[i].unwrap(), q[i].unwrap()) by {
        if i != v {
            assert(vals[i] is Some);
        }
    }
    assert forall|i: int| #![trigger q[i]] 0 <= i < p.len() && i < q.len() && q[i] is Some implies
        p[i] is Some by {
        if i != v {
            assert(ws[i] is Some);
        }
    }
}

/// `g` runs the first `i` new instructions as the padded frame does.
proof fn lemma_fresh_insts(
    f: Function,
    g: Function,
    b: int,
    pos: int,
    count: int,
    i: int,
    vals: Frame,
    start: Frame,
    u: Frame,
    prev: Option<Block>,
    args: Seq<RtValue>,
    fs: FloatSem,
)
    requires
        is_spliced(f, g, b, pos, count),
        forall|j: int|
            #![trigger g.inst(j)]
            f.insts@.len() <= j < f.insts@.len() + count ==> !(g.inst(j).op is Phi),
        regular(fs),
        0 <= i <= count,
        vals.len() == f.insts@.len(),
        run_insts(g, b, pos, start, prev, args, fs) == Some(u),
        u.len() == g.insts@.len(),
        agree_upto(vals, u),
        run_fresh(g, f.insts@.len() as int, i, padded(vals, count), args, fs) is Some,
    ensures
        run_insts(g, b, pos + i, start, prev, args, fs) is Some,
        run_insts(g, b, pos + i, start, prev, args, fs).unwrap().len() == g.insts@.len(),
        run_fresh(g, f.insts@.len() as int, i, padded(vals, count), args, fs).unwrap().len()
            == g.insts@.len(),
        agree_all(
            run_fresh(g, f.insts@.len() as int, i, padded(vals, count), args, fs).unwrap(),
            run_insts(g, b, pos + i, start, prev, args, fs).unwrap(),
        ),
        forall|v: int|
            #![trigger run_insts(g, b, pos + i, start, prev, args, fs).unwrap()[v]]
            0 <= v < f.insts@.len() ==> run_insts(g, b, pos + i, start, prev, args, fs).unwrap()[v]
                == u[v],
        forall|v: int|
            #![trigger run_fresh(g, f.insts@.len() as int, i, padded(vals, count), args, fs).unwrap()[v]]
            0 <= v < f.insts@.len() ==> run_fresh(
                g,
                f.insts@.len() as int,
                i,
                padded(vals, count),
                args,
                fs,
            ).unwrap()[v] == vals[v],
    decreases i,
{
    let n = f.insts@.len() as int;
    if i == 0 {
        let p = padded(vals, count);
        assert forall|v: int| #![trigger p[v]] 0 <= v < p.len() && p[v] is Some implies v < u.len()
            && u[v] is Some && same(p[v].unwrap(), u[v].unwrap()) by {
            assert(v < n);
            assert(vals[v] is Some);
        }
    } else {
        lemma_fresh_insts(f, g, b, pos, count, i - 1, vals, start, u, prev, args, fs);
        let p = run_fresh(g, n, i - 1, padded(vals, count), args, fs).unwrap();
        let q = run_insts(g, b, pos + i - 1, start, prev, args, fs).unwrap();
        let v = n + i - 1;
        assert(g.listed(b)[pos + i - 1] == fresh(n, count)[i - 1]);
        assert(g.listed(b)[pos + i - 1].0 == v);
        let m = g.inst(v);
        assert(!(m.op is Phi));
        assert forall|j: int|
            #![trigger m.args[j]]
            0 <= j < m.args.len() && slot(p, m.args[j]) is Some implies slot(q, m.args[j]) is Some
            && same(slot(p, m.args[j]).unwrap(), slot(q, m.args[j]).unwrap()) by {
            assert(p[m.args[j].0 as int] is Some);
        }
        lemma_inst_congruent(m, m, p, q, None, args, fs);
        assert(eval_inst(m, q, prev, args, fs) == eval_inst(m, q, None, args, fs));
        let x = eval_inst(m, p, None, args, fs).unwrap();
        let y = eval_inst(m, q, prev, args, fs).unwrap();
        let p2 = p.update(v, Some(x));
        let q2 = q.update(v, Some(y));
        assert forall|w: int| #![trigger p2[w]] 0 <= w < p2.len() && p2[w] is Some implies w
            < q2.len() && q2[w] is Some && same(p2[w].unwrap(), q2[w].unwrap()) by {
            if w != v {
                assert(p[w] is Some);
            }
        }
    }
}

/// Every value of the first frame is in the second.
spec fn agree_all(vals: Frame, ws: Frame) -> bool {
    forall|v: int|
        #![trigger vals[v]]
        0 <= v < vals.len() && vals[v] is Some ==> v < ws.len() && ws[v] is Some && same(
            vals[v].unwrap(),
            ws[v].unwrap(),
        )
}

/// In a block other than the spliced one, or before the splice.
proof fn lemma_splice_before(
    f: Function,
    g: Function,
    b: int,
    pos: int,
    count: int,
    c: int,
    k: int,
    rank: spec_fn(int) -> int,
    prev: Option<Block>,
    vals: Frame,
    ws: Frame,
    args: Seq<RtValue>,
    fs: FloatSem,
)
    requires
        valid(f),
        is_spliced(f, g, b, pos, count),
        regular(fs),
        inv(f, rank, c, 0, vals, prev, args, fs),
        ws.len() == g.insts@.len(),
        agree_upto(vals, ws),
        0 <= k <= f.listed(c).len(),
        c == b ==> k <= pos,
        run_insts(f, c, k, vals, prev, args, fs) is Some,
    ensures
        run_insts(g, c, k, ws, prev, args, fs) is Some,
        run_insts(g, c, k, ws, prev, args, fs).unwrap().len() == g.insts@.len(),
        agree_upto(
            run_insts(f, c, k, vals, prev, args, fs).unwrap(),
            run_insts(g, c, k, ws, prev, args, fs).unwrap(),
        ),
    decreases k,
{
    if k > 0 {
        lemma_splice_before(f, g, b, pos, count, c, k - 1, rank, prev, vals, ws, args, fs);
        lemma_inv_insts(f, rank, c, k - 1, vals, prev, args, fs);
        let w = run_insts(f, c, k - 1, vals, prev, args, fs).unwrap();
        let u = run_insts(g, c, k - 1, ws, prev, args, fs).unwrap();
        let v = f.listed(c)[k - 1].0 as int;
        assert(g.blocks@[c].preds == f.blocks@[c].preds);
        assert(g.listed(c)[k - 1] == f.listed(c)[k - 1]);
        assert(def_at(f, v, c, k - 1));
        assert(def_at(f, f.listed(b)[pos].0 as int, b, pos));
        assert(v != f.listed(b)[pos].0);
        lemma_next_is_new(f, rank, c, k - 1, w, prev, args, fs);
        assert(g.insts@[v]@ == f.insts@[v]@);
        lemma_phi_pairs(f, v);
        lemma_same_inst(f.inst(v), w, u, prev, args, fs);
        lemma_upto_update(
            w,
            u,
            v,
            eval_inst(f.inst(v), w, prev, args, fs).unwrap(),
            eval_inst(f.inst(v), u, prev, args, fs).unwrap(),
        );
    }
}

/// At the splice.
#[verifier::rlimit(80)]
#[verifier::spinoff_prover]
proof fn lemma_splice_at(
    f: Function,
    g: Function,
    b: int,
    pos: int,
    count: int,
    rank: spec_fn(int) -> int,
    prev: Option<Block>,
    vals: Frame,
    ws: Frame,
    args: Seq<RtValue>,
    fs: FloatSem,
)
    requires
        valid(f),
        is_spliced(f, g, b, pos, count),
        splice_ok(f, g, b, pos, count, fs),
        regular(fs),
        ranks(f, rank),
        inv(f, rank, b, 0, vals, prev, args, fs),
        ws.len() == g.insts@.len(),
        agree_upto(vals, ws),
        run_insts(f, b, pos + 1, vals, prev, args, fs) is Some,
    ensures
        run_insts(g, b, pos + 1 + count, ws, prev, args, fs) is Some,
        run_insts(g, b, pos + 1 + count, ws, prev, args, fs).unwrap().len() == g.insts@.len(),
        agree_upto(
            run_insts(f, b, pos + 1, vals, prev, args, fs).unwrap(),
            run_insts(g, b, pos + 1 + count, ws, prev, args, fs).unwrap(),
        ),
{
    let n = f.insts@.len() as int;
    let w = run_insts(f, b, pos, vals, prev, args, fs).unwrap();
    let v0 = f.listed(b)[pos];
    let v = v0.0 as int;
    lemma_inv_insts(f, rank, b, pos, vals, prev, args, fs);
    lemma_next_is_new(f, rank, b, pos, w, prev, args, fs);
    assert(def_at(f, v, b, pos));
    let x = eval_inst(f.inst(v), w, prev, args, fs).unwrap();
    lemma_phi_pairs(g, v);
    lemma_splice_before(f, g, b, pos, count, b, pos, rank, prev, vals, ws, args, fs);
    let u = run_insts(g, b, pos, ws, prev, args, fs).unwrap();
    assert(before_value(f, v0, b, pos, rank, w, prev, args, fs));
    assert(splice_agrees(f, g, v0, count, w, prev, args, fs));
    lemma_fresh_insts(f, g, b, pos, count, count, w, ws, u, prev, args, fs);
    let p = run_fresh(g, n, count, padded(w, count), args, fs).unwrap();
    let q = run_insts(g, b, pos + count, ws, prev, args, fs).unwrap();
    let m = g.inst(v);
    assert forall|j: int|
        #![trigger m.args[j]]
        0 <= j < m.args.len() && slot(p, m.args[j]) is Some implies slot(q, m.args[j]) is Some
        && same(slot(p, m.args[j]).unwrap(), slot(q, m.args[j]).unwrap()) by {
        assert(p[m.args[j].0 as int] is Some);
    }
    lemma_inst_congruent(m, m, p, q, prev, args, fs);
    let y = eval_inst(m, q, prev, args, fs).unwrap();
    assert(same(x, y));
    assert(agree_upto(w, q)) by {
        assert forall|i: int| #![trigger w[i]] 0 <= i < w.len() && w[i] is Some implies i < q.len()
            && q[i] is Some && same(w[i].unwrap(), q[i].unwrap()) by {
            assert(q[i] == u[i]);
        }
        assert forall|i: int|
            #![trigger q[i]]
            0 <= i < w.len() && i < q.len() && q[i] is Some implies w[i] is Some by {
            assert(q[i] == u[i]);
        }
    }
    lemma_upto_update(w, q, v, x, y);
    let lf = f.listed(b);
    assert(g.listed(b)[pos + count] == v0) by {
        assert(g.listed(b) == lf.take(pos) + fresh(n, count) + lf.skip(pos));
        assert((lf.take(pos) + fresh(n, count)).len() == pos + count);
        assert(lf.skip(pos)[0] == v0);
    }
    assert(run_insts(g, b, pos + 1 + count, ws, prev, args, fs) == Some(q.update(v, Some(y))));
}

/// One step of both functions through an instruction that they share.
proof fn lemma_shared_step(
    f: Function,
    g: Function,
    b: int,
    k: int,
    h: int,
    vals: Frame,
    ws: Frame,
    w: Frame,
    u: Frame,
    v: int,
    prev: Option<Block>,
    args: Seq<RtValue>,
    fs: FloatSem,
)
    requires
        regular(fs),
        k > 0,
        h > 0,
        run_insts(f, b, k - 1, vals, prev, args, fs) == Some(w),
        run_insts(g, b, h - 1, ws, prev, args, fs) == Some(u),
        f.listed(b)[k - 1].0 == v,
        g.listed(b)[h - 1].0 == v,
        0 <= v < w.len(),
        v < u.len(),
        v < g.insts@.len(),
        g.inst(v) == f.inst(v),
        f.inst(v).op matches Op::Phi(froms) ==> froms.len() == f.inst(v).args.len(),
        agree_upto(w, u),
        run_insts(f, b, k, vals, prev, args, fs) is Some,
    ensures
        run_insts(g, b, h, ws, prev, args, fs) is Some,
        run_insts(g, b, h, ws, prev, args, fs).unwrap().len() == u.len(),
        agree_upto(
            run_insts(f, b, k, vals, prev, args, fs).unwrap(),
            run_insts(g, b, h, ws, prev, args, fs).unwrap(),
        ),
{
    let x = eval_inst(f.inst(v), w, prev, args, fs).unwrap();
    lemma_same_inst(f.inst(v), w, u, prev, args, fs);
    lemma_upto_update(w, u, v, x, eval_inst(f.inst(v), u, prev, args, fs).unwrap());
}

/// Behind the splice, both functions list the same values.
pub proof fn lemma_spliced_list(f: Function, g: Function, b: int, pos: int, count: int, k: int)
    requires
        is_spliced(f, g, b, pos, count),
        pos <= k < f.listed(b).len(),
    ensures
        g.listed(b)[k + count] == f.listed(b)[k],
        g.listed(b).len() == f.listed(b).len() + count,
{
    let lf = f.listed(b);
    let front = lf.take(pos) + fresh(f.insts@.len() as int, count);
    assert(g.listed(b) == front + lf.skip(pos));
    assert(front.len() == pos + count);
    assert(lf.skip(pos)[k - pos] == lf[k]);
}

/// Behind the splice.
proof fn lemma_splice_after(
    f: Function,
    g: Function,
    b: int,
    pos: int,
    count: int,
    k: int,
    rank: spec_fn(int) -> int,
    prev: Option<Block>,
    vals: Frame,
    ws: Frame,
    args: Seq<RtValue>,
    fs: FloatSem,
)
    requires
        valid(f),
        is_spliced(f, g, b, pos, count),
        splice_ok(f, g, b, pos, count, fs),
        regular(fs),
        ranks(f, rank),
        inv(f, rank, b, 0, vals, prev, args, fs),
        ws.len() == g.insts@.len(),
        agree_upto(vals, ws),
        pos < k <= f.listed(b).len(),
        run_insts(f, b, k, vals, prev, args, fs) is Some,
    ensures
        run_insts(g, b, k + count, ws, prev, args, fs) is Some,
        run_insts(g, b, k + count, ws, prev, args, fs).unwrap().len() == g.insts@.len(),
        agree_upto(
            run_insts(f, b, k, vals, prev, args, fs).unwrap(),
            run_insts(g, b, k + count, ws, prev, args, fs).unwrap(),
        ),
    decreases k,
{
    if k - 1 == pos {
        lemma_splice_at(f, g, b, pos, count, rank, prev, vals, ws, args, fs);
    } else {
        let w = run_insts(f, b, k - 1, vals, prev, args, fs).unwrap();
        let v = f.listed(b)[k - 1].0 as int;
        lemma_inv_insts(f, rank, b, k - 1, vals, prev, args, fs);
        lemma_next_is_new(f, rank, b, k - 1, w, prev, args, fs);
        assert(def_at(f, v, b, k - 1));
        lemma_spliced_list(f, g, b, pos, count, k - 1);
        lemma_phi_pairs(f, v);
        lemma_splice_after(f, g, b, pos, count, k - 1, rank, prev, vals, ws, args, fs);
        let u = run_insts(g, b, k - 1 + count, ws, prev, args, fs).unwrap();
        assert(def_at(f, f.listed(b)[pos].0 as int, b, pos));
        assert(v != f.listed(b)[pos].0);
        assert(g.insts@[v]@ == f.insts@[v]@);
        lemma_shared_step(f, g, b, k, k + count, vals, ws, w, u, v, prev, args, fs);
    }
}

/// Where `f` divides by zero, `g` does.
proof fn lemma_splice_traps(
    f: Function,
    g: Function,
    b: int,
    pos: int,
    count: int,
    c: int,
    rank: spec_fn(int) -> int,
    prev: Option<Block>,
    vals: Frame,
    ws: Frame,
    args: Seq<RtValue>,
    fs: FloatSem,
    op: Op,
)
    requires
        valid(f),
        is_spliced(f, g, b, pos, count),
        splice_ok(f, g, b, pos, count, fs),
        never_traps(f, b, pos, fs),
        at_trap(
            f,
            g,
            everything(),
            Value(0),
            Value(0),
            rank,
            c,
            prev,
            vals,
            ws,
            args,
            fs,
            op,
        ),
    ensures
        traps_in(g, c, prev, ws, args, fs, op),
{
    lemma_agree_plain(vals, ws);
    assert(g.blocks@[c].preds == f.blocks@[c].preds);
    let k = choose|k: int| #[trigger] traps_at(f, c, k, prev, vals, args, fs, op);
    let w = run_insts(f, c, k, vals, prev, args, fs).unwrap();
    let v = f.listed(c)[k].0 as int;
    let m = f.inst(v);
    lemma_inv_insts(f, rank, c, k, vals, prev, args, fs);
    assert(def_at(f, v, c, k));
    assert(def_at(f, f.listed(b)[pos].0 as int, b, pos));
    if c == b && k == pos {
        reveal(never_traps);
        assert(inv(f, rank, b, pos, w, prev, args, fs));
        assert(false);
    }
    assert(v != f.listed(b)[pos].0);
    assert(g.insts@[v]@ == m);
    let h = if c == b && k > pos {
        k + count
    } else {
        k
    };
    if c == b && k > pos {
        lemma_splice_after(f, g, b, pos, count, k, rank, prev, vals, ws, args, fs);
        lemma_spliced_list(f, g, b, pos, count, k);
    } else {
        lemma_splice_before(f, g, b, pos, count, c, k, rank, prev, vals, ws, args, fs);
        if c == b {
            let lf = f.listed(b);
            let front = lf.take(pos) + fresh(f.insts@.len() as int, count);
            assert(g.listed(b) == front + lf.skip(pos));
            assert(g.listed(b)[k] == lf[k]);
        }
    }
    let u = run_insts(g, c, h, ws, prev, args, fs).unwrap();
    assert forall|j: int|
        #![trigger m.args[j]]
        0 <= j < m.args.len() && slot(w, m.args[j]) is Some implies slot(u, m.args[j]) is Some
        && same(slot(w, m.args[j]).unwrap(), slot(u, m.args[j]).unwrap()) by {
        assert(w[m.args[j].0 as int] is Some);
    }
    lemma_traps_too(m, m, w, u);
    assert(traps_at(g, c, h, prev, ws, args, fs, op));
}

/// Splicing keeps what the function computes.
pub proof fn lemma_splice_follows(
    f: Function,
    g: Function,
    b: int,
    pos: int,
    count: int,
    fs: FloatSem,
)
    requires
        valid(f),
        is_spliced(f, g, b, pos, count),
        splice_ok(f, g, b, pos, count, fs),
        never_traps(f, b, pos, fs),
    ensures
        follows(f, g, everything(), Value(0), Value(0), fs),
{
    assert forall|
        rank: spec_fn(int) -> int,
        c: int,
        prev: Option<Block>,
        vals: Frame,
        ws: Frame,
        args: Seq<RtValue>,
    | #[trigger]
        at_block(
            f,
            g,
            everything(),
            Value(0),
            Value(0),
            rank,
            c,
            prev,
            vals,
            ws,
            args,
            fs,
        ) implies past_block(
        f,
        g,
        everything(),
        Value(0),
        Value(0),
        c,
        prev,
        vals,
        ws,
        args,
        fs,
    ) by {
        lemma_agree_plain(vals, ws);
        assert(g.blocks@[c].preds == f.blocks@[c].preds);
        let n = f.listed(c).len() as int;
        let w = run_insts(f, c, n, vals, prev, args, fs).unwrap();
        if c == b {
            lemma_splice_after(f, g, b, pos, count, n, rank, prev, vals, ws, args, fs);
            assert(g.listed(b).len() == n + count);
            lemma_agree_plain(w, run_insts(g, b, n + count, ws, prev, args, fs).unwrap());
        } else {
            lemma_splice_before(f, g, b, pos, count, c, n, rank, prev, vals, ws, args, fs);
            lemma_agree_plain(w, run_insts(g, c, n, ws, prev, args, fs).unwrap());
        }
    }
    assert forall|
        rank: spec_fn(int) -> int,
        c: int,
        prev: Option<Block>,
        vals: Frame,
        ws: Frame,
        args: Seq<RtValue>,
        op: Op,
    | #[trigger]
        at_trap(
            f,
            g,
            everything(),
            Value(0),
            Value(0),
            rank,
            c,
            prev,
            vals,
            ws,
            args,
            fs,
            op,
        ) implies traps_in(g, c, prev, ws, args, fs, op) by {
        lemma_splice_traps(f, g, b, pos, count, c, rank, prev, vals, ws, args, fs, op);
    }
    assert forall|c: int| #![trigger g.term(c)] 0 <= c < f.blocks@.len() implies g.term(c)
        == subst_opt_term(f.term(c), Value(0), Value(0)) && term_kept(f.term(c), everything()) by {
        assert(g.blocks@[c].term == f.blocks@[c].term);
    }
}

// ---------------------------------------------------------------------------
// Dropping

/// `from` holds the places of `s` that were kept: `t` is what stands there,
/// in order, and every kept value of `s` stands there.
pub open spec fn is_kept_list(
    s: Seq<Value>,
    t: Seq<Value>,
    from: Seq<int>,
    kept: Set<int>,
) -> bool {
    &&& from.len() == t.len()
    &&& forall|i: int|
        #![trigger from[i]]
        0 <= i < from.len() ==> 0 <= from[i] < s.len() && t[i] == s[from[i]] && kept.contains(
            t[i].0 as int,
        )
    &&& forall|i: int, j: int|
        #![trigger from[i], from[j]]
        0 <= i < j < from.len() ==> from[i] < from[j]
    &&& forall|k: int|
        #![trigger s[k]]
        0 <= k < s.len() && kept.contains(s[k].0 as int) ==> from.contains(k)
}

/// `g` is `f` with only the values in `kept` listed.
pub open spec fn is_pruned(f: Function, g: Function, kept: Set<int>) -> bool {
    &&& g.insts@.len() == f.insts@.len()
    &&& forall|i: int|
        #![trigger g.insts@[i]]
        #![trigger f.insts@[i]]
        0 <= i < f.insts@.len() && kept.contains(i) ==> g.inst(i) == f.inst(i)
    &&& g.types@ == f.types@
    &&& g.spans@.len() == f.spans@.len()
    &&& g.entry == f.entry
    &&& g.params == f.params
    &&& g.blocks@.len() == f.blocks@.len()
    &&& forall|c: int|
        #![trigger g.blocks@[c]]
        #![trigger f.blocks@[c]]
        0 <= c < f.blocks@.len() ==> {
            &&& g.blocks@[c].preds == f.blocks@[c].preds
            &&& g.blocks@[c].term == f.blocks@[c].term
            &&& exists|from: Seq<int>| is_kept_list(f.listed(c), g.listed(c), from, kept)
        }
}

/// What kept values and terminators read is kept.
pub open spec fn closed_under_uses(f: Function, kept: Set<int>) -> bool {
    &&& forall|b: int, k: int, j: int|
        #![trigger f.inst(f.listed(b)[k].0 as int).args[j]]
        0 <= b < f.blocks@.len() && 0 <= k < f.listed(b).len() && kept.contains(
            f.listed(b)[k].0 as int,
        ) && 0 <= j < f.inst(f.listed(b)[k].0 as int).args.len() ==> kept.contains(
            f.inst(f.listed(b)[k].0 as int).args[j].0 as int,
        )
    &&& forall|b: int|
        #![trigger f.term(b)]
        0 <= b < f.blocks@.len() ==> term_kept(f.term(b), kept)
}

proof fn lemma_prune_insts(
    f: Function,
    g: Function,
    kept: Set<int>,
    from: Seq<int>,
    rank: spec_fn(int) -> int,
    b: int,
    k: int,
    j: int,
    prev: Option<Block>,
    vals: Frame,
    ws: Frame,
    args: Seq<RtValue>,
    fs: FloatSem,
)
    requires
        valid(f),
        is_pruned(f, g, kept),
        closed_under_uses(f, kept),
        regular(fs),
        inv(f, rank, b, 0, vals, prev, args, fs),
        ws.len() == g.insts@.len(),
        agree(kept, Value(0), Value(0), vals, ws),
        is_kept_list(f.listed(b), g.listed(b), from, kept),
        0 <= k <= f.listed(b).len(),
        0 <= j <= from.len(),
        forall|i: int| #![trigger from[i]] 0 <= i < j ==> from[i] < k,
        forall|i: int| #![trigger from[i]] j <= i < from.len() ==> from[i] >= k,
        run_insts(f, b, k, vals, prev, args, fs) is Some,
    ensures
        run_insts(g, b, j, ws, prev, args, fs) is Some,
        run_insts(g, b, j, ws, prev, args, fs).unwrap().len() == g.insts@.len(),
        agree(
            kept,
            Value(0),
            Value(0),
            run_insts(f, b, k, vals, prev, args, fs).unwrap(),
            run_insts(g, b, j, ws, prev, args, fs).unwrap(),
        ),
    decreases k,
{
    if k > 0 {
        let w = run_insts(f, b, k - 1, vals, prev, args, fs).unwrap();
        let v = f.listed(b)[k - 1].0 as int;
        lemma_inv_insts(f, rank, b, k - 1, vals, prev, args, fs);
        lemma_next_is_new(f, rank, b, k - 1, w, prev, args, fs);
        let x = eval_inst(f.inst(v), w, prev, args, fs).unwrap();
        if kept.contains(v) {
            assert(f.listed(b)[k - 1].0 == v);
            assert(from.contains(k - 1));
            let i = choose|i: int| 0 <= i < from.len() && from[i] == k - 1;
            if i > j - 1 {
                assert(from[i] >= k);
            }
            if i < j - 1 {
                assert(from[i] < from[j - 1]);
            }
            assert(i == j - 1);
            assert forall|i: int| #![trigger from[i]] 0 <= i < j - 1 implies from[i] < k - 1 by {
                assert(from[i] < from[j - 1]);
            }
            assert forall|i: int| #![trigger from[i]] j - 1 <= i < from.len() implies from[i] >= k
                - 1 by {}
            lemma_prune_insts(
                f,
                g,
                kept,
                from,
                rank,
                b,
                k - 1,
                j - 1,
                prev,
                vals,
                ws,
                args,
                fs,
            );
            let u = run_insts(g, b, j - 1, ws, prev, args, fs).unwrap();
            let m = f.inst(v);
            assert(g.insts@[v]@ == f.insts@[v]@);
            lemma_phi_pairs(f, v);
            assert forall|a: int|
                #![trigger m.args[a]]
                0 <= a < m.args.len() implies kept.contains(m.args[a].0 as int) && (m.args[a]
                == subst(m.args[a], Value(0), Value(0))) by {
                assert(kept.contains(f.inst(f.listed(b)[k - 1].0 as int).args[a].0 as int));
            }
            lemma_step_follows(m, m, v, kept, Value(0), Value(0), w, u, prev, args, fs);
            let y = eval_inst(m, u, prev, args, fs).unwrap();
            assert(g.listed(b)[j - 1] == f.listed(b)[from[j - 1]]);
            lemma_agree_update(kept, Value(0), Value(0), w, u, v, x, y);
        } else {
            assert forall|i: int| #![trigger from[i]] 0 <= i < j implies from[i] < k - 1 by {
                if from[i] == k - 1 {
                    assert(g.listed(b)[i] == f.listed(b)[k - 1]);
                }
            }
            assert forall|i: int| #![trigger from[i]] j <= i < from.len() implies from[i] >= k
                - 1 by {}
            lemma_prune_insts(f, g, kept, from, rank, b, k - 1, j, prev, vals, ws, args, fs);
            let u = run_insts(g, b, j, ws, prev, args, fs).unwrap();
            let w2 = w.update(v, Some(x));
            assert forall|i: int|
                #![trigger w2[i]]
                kept.contains(i) && 0 <= i < w2.len() && w2[i] is Some implies i < u.len()
                && u[i] is Some && same(w2[i].unwrap(), u[i].unwrap()) by {
                assert(i != v);
                assert(w[i] is Some);
            }
            assert forall|i: int|
                #![trigger u[i]]
                0 <= i < w2.len() && i < u.len() && u[i] is Some implies w2[i] is Some by {
                assert(w[i] is Some);
            }
        }
    } else {
        if j > 0 {
            assert(from[0] < 0);
        }
    }
}

/// What is not kept never divides by zero.
pub open spec fn drops_no_trap(f: Function, kept: Set<int>, fs: FloatSem) -> bool {
    forall|b: int, k: int|
        #![trigger f.listed(b)[k]]
        0 <= b < f.blocks@.len() && 0 <= k < f.listed(b).len() && !kept.contains(
            f.listed(b)[k].0 as int,
        ) ==> never_traps(f, b, k, fs)
}

/// How many of the places before `k` were kept.
proof fn lemma_kept_before(from: Seq<int>, k: int, i: int) -> (j: int)
    requires
        0 <= i < from.len(),
        from[i] == k,
        forall|a: int, c: int|
            #![trigger from[a], from[c]]
            0 <= a < c < from.len() ==> from[a] < from[c],
    ensures
        j == i,
        forall|a: int| #![trigger from[a]] 0 <= a < j ==> from[a] < k,
        forall|a: int| #![trigger from[a]] j <= a < from.len() ==> from[a] >= k,
{
    assert forall|a: int| #![trigger from[a]] 0 <= a < i implies from[a] < k by {
        assert(from[a] < from[i]);
    }
    assert forall|a: int| #![trigger from[a]] i <= a < from.len() implies from[a] >= k by {
        if a > i {
            assert(from[i] < from[a]);
        }
    }
    i
}

/// Where `f` divides by zero, `g` does.
proof fn lemma_prune_traps(
    f: Function,
    g: Function,
    kept: Set<int>,
    rank: spec_fn(int) -> int,
    b: int,
    prev: Option<Block>,
    vals: Frame,
    ws: Frame,
    args: Seq<RtValue>,
    fs: FloatSem,
    op: Op,
)
    requires
        valid(f),
        is_pruned(f, g, kept),
        closed_under_uses(f, kept),
        drops_no_trap(f, kept, fs),
        at_trap(f, g, kept, Value(0), Value(0), rank, b, prev, vals, ws, args, fs, op),
    ensures
        traps_in(g, b, prev, ws, args, fs, op),
{
    assert(g.blocks@[b].preds == f.blocks@[b].preds);
    let from = choose|from: Seq<int>| is_kept_list(f.listed(b), g.listed(b), from, kept);
    let k = choose|k: int| #[trigger] traps_at(f, b, k, prev, vals, args, fs, op);
    let w = run_insts(f, b, k, vals, prev, args, fs).unwrap();
    let v = f.listed(b)[k].0 as int;
    let m = f.inst(v);
    lemma_inv_insts(f, rank, b, k, vals, prev, args, fs);
    if !kept.contains(v) {
        assert(never_traps(f, b, k, fs));
        reveal(never_traps);
        assert(inv(f, rank, b, k, w, prev, args, fs));
        assert(false);
    }
    assert(from.contains(k));
    let i = choose|i: int| 0 <= i < from.len() && from[i] == k;
    let j = lemma_kept_before(from, k, i);
    lemma_prune_insts(f, g, kept, from, rank, b, k, j, prev, vals, ws, args, fs);
    let u = run_insts(g, b, j, ws, prev, args, fs).unwrap();
    assert(g.listed(b)[j] == f.listed(b)[k]);
    assert(g.insts@[v]@ == f.insts@[v]@);
    assert forall|a: int|
        #![trigger m.args[a]]
        0 <= a < m.args.len() implies kept.contains(m.args[a].0 as int) && (m.args[a] == subst(
        m.args[a],
        Value(0),
        Value(0),
    )) by {
        assert(kept.contains(f.inst(f.listed(b)[k].0 as int).args[a].0 as int));
    }
    lemma_agreeing_traps(m, m, kept, Value(0), Value(0), w, u);
    assert(traps_at(g, b, j, prev, ws, args, fs, op));
}

/// Dropping values that nothing kept reads keeps what the function computes.
pub proof fn lemma_prune_follows(f: Function, g: Function, kept: Set<int>, fs: FloatSem)
    requires
        valid(f),
        is_pruned(f, g, kept),
        closed_under_uses(f, kept),
        drops_no_trap(f, kept, fs),
    ensures
        follows(f, g, kept, Value(0), Value(0), fs),
{
    assert forall|
        rank: spec_fn(int) -> int,
        b: int,
        prev: Option<Block>,
        vals: Frame,
        ws: Frame,
        args: Seq<RtValue>,
    | #[trigger]
        at_block(f, g, kept, Value(0), Value(0), rank, b, prev, vals, ws, args, fs) implies past_block(
        f,
        g,
        kept,
        Value(0),
        Value(0),
        b,
        prev,
        vals,
        ws,
        args,
        fs,
    ) by {
        assert(g.blocks@[b].preds == f.blocks@[b].preds);
        let from = choose|from: Seq<int>| is_kept_list(f.listed(b), g.listed(b), from, kept);
        lemma_prune_insts(
            f,
            g,
            kept,
            from,
            rank,
            b,
            f.listed(b).len() as int,
            from.len() as int,
            prev,
            vals,
            ws,
            args,
            fs,
        );
    }
    assert forall|
        rank: spec_fn(int) -> int,
        b: int,
        prev: Option<Block>,
        vals: Frame,
        ws: Frame,
        args: Seq<RtValue>,
        op: Op,
    | #[trigger]
        at_trap(
            f,
            g,
            kept,
            Value(0),
            Value(0),
            rank,
            b,
            prev,
            vals,
            ws,
            args,
            fs,
            op,
        ) implies traps_in(g, b, prev, ws, args, fs, op) by {
        lemma_prune_traps(f, g, kept, rank, b, prev, vals, ws, args, fs, op);
    }
    assert forall|b: int| #![trigger g.term(b)] 0 <= b < f.blocks@.len() implies g.term(b)
        == subst_opt_term(f.term(b), Value(0), Value(0)) && term_kept(f.term(b), kept) by {
        assert(g.blocks@[b].term == f.blocks@[b].term);
        assert(term_kept(f.term(b), kept));
    }
}

} // verus!

