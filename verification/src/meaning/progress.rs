//! A well-formed function without loops returns or divides an integer by zero.
use crate::dominance::{dom, edge, sdom};
use crate::float::FloatSem;
use crate::interp::{
    after_block, divides_by_zero, edge_from, empty_frame, eval, eval_inst, operand_values, reads,
    run, run_insts, run_traps, slot, traps, traps_at, traps_in, yields, Frame, Next, RtValue,
};
use crate::interp::{lemma_stopped, readable};
use crate::ir::{Block, Function, InstModel, Op, Terminator, Ty, Value};
use crate::meaning::blocks::lemma_occurs;
use crate::opt::keep::{healthy, lemma_shape, phi_matches};
use crate::opt::simulate::{
    args_match, extends, inv, lemma_edge_from, lemma_inv_edge, lemma_inv_insts, lemma_inv_start,
    ranks, value_ty,
};
use crate::verify::{def_at, edge_count, end_use_ok, inst_ok, term_ok, type_defect, use_ok, valid};
use vstd::prelude::*;

verus! {

/// A branch of the block is on a bool.
pub open spec fn bool_branch(f: Function, b: int) -> bool {
    f.term(b) matches Some(Terminator::Branch { cond, .. }) ==> cond.0 < f.types@.len()
        && f.types@[cond.0 as int] == Ty::Bool
}

/// Every branch is on a bool.
pub open spec fn branches_on_bools(f: Function) -> bool {
    forall|b: int| #![trigger f.term(b)] 0 <= b < f.blocks@.len() ==> bool_branch(f, b)
}

/// Minimum and maximum are taken of doubles only.
pub open spec fn extremes_of_doubles(f: Function) -> bool {
    forall|v: int|
        #![trigger f.inst(v)]
        0 <= v < f.insts@.len() && (f.inst(v).op is Min || f.inst(v).op is Max) ==> f.types@[v]
            == Ty::F64
}

/// An operation on operands of its types has a result, unless it divides an
/// integer by zero.
#[verifier::rlimit(60)]
proof fn lemma_eval_total(
    f: Function,
    v: Value,
    m: InstModel,
    vs: Seq<RtValue>,
    args: Seq<RtValue>,
    fs: FloatSem,
)
    requires
        type_defect(f, v, m) is None,
        args_match(f, args),
        m.op !is Phi,
        m.op is Min || m.op is Max ==> f.types@[v.0 as int] == Ty::F64,
        reads(m.op) <= m.args.len(),
        vs.len() == reads(m.op),
        forall|j: int|
            #![trigger vs[j]]
            0 <= j < vs.len() ==> m.args[j].0 < f.types@.len() && value_ty(vs[j])
                == f.types@[m.args[j].0 as int],
    ensures
        eval(m.op, vs, args, fs) is Some || ((m.op is Div || m.op is Rem) && vs[0] is I64 && vs[1]
            == RtValue::I64(0)),
{
    if reads(m.op) > 0 {
        assert(value_ty(vs[0]) == f.types@[m.args[0].0 as int]);
    }
    if reads(m.op) > 1 {
        assert(value_ty(vs[1]) == f.types@[m.args[1].0 as int]);
    }
    match m.op {
        Op::Fma => {
            assert(value_ty(vs[2]) == f.types@[m.args[2].0 as int]);
            lemma_double(f, v, m, 0);
            lemma_double(f, v, m, 1);
            lemma_double(f, v, m, 2);
        },
        Op::Call(func) => {
            lemma_double(f, v, m, 0);
            if reads(m.op) == 2 {
                lemma_double(f, v, m, 1);
            }
        },
        _ => {},
    }
}

proof fn lemma_double(f: Function, v: Value, m: InstModel, j: int)
    requires
        crate::verify::operands_defect(f, v, m.args, Ty::F64, 0) is None,
        0 <= j < m.args.len(),
    ensures
        f.types@[m.args[j].0 as int] == Ty::F64,
{
    crate::opt::simulate::lemma_phi_operand_typed(f, v, m.args, Ty::F64, 0, j);
}

/// How control came to block `b`: from nowhere, or over an edge, and then the
/// values of all dominators of the block before are there.
pub open spec fn came(f: Function, b: int, prev: Option<Block>, vals: Frame) -> bool {
    match prev {
        None => b == f.entry.0,
        Some(a) => edge(f, a.0 as int, b) && forall|c: int, l: int|
            #![trigger f.listed(c)[l]]
            0 <= c < f.blocks@.len() && dom(f, c, a.0 as int) && 0 <= l < f.listed(c).len()
                ==> vals[f.listed(c)[l].0 as int] is Some,
    }
}

/// A phi finds its operand.
#[verifier::rlimit(40)]
proof fn lemma_phi_goes(
    f: Function,
    b: int,
    k: int,
    prev: Option<Block>,
    vals: Frame,
    w: Frame,
    args: Seq<RtValue>,
    fs: FloatSem,
)
    requires
        healthy(f),
        f.preds(f.entry.0 as int).len() == 0,
        0 <= b < f.blocks@.len(),
        0 <= k < f.listed(b).len(),
        came(f, b, prev, vals),
        extends(vals, w),
        vals.len() == f.insts@.len(),
        f.inst(f.listed(b)[k].0 as int).op is Phi,
    ensures
        eval_inst(f.inst(f.listed(b)[k].0 as int), w, prev, args, fs) is Some,
{
    let m = f.inst(f.listed(b)[k].0 as int);
    let froms = m.op->Phi_0;
    assert(inst_ok(f, b, k));
    assert(phi_matches(m, f.preds(b)));
    match prev {
        None => {
            assert(froms.len() > 0);
            assert(froms.contains(froms[0]));
            assert(f.preds(b).contains(froms[0]));
        },
        Some(a) => {
            lemma_occurs(f.preds(b), a);
            assert(edge_count(f, a.0 as int, b) > 0);
            assert(Block(a.0 as int as u32) == a);
            assert(f.preds(b).contains(a));
            assert(froms.contains(a));
            lemma_found(froms, a, 0);
            lemma_edge_from(froms, a, 0);
            let j = edge_from(froms, a, 0).unwrap();
            lemma_shape(f, f.listed(b)[k].0 as int);
            assert(froms.len() == m.args.len());
            let u = m.args[j].0 as int;
            assert(end_use_ok(f, u, froms[j].0 as int));
            let (c, l) = choose|c: int, l: int| #[trigger]
                def_at(f, u, c, l) && dom(f, c, froms[j].0 as int);
            assert(vals[f.listed(c)[l].0 as int] is Some);
            assert(w[u] == vals[u]);
        },
    }
}

proof fn lemma_found(froms: Seq<Block>, a: Block, i: int)
    requires
        0 <= i,
        exists|j: int| i <= j < froms.len() && froms[j] == a,
    ensures
        edge_from(froms, a, i) is Some,
    decreases froms.len() - i,
{
    if froms[i] != a {
        lemma_found(froms, a, i + 1);
    }
}

/// An instruction of a running block has a value, or divides by zero.
#[verifier::rlimit(40)]
proof fn lemma_inst_goes(
    f: Function,
    rank: spec_fn(int) -> int,
    b: int,
    k: int,
    prev: Option<Block>,
    w: Frame,
    args: Seq<RtValue>,
    fs: FloatSem,
)
    requires
        healthy(f),
        extremes_of_doubles(f),
        inv(f, rank, b, k, w, prev, args, fs),
        k < f.listed(b).len(),
        !(f.inst(f.listed(b)[k].0 as int).op is Phi),
    ensures
        f.listed(b)[k].0 < f.insts@.len(),
        eval_inst(f.inst(f.listed(b)[k].0 as int), w, prev, args, fs) is Some || divides_by_zero(
            f.inst(f.listed(b)[k].0 as int),
            w,
        ),
{
    let v = f.listed(b)[k];
    let m = f.inst(v.0 as int);
    assert(inst_ok(f, b, k));
    lemma_shape(f, v.0 as int);
    assert forall|j: int| 0 <= j < m.args.len() implies slot(w, #[trigger] m.args[j]) is Some
        && m.args[j].0 < f.types@.len() && value_ty(slot(w, m.args[j]).unwrap())
        == f.types@[m.args[j].0 as int] by {
        let u = m.args[j].0 as int;
        assert(use_ok(f, u, b, k));
        let (c, l) = choose|c: int, l: int| #[trigger]
            def_at(f, u, c, l) && dom(f, c, b) && (c == b ==> l < k);
        if c == b {
            assert(w[f.listed(b)[l].0 as int] is Some);
        } else {
            assert(sdom(f, c, b));
            assert(w[f.listed(c)[l].0 as int] is Some);
        }
        assert(w[u] is Some);
    }
    assert(reads(m.op) <= m.args.len());
    assert(readable(m, w));
    let vs = operand_values(m, w);
    assert forall|j: int| #![trigger vs[j]] 0 <= j < vs.len() implies m.args[j].0 < f.types@.len()
        && value_ty(vs[j]) == f.types@[m.args[j].0 as int] by {
        assert(slot(w, m.args[j]) is Some);
    }
    lemma_eval_total(f, v, m, vs, args, fs);
}

/// A block runs to its end, or divides by zero.
#[verifier::rlimit(40)]
proof fn lemma_block_goes(
    f: Function,
    rank: spec_fn(int) -> int,
    b: int,
    k: int,
    prev: Option<Block>,
    vals: Frame,
    args: Seq<RtValue>,
    fs: FloatSem,
)
    requires
        healthy(f),
        extremes_of_doubles(f),
        f.preds(f.entry.0 as int).len() == 0,
        inv(f, rank, b, 0, vals, prev, args, fs),
        came(f, b, prev, vals),
        0 <= k <= f.listed(b).len(),
    ensures
        run_insts(f, b, k, vals, prev, args, fs) is Some || exists|op: Op| #[trigger]
            traps_in(f, b, prev, vals, args, fs, op),
    decreases k,
{
    if k > 0 {
        lemma_block_goes(f, rank, b, k - 1, prev, vals, args, fs);
        if run_insts(f, b, k - 1, vals, prev, args, fs) is Some {
            lemma_inv_insts(f, rank, b, k - 1, vals, prev, args, fs);
            let w = run_insts(f, b, k - 1, vals, prev, args, fs).unwrap();
            let v = f.listed(b)[k - 1];
            let m = f.inst(v.0 as int);
            assert(inst_ok(f, b, k - 1));
            if m.op is Phi {
                lemma_phi_goes(f, b, k - 1, prev, vals, w, args, fs);
            } else {
                lemma_inst_goes(f, rank, b, k - 1, prev, w, args, fs);
                if divides_by_zero(m, w) {
                    assert(traps_at(f, b, k - 1, prev, vals, args, fs, m.op));
                    assert(traps_in(f, b, prev, vals, args, fs, m.op));
                }
            }
        }
    }
}

/// The rank of no block is above the bound.
proof fn lemma_highest(rank: spec_fn(int) -> int, n: nat) -> (top: int)
    ensures
        forall|b: int| 0 <= b < n ==> #[trigger] rank(b) <= top,
    decreases n,
{
    if n == 0 {
        0
    } else {
        let top = lemma_highest(rank, (n - 1) as nat);
        if rank(n - 1) > top {
            rank(n - 1)
        } else {
            top
        }
    }
}

#[verifier::rlimit(60)]
proof fn lemma_rest_goes(
    f: Function,
    rank: spec_fn(int) -> int,
    top: int,
    b: int,
    prev: Option<Block>,
    vals: Frame,
    args: Seq<RtValue>,
    fs: FloatSem,
) -> (fuel: nat)
    requires
        healthy(f),
        f.preds(f.entry.0 as int).len() == 0,
        branches_on_bools(f),
        extremes_of_doubles(f),
        ranks(f, rank),
        forall|c: int| 0 <= c < f.blocks@.len() ==> #[trigger] rank(c) <= top,
        inv(f, rank, b, 0, vals, prev, args, fs),
        came(f, b, prev, vals),
    ensures
        run(f, b, prev, vals, args, fs, fuel) is Some || exists|op: Op| #[trigger]
            run_traps(f, b, prev, vals, args, fs, op, fuel),
    decreases top - rank(b), 1nat,
{
    let n = f.listed(b).len() as int;
    assert(rank(b) <= top);
    lemma_block_goes(f, rank, b, n, prev, vals, args, fs);
    if exists|op: Op| #[trigger] traps_in(f, b, prev, vals, args, fs, op) {
        let op = choose|op: Op| #[trigger] traps_in(f, b, prev, vals, args, fs, op);
        assert(run_traps(f, b, prev, vals, args, fs, op, 1));
        1
    } else {
        lemma_inv_insts(f, rank, b, n, vals, prev, args, fs);
        let w = run_insts(f, b, n, vals, prev, args, fs).unwrap();
        assert(term_ok(f, b));
        match f.term(b) {
            Some(Terminator::Return(v)) => {
                lemma_end_there(f, rank, b, w, prev, args, fs, v);
                assert(run(f, b, prev, vals, args, fs, 1) is Some);
                1
            },
            Some(Terminator::Jump(t)) => {
                assert(edge(f, b, t.0 as int));
                let rest = lemma_next_goes(
                    f,
                    rank,
                    top,
                    b,
                    t.0 as int,
                    prev,
                    w,
                    args,
                    fs,
                );
                lemma_one_more(f, b, t.0 as int, prev, vals, w, args, fs, rest);
                rest + 1
            },
            Some(Terminator::Branch { cond, then_, else_ }) => {
                lemma_end_there(f, rank, b, w, prev, args, fs, cond);
                assert(bool_branch(f, b));
                assert(w[cond.0 as int] is Some);
                let t = if slot(w, cond) == Some(RtValue::Bool(true)) {
                    then_.0 as int
                } else {
                    else_.0 as int
                };
                assert(edge(f, b, t));
                assert(after_block(f.term(b), w) == Next::Goto(t));
                let rest = lemma_next_goes(f, rank, top, b, t, prev, w, args, fs);
                lemma_one_more(f, b, t, prev, vals, w, args, fs, rest);
                rest + 1
            },
            None => 0,
        }
    }
}

/// What is defined at the end of a block is there.
proof fn lemma_end_there(
    f: Function,
    rank: spec_fn(int) -> int,
    b: int,
    w: Frame,
    prev: Option<Block>,
    args: Seq<RtValue>,
    fs: FloatSem,
    v: Value,
)
    requires
        inv(f, rank, b, f.listed(b).len() as int, w, prev, args, fs),
        end_use_ok(f, v.0 as int, b),
        valid(f),
    ensures
        slot(w, v) is Some,
        v.0 < f.types@.len(),
        value_ty(slot(w, v).unwrap()) == f.types@[v.0 as int],
{
    let (c, l) = choose|c: int, l: int| #[trigger] def_at(f, v.0 as int, c, l) && dom(f, c, b);
    assert(f.listed(c)[l].0 < f.insts@.len());
    if c == b {
        assert(w[f.listed(b)[l].0 as int] is Some);
    } else {
        assert(sdom(f, c, b));
        assert(w[f.listed(c)[l].0 as int] is Some);
    }
    assert(w[v.0 as int] is Some);
}

/// The run goes on in the next block.
#[verifier::rlimit(40)]
proof fn lemma_next_goes(
    f: Function,
    rank: spec_fn(int) -> int,
    top: int,
    b: int,
    t: int,
    prev: Option<Block>,
    w: Frame,
    args: Seq<RtValue>,
    fs: FloatSem,
) -> (fuel: nat)
    requires
        healthy(f),
        f.preds(f.entry.0 as int).len() == 0,
        branches_on_bools(f),
        extremes_of_doubles(f),
        ranks(f, rank),
        forall|c: int| 0 <= c < f.blocks@.len() ==> #[trigger] rank(c) <= top,
        inv(f, rank, b, f.listed(b).len() as int, w, prev, args, fs),
        edge(f, b, t),
    ensures
        run(f, t, Some(Block(b as u32)), w, args, fs, fuel) is Some || exists|op: Op| #[trigger]
            run_traps(f, t, Some(Block(b as u32)), w, args, fs, op, fuel),
    decreases top - rank(b), 0nat,
{
    lemma_inv_edge(f, rank, b, t, w, prev, args, fs);
    assert(rank(b) < rank(t));
    assert(rank(t) <= top);
    assert(came(f, t, Some(Block(b as u32)), w)) by {
        assert forall|c: int, l: int|
            #![trigger f.listed(c)[l]]
            0 <= c < f.blocks@.len() && dom(f, c, b) && 0 <= l < f.listed(c).len() implies w[f.listed(
            c,
        )[l].0 as int] is Some by {
            if c != b {
                assert(sdom(f, c, b));
            }
        }
    }
    lemma_rest_goes(f, rank, top, t, Some(Block(b as u32)), w, args, fs)
}

proof fn lemma_one_more(
    f: Function,
    b: int,
    t: int,
    prev: Option<Block>,
    vals: Frame,
    w: Frame,
    args: Seq<RtValue>,
    fs: FloatSem,
    fuel: nat,
)
    requires
        0 <= b < f.blocks@.len(),
        run_insts(f, b, f.listed(b).len() as int, vals, prev, args, fs) == Some(w),
        after_block(f.term(b), w) == Next::Goto(t),
        run(f, t, Some(Block(b as u32)), w, args, fs, fuel) is Some || exists|op: Op| #[trigger]
            run_traps(f, t, Some(Block(b as u32)), w, args, fs, op, fuel),
    ensures
        run(f, b, prev, vals, args, fs, fuel + 1) is Some || exists|op: Op| #[trigger]
            run_traps(f, b, prev, vals, args, fs, op, fuel + 1),
{
    if exists|op: Op| #[trigger] run_traps(f, t, Some(Block(b as u32)), w, args, fs, op, fuel) {
        let op = choose|op: Op| #[trigger]
            run_traps(f, t, Some(Block(b as u32)), w, args, fs, op, fuel);
        assert(run_traps(f, b, prev, vals, args, fs, op, fuel + 1));
    }
}

/// A well-formed function without loops, whose branches are on bools, whose
/// minima and maxima are of doubles and whose entry nothing precedes, returns or divides an integer by zero.
pub proof fn lemma_runs_or_traps(f: Function, args: Seq<RtValue>, fs: FloatSem)
    requires
        healthy(f),
        branches_on_bools(f),
        extremes_of_doubles(f),
        f.preds(f.entry.0 as int).len() == 0,
        args_match(f, args),
    ensures
        (exists|x: RtValue| yields(f, args, fs, x)) || (exists|op: Op| traps(f, args, fs, op)),
{
    let rank = choose|rank: spec_fn(int) -> int| ranks(f, rank);
    let top = lemma_highest(rank, f.blocks@.len());
    let vals = empty_frame(f.insts@.len());
    lemma_inv_start(f, rank, args, fs);
    let entry = f.entry.0 as int;
    let fuel = lemma_rest_goes(f, rank, top, entry, None, vals, args, fs);
    if run(f, entry, None, vals, args, fs, fuel) is Some {
        assert(yields(f, args, fs, run(f, entry, None, vals, args, fs, fuel).unwrap()));
    } else {
        let op = choose|op: Op| #[trigger] run_traps(f, entry, None, vals, args, fs, op, fuel);
        assert(traps(f, args, fs, op));
    }
}

proof fn lemma_one_trap_from(
    f: Function,
    b: int,
    prev: Option<Block>,
    vals: Frame,
    args: Seq<RtValue>,
    fs: FloatSem,
    one: Op,
    other: Op,
    m: nat,
    n: nat,
)
    requires
        run_traps(f, b, prev, vals, args, fs, one, m),
        run_traps(f, b, prev, vals, args, fs, other, n),
    ensures
        one == other,
    decreases m,
{
    let len = f.listed(b).len() as int;
    if traps_in(f, b, prev, vals, args, fs, one) {
        let k = choose|k: int| #[trigger] traps_at(f, b, k, prev, vals, args, fs, one);
        lemma_stopped(f, b, k, len, prev, vals, args, fs, one);
        assert(traps_in(f, b, prev, vals, args, fs, other));
        let l = choose|l: int| #[trigger] traps_at(f, b, l, prev, vals, args, fs, other);
        if k < l {
            lemma_stopped(f, b, k, l, prev, vals, args, fs, one);
        }
        if l < k {
            lemma_stopped(f, b, l, k, prev, vals, args, fs, other);
        }
    } else if traps_in(f, b, prev, vals, args, fs, other) {
        let l = choose|l: int| #[trigger] traps_at(f, b, l, prev, vals, args, fs, other);
        lemma_stopped(f, b, l, len, prev, vals, args, fs, other);
    } else {
        let w = run_insts(f, b, len, vals, prev, args, fs).unwrap();
        match after_block(f.term(b), w) {
            Next::Goto(c) => lemma_one_trap_from(
                f,
                c,
                Some(Block(b as u32)),
                w,
                args,
                fs,
                one,
                other,
                (m - 1) as nat,
                (n - 1) as nat,
            ),
            _ => {},
        }
    }
}

/// A function traps in one operation only.
pub proof fn lemma_one_trap(f: Function, args: Seq<RtValue>, fs: FloatSem, one: Op, other: Op)
    requires
        traps(f, args, fs, one),
        traps(f, args, fs, other),
    ensures
        one == other,
{
    let vals = empty_frame(f.insts@.len());
    let b = f.entry.0 as int;
    let m = choose|m: nat| #[trigger] run_traps(f, b, None, vals, args, fs, one, m);
    let n = choose|n: nat| #[trigger] run_traps(f, b, None, vals, args, fs, other, n);
    lemma_one_trap_from(f, b, None, vals, args, fs, one, other, m, n);
}

} // verus!
