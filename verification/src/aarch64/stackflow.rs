//! Functions that keep their values on the stack, block after block.
use crate::aarch64::emit::{chain, count_params, holds_when, one, type_of, Code};
use crate::aarch64::encode::{lemma_reg, reg};
use crate::aarch64::execute::{condition_holds, lemma_cast_back, whole, Machine};
use crate::aarch64::flow::{
    arguments, branches_plainly, flags_of, lemma_condition, lemma_next_is_new_at, lemma_no_entry_phi,
    lemma_source_there, plain_comparison, returned_double,
};
use crate::aarch64::emit::phi_source;
use crate::aarch64::functions::has_call;
use crate::aarch64::machine::A64;
use crate::aarch64::spill::{
    compare_loaded, layout, load, mixed_store, restores, saves, scratch, spill_blocks,
    spill_condition, spill_copies, spill_copy, spill_edge, spill_frame, spill_prologue,
    spill_return, spill_starts, spill_term, spill_value, spill_values, store_param, store_params,
    store_params_listed, Kind, Layout, Location, Plan,
};
use crate::aarch64::stacked::{
    advance, caller_kept, calls_ok, computing, covered, holds, lemma_all_kept, lemma_caller_trans,
    lemma_float_value, lemma_layout_placed, lemma_loads, lemma_mixed_value, lemma_one,
    lemma_put_unchanged, lemma_stores, lemma_two_loads, lemma_unchanged_trans, others_kept,
    param_there, placed, put, ran, runs, stored, supplied, unchanged, Outside, Start,
};
use crate::dominance::edge;
use crate::float::FloatSem;
use crate::interp::{
    compare, empty_frame, eval_inst, operand_values, reads, run, run_insts, slot, yields, Frame,
    RtValue,
};
use crate::ir::{Block, Function, Op, Terminator, Ty, Value};
use crate::opt::simulate::{
    args_match, extends, inv, lemma_eval_extends, lemma_inv_edge, lemma_inv_insts, lemma_inv_start,
    lemma_next_is_new, ranks, value_ty,
};
use crate::verify::{def_at, inst_ok, valid};
use vstd::prelude::*;

verus! {

// ---------------------------------------------------------------------------
// A block

/// A function with places for its values, and what is outside of its code.
pub open spec fn scene(f: Function, p: Plan, s: Layout, args: Seq<RtValue>, out: Outside) -> bool {
    &&& valid(f)
    &&& args_match(f, args)
    &&& f.insts@.len() <= u32::MAX
    &&& f.blocks@.len() <= u32::MAX
    &&& !(p.kind is Ints)
    &&& p.kind == (Kind::Floats { calls: false }) ==> !has_call(f)
    &&& p.locs == s.locs
    &&& s.next <= p.frame
    &&& placed(f, p.kind, s)
    &&& calls_ok(out, p.libm)
    &&& forall|b: int, k: int|
        0 <= b < f.blocks@.len() && 0 <= k < f.listed(b).len() ==> #[trigger] covered(f, s, b, k)
}

/// The phi is in its place: it has what it takes from block `prev`.
pub open spec fn phi_there(
    f: Function,
    s: Layout,
    v: int,
    vals: Frame,
    prev: Option<Block>,
    m: Machine,
    args: Seq<RtValue>,
    fs: FloatSem,
) -> bool {
    let x = eval_inst(f.inst(v), vals, prev, args, fs);
    x is Some && value_ty(x.unwrap()) == f.types@[v] && s.locs[v] is Some && holds(
        x.unwrap(),
        s.locs[v].unwrap(),
        m,
    )
}

/// From place `k` of block `b` on, the phis are in their places.
pub open spec fn phis_there(
    f: Function,
    s: Layout,
    b: int,
    k: int,
    vals: Frame,
    prev: Option<Block>,
    m: Machine,
    args: Seq<RtValue>,
    fs: FloatSem,
) -> bool {
    forall|l: int|
        #![trigger f.listed(b)[l]]
        k <= l < f.listed(b).len() && f.inst(f.listed(b)[l].0 as int).op is Phi ==> phi_there(
            f,
            s,
            f.listed(b)[l].0 as int,
            vals,
            prev,
            m,
            args,
            fs,
        )
}

/// One more value.
#[verifier::rlimit(100)]
#[verifier::spinoff_prover]
proof fn lemma_arrive(
    start: Start,
    acc: Code,
    f: Function,
    p: Plan,
    s: Layout,
    rank: spec_fn(int) -> int,
    b: int,
    k: int,
    vals: Frame,
    w: Frame,
    prev: Option<Block>,
    m: Machine,
    args: Seq<RtValue>,
    out: Outside,
    x: RtValue,
) -> (e: Machine)
    requires
        scene(f, p, s, args, out),
        0 <= b < f.blocks@.len(),
        0 <= k < f.listed(b).len(),
        inv(f, rank, b, k, w, prev, args, out.fs),
        extends(vals, w),
        runs(start, acc, m, out),
        whole(m),
        stored(f, s.locs, w, m),
        supplied(f, s.locs, args, m),
        phis_there(f, s, b, k, vals, prev, m, args, out.fs),
        spill_value(f, p, f.listed(b)[k], acc) is Ok,
        eval_inst(f.inst(f.listed(b)[k].0 as int), w, prev, args, out.fs) == Some(x),
        value_ty(x) == f.types@[f.listed(b)[k].0 as int],
    ensures
        runs(start, spill_value(f, p, f.listed(b)[k], acc), e, out),
        whole(e),
        stored(f, s.locs, w.update(f.listed(b)[k].0 as int, Some(x)), e),
        supplied(f, s.locs, args, e),
        phis_there(f, s, b, k + 1, vals, prev, e, args, out.fs),
        caller_kept(p.kind, p.frame as int, m, e),
{
    let v = f.listed(b)[k];
    let im = f.inst(v.0 as int);
    let w1 = w.update(v.0 as int, Some(x));
    lemma_next_is_new(f, rank, b, k, w, prev, args, out.fs);
    assert(covered(f, s, b, k));
    assert(inst_ok(f, b, k));
    if im.op is Phi || im.op is Param || im.op is Compare {
        assert(spill_value(f, p, v, acc) == acc);
        if im.op is Phi {
            assert(phi_there(f, s, v.0 as int, vals, prev, m, args, out.fs));
            lemma_eval_extends(im, vals, w, prev, args, out.fs);
        }
        if im.op is Param {
            assert(param_there(f, s.locs, args, v.0 as int, m));
        }
        assert forall|u: int|
            #![trigger w1[u]]
            0 <= u < w1.len() && w1[u] is Some implies f.inst(u).op is Compare || (
        s.locs[u] is Some && holds(w1[u].unwrap(), s.locs[u].unwrap(), m)) by {
            if u != v.0 {
                assert(w[u] is Some);
            }
        }
        m
    } else {
        assert forall|j: int| #![trigger im.args[j]] 0 <= j < reads(im.op) implies (f.inst(
            im.args[j].0 as int,
        ).op is Compare ==> slot(w, im.args[j]).unwrap() is Bool) by {
            assert(slot(w, im.args[j]) is Some);
            let u = im.args[j].0 as int;
            assert(w[u] is Some);
            if f.inst(u).op is Compare {
                assert(eval_inst(f.inst(u), w, None, args, out.fs) == w[u]);
            }
        }
        assert(computing(start, acc, f, p.kind, s, p.frame as int, v, w, args, m, out, x));
        let e = if p.kind is Floats {
            assert(Value(v.0 as int as u32) == v);
            assert(s.locs[v.0 as int] matches Some(Location::Stack(_)));
            assert(im.op is Call ==> has_call(f)) by {
                assert(f.inst(v.0 as int).op == im.op);
            }
            lemma_float_value(
                start,
                acc,
                f,
                p.kind,
                s,
                p.frame as int,
                p.libm,
                v,
                w,
                args,
                m,
                out,
                x,
            )
        } else {
            lemma_mixed_value(start, acc, f, s, p.frame as int, v, w, args, m, out, x)
        };
        assert forall|u: int|
            #![trigger w1[u]]
            0 <= u < w1.len() && w1[u] is Some implies f.inst(u).op is Compare || (
        s.locs[u] is Some && holds(w1[u].unwrap(), s.locs[u].unwrap(), e)) by {
            if u != v.0 {
                assert(w[u] is Some);
                if !(f.inst(u).op is Compare) {
                    assert(holds(w[u].unwrap(), s.locs[u].unwrap(), m));
                }
            }
        }
        assert forall|c: int, l: int|
            #![trigger f.listed(c)[l]]
            0 <= c < f.blocks@.len() && 0 <= l < f.listed(c).len() implies param_there(
            f,
            s.locs,
            args,
            f.listed(c)[l].0 as int,
            e,
        ) by {
            let u = f.listed(c)[l].0 as int;
            assert(param_there(f, s.locs, args, u, m));
            if 0 <= u < s.locs.len() && s.locs[u] is Some && f.inst(u).op is Param {
                let index = f.inst(u).op->Param_0;
                if index < args.len() {
                    assert(holds(args[index as int], s.locs[u].unwrap(), m));
                }
            }
        }
        assert forall|l: int|
            #![trigger f.listed(b)[l]]
            k + 1 <= l < f.listed(b).len() && f.inst(f.listed(b)[l].0 as int).op is Phi implies phi_there(
            f,
            s,
            f.listed(b)[l].0 as int,
            vals,
            prev,
            e,
            args,
            out.fs,
        ) by {
            let u = f.listed(b)[l].0 as int;
            assert(phi_there(f, s, u, vals, prev, m, args, out.fs));
            assert(covered(f, s, b, l));
            assert(u != v.0) by {
                assert(def_at(f, u, b, l));
                assert(def_at(f, v.0 as int, b, k));
            }
            let y = eval_inst(f.inst(u), vals, prev, args, out.fs).unwrap();
            assert(holds(y, s.locs[u].unwrap(), m));
        }
        e
    }
}

/// The code of a block runs as the block does.
#[verifier::rlimit(60)]
proof fn lemma_block(
    start: Start,
    acc: Code,
    f: Function,
    p: Plan,
    s: Layout,
    rank: spec_fn(int) -> int,
    b: int,
    k: nat,
    vals: Frame,
    prev: Option<Block>,
    m: Machine,
    args: Seq<RtValue>,
    out: Outside,
) -> (e: Machine)
    requires
        scene(f, p, s, args, out),
        0 <= b < f.blocks@.len(),
        k <= f.listed(b).len(),
        inv(f, rank, b, 0, vals, prev, args, out.fs),
        runs(start, acc, m, out),
        whole(m),
        stored(f, s.locs, vals, m),
        supplied(f, s.locs, args, m),
        phis_there(f, s, b, 0, vals, prev, m, args, out.fs),
        spill_values(f, p, b, k, acc) is Ok,
        run_insts(f, b, k as int, vals, prev, args, out.fs) is Some,
    ensures
        runs(start, spill_values(f, p, b, k, acc), e, out),
        whole(e),
        stored(f, s.locs, run_insts(f, b, k as int, vals, prev, args, out.fs).unwrap(), e),
        supplied(f, s.locs, args, e),
        phis_there(f, s, b, k as int, vals, prev, e, args, out.fs),
        caller_kept(p.kind, p.frame as int, m, e),
    decreases k,
{
    if k == 0 {
        m
    } else {
        let j = (k - 1) as nat;
        let before = spill_values(f, p, b, j, acc);
        lemma_value_grows(f, p, f.listed(b)[j as int], before, before);
        assert(before is Ok) by {
            reveal(grows);
        }
        let q = lemma_block(start, acc, f, p, s, rank, b, j, vals, prev, m, args, out);
        lemma_inv_insts(f, rank, b, j as int, vals, prev, args, out.fs);
        lemma_inv_insts(f, rank, b, k as int, vals, prev, args, out.fs);
        let w = run_insts(f, b, j as int, vals, prev, args, out.fs).unwrap();
        let v = f.listed(b)[j as int];
        let x = eval_inst(f.inst(v.0 as int), w, prev, args, out.fs).unwrap();
        let w1 = run_insts(f, b, k as int, vals, prev, args, out.fs).unwrap();
        assert(w1 == w.update(v.0 as int, Some(x)));
        assert(w1[v.0 as int] is Some);
        let e = lemma_arrive(
            start,
            before,
            f,
            p,
            s,
            rank,
            b,
            j as int,
            vals,
            w,
            prev,
            q,
            args,
            out,
            x,
        );
        lemma_caller_trans(p.kind, p.frame as int, m, q, e);
        e
    }
}

// ---------------------------------------------------------------------------
// Code that grows

/// `a` is how `b` begins.
pub open spec fn begins(a: Seq<A64>, b: Seq<A64>) -> bool {
    a.len() <= b.len() && a == b.take(a.len() as int)
}

/// What is written comes behind what there was.
#[verifier::opaque]
pub open spec fn grows(a: Code, b: Code) -> bool {
    match b {
        Ok(q) => match a {
            Ok(p) => begins(p, q),
            Err(_) => false,
        },
        Err(_) => true,
    }
}

proof fn lemma_grows_chain(base: Code)
    ensures
        grows(base, base),
        forall|a: Code, b: Code|
            #![trigger chain(a, b)]
            grows(base, a) ==> grows(base, chain(a, b)),
{
    reveal(grows);
    if let Ok(p) = base {
        assert(p =~= p.take(p.len() as int));
    }
    assert forall|a: Code, b: Code| #![trigger chain(a, b)] grows(base, a) implies grows(
        base,
        chain(a, b),
    ) by {
        if let (Ok(x), Ok(y)) = (a, b) {
            let p = base->Ok_0;
            assert((x + y).take(p.len() as int) =~= x.take(p.len() as int));
        }
    }
}

proof fn lemma_grows_trans(a: Code, b: Code, c: Code)
    requires
        grows(a, b),
        grows(b, c),
    ensures
        grows(a, c),
{
    reveal(grows);
    if let (Ok(p), Ok(q), Ok(r)) = (a, b, c) {
        assert(p =~= r.take(p.len() as int));
    }
}

#[verifier::rlimit(60)]
proof fn lemma_value_grows(f: Function, p: Plan, v: Value, base: Code, acc: Code)
    requires
        grows(base, acc) || base == acc,
    ensures
        grows(base, spill_value(f, p, v, acc)),
{
    lemma_grows_chain(base);
}

proof fn lemma_values_grow(f: Function, p: Plan, b: int, k: nat, acc: Code)
    ensures
        grows(acc, spill_values(f, p, b, k, acc)),
    decreases k,
{
    lemma_grows_chain(acc);
    if k > 0 {
        lemma_values_grow(f, p, b, (k - 1) as nat, acc);
        lemma_value_grows(f, p, f.listed(b)[k - 1], acc, spill_values(f, p, b, (k - 1) as nat, acc));
    }
}

proof fn lemma_copies_grow(f: Function, p: Plan, t: int, from: int, k: nat, base: Code, acc: Code)
    requires
        grows(base, acc),
    ensures
        grows(base, spill_copies(f, p, t, from, k, acc)),
    decreases k,
{
    lemma_grows_chain(base);
    if k > 0 {
        lemma_copies_grow(f, p, t, from, (k - 1) as nat, base, acc);
    }
}

#[verifier::rlimit(40)]
proof fn lemma_term_grows(f: Function, p: Plan, b: int, acc: Code)
    ensures
        grows(acc, spill_term(f, p, b, acc)),
{
    lemma_grows_chain(acc);
    match f.term(b) {
        Some(Terminator::Jump(t)) => {
            lemma_copies_grow(f, p, t.0 as int, b, f.listed(t.0 as int).len(), acc, acc);
        },
        Some(Terminator::Branch { cond, then_, else_ }) => {
            let compared = spill_condition(f, p, cond, acc);
            assert(grows(acc, compared));
            lemma_copies_grow(f, p, then_.0 as int, b, f.listed(then_.0 as int).len(), acc, compared);
            let jumped = chain(
                spill_edge(f, p, then_, b, compared),
                one(
                    A64::JumpIf { condition: holds_when(f, cond), block: then_.0 as usize },
                ),
            );
            lemma_copies_grow(f, p, else_.0 as int, b, f.listed(else_.0 as int).len(), acc, jumped);
        },
        _ => {},
    }
}

proof fn lemma_blocks_grow(f: Function, p: Plan, i: nat, n: nat, acc: Code)
    requires
        i <= n,
    ensures
        grows(spill_blocks(f, p, i, acc), spill_blocks(f, p, n, acc)),
    decreases n - i,
{
    lemma_grows_chain(spill_blocks(f, p, i, acc));
    if i < n {
        let l = (n - 1) as nat;
        lemma_blocks_grow(f, p, i, l, acc);
        let before = spill_blocks(f, p, l, acc);
        let values = spill_values(f, p, n - 1, f.listed(n - 1).len(), before);
        lemma_values_grow(f, p, n - 1, f.listed(n - 1).len(), before);
        lemma_term_grows(f, p, n - 1, values);
        lemma_grows_trans(before, values, spill_blocks(f, p, n, acc));
        lemma_grows_trans(spill_blocks(f, p, i, acc), before, spill_blocks(f, p, n, acc));
    }
}

// ---------------------------------------------------------------------------
// Edges

/// The copies on an edge put the phis of the target in their places, and
/// disturb nothing that has been computed.
#[verifier::rlimit(100)]
#[verifier::spinoff_prover]
proof fn lemma_copies(
    start: Start,
    acc: Code,
    f: Function,
    p: Plan,
    s: Layout,
    rank: spec_fn(int) -> int,
    b: int,
    t: int,
    k: nat,
    w: Frame,
    prev: Option<Block>,
    m: Machine,
    args: Seq<RtValue>,
    out: Outside,
) -> (e: Machine)
    requires
        scene(f, p, s, args, out),
        ranks(f, rank),
        edge(f, b, t),
        k <= f.listed(t).len(),
        inv(f, rank, b, f.listed(b).len() as int, w, prev, args, out.fs),
        runs(start, acc, m, out),
        whole(m),
        stored(f, s.locs, w, m),
        supplied(f, s.locs, args, m),
        spill_copies(f, p, t, b, k, acc) is Ok,
    ensures
        runs(start, spill_copies(f, p, t, b, k, acc), e, out),
        whole(e),
        stored(f, s.locs, w, e),
        supplied(f, s.locs, args, e),
        caller_kept(p.kind, p.frame as int, m, e),
        e.flags == m.flags,
        forall|l: int|
            #![trigger f.listed(t)[l]]
            0 <= l < k && f.inst(f.listed(t)[l].0 as int).op is Phi ==> phi_there(
                f,
                s,
                f.listed(t)[l].0 as int,
                w,
                Some(Block(b as u32)),
                e,
                args,
                out.fs,
            ),
    decreases k,
{
    if k == 0 {
        m
    } else {
        let j = (k - 1) as nat;
        let from = Some(Block(b as u32));
        let v = f.listed(t)[j as int];
        let before = spill_copies(f, p, t, b, j, acc);
        assert(before is Ok) by {
            lemma_grows_chain(before);
            assert(grows(before, spill_copy(f, p, v, b, before)));
            reveal(grows);
        }
        let q = lemma_copies(start, acc, f, p, s, rank, b, t, j, w, prev, m, args, out);
        assert(covered(f, s, t, j as int));
        if !(f.inst(v.0 as int).op is Phi) {
            q
        } else {
            lemma_source_there(f, rank, b, t, j as int, w, prev, args, out.fs);
            let u = phi_source(f.inst(v.0 as int), b).unwrap();
            lemma_inv_edge(f, rank, b, t, w, prev, args, out.fs);
            lemma_next_is_new_at(f, rank, t, j as int, w, from, args, out.fs);
            let x = slot(w, u).unwrap();
            let float = type_of(f, v) == Some(Ty::F64);
            let r = reg(scratch(float));
            lemma_reg(28);
            lemma_reg(29);
            assert(w[u.0 as int] is Some);
            assert(f.inst(u.0 as int).op is Compare ==> x is Bool) by {
                if f.inst(u.0 as int).op is Compare {
                    assert(eval_inst(f.inst(u.0 as int), w, None, args, out.fs) == w[u.0 as int]);
                }
            }
            assert(s.locs[v.0 as int] matches Some(Location::Stack(_)));
            let first = load(before, s.locs, float, u, r);
            assert(spill_copy(f, p, v, b, before) == mixed_store(first, s.locs, float, v));
            let bits = lemma_loads(start, before, f, p.kind, s, float, u, r, w, q, out);
            let q1 = put(float, q, r, bits);
            lemma_put_unchanged(p.kind, float, q, r, bits);
            let e = lemma_stores(
                start,
                first,
                f,
                p.kind,
                s,
                p.frame as int,
                float,
                true,
                v,
                r,
                x,
                q,
                q1,
                out,
            );
            lemma_caller_trans(p.kind, p.frame as int, m, q, e);
            assert forall|i: int|
                #![trigger w[i]]
                0 <= i < w.len() && w[i] is Some implies f.inst(i).op is Compare || (
            s.locs[i] is Some && holds(w[i].unwrap(), s.locs[i].unwrap(), e)) by {
                if !(f.inst(i).op is Compare) {
                    assert(holds(w[i].unwrap(), s.locs[i].unwrap(), q));
                }
            }
            assert forall|c: int, l: int|
                #![trigger f.listed(c)[l]]
                0 <= c < f.blocks@.len() && 0 <= l < f.listed(c).len() implies param_there(
                f,
                s.locs,
                args,
                f.listed(c)[l].0 as int,
                e,
            ) by {
                let i = f.listed(c)[l].0 as int;
                assert(param_there(f, s.locs, args, i, q));
                if 0 <= i < s.locs.len() && s.locs[i] is Some && f.inst(i).op is Param {
                    let index = f.inst(i).op->Param_0;
                    if index < args.len() {
                        assert(holds(args[index as int], s.locs[i].unwrap(), q));
                    }
                }
            }
            assert forall|l: int|
                #![trigger f.listed(t)[l]]
                0 <= l < k && f.inst(f.listed(t)[l].0 as int).op is Phi implies phi_there(
                f,
                s,
                f.listed(t)[l].0 as int,
                w,
                from,
                e,
                args,
                out.fs,
            ) by {
                let i = f.listed(t)[l].0 as int;
                if l < j {
                    assert(phi_there(f, s, i, w, from, q, args, out.fs));
                    assert(covered(f, s, t, l));
                    assert(i != v.0) by {
                        assert(def_at(f, i, t, l));
                        assert(def_at(f, v.0 as int, t, j as int));
                    }
                    let y = eval_inst(f.inst(i), w, from, args, out.fs).unwrap();
                    assert(holds(y, s.locs[i].unwrap(), q));
                }
            }
            e
        }
    }
}

// ---------------------------------------------------------------------------
// Code with jumps

/// Runs code from place `pc` on until it returns, for at most `fuel`
/// instructions. Blocks start where `starts` says.
pub open spec fn perform(
    code: Seq<A64>,
    starts: Seq<usize>,
    pc: int,
    m: Machine,
    out: Outside,
    fuel: nat,
) -> Option<Machine>
    decreases fuel,
{
    if fuel == 0 || pc < 0 || pc >= code.len() {
        None
    } else {
        let rest = (fuel - 1) as nat;
        match code[pc] {
            A64::Return => Some(m),
            A64::Jump { block } => if block < starts.len() {
                perform(code, starts, starts[block as int] as int, m, out, rest)
            } else {
                None
            },
            A64::JumpIf { condition, block } => if !condition_holds(condition, m.flags) {
                perform(code, starts, pc + 1, m, out, rest)
            } else if block < starts.len() {
                perform(code, starts, starts[block as int] as int, m, out, rest)
            } else {
                None
            },
            i => match advance(m, i, out) {
                Some(e) => perform(code, starts, pc + 1, e, out, rest),
                None => None,
            },
        }
    }
}

/// Straight code runs as one instruction after another.
proof fn lemma_straight_on(
    code: Seq<A64>,
    starts: Seq<usize>,
    start: Start,
    part: Seq<A64>,
    d: Machine,
    out: Outside,
    fuel: nat,
)
    requires
        ran(start, part, out) == Some(d),
        begins(part, code),
    ensures
        start.from <= part.len(),
        perform(
            code,
            starts,
            start.from as int,
            start.machine,
            out,
            (fuel + part.len() - start.from) as nat,
        ) == perform(code, starts, part.len() as int, d, out, fuel),
    decreases part.len(),
{
    reveal(ran);
    if part.len() > start.from {
        let p = part.drop_last();
        assert(p =~= code.take(p.len() as int));
        let b = ran(start, p, out).unwrap();
        lemma_straight_on(code, starts, start, p, b, out, fuel + 1);
        assert(code[p.len() as int] == part.last());
    }
}

/// A part of the code that begins it, and the instruction behind it.
proof fn lemma_behind(part: Seq<A64>, i: A64, q: Seq<A64>, code: Seq<A64>)
    requires
        begins(part + seq![i], q),
        begins(q, code),
    ensures
        begins(part, code),
        code[part.len() as int] == i,
{
    let whole = part + seq![i];
    assert(whole[part.len() as int] == i);
    assert(q[part.len() as int] == i);
    assert forall|k: int| 0 <= k < part.len() implies part[k] == #[trigger] code[k] by {
        assert(whole[k] == part[k]);
        assert(q[k] == whole[k]);
        assert(code[k] == q[k]);
    }
    assert(part =~= code.take(part.len() as int));
}

// ---------------------------------------------------------------------------
// The frame

/// The machine works in the frame that was opened when it was `first`.
pub open spec fn framed(p: Plan, first: Machine, m: Machine) -> bool {
    &&& whole(first)
    &&& whole(m)
    &&& m.sp == first.sp - p.frame
    &&& p.kind is Mixed ==> m.memory[m.sp] == first.x[28] as u64 && m.memory[m.sp + 8]
        == first.x[29] as u64 && m.memory[m.sp + 16] == first.x[30] as u64
    &&& p.kind == (Kind::Floats { calls: true }) ==> m.memory[m.sp] == first.x[30] as u64
    &&& forall|j: int|
        #![trigger m.x[j]]
        19 <= j < 28 || (p.kind is Floats && 28 <= j < 30) || (p.kind == (Kind::Floats {
            calls: false,
        }) && j == 30) ==> m.x[j] == first.x[j]
    &&& forall|j: int| #![trigger m.d[j]] 8 <= j < 16 ==> m.d[j] == first.d[j]
}

proof fn lemma_still_framed(p: Plan, first: Machine, m: Machine, e: Machine)
    requires
        !(p.kind is Ints),
        framed(p, first, m),
        caller_kept(p.kind, p.frame as int, m, e),
    ensures
        framed(p, first, e),
{
    assert(e.memory[m.sp] == m.memory[m.sp] || p.kind == (Kind::Floats { calls: false }));
    assert(e.memory[m.sp + 8] == m.memory[m.sp + 8] || !(p.kind is Mixed));
    assert(e.memory[m.sp + 16] == m.memory[m.sp + 16] || !(p.kind is Mixed));
    assert forall|j: int|
        #![trigger e.x[j]]
        19 <= j < 28 || (p.kind is Floats && 28 <= j < 30) || (p.kind == (Kind::Floats {
            calls: false,
        }) && j == 30) implies e.x[j] == first.x[j] by {
        assert(m.x[j] == first.x[j]);
    }
    assert forall|j: int| #![trigger e.d[j]] 8 <= j < 16 implies e.d[j] == first.d[j] by {
        assert(m.d[j] == first.d[j]);
    }
}

/// The way out: the result in D0, the saved registers, and the frame.
#[verifier::rlimit(60)]
proof fn lemma_way_out(
    start: Start,
    acc: Code,
    f: Function,
    p: Plan,
    s: Layout,
    v: Value,
    w: Frame,
    first: Machine,
    m: Machine,
    args: Seq<RtValue>,
    out: Outside,
    x: RtValue,
) -> (r: (Seq<A64>, Machine))
    requires
        scene(f, p, s, args, out),
        runs(start, acc, m, out),
        stored(f, s.locs, w, m),
        framed(p, first, m),
        slot(w, v) == Some(x),
        x is F64,
        !(f.inst(v.0 as int).op is Compare),
        spill_return(f, p, v, acc) is Ok,
    ensures
        ran(start, r.0, out) == Some(r.1),
        spill_return(f, p, v, acc)->Ok_0 == r.0 + seq![A64::Return],
        returned_double(first, r.1, x),
{
    lemma_reg(0);
    lemma_reg(28);
    lemma_reg(29);
    lemma_reg(30);
    let loaded = load(acc, s.locs, true, v, reg(0));
    let bits = lemma_loads(start, acc, f, p.kind, s, true, v, reg(0), w, m, out);
    let q = put(true, m, reg(0), bits);
    let piece = restores(p.kind);
    let l30 = A64::Load { dst: reg(30), slot: 16 };
    let l29 = A64::Load { dst: reg(29), slot: 8 };
    let l28 = A64::Load { dst: reg(28), slot: 0 };
    let l0 = A64::Load { dst: reg(30), slot: 0 };
    let restored = chain(loaded, Ok(piece));
    let x28 = first.x[28];
    let x29 = first.x[29];
    let x30 = first.x[30];
    lemma_cast_back(x28);
    lemma_cast_back(x29);
    lemma_cast_back(x30);
    let e = match p.kind {
        Kind::Mixed => {
            let e1 = lemma_one(start, loaded, l30, q, out);
            let c1 = chain(loaded, one(l30));
            let e2 = lemma_one(start, c1, l29, e1, out);
            let c2 = chain(c1, one(l29));
            let e3 = lemma_one(start, c2, l28, e2, out);
            assert(chain(c2, one(l28))->Ok_0 =~= restored->Ok_0);
            assert(e3.x[28] == x28 && e3.x[29] == x29 && e3.x[30] == x30);
            e3
        },
        Kind::Floats { calls } => if calls {
            let e1 = lemma_one(start, loaded, l0, q, out);
            assert(chain(loaded, one(l0))->Ok_0 =~= restored->Ok_0);
            assert(e1.x[30] == x30);
            e1
        } else {
            assert(restored->Ok_0 =~= loaded->Ok_0);
            q
        },
        Kind::Ints => q,
    };
    assert(runs(start, restored, e, out));
    let close = A64::CloseFrame { bytes: p.frame };
    let g = lemma_one(start, restored, close, e, out);
    let closed = chain(restored, one(close));
    assert forall|j: int| #![trigger g.x[j]] 19 <= j < 31 implies g.x[j] == first.x[j] by {
        assert(g.x[j] == e.x[j]);
        if j < 28 || (p.kind is Floats && j < 30) || p.kind == (Kind::Floats { calls: false }) {
            assert(m.x[j] == first.x[j]);
        }
    }
    assert forall|j: int| #![trigger g.d[j]] 8 <= j < 16 implies g.d[j] == first.d[j] by {
        assert(m.d[j] == first.d[j]);
    }
    (closed->Ok_0, g)
}

// ---------------------------------------------------------------------------
// Branches

/// The comparison of a branch is evaluated, and decides as its value does.
#[verifier::rlimit(60)]
#[verifier::spinoff_prover]
proof fn lemma_compared(
    start: Start,
    acc: Code,
    f: Function,
    p: Plan,
    s: Layout,
    rank: spec_fn(int) -> int,
    b: int,
    cond: Value,
    w: Frame,
    prev: Option<Block>,
    m: Machine,
    args: Seq<RtValue>,
    out: Outside,
    h: bool,
) -> (e: Machine)
    requires
        scene(f, p, s, args, out),
        0 <= b < f.blocks@.len(),
        plain_comparison(f, cond.0 as int),
        inv(f, rank, b, f.listed(b).len() as int, w, prev, args, out.fs),
        runs(start, acc, m, out),
        whole(m),
        stored(f, s.locs, w, m),
        supplied(f, s.locs, args, m),
        slot(w, cond) == Some(RtValue::Bool(h)),
        spill_condition(f, p, cond, acc) is Ok,
    ensures
        runs(start, spill_condition(f, p, cond, acc), e, out),
        whole(e),
        stored(f, s.locs, w, e),
        supplied(f, s.locs, args, e),
        caller_kept(p.kind, p.frame as int, m, e),
        condition_holds(holds_when(f, cond), e.flags) == h,
{
    let im = f.inst(cond.0 as int);
    let a = im.args[0];
    let c = im.args[1];
    let op = im.op->Compare_0;
    assert(w[cond.0 as int] is Some);
    assert(eval_inst(im, w, None, args, out.fs) == w[cond.0 as int]);
    let vs = operand_values(im, w);
    assert(reads(im.op) == 2);
    assert(slot(w, a) is Some && slot(w, c) is Some);
    let l = slot(w, a).unwrap();
    let r = slot(w, c).unwrap();
    assert(vs[0] == l && vs[1] == r);
    assert(compare(op, l, r) == Some(h));
    assert(w[a.0 as int] is Some && w[c.0 as int] is Some);
    let float = type_of(f, a) == Some(Ty::F64);
    assert(type_of(f, a) == Some(value_ty(l)));
    assert(type_of(f, c) == Some(value_ty(r)));
    assert(f.inst(a.0 as int).op is Compare ==> l is Bool) by {
        if f.inst(a.0 as int).op is Compare {
            assert(eval_inst(f.inst(a.0 as int), w, None, args, out.fs) == w[a.0 as int]);
        }
    }
    assert(f.inst(c.0 as int).op is Compare ==> r is Bool) by {
        if f.inst(c.0 as int).op is Compare {
            assert(eval_inst(f.inst(c.0 as int), w, None, args, out.fs) == w[c.0 as int]);
        }
    }
    lemma_reg(28);
    lemma_reg(29);
    lemma_reg(30);
    let x = reg(scratch(float));
    let y = reg(scratch(float) + 1);
    assert(spill_condition(f, p, cond, acc) == compare_loaded(acc, s.locs, float, a, c));
    let two = load(load(acc, s.locs, float, a, x), s.locs, float, c, y);
    let (i, j) = lemma_two_loads(start, acc, f, p.kind, s, float, a, c, x, y, w, args, m, out);
    let q = put(float, put(float, m, x, i), y, j);
    lemma_all_kept(f, p.kind, s, w, args, m, q);
    let compares = if float {
        A64::CompareFloat { lhs: x, rhs: y }
    } else {
        A64::Compare { lhs: x, rhs: y }
    };
    let e = lemma_one(start, two, compares, q, out);
    assert(e.flags == flags_of(l, r));
    lemma_condition(op, l, r);
    assert(unchanged(p.kind, q, e));
    lemma_all_kept(f, p.kind, s, w, args, q, e);
    lemma_unchanged_trans(p.kind, m, q, e);
    assert(caller_kept(p.kind, p.frame as int, m, e));
    e
}

// ---------------------------------------------------------------------------
// The law

/// The code and where its blocks start.
pub open spec fn emitted_code(f: Function, p: Plan) -> Code {
    spill_blocks(f, p, f.blocks@.len(), spill_prologue(f, p))
}

proof fn lemma_start_place(f: Function, p: Plan, b: int)
    requires
        0 <= b < f.blocks@.len(),
        emitted_code(f, p) is Ok,
        emitted_code(f, p)->Ok_0.len() <= usize::MAX,
    ensures
        ({
            let before = spill_blocks(f, p, b as nat, spill_prologue(f, p));
            let after = spill_blocks(f, p, (b + 1) as nat, spill_prologue(f, p));
            &&& before is Ok && after is Ok
            &&& begins(before->Ok_0, emitted_code(f, p)->Ok_0)
            &&& begins(after->Ok_0, emitted_code(f, p)->Ok_0)
            &&& spill_starts(f, p)[b] == before->Ok_0.len()
        }),
{
    let n = f.blocks@.len();
    lemma_blocks_grow(f, p, b as nat, n, spill_prologue(f, p));
    lemma_blocks_grow(f, p, (b + 1) as nat, n, spill_prologue(f, p));
    reveal(grows);
}

/// What the code from the start of a block on has to do with its function.
pub open spec fn at_block(
    f: Function,
    p: Plan,
    s: Layout,
    rank: spec_fn(int) -> int,
    b: int,
    prev: Option<Block>,
    vals: Frame,
    first: Machine,
    m: Machine,
    args: Seq<RtValue>,
    out: Outside,
) -> bool {
    &&& scene(f, p, s, args, out)
    &&& ranks(f, rank)
    &&& branches_plainly(f)
    &&& emitted_code(f, p) is Ok
    &&& emitted_code(f, p)->Ok_0.len() <= usize::MAX
    &&& 0 <= b < f.blocks@.len()
    &&& inv(f, rank, b, 0, vals, prev, args, out.fs)
    &&& framed(p, first, m)
    &&& stored(f, s.locs, vals, m)
    &&& supplied(f, s.locs, args, m)
    &&& phis_there(f, s, b, 0, vals, prev, m, args, out.fs)
}

/// The code from the start of block `b` on returns what the function returns
/// from there on.
#[verifier::rlimit(100)]
#[verifier::spinoff_prover]
proof fn lemma_runs(
    f: Function,
    p: Plan,
    s: Layout,
    rank: spec_fn(int) -> int,
    b: int,
    prev: Option<Block>,
    vals: Frame,
    first: Machine,
    m: Machine,
    args: Seq<RtValue>,
    out: Outside,
    n: nat,
    x: RtValue,
) -> (fuel: nat)
    requires
        at_block(f, p, s, rank, b, prev, vals, first, m, args, out),
        run(f, b, prev, vals, args, out.fs, n) == Some(x),
    ensures
        ({
            let e = perform(
                emitted_code(f, p)->Ok_0,
                spill_starts(f, p),
                spill_starts(f, p)[b] as int,
                m,
                out,
                fuel,
            );
            e is Some && returned_double(first, e.unwrap(), x)
        }),
    decreases n,
{
    let code = emitted_code(f, p)->Ok_0;
    let starts = spill_starts(f, p);
    let before = spill_blocks(f, p, b as nat, spill_prologue(f, p));
    let done = spill_blocks(f, p, (b + 1) as nat, spill_prologue(f, p));
    lemma_start_place(f, p, b);
    let here = Start { machine: m, from: before->Ok_0.len() };
    assert(runs(here, before, m, out)) by {
        reveal(ran);
    }
    let k = f.listed(b).len();
    let values = spill_values(f, p, b, k, before);
    lemma_term_grows(f, p, b, values);
    assert(done == spill_term(f, p, b, values));
    assert(values is Ok) by {
        reveal(grows);
    }
    let w = run_insts(f, b, k as int, vals, prev, args, out.fs).unwrap();
    let q = lemma_block(here, before, f, p, s, rank, b, k, vals, prev, m, args, out);
    lemma_still_framed(p, first, m, q);
    lemma_inv_insts(f, rank, b, k as int, vals, prev, args, out.fs);
    assert(begins(done->Ok_0, done->Ok_0)) by {
        assert(done->Ok_0 =~= done->Ok_0.take(done->Ok_0.len() as int));
    }
    match f.term(b) {
        Some(Terminator::Return(v)) => {
            assert(w[v.0 as int] is Some);
            assert(type_of(f, v) == Some(value_ty(x)));
            assert(!(f.inst(v.0 as int).op is Compare)) by {
                if f.inst(v.0 as int).op is Compare {
                    assert(eval_inst(f.inst(v.0 as int), w, None, args, out.fs) == w[v.0 as int]);
                }
            }
            let (part, e) = lemma_way_out(here, values, f, p, s, v, w, first, q, args, out, x);
            lemma_behind(part, A64::Return, done->Ok_0, code);
            assert(perform(code, starts, part.len() as int, e, out, 1) == Some(e));
            lemma_straight_on(code, starts, here, part, e, out, 1);
            (1 + part.len() - here.from) as nat
        },
        Some(Terminator::Jump(t)) => {
            let c = t.0 as int;
            assert(edge(f, b, c));
            let copied = spill_copies(f, p, c, b, f.listed(c).len(), values);
            let e = lemma_copies(
                here,
                values,
                f,
                p,
                s,
                rank,
                b,
                c,
                f.listed(c).len(),
                w,
                prev,
                q,
                args,
                out,
            );
            lemma_still_framed(p, first, q, e);
            lemma_inv_edge(f, rank, b, c, w, prev, args, out.fs);
            let part = copied->Ok_0;
            let jump = A64::Jump { block: t.0 as usize };
            lemma_behind(part, jump, done->Ok_0, code);
            let from = Some(Block(b as u32));
            let rest = lemma_runs(
                f,
                p,
                s,
                rank,
                c,
                from,
                w,
                first,
                e,
                args,
                out,
                (n - 1) as nat,
                x,
            );
            assert(perform(code, starts, part.len() as int, e, out, rest + 1) == perform(
                code,
                starts,
                starts[c] as int,
                e,
                out,
                rest,
            ));
            lemma_straight_on(code, starts, here, part, e, out, rest + 1);
            (rest + 1 + part.len() - here.from) as nat
        },
        Some(Terminator::Branch { cond, then_, else_ }) => {
            let c1 = then_.0 as int;
            let c2 = else_.0 as int;
            assert(edge(f, b, c1) && edge(f, b, c2));
            let h = slot(w, cond).unwrap()->Bool_0;
            let compared = spill_condition(f, p, cond, values);
            let condition = holds_when(f, cond);
            let branch = A64::JumpIf { condition, block: then_.0 as usize };
            let jump = A64::Jump { block: else_.0 as usize };
            let copied1 = spill_copies(f, p, c1, b, f.listed(c1).len(), compared);
            let jumped = chain(copied1, one(branch));
            let copied2 = spill_copies(f, p, c2, b, f.listed(c2).len(), jumped);
            assert(done == chain(copied2, one(jump)));
            assert(copied2 is Ok);
            lemma_grows_chain(jumped);
            lemma_copies_grow(f, p, c2, b, f.listed(c2).len(), jumped, jumped);
            assert(jumped is Ok && begins(jumped->Ok_0, copied2->Ok_0)) by {
                reveal(grows);
            }
            lemma_grows_chain(compared);
            lemma_copies_grow(f, p, c1, b, f.listed(c1).len(), compared, compared);
            assert(compared is Ok) by {
                reveal(grows);
            }
            let d = lemma_compared(
                here,
                values,
                f,
                p,
                s,
                rank,
                b,
                cond,
                w,
                prev,
                q,
                args,
                out,
                h,
            );
            lemma_still_framed(p, first, q, d);
            let e = lemma_copies(
                here,
                compared,
                f,
                p,
                s,
                rank,
                b,
                c1,
                f.listed(c1).len(),
                w,
                prev,
                d,
                args,
                out,
            );
            lemma_still_framed(p, first, d, e);
            let part = copied1->Ok_0;
            assert(begins(jumped->Ok_0, done->Ok_0)) by {
                let j = jumped->Ok_0;
                let g = done->Ok_0;
                assert forall|i: int| 0 <= i < j.len() implies j[i] == #[trigger] g[i] by {
                    assert(copied2->Ok_0[i] == j[i]);
                }
                assert(j =~= g.take(j.len() as int));
            }
            lemma_behind(part, branch, done->Ok_0, code);
            let from = Some(Block(b as u32));
            if h {
                lemma_inv_edge(f, rank, b, c1, w, prev, args, out.fs);
                let rest = lemma_runs(
                    f,
                    p,
                    s,
                    rank,
                    c1,
                    from,
                    w,
                    first,
                    e,
                    args,
                    out,
                    (n - 1) as nat,
                    x,
                );
                assert(perform(code, starts, part.len() as int, e, out, rest + 1) == perform(
                    code,
                    starts,
                    starts[c1] as int,
                    e,
                    out,
                    rest,
                ));
                lemma_straight_on(code, starts, here, part, e, out, rest + 1);
                (rest + 1 + part.len() - here.from) as nat
            } else {
                // The branch is passed, and the other copies come.
                let there = Start { machine: e, from: jumped->Ok_0.len() };
                assert(runs(there, jumped, e, out)) by {
                    reveal(ran);
                }
                let g = lemma_copies(
                    there,
                    jumped,
                    f,
                    p,
                    s,
                    rank,
                    b,
                    c2,
                    f.listed(c2).len(),
                    w,
                    prev,
                    e,
                    args,
                    out,
                );
                lemma_still_framed(p, first, e, g);
                lemma_inv_edge(f, rank, b, c2, w, prev, args, out.fs);
                let part2 = copied2->Ok_0;
                lemma_behind(part2, jump, done->Ok_0, code);
                let rest = lemma_runs(
                    f,
                    p,
                    s,
                    rank,
                    c2,
                    from,
                    w,
                    first,
                    g,
                    args,
                    out,
                    (n - 1) as nat,
                    x,
                );
                assert(perform(code, starts, part2.len() as int, g, out, rest + 1) == perform(
                    code,
                    starts,
                    starts[c2] as int,
                    g,
                    out,
                    rest,
                ));
                lemma_straight_on(code, starts, there, part2, g, out, rest + 1);
                let mid = (rest + 1 + part2.len() - there.from) as nat;
                assert(perform(code, starts, part.len() as int, e, out, mid + 1) == perform(
                    code,
                    starts,
                    part.len() as int + 1,
                    e,
                    out,
                    mid,
                ));
                assert(there.from == part.len() + 1);
                lemma_straight_on(code, starts, here, part, e, out, mid + 1);
                (mid + 1 + part.len() - here.from) as nat
            }
        },
        None => 0,
    }
}

/// A parameter of a function that calls goes to its slot.
#[verifier::rlimit(40)]
proof fn lemma_store_param(
    start: Start,
    acc: Code,
    f: Function,
    p: Plan,
    s: Layout,
    b: int,
    k: int,
    m: Machine,
    args: Seq<RtValue>,
    out: Outside,
) -> (e: Machine)
    requires
        scene(f, p, s, args, out),
        p.kind == (Kind::Floats { calls: true }),
        0 <= b < f.blocks@.len(),
        0 <= k < f.listed(b).len(),
        runs(start, acc, m, out),
        whole(m),
        arguments(f, args, m),
        store_param(f, p, f.listed(b)[k], acc) is Ok,
    ensures
        runs(start, store_param(f, p, f.listed(b)[k], acc), e, out),
        whole(e),
        e.x == m.x,
        e.d == m.d,
        caller_kept(p.kind, p.frame as int, m, e),
        others_kept(s, f.listed(b)[k].0 as int, m, e),
        param_there(f, s.locs, args, f.listed(b)[k].0 as int, e),
        !(f.inst(f.listed(b)[k].0 as int).op is Param) ==> e == m,
{
    let v = f.listed(b)[k];
    assert(covered(f, s, b, k));
    assert(inst_ok(f, b, k));
    match f.inst(v.0 as int).op {
        Op::Param(index, ty) => {
            assert(s.locs[v.0 as int] is Some);
            assert(s.locs[v.0 as int] matches Some(Location::Stack(_)));
            assert(ty == Ty::F64);
            let n = count_params(f, Ty::F64, index as nat) as int;
            lemma_reg(n);
            assert(f.params@[index as int].1 == Ty::F64);
            let x = args[index as int];
            assert(x is F64);
            assert(unchanged(p.kind, m, m));
            lemma_stores(
                start,
                acc,
                f,
                p.kind,
                s,
                p.frame as int,
                true,
                true,
                v,
                reg(n),
                x,
                m,
                m,
                out,
            )
        },
        _ => m,
    }
}

/// The parameters among the first blocks, and the first `k` values of the
/// next, are in their places.
pub open spec fn filled(
    f: Function,
    s: Layout,
    args: Seq<RtValue>,
    b: int,
    k: int,
    m: Machine,
) -> bool {
    forall|c: int, l: int|
        #![trigger f.listed(c)[l]]
        0 <= c < f.blocks@.len() && 0 <= l < f.listed(c).len() && (c < b || (c == b && l < k))
            ==> param_there(f, s.locs, args, f.listed(c)[l].0 as int, m)
}

proof fn lemma_filled_kept(
    f: Function,
    s: Layout,
    args: Seq<RtValue>,
    b: int,
    k: int,
    m: Machine,
    e: Machine,
)
    requires
        0 <= b < f.blocks@.len(),
        0 <= k < f.listed(b).len(),
        filled(f, s, args, b, k, m),
        others_kept(s, f.listed(b)[k].0 as int, m, e),
        param_there(f, s.locs, args, f.listed(b)[k].0 as int, e),
    ensures
        filled(f, s, args, b, k + 1, e),
{
    let v = f.listed(b)[k].0 as int;
    assert forall|c: int, l: int|
        #![trigger f.listed(c)[l]]
        0 <= c < f.blocks@.len() && 0 <= l < f.listed(c).len() && (c < b || (c == b && l < k
            + 1)) implies param_there(f, s.locs, args, f.listed(c)[l].0 as int, e) by {
        let u = f.listed(c)[l].0 as int;
        if u != v {
            assert(param_there(f, s.locs, args, u, m));
            if 0 <= u < s.locs.len() && s.locs[u] is Some && f.inst(u).op is Param {
                let index = f.inst(u).op->Param_0;
                if index < args.len() {
                    assert(holds(args[index as int], s.locs[u].unwrap(), m));
                }
            }
        }
    }
}

proof fn lemma_store_listed(
    start: Start,
    acc: Code,
    f: Function,
    p: Plan,
    s: Layout,
    b: int,
    k: nat,
    m: Machine,
    args: Seq<RtValue>,
    out: Outside,
) -> (e: Machine)
    requires
        scene(f, p, s, args, out),
        p.kind == (Kind::Floats { calls: true }),
        0 <= b < f.blocks@.len(),
        k <= f.listed(b).len(),
        runs(start, acc, m, out),
        whole(m),
        arguments(f, args, m),
        filled(f, s, args, b, 0, m),
        store_params_listed(f, p, b, k, acc) is Ok,
    ensures
        runs(start, store_params_listed(f, p, b, k, acc), e, out),
        whole(e),
        e.x == m.x,
        e.d == m.d,
        caller_kept(p.kind, p.frame as int, m, e),
        filled(f, s, args, b, k as int, e),
    decreases k,
{
    if k == 0 {
        m
    } else {
        let j = (k - 1) as nat;
        let before = store_params_listed(f, p, b, j, acc);
        assert(before is Ok) by {
            lemma_grows_chain(before);
            assert(grows(before, store_param(f, p, f.listed(b)[j as int], before)));
            reveal(grows);
        }
        let q = lemma_store_listed(start, acc, f, p, s, b, j, m, args, out);
        let e = lemma_store_param(start, before, f, p, s, b, j as int, q, args, out);
        lemma_filled_kept(f, s, args, b, j as int, q, e);
        lemma_caller_trans(p.kind, p.frame as int, m, q, e);
        e
    }
}

proof fn lemma_listed_grow(f: Function, p: Plan, b: int, k: nat, acc: Code)
    ensures
        grows(acc, store_params_listed(f, p, b, k, acc)),
    decreases k,
{
    lemma_grows_chain(acc);
    if k > 0 {
        lemma_listed_grow(f, p, b, (k - 1) as nat, acc);
    }
}

proof fn lemma_store_params(
    start: Start,
    acc: Code,
    f: Function,
    p: Plan,
    s: Layout,
    n: nat,
    m: Machine,
    args: Seq<RtValue>,
    out: Outside,
) -> (e: Machine)
    requires
        scene(f, p, s, args, out),
        p.kind == (Kind::Floats { calls: true }),
        n <= f.blocks@.len(),
        runs(start, acc, m, out),
        whole(m),
        arguments(f, args, m),
        store_params(f, p, n, acc) is Ok,
    ensures
        runs(start, store_params(f, p, n, acc), e, out),
        whole(e),
        e.x == m.x,
        e.d == m.d,
        caller_kept(p.kind, p.frame as int, m, e),
        filled(f, s, args, n as int, 0, e),
    decreases n,
{
    if n == 0 {
        m
    } else {
        let l = (n - 1) as nat;
        let before = store_params(f, p, l, acc);
        lemma_listed_grow(f, p, n - 1, f.listed(n - 1).len(), before);
        assert(before is Ok) by {
            reveal(grows);
        }
        let q = lemma_store_params(start, acc, f, p, s, l, m, args, out);
        let e = lemma_store_listed(
            start,
            before,
            f,
            p,
            s,
            n - 1,
            f.listed(n - 1).len(),
            q,
            args,
            out,
        );
        lemma_caller_trans(p.kind, p.frame as int, m, q, e);
        e
    }
}

/// The way in: the frame, the saved registers, and the parameters of a
/// function that calls.
#[verifier::rlimit(60)]
proof fn lemma_way_in(
    f: Function,
    p: Plan,
    s: Layout,
    m: Machine,
    args: Seq<RtValue>,
    out: Outside,
) -> (e: Machine)
    requires
        scene(f, p, s, args, out),
        whole(m),
        arguments(f, args, m),
        spill_prologue(f, p) is Ok,
    ensures
        runs(Start { machine: m, from: 0 }, spill_prologue(f, p), e, out),
        framed(p, m, e),
        supplied(f, s.locs, args, e),
{
    lemma_reg(28);
    lemma_reg(29);
    lemma_reg(30);
    let start = Start { machine: m, from: 0 };
    let none: Code = Ok(Seq::<A64>::empty());
    assert(runs(start, none, m, out)) by {
        reveal(ran);
    }
    let open = A64::OpenFrame { bytes: p.frame };
    let opened = one(open);
    let m1 = lemma_one(start, none, open, m, out);
    assert(chain(none, one(open))->Ok_0 =~= opened->Ok_0);
    let s28 = A64::Store { src: reg(28), slot: 0 };
    let s29 = A64::Store { src: reg(29), slot: 8 };
    let s30 = A64::Store { src: reg(30), slot: 16 };
    let s0 = A64::Store { src: reg(30), slot: 0 };
    let saved = chain(opened, Ok(saves(p.kind)));
    let q = match p.kind {
        Kind::Mixed => {
            let e1 = lemma_one(start, opened, s28, m1, out);
            let c1 = chain(opened, one(s28));
            let e2 = lemma_one(start, c1, s29, e1, out);
            let c2 = chain(c1, one(s29));
            let e3 = lemma_one(start, c2, s30, e2, out);
            assert(chain(c2, one(s30))->Ok_0 =~= saved->Ok_0);
            e3
        },
        Kind::Floats { calls } => if calls {
            let e1 = lemma_one(start, opened, s0, m1, out);
            assert(chain(opened, one(s0))->Ok_0 =~= saved->Ok_0);
            e1
        } else {
            assert(saved->Ok_0 =~= opened->Ok_0);
            m1
        },
        Kind::Ints => m1,
    };
    assert(runs(start, saved, q, out));
    assert(q.x == m.x && q.d == m.d && q.sp == m.sp - p.frame);
    assert(framed(p, m, q));
    assert forall|i: int| #![trigger args[i]] 0 <= i < args.len() implies ({
        let n = count_params(f, f.params@[i].1, i as nat) as int;
        n < 8 ==> match args[i] {
            RtValue::F64(bits) => q.d[n] == bits,
            RtValue::I64(z) => q.x[n] == z,
            RtValue::Bool(_) => true,
        }
    }) by {}
    if p.kind == (Kind::Floats { calls: true }) {
        let e = lemma_store_params(start, saved, f, p, s, f.blocks@.len(), q, args, out);
        lemma_still_framed(p, m, q, e);
        e
    } else {
        assert forall|b: int, k: int|
            #![trigger f.listed(b)[k]]
            0 <= b < f.blocks@.len() && 0 <= k < f.listed(b).len() implies param_there(
            f,
            s.locs,
            args,
            f.listed(b)[k].0 as int,
            q,
        ) by {
            let v = f.listed(b)[k].0 as int;
            assert(covered(f, s, b, k));
            assert(inst_ok(f, b, k));
            if let Op::Param(index, ty) = f.inst(v).op {
                assert(s.locs[v] is Some);
                let n = count_params(f, ty, index as nat) as int;
                lemma_reg(n);
                assert(f.params@[index as int].1 == ty);
                assert(args[index as int] == args[index as int]);
            }
        }
        q
    }
}

/// The code that a function with a double as its result gets where its values
/// are kept on the stack, those of doubles that may call the library and those
/// that mix types: called with the arguments in the first registers of their
/// banks, it returns what the function yields, and keeps what belongs to the
/// caller. The function has no loops, and branches on comparisons of integers
/// or of doubles. Calls give what `calls_ok` says.
pub proof fn lemma_stacked_code_computes(
    f: Function,
    rank: spec_fn(int) -> int,
    p: Plan,
    m: Machine,
    args: Seq<RtValue>,
    out: Outside,
    x: RtValue,
)
    requires
        valid(f),
        ranks(f, rank),
        f.entry.0 == 0,
        f.blocks@.len() <= u32::MAX,
        f.insts@.len() <= u32::MAX,
        branches_plainly(f),
        !(p.kind is Ints),
        p.kind == (Kind::Floats { calls: false }) ==> !has_call(f),
        layout(f, p.kind, f.blocks@.len()) is Ok,
        p.locs == layout(f, p.kind, f.blocks@.len())->Ok_0.locs,
        spill_frame(p.kind, layout(f, p.kind, f.blocks@.len())->Ok_0.next) == Ok::<
            int,
            crate::aarch64::error::EmitError,
        >(p.frame as int),
        emitted_code(f, p) is Ok,
        emitted_code(f, p)->Ok_0.len() <= usize::MAX,
        calls_ok(out, p.libm),
        whole(m),
        args_match(f, args),
        arguments(f, args, m),
        yields(f, args, out.fs, x),
    ensures
        exists|fuel: nat|
            #![trigger perform(emitted_code(f, p)->Ok_0, spill_starts(f, p), 0, m, out, fuel)]
            {
                let e = perform(emitted_code(f, p)->Ok_0, spill_starts(f, p), 0, m, out, fuel);
                e is Some && returned_double(m, e.unwrap(), x)
            },
{
    let count = f.blocks@.len();
    let s = layout(f, p.kind, count)->Ok_0;
    let code = emitted_code(f, p)->Ok_0;
    let starts = spill_starts(f, p);
    let vals = empty_frame(f.insts@.len());
    lemma_layout_placed(f, p.kind, count);
    let n = choose|n: nat|
        #[trigger]
        run(f, f.entry.0 as int, None, vals, args, out.fs, n) == Some(x);
    assert(run(f, 0, None, vals, args, out.fs, n) == Some(x));
    assert(scene(f, p, s, args, out));
    lemma_start_place(f, p, 0);
    let opening = spill_prologue(f, p);
    assert(spill_blocks(f, p, 0, opening) == opening);
    let e = lemma_way_in(f, p, s, m, args, out);
    lemma_inv_start(f, rank, args, out.fs);
    assert forall|l: int|
        #![trigger f.listed(0)[l]]
        0 <= l < f.listed(0).len() implies !(f.inst(f.listed(0)[l].0 as int).op is Phi) by {
        lemma_no_entry_phi(f, l, f.listed(0).len() as int, vals, args, out.fs);
    }
    let fuel = lemma_runs(f, p, s, rank, 0, None, vals, m, e, args, out, n, x);
    let start = Start { machine: m, from: 0 };
    lemma_straight_on(code, starts, start, opening->Ok_0, e, out, fuel);
    assert(perform(code, starts, 0, m, out, (fuel + opening->Ok_0.len()) as nat) is Some);
}

} // verus!
