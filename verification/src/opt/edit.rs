//! Each rewrite, taken as a whole: a healthy function stays healthy and
//! refines what it was.
use crate::dominance::dom;
use crate::interp::{eval_inst, Frame, RtValue};
use crate::float::FloatSem;
use crate::ir::{is_subst, Block, Function, InstModel, Terminator, Value};
use crate::opt::keep::{args_in_table, healthy, phi_matches};
use crate::opt::keep::{lemma_prune_valid, lemma_splice_valid, lemma_subst_valid, may_replace};
use crate::opt::rewrite::{
    before_value, closed_under_uses, drops_no_trap, everything, fresh, is_kept_list, is_pruned, is_spliced, padded,
    run_fresh, splice_agrees, splice_ok, stands_for,
};
use crate::opt::rewrite::{
    lemma_phi_pairs, lemma_prune_follows, lemma_splice_follows, lemma_spliced_list,
    lemma_subst_follows,
};
use crate::opt::simulate::{lemma_follows_refines, never_traps, refines, same, term_kept};
use crate::verify::{def_at, defined, end_use_ok, inst_ok, use_ok, valid};
use vstd::prelude::*;

verus! {

/// `g` is `f` with the instruction of value `v` set to `m`.
pub open spec fn is_updated(f: Function, g: Function, v: int, m: InstModel) -> bool {
    &&& 0 <= v < f.insts@.len()
    &&& g.insts@.len() == f.insts@.len()
    &&& g.inst(v) == m
    &&& forall|i: int|
        #![trigger g.insts@[i]]
        #![trigger f.insts@[i]]
        0 <= i < f.insts@.len() && i != v ==> g.inst(i) == f.inst(i)
    &&& g.types == f.types
    &&& g.spans == f.spans
    &&& g.blocks == f.blocks
    &&& g.entry == f.entry
    &&& g.params == f.params
}

/// The operands of `m` are values of a table of `n` instructions.
pub open spec fn args_below(m: InstModel, n: int) -> bool {
    forall|j: int| #![trigger m.args[j]] 0 <= j < m.args.len() ==> m.args[j].0 < n
}

proof fn lemma_updated_args(f: Function, g: Function, v: int, m: InstModel)
    requires
        args_in_table(f),
        is_updated(f, g, v, m),
        args_below(m, f.insts@.len() as int),
    ensures
        args_in_table(g),
{
    assert forall|i: int, j: int|
        #![trigger g.inst(i).args[j]]
        0 <= i < g.insts@.len() && 0 <= j < g.inst(i).args.len() implies g.inst(i).args[j].0
        < g.insts@.len() by {
        if i == v {
            assert(m.args[j].0 < f.insts@.len());
        } else {
            assert(g.insts@[i]@ == f.insts@[i]@);
            assert(f.inst(i).args[j].0 < f.insts@.len());
        }
    }
}

/// The values that some block lists.
pub open spec fn listed_values(f: Function) -> Set<int> {
    Set::new(|v: int| defined(f, v))
}

/// In a well-formed function, what is listed reads only what is listed.
pub proof fn lemma_listed_closed(f: Function)
    requires
        valid(f),
    ensures
        closed_under_uses(f, listed_values(f)),
{
    let kept = listed_values(f);
    assert forall|b: int, k: int, j: int|
        #![trigger f.inst(f.listed(b)[k].0 as int).args[j]]
        0 <= b < f.blocks@.len() && 0 <= k < f.listed(b).len() && kept.contains(
            f.listed(b)[k].0 as int,
        ) && 0 <= j < f.inst(f.listed(b)[k].0 as int).args.len() implies kept.contains(
        f.inst(f.listed(b)[k].0 as int).args[j].0 as int,
    ) by {
        assert(inst_ok(f, b, k));
        let m = f.inst(f.listed(b)[k].0 as int);
        let u = m.args[j].0 as int;
        lemma_phi_pairs(f, f.listed(b)[k].0 as int);
        if m.op is Phi {
            assert(end_use_ok(f, u, (m.op->Phi_0)[j].0 as int));
            let (c, l) = choose|c: int, l: int| #[trigger]
                def_at(f, u, c, l) && dom(f, c, (m.op->Phi_0)[j].0 as int);
            assert(defined(f, u));
        } else {
            assert(use_ok(f, u, b, k));
            let (c, l) = choose|c: int, l: int| #[trigger]
                def_at(f, u, c, l) && dom(f, c, b) && (c == b ==> l < k);
            assert(defined(f, u));
        }
    }
    assert forall|b: int| #![trigger f.term(b)] 0 <= b < f.blocks@.len() implies term_kept(
        f.term(b),
        kept,
    ) by {
        assert(crate::verify::term_ok(f, b));
        let u = match f.term(b) {
            Some(Terminator::Return(v)) => v,
            Some(Terminator::Branch { cond, .. }) => cond,
            _ => Value(0),
        };
        if f.term(b) is Some && !(f.term(b)->Some_0 is Jump) {
            let (c, l) = choose|c: int, l: int| #[trigger]
                def_at(f, u.0 as int, c, l) && dom(f, c, b);
            assert(defined(f, u.0 as int));
        }
    }
}

/// Nothing that is listed is dropped.
proof fn lemma_whole_drops(f: Function, fs: FloatSem)
    requires
        valid(f),
    ensures
        drops_no_trap(f, listed_values(f), fs),
{
    assert forall|b: int, k: int|
        #![trigger f.listed(b)[k]]
        0 <= b < f.blocks@.len() && 0 <= k < f.listed(b).len() && !listed_values(f).contains(
            f.listed(b)[k].0 as int,
        ) implies never_traps(f, b, k, fs) by {
        assert(def_at(f, f.listed(b)[k].0 as int, b, k));
        assert(false);
    }
}

/// A list of kept values is kept whole.
proof fn lemma_whole_list(s: Seq<Value>, kept: Set<int>)
    requires
        forall|k: int| #![trigger s[k]] 0 <= k < s.len() ==> kept.contains(s[k].0 as int),
    ensures
        is_kept_list(s, s, Seq::new(s.len(), |i: int| i), kept),
{
    let from = Seq::new(s.len(), |i: int| i);
    assert forall|k: int|
        #![trigger s[k]]
        0 <= k < s.len() && kept.contains(s[k].0 as int) implies from.contains(k) by {
        assert(from[k] == k);
    }
}

/// The instruction of a value that no block lists does not matter.
pub proof fn lemma_dead_update(f: Function, g: Function, v: int, m: InstModel, fs: FloatSem)
    requires
        healthy(f),
        is_updated(f, g, v, m),
        args_below(m, f.insts@.len() as int),
        !defined(f, v),
    ensures
        healthy(g),
        refines(f, g, fs),
{
    let kept = listed_values(f);
    lemma_listed_closed(f);
    assert(is_pruned(f, g, kept)) by {
        assert forall|c: int|
            #![trigger g.blocks@[c]]
            #![trigger f.blocks@[c]]
            0 <= c < f.blocks@.len() implies {
            &&& g.blocks@[c].preds == f.blocks@[c].preds
            &&& g.blocks@[c].term == f.blocks@[c].term
            &&& exists|from: Seq<int>| is_kept_list(f.listed(c), g.listed(c), from, kept)
        } by {
            let s = f.listed(c);
            assert forall|k: int| #![trigger s[k]] 0 <= k < s.len() implies kept.contains(
                s[k].0 as int,
            ) by {
                assert(def_at(f, s[k].0 as int, c, k));
            }
            lemma_whole_list(s, kept);
            assert(g.listed(c) == s);
            assert(is_kept_list(s, g.listed(c), Seq::new(s.len(), |i: int| i), kept));
        }
        assert forall|i: int|
            #![trigger g.insts@[i]]
            #![trigger f.insts@[i]]
            0 <= i < f.insts@.len() && kept.contains(i) implies g.inst(i) == f.inst(i) by {
            assert(i != v);
        }
    }
    lemma_prune_valid(f, g, kept);
    lemma_whole_drops(f, fs);
    lemma_prune_follows(f, g, kept, fs);
    lemma_follows_refines(f, g, kept, Value(0), Value(0), fs);
    lemma_updated_args(f, g, v, m);
}

/// Splicing well-formed instructions that compute the same.
pub proof fn lemma_splice_keeps(
    f: Function,
    g: Function,
    b: int,
    pos: int,
    count: int,
    fs: FloatSem,
)
    requires
        healthy(f),
        is_spliced(f, g, b, pos, count),
        splice_ok(f, g, b, pos, count, fs),
        never_traps(f, b, pos, fs),
        forall|i: int| #![trigger g.listed(b)[i]] pos <= i <= pos + count ==> inst_ok(g, b, i),
        !(g.inst(f.listed(b)[pos].0 as int).op is Phi),
        args_below(g.inst(f.listed(b)[pos].0 as int), g.insts@.len() as int),
        forall|i: int|
            #![trigger g.inst(i)]
            f.insts@.len() <= i < g.insts@.len() ==> args_below(g.inst(i), g.insts@.len() as int),
    ensures
        healthy(g),
        refines(f, g, fs),
{
    lemma_splice_valid(f, g, b, pos, count);
    lemma_splice_follows(f, g, b, pos, count, fs);
    lemma_follows_refines(f, g, everything(), Value(0), Value(0), fs);
    let n = f.insts@.len() as int;
    let v0 = f.listed(b)[pos].0 as int;
    assert forall|i: int, j: int|
        #![trigger g.inst(i).args[j]]
        0 <= i < g.insts@.len() && 0 <= j < g.inst(i).args.len() implies g.inst(i).args[j].0
        < g.insts@.len() by {
        if i < n && i != v0 {
            assert(g.insts@[i]@ == f.insts@[i]@);
            assert(f.inst(i).args[j].0 < f.insts@.len());
        } else {
            assert(args_below(g.inst(i), g.insts@.len() as int));
        }
    }
    assert forall|c: int, h: int|
        #![trigger g.listed(c)[h]]
        0 <= c < g.blocks@.len() && 0 <= h < g.listed(c).len() implies phi_matches(
        g.inst(g.listed(c)[h].0 as int),
        g.preds(c),
    ) by {
        assert(g.blocks@[c].preds == f.blocks@[c].preds);
        let lf = f.listed(b);
        let v = g.listed(c)[h].0 as int;
        if c == b && pos <= h < pos + count {
            let front = lf.take(pos) + fresh(n, count);
            assert(g.listed(b) == front + lf.skip(pos));
            assert(g.listed(b)[h] == fresh(n, count)[h - pos]);
            assert(!(g.inst(v).op is Phi));
        } else {
            let k = if c == b && h >= pos + count {
                h - count
            } else {
                h
            };
            if c == b && h >= pos + count {
                assert(g.listed(b).len() == lf.len() + count);
                lemma_spliced_list(f, g, b, pos, count, k);
            } else if c == b {
                assert(g.listed(b)[h] == lf[h]);
            }
            assert(g.listed(c)[h] == f.listed(c)[k]);
            assert(phi_matches(f.inst(f.listed(c)[k].0 as int), f.preds(c)));
            if v != v0 {
                assert(g.insts@[v]@ == f.insts@[v]@);
            }
        }
    }
}

/// Setting the instruction of a value that never divides by zero to another that
/// computes the same, or
/// that of a dead value to anything.
pub proof fn lemma_update_keeps(f: Function, g: Function, v: int, m: InstModel, fs: FloatSem)
    requires
        healthy(f),
        is_updated(f, g, v, m),
        args_below(m, f.insts@.len() as int),
        forall|b: int, pos: int| #[trigger]
            def_at(f, v, b, pos) ==> !(m.op is Phi) && inst_ok(g, b, pos) && never_traps(
                f,
                b,
                pos,
                fs,
            ) && update_ok(f, v, m, b, pos, fs),
    ensures
        healthy(g),
        refines(f, g, fs),
{
    if defined(f, v) {
        let (b, pos) = choose|b: int, pos: int| def_at(f, v, b, pos);
        assert(def_at(f, v, b, pos));
        assert(g.listed(b) =~= f.listed(b).take(pos) + fresh(f.insts@.len() as int, 0)
            + f.listed(b).skip(pos));
        assert(is_spliced(f, g, b, pos, 0));
        let v0 = f.listed(b)[pos];
        assert forall|
            rank: spec_fn(int) -> int,
            vals: Frame,
            prev: Option<Block>,
            args: Seq<RtValue>,
        | #[trigger]
            before_value(f, v0, b, pos, rank, vals, prev, args, fs) implies splice_agrees(
            f,
            g,
            v0,
            0,
            vals,
            prev,
            args,
            fs,
        ) by {
            assert(padded(vals, 0) =~= vals);
            assert(run_fresh(g, f.insts@.len() as int, 0, padded(vals, 0), args, fs) == Some(vals));
        }
        lemma_splice_keeps(f, g, b, pos, 0, fs);
    } else {
        lemma_dead_update(f, g, v, m, fs);
    }
}

/// Wherever `v` is computed, `m` computes the same.
pub open spec fn update_ok(
    f: Function,
    v: int,
    m: InstModel,
    b: int,
    pos: int,
    fs: FloatSem,
) -> bool {
    forall|
        rank: spec_fn(int) -> int,
        vals: Frame,
        prev: Option<Block>,
        args: Seq<RtValue>,
    | #[trigger]
        before_value(f, f.listed(b)[pos], b, pos, rank, vals, prev, args, fs) ==> eval_inst(
            m,
            vals,
            prev,
            args,
            fs,
        ) is Some && same(
            eval_inst(f.inst(v), vals, prev, args, fs).unwrap(),
            eval_inst(m, vals, prev, args, fs).unwrap(),
        )
}

/// Redirecting the uses of a value to one that stands for it.
pub proof fn lemma_subst_keeps(f: Function, g: Function, v0: Value, e0: Value, fs: FloatSem)
    requires
        healthy(f),
        is_subst(f, g, v0, e0),
        may_replace(f, v0, e0),
        stands_for(f, v0, e0, fs),
        e0.0 < f.insts@.len(),
    ensures
        healthy(g),
        refines(f, g, fs),
{
    lemma_subst_valid(f, g, v0, e0);
    if v0 == e0 {
        lemma_trivial_subst(f, g, v0, fs);
    } else {
        lemma_subst_follows(f, g, v0, e0, fs);
        lemma_follows_refines(f, g, everything(), v0, e0, fs);
    }
}

/// Redirecting a value to itself.
proof fn lemma_trivial_subst(f: Function, g: Function, v0: Value, fs: FloatSem)
    requires
        healthy(f),
        is_subst(f, g, v0, v0),
    ensures
        refines(f, g, fs),
{
    let kept = listed_values(f);
    lemma_listed_closed(f);
    assert(is_pruned(f, g, kept)) by {
        assert forall|c: int|
            #![trigger g.blocks@[c]]
            #![trigger f.blocks@[c]]
            0 <= c < f.blocks@.len() implies {
            &&& g.blocks@[c].preds == f.blocks@[c].preds
            &&& g.blocks@[c].term == f.blocks@[c].term
            &&& exists|from: Seq<int>| is_kept_list(f.listed(c), g.listed(c), from, kept)
        } by {
            let s = f.listed(c);
            assert forall|k: int| #![trigger s[k]] 0 <= k < s.len() implies kept.contains(
                s[k].0 as int,
            ) by {
                assert(def_at(f, s[k].0 as int, c, k));
            }
            lemma_whole_list(s, kept);
            assert(g.listed(c) == s);
            assert(is_kept_list(s, g.listed(c), Seq::new(s.len(), |i: int| i), kept));
        }
        assert forall|i: int|
            #![trigger g.insts@[i]]
            #![trigger f.insts@[i]]
            0 <= i < f.insts@.len() && kept.contains(i) implies g.inst(i) == f.inst(i) by {
            assert(crate::ir::subst_inst(f.inst(i), v0, v0).args =~= f.inst(i).args);
        }
    }
    lemma_whole_drops(f, fs);
    lemma_prune_follows(f, g, kept, fs);
    lemma_follows_refines(f, g, kept, Value(0), Value(0), fs);
}

/// Dropping values that nothing kept reads.
pub proof fn lemma_prune_keeps(f: Function, g: Function, kept: Set<int>, fs: FloatSem)
    requires
        healthy(f),
        is_pruned(f, g, kept),
        closed_under_uses(f, kept),
        drops_no_trap(f, kept, fs),
        args_in_table(g),
    ensures
        healthy(g),
        refines(f, g, fs),
{
    lemma_prune_valid(f, g, kept);
    lemma_prune_follows(f, g, kept, fs);
    lemma_follows_refines(f, g, kept, Value(0), Value(0), fs);
}

} // verus!
