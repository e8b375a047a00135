//! Dead code elimination.
//!
//! Worklist-based reachability from every block's terminator operand
//! (`Return`'s value, `Branch`'s condition; `Jump` has none) and from every
//! division that may trap, following the operands backward transitively.
//! Anything never reached is dead. A trap is part of what a function does, so
//! a division stays even where its result is not read. Sweeps by
//! filtering each block's list: the instruction table keeps now-unreferenced
//! entries in place, so no renumbering is needed.
use crate::collections::IndexSet;
use crate::dominance::{lemma_unset_update, unset};
use crate::float::FloatSem;
use crate::ir::{uses_of, BlockData, Function, Inst, Terminator, Ty, Value};
use crate::opt::edit::{lemma_listed_closed, lemma_prune_keeps, listed_values};
use crate::opt::keep::{healthy, lemma_prune_valid};
use crate::opt::rewrite::{closed_under_uses, drops_no_trap, is_kept_list, is_pruned};
use crate::opt::simulate::{lemma_never_traps, may_trap, never_traps, refines, term_kept};
use crate::opt::{fit, models, same_code, xor_on_integers, Pass};
use crate::verify::{def_at, defined, valid};
use vstd::prelude::*;

verus! {

/// The terminator of some block reads `v`.
pub open spec fn term_reads(f: Function, v: int) -> bool {
    exists|b: int|
        #![trigger f.term(b)]
        0 <= b < f.blocks@.len() && match f.term(b) {
            Some(Terminator::Return(u)) => u.0 == v,
            Some(Terminator::Branch { cond, .. }) => cond.0 == v,
            _ => false,
        }
}

/// Some block lists `v`, an integer division that may trap.
pub open spec fn trap_listed(f: Function, v: int) -> bool {
    exists|b: int, k: int| #[trigger] def_at(f, v, b, k) && may_trap(f, v)
}

/// A function does more than compute other values with `v`.
pub open spec fn root(f: Function, v: int) -> bool {
    term_reads(f, v) || trap_listed(f, v)
}

/// `v` is an operand of `u`.
pub open spec fn reads_value(f: Function, u: int, v: int) -> bool {
    0 <= u < f.insts@.len() && f.inst(u).args.contains(Value(v as u32)) && 0 <= v <= u32::MAX
}

/// A root depends on `v` over at most `steps` operands.
pub open spec fn live_within(f: Function, v: int, steps: nat) -> bool
    decreases steps,
{
    root(f, v) || (steps > 0 && exists|u: int| #[trigger]
        reads_value(f, u, v) && live_within(f, u, (steps - 1) as nat))
}

/// A terminator or a trap depends on `v`.
pub open spec fn live(f: Function, v: int) -> bool {
    exists|steps: nat| live_within(f, v, steps)
}

/// Tells live values from dead ones.
pub open spec fn is_live(f: Function) -> spec_fn(Value) -> bool {
    |v: Value| live(f, v.0 as int)
}

pub open spec fn live_values(f: Function) -> Set<int> {
    Set::new(|v: int| live(f, v))
}

/// `g` is `f` with only live values listed.
pub open spec fn is_swept(f: Function, g: Function) -> bool {
    &&& g.insts == f.insts
    &&& g.types == f.types
    &&& g.spans == f.spans
    &&& g.entry == f.entry
    &&& g.params == f.params
    &&& g.blocks@.len() == f.blocks@.len()
    &&& forall|b: int|
        #![trigger g.blocks@[b]]
        #![trigger f.blocks@[b]]
        0 <= b < f.blocks@.len() ==> {
            &&& g.blocks@[b].preds == f.blocks@[b].preds
            &&& g.blocks@[b].term == f.blocks@[b].term
            &&& g.listed(b) == f.listed(b).filter(is_live(f))
        }
}

/// An unused function parameter's instruction is a normal dead instruction,
/// so it is swept like any other. The function's signature is untouched: a
/// code generator takes the parameters from there.
pub struct Dce;

proof fn lemma_live_operand(f: Function, u: int, v: int)
    requires
        live(f, u),
        reads_value(f, u, v),
    ensures
        live(f, v),
{
    let n = choose|n: nat| live_within(f, u, n);
    assert(live_within(f, v, n + 1));
}

/// A set that holds the roots and is closed under operands holds
/// all that is live.
proof fn lemma_live_in_closed(f: Function, s: Set<u32>, v: int, steps: nat)
    requires
        valid(f),
        forall|u: int| #[trigger] root(f, u) ==> s.contains(u as u32),
        forall|u: int, w: int| #[trigger]
            reads_value(f, u, w) && s.contains(u as u32) && u <= u32::MAX ==> s.contains(w as u32),
        f.insts@.len() <= u32::MAX,
        live_within(f, v, steps),
    ensures
        s.contains(v as u32),
    decreases steps,
{
    if !root(f, v) {
        let u = choose|u: int| #[trigger]
            reads_value(f, u, v) && live_within(f, u, (steps - 1) as nat);
        lemma_live_in_closed(f, s, u, (steps - 1) as nat);
    }
}

/// What is live in a well-formed function is listed.
proof fn lemma_live_listed(f: Function, v: int, steps: nat)
    requires
        valid(f),
        live_within(f, v, steps),
    ensures
        defined(f, v),
        0 <= v < f.insts@.len(),
    decreases steps,
{
    lemma_listed_closed(f);
    if term_reads(f, v) {
        let b = choose|b: int|
            #![trigger f.term(b)]
            0 <= b < f.blocks@.len() && match f.term(b) {
                Some(Terminator::Return(u)) => u.0 == v,
                Some(Terminator::Branch { cond, .. }) => cond.0 == v,
                _ => false,
            };
        assert(term_kept(f.term(b), listed_values(f)));
    } else if trap_listed(f, v) {
        let (b, k) = choose|b: int, k: int| #[trigger] def_at(f, v, b, k) && may_trap(f, v);
        assert(defined(f, v));
    } else {
        let u = choose|u: int| #[trigger]
            reads_value(f, u, v) && live_within(f, u, (steps - 1) as nat);
        lemma_live_listed(f, u, (steps - 1) as nat);
        let (b, k) = choose|b: int, k: int| def_at(f, u, b, k);
        assert(f.listed(b)[k].0 == u);
        let j = choose|j: int|
            0 <= j < f.inst(u).args.len() && f.inst(u).args[j] == Value(v as u32);
        assert(listed_values(f).contains(u));
        assert(listed_values(f).contains(f.inst(f.listed(b)[k].0 as int).args[j].0 as int));
    }
    let (b, k) = choose|b: int, k: int| def_at(f, v, b, k);
    assert(f.listed(b)[k].0 == v);
}

/// The instruction divides integers, and not by a constant other than zero.
fn divides(f: &Function, v: Value) -> (r: bool)
    requires
        fit(*f),
        v.0 < f.insts@.len(),
    ensures
        r == may_trap(*f, v.0 as int),
{
    let divisor: Value = match &f.insts[v.0 as usize] {
        Inst::Div(_, d) | Inst::Rem(_, d) => *d,
        _ => {
            return false;
        },
    };
    if f.types[v.0 as usize] != Ty::I64 {
        return false;
    }
    assert(f.inst(v.0 as int).args[1] == divisor);
    if divisor.0 as usize >= f.insts.len() {
        return true;
    }
    match &f.insts[divisor.0 as usize] {
        Inst::ConstI64(n) => *n == 0,
        _ => true,
    }
}

/// The divisions of one block that may trap, behind what is there already.
fn push_traps(f: &Function, b: usize, work: &mut Vec<Value>)
    requires
        fit(*f),
        b < f.blocks@.len(),
        forall|k: int|
            #![trigger old(work)@[k]]
            0 <= k < old(work)@.len() ==> live(*f, old(work)@[k].0 as int),
    ensures
        forall|k: int|
            #![trigger final(work)@[k]]
            0 <= k < final(work)@.len() ==> live(*f, final(work)@[k].0 as int),
        forall|u: Value| old(work)@.contains(u) ==> #[trigger] final(work)@.contains(u),
        forall|k: int|
            #![trigger f.listed(b as int)[k]]
            0 <= k < f.listed(b as int).len() && may_trap(*f, f.listed(b as int)[k].0 as int)
                ==> final(work)@.contains(f.listed(b as int)[k]),
{
    let ghost work0 = work@;
    let n: usize = f.blocks[b].insts.len();
    let mut i: usize = 0;
    while i < n
        invariant
            fit(*f),
            b < f.blocks@.len(),
            n == f.listed(b as int).len(),
            i <= n,
            forall|k: int|
                #![trigger work@[k]]
                0 <= k < work@.len() ==> live(*f, work@[k].0 as int),
            forall|u: Value| work0.contains(u) ==> #[trigger] work@.contains(u),
            forall|k: int|
                #![trigger f.listed(b as int)[k]]
                0 <= k < i && may_trap(*f, f.listed(b as int)[k].0 as int) ==> work@.contains(
                    f.listed(b as int)[k],
                ),
        decreases n - i,
    {
        let ghost work1 = work@;
        let v: Value = f.blocks[b].insts[i];
        assert(f.listed(b as int)[i as int] == v);
        assert(crate::verify::inst_ok(*f, b as int, i as int));
        if divides(f, v) {
            proof {
                assert(def_at(*f, v.0 as int, b as int, i as int));
                assert(trap_listed(*f, v.0 as int));
                assert(live_within(*f, v.0 as int, 0));
            }
            work.push(v);
            assert(work@[work1.len() as int] == v);
        }
        assert forall|u: Value| work1.contains(u) implies #[trigger] work@.contains(u) by {
            let k = choose|k: int| 0 <= k < work1.len() && work1[k] == u;
            assert(work@[k] == u);
        }
        i += 1;
    }
}

/// The live values.
fn find_live(f: &Function) -> (used: IndexSet)
    requires
        fit(*f),
    ensures
        forall|v: u32| #[trigger] used@.contains(v) <==> live(*f, v as int),
{
    let mut used: IndexSet = IndexSet::new();
    let mut work: Vec<Value> = Vec::new();
    let mut b: usize = 0;
    while b < f.blocks.len()
        invariant
            fit(*f),
            b <= f.blocks@.len(),
            forall|k: int|
                #![trigger work@[k]]
                0 <= k < work@.len() ==> live(*f, work@[k].0 as int),
            forall|c: int|
                #![trigger f.term(c)]
                0 <= c < b ==> match f.term(c) {
                    Some(Terminator::Return(u)) => work@.contains(u),
                    Some(Terminator::Branch { cond, .. }) => work@.contains(cond),
                    _ => true,
                },
            forall|c: int, k: int|
                #![trigger f.listed(c)[k]]
                0 <= c < b && 0 <= k < f.listed(c).len() && may_trap(*f, f.listed(c)[k].0 as int)
                    ==> work@.contains(f.listed(c)[k]),
        decreases f.blocks@.len() - b,
    {
        let ghost work0 = work@;
        match f.blocks[b].term {
            Some(Terminator::Return(v)) => {
                assert(f.term(b as int) == Some(Terminator::Return(v)));
                assert(live_within(*f, v.0 as int, 0));
                work.push(v);
                assert(work@[work0.len() as int] == v);
            },
            Some(Terminator::Branch { cond, then_, else_ }) => {
                assert(f.term(b as int) == Some(Terminator::Branch { cond, then_, else_ }));
                assert(live_within(*f, cond.0 as int, 0));
                work.push(cond);
                assert(work@[work0.len() as int] == cond);
            },
            _ => {},
        }
        assert forall|u: Value| work0.contains(u) implies work@.contains(u) by {
            let k = choose|k: int| 0 <= k < work0.len() && work0[k] == u;
            assert(work@[k] == u);
        }
        push_traps(f, b, &mut work);
        b += 1;
    }
    let ghost mut flags: Seq<bool> = Seq::new(f.insts@.len(), |i: int| false);
    assert forall|u: int| #[trigger] root(*f, u) implies work@.contains(Value(u as u32)) by {
        if !term_reads(*f, u) {
            let (c, k) = choose|c: int, k: int| #[trigger] def_at(*f, u, c, k) && may_trap(*f, u);
            assert(f.listed(c)[k].0 == u);
        }
        let c = choose|c: int|
            #![trigger f.term(c)]
            0 <= c < f.blocks@.len() && match f.term(c) {
                Some(Terminator::Return(w)) => w.0 == u,
                Some(Terminator::Branch { cond, .. }) => cond.0 == u,
                _ => false,
            };
        assert(term_reads(*f, u) ==> f.term(c) is Some);
    }
    while work.len() > 0
        invariant
            fit(*f),
            flags.len() == f.insts@.len(),
            forall|v: u32| #[trigger] used@.contains(v) ==> live(*f, v as int),
            forall|v: int| #![trigger flags[v]] 0 <= v < flags.len() ==> flags[v] == used@.contains(v as u32),
            forall|k: int|
                #![trigger work@[k]]
                0 <= k < work@.len() ==> live(*f, work@[k].0 as int),
            forall|u: int| #[trigger]
                root(*f, u) ==> used@.contains(u as u32) || work@.contains(Value(u as u32)),
            forall|u: int, w: int| #[trigger]
                reads_value(*f, u, w) && used@.contains(u as u32) ==> used@.contains(w as u32)
                    || work@.contains(Value(w as u32)),
        decreases unset(flags), work@.len(),
    {
        let ghost work0 = work@;
        let ghost used0 = used@;
        let v: Value = work.pop().unwrap();
        let ghost work1 = work@;
        assert(work0[work0.len() - 1] == v);
        assert(live(*f, v.0 as int));
        proof {
            let n = choose|n: nat| live_within(*f, v.0 as int, n);
            lemma_live_listed(*f, v.0 as int, n);
            assert forall|u: Value| work0.contains(u) && u != v implies work1.contains(u) by {
                let k = choose|k: int| 0 <= k < work0.len() && work0[k] == u;
                assert(work1[k] == u);
            }
        }
        if used.insert(v.0) {
            proof {
                assert(!flags[v.0 as int]);
                lemma_unset_update(flags, v.0 as int);
                flags = flags.update(v.0 as int, true);
            }
            let args: Vec<Value> = uses_of(&f.insts[v.0 as usize]);
            let mut j: usize = 0;
            while j < args.len()
                invariant
                    fit(*f),
                    v.0 < f.insts@.len(),
                    args@ == f.inst(v.0 as int).args,
                    j <= args@.len(),
                    live(*f, v.0 as int),
                    forall|k: int|
                        #![trigger work@[k]]
                        0 <= k < work@.len() ==> live(*f, work@[k].0 as int),
                    forall|u: Value| work1.contains(u) ==> #[trigger] work@.contains(u),
                    forall|i: int|
                        #![trigger args@[i]]
                        0 <= i < j ==> work@.contains(args@[i]),
                decreases args@.len() - j,
            {
                let ghost work2 = work@;
                proof {
                    assert(f.inst(v.0 as int).args[j as int] == args@[j as int]);
                    assert(reads_value(*f, v.0 as int, args@[j as int].0 as int));
                    lemma_live_operand(*f, v.0 as int, args@[j as int].0 as int);
                }
                work.push(args[j]);
                assert(work@[work2.len() as int] == args@[j as int]);
                assert forall|u: Value| work2.contains(u) implies #[trigger] work@.contains(u) by {
                    let k = choose|k: int| 0 <= k < work2.len() && work2[k] == u;
                    assert(work@[k] == u);
                }
                j += 1;
            }
            assert forall|u: int, w: int| #[trigger]
                reads_value(*f, u, w) && used@.contains(u as u32) implies used@.contains(w as u32)
                || work@.contains(Value(w as u32)) by {
                if u == v.0 {
                    let i = choose|i: int|
                        0 <= i < f.inst(u).args.len() && f.inst(u).args[i] == Value(w as u32);
                    assert(args@[i] == Value(w as u32));
                } else {
                    assert(used0.contains(u as u32));
                    assert(used0.contains(w as u32) || work0.contains(Value(w as u32)));
                }
            }
        } else {
            assert(used@ =~= used0);
        }
    }
    assert forall|v: u32| #[trigger] used@.contains(v) <==> live(*f, v as int) by {
        if live(*f, v as int) {
            let n = choose|n: nat| live_within(*f, v as int, n);
            lemma_live_in_closed(*f, used@, v as int, n);
        }
    }
    used
}

proof fn lemma_filter_step(s: Seq<Value>, k: int, p: spec_fn(Value) -> bool)
    requires
        0 <= k < s.len(),
    ensures
        s.take(k + 1).filter(p) == (if p(s[k]) {
            s.take(k).filter(p).push(s[k])
        } else {
            s.take(k).filter(p)
        }),
{
    reveal(Seq::filter);
    assert(s.take(k + 1).drop_last() =~= s.take(k));
}

/// The live values of a list, and the places they come from.
fn keep_live(list: &Vec<Value>, used: &IndexSet, Ghost(f): Ghost<Function>) -> (r: (
    Vec<Value>,
    Ghost<Seq<int>>,
))
    requires
        forall|v: u32| #[trigger] used@.contains(v) <==> live(f, v as int),
    ensures
        r.0@ == list@.filter(is_live(f)),
        is_kept_list(list@, r.0@, r.1@, live_values(f)),
        r.0@.len() <= list@.len(),
        r.0@.len() == list@.len() ==> r.0@ == list@,
{
    let ghost p = is_live(f);
    let ghost kept = live_values(f);
    let mut out: Vec<Value> = Vec::new();
    let ghost mut from: Seq<int> = Seq::empty();
    let mut k: usize = 0;
    proof {
        reveal(Seq::filter);
        assert(list@.take(0).filter(p) =~= Seq::<Value>::empty());
    }
    while k < list.len()
        invariant
            forall|v: u32| #[trigger] used@.contains(v) <==> live(f, v as int),
            p == is_live(f),
            kept == live_values(f),
            k <= list@.len(),
            out@ == list@.take(k as int).filter(p),
            from.len() == out@.len(),
            out@.len() <= k,
            out@.len() == k ==> out@ == list@.take(k as int),
            forall|i: int|
                #![trigger from[i]]
                0 <= i < from.len() ==> 0 <= from[i] < k && out@[i] == list@[from[i]]
                    && kept.contains(out@[i].0 as int),
            forall|i: int, j: int|
                #![trigger from[i], from[j]]
                0 <= i < j < from.len() ==> from[i] < from[j],
            forall|i: int|
                #![trigger list@[i]]
                0 <= i < k && kept.contains(list@[i].0 as int) ==> from.contains(i),
        decreases list@.len() - k,
    {
        let v: Value = list[k];
        proof {
            lemma_filter_step(list@, k as int, p);
        }
        let ghost from0 = from;
        assert(used@.contains(v.0) == live(f, v.0 as int));
        assert(p(v) == live(f, v.0 as int));
        assert(kept.contains(v.0 as int) == live(f, v.0 as int));
        if used.contains(v.0) {
            out.push(v);
            proof {
                from = from.push(k as int);
                assert(from[from0.len() as int] == k);
                assert(list@.take(k + 1) =~= list@.take(k as int).push(v));
            }
        }
        assert forall|i: int|
            #![trigger list@[i]]
            0 <= i < k + 1 && kept.contains(list@[i].0 as int) implies from.contains(i) by {
            if i < k {
                assert(from0.contains(i));
                let j = choose|j: int| 0 <= j < from0.len() && from0[j] == i;
                assert(from[j] == i);
            }
        }
        k += 1;
    }
    assert(list@.take(k as int) =~= list@);
    (out, Ghost(from))
}

/// Block `c` has been swept.
pub open spec fn block_swept(f: Function, g: Function, c: int) -> bool {
    &&& g.blocks@[c].preds == f.blocks@[c].preds
    &&& g.blocks@[c].term == f.blocks@[c].term
    &&& g.listed(c) == f.listed(c).filter(is_live(f))
    &&& exists|from: Seq<int>| is_kept_list(f.listed(c), g.listed(c), from, live_values(f))
}

/// What is dead never divides by zero.
proof fn lemma_dead_never_traps(f: Function, fs: FloatSem)
    requires
        valid(f),
    ensures
        drops_no_trap(f, live_values(f), fs),
{
    assert forall|b: int, k: int|
        #![trigger f.listed(b)[k]]
        0 <= b < f.blocks@.len() && 0 <= k < f.listed(b).len() && !live_values(f).contains(
            f.listed(b)[k].0 as int,
        ) implies never_traps(f, b, k, fs) by {
        let v = f.listed(b)[k].0 as int;
        if may_trap(f, v) {
            assert(def_at(f, v, b, k));
            assert(trap_listed(f, v));
            assert(live_within(f, v, 0));
        }
        lemma_never_traps(f, b, k, fs);
    }
}

/// Sweeping keeps what a function computes.
pub proof fn lemma_sweep_keeps(f: Function, g: Function)
    requires
        healthy(f),
        g.insts == f.insts,
        g.types == f.types,
        g.spans == f.spans,
        g.entry == f.entry,
        g.params == f.params,
        g.blocks@.len() == f.blocks@.len(),
        forall|c: int| #![trigger g.blocks@[c]] 0 <= c < f.blocks@.len() ==> block_swept(f, g, c),
    ensures
        healthy(g),
        xor_on_integers(f) ==> xor_on_integers(g),
        forall|fs: FloatSem| #[trigger] refines(f, g, fs),
{
    let kept = live_values(f);
    assert forall|c: int|
        #![trigger g.blocks@[c]]
        #![trigger f.blocks@[c]]
        0 <= c < f.blocks@.len() implies {
        &&& g.blocks@[c].preds == f.blocks@[c].preds
        &&& g.blocks@[c].term == f.blocks@[c].term
        &&& exists|from: Seq<int>| is_kept_list(f.listed(c), g.listed(c), from, kept)
    } by {
        assert(g.blocks@[c].insts == g.blocks@[c].insts);
        assert(block_swept(f, g, c));
    }
    assert(is_pruned(f, g, kept));
    lemma_live_closed(f);
    assert forall|i: int, j: int|
        #![trigger g.inst(i).args[j]]
        0 <= i < g.insts@.len() && 0 <= j < g.inst(i).args.len() implies g.inst(i).args[j].0
        < g.insts@.len() by {
        assert(f.inst(i).args[j].0 < f.insts@.len());
    }
    assert forall|fs: FloatSem| #[trigger] refines(f, g, fs) by {
        lemma_dead_never_traps(f, fs);
        lemma_prune_keeps(f, g, kept, fs);
    }
    let none: FloatSem = |op: crate::float::FloatOp, a: u64, b: u64, c: u64| 0u64;
    lemma_dead_never_traps(f, none);
    lemma_prune_keeps(f, g, kept, none);
    if xor_on_integers(f) {
        assert forall|i: int|
            #![trigger g.inst(i)]
            0 <= i < g.insts@.len() && g.inst(i).op is Xor implies g.types@[i]
            != crate::ir::Ty::Bool by {
            assert(f.inst(i).op is Xor);
        }
    }
}

/// Sweeping keeps what a function does more than compute.
proof fn lemma_same_roots(f: Function, g: Function, v: int)
    requires
        is_swept(f, g),
    ensures
        root(g, v) == root(f, v),
{
    if term_reads(f, v) {
        let b = choose|b: int|
            #![trigger f.term(b)]
            0 <= b < f.blocks@.len() && match f.term(b) {
                Some(Terminator::Return(u)) => u.0 == v,
                Some(Terminator::Branch { cond, .. }) => cond.0 == v,
                _ => false,
            };
        assert(g.blocks@[b].term == f.blocks@[b].term);
        assert(g.term(b) == f.term(b));
    }
    if term_reads(g, v) {
        let b = choose|b: int|
            #![trigger g.term(b)]
            0 <= b < g.blocks@.len() && match g.term(b) {
                Some(Terminator::Return(u)) => u.0 == v,
                Some(Terminator::Branch { cond, .. }) => cond.0 == v,
                _ => false,
            };
        assert(g.blocks@[b].term == f.blocks@[b].term);
        assert(f.term(b) == g.term(b));
    }
    if trap_listed(f, v) {
        let (b, k) = choose|b: int, k: int| #[trigger] def_at(f, v, b, k) && may_trap(f, v);
        assert(live_within(f, v, 0));
        let u = f.listed(b)[k];
        assert(is_live(f)(u));
        assert(g.blocks@[b].term == f.blocks@[b].term);
        f.listed(b).lemma_filter_contains(is_live(f), k);
        let i = g.listed(b).index_of(u);
        assert(def_at(g, v, b, i));
    }
    if trap_listed(g, v) {
        let (b, k) = choose|b: int, k: int| #[trigger] def_at(g, v, b, k) && may_trap(g, v);
        let u = g.listed(b)[k];
        assert(g.blocks@[b].term == f.blocks@[b].term);
        assert(g.listed(b).contains(u));
        lemma_filter_from(f.listed(b), is_live(f), u);
        let i = f.listed(b).index_of(u);
        assert(def_at(f, v, b, i));
    }
}

/// What is live stays live, and nothing else becomes so.
proof fn lemma_same_live(f: Function, g: Function, v: int, steps: nat)
    requires
        is_swept(f, g),
    ensures
        live_within(g, v, steps) == live_within(f, v, steps),
    decreases steps,
{
    lemma_same_roots(f, g, v);
    if steps > 0 {
        let less = (steps - 1) as nat;
        assert forall|u: int| live_within(g, u, less) == live_within(f, u, less) by {
            lemma_same_live(f, g, u, less);
        }
        assert forall|u: int| #[trigger] reads_value(g, u, v) == reads_value(f, u, v) by {
            assert(g.insts@ == f.insts@);
        }
        if live_within(f, v, steps) && !root(f, v) {
            let u = choose|u: int| #[trigger] reads_value(f, u, v) && live_within(f, u, less);
            assert(reads_value(g, u, v) && live_within(g, u, less));
        }
        if live_within(g, v, steps) && !root(g, v) {
            let u = choose|u: int| #[trigger] reads_value(g, u, v) && live_within(g, u, less);
            assert(reads_value(f, u, v) && live_within(f, u, less));
        }
    }
}

/// A second sweep changes nothing.
pub proof fn lemma_second_sweep(f: Function, g: Function, h: Function)
    requires
        is_swept(f, g),
        is_swept(g, h),
    ensures
        same_code(g, h),
{
    assert(models(h) =~= models(g));
    assert forall|n: int| #[trigger] live(g, n) == live(f, n) by {
        if live(f, n) {
            let steps = choose|steps: nat| live_within(f, n, steps);
            lemma_same_live(f, g, n, steps);
            assert(live_within(g, n, steps));
        }
        if live(g, n) {
            let steps = choose|steps: nat| live_within(g, n, steps);
            lemma_same_live(f, g, n, steps);
            assert(live_within(f, n, steps));
        }
    }
    assert forall|b: int|
        #![trigger h.blocks@[b]]
        #![trigger g.blocks@[b]]
        0 <= b < g.blocks@.len() implies {
        &&& h.listed(b) == g.listed(b)
        &&& h.term(b) == g.term(b)
        &&& h.preds(b) == g.preds(b)
    } by {
        let list = g.listed(b);
        assert(h.blocks@[b].term == g.blocks@[b].term);
        assert(g.blocks@[b].term == f.blocks@[b].term);
        assert forall|i: int| 0 <= i < list.len() implies is_live(g)(#[trigger] list[i]) by {
            f.listed(b).lemma_filter_pred(is_live(f), i);
            assert(live(g, list[i].0 as int) == live(f, list[i].0 as int));
        }
        lemma_filter_all(list, is_live(g));
    }
}

/// What is kept of a list stands in it.
proof fn lemma_filter_from(s: Seq<Value>, p: spec_fn(Value) -> bool, x: Value)
    requires
        s.filter(p).contains(x),
    ensures
        s.contains(x),
    decreases s.len(),
{
    reveal(Seq::filter);
    if s.len() > 0 {
        let less = s.drop_last();
        let i = s.filter(p).index_of(x);
        if i < less.filter(p).len() {
            assert(less.filter(p)[i] == x);
            lemma_filter_from(less, p, x);
            let j = less.index_of(x);
            assert(s[j] == x);
        } else {
            assert(s[s.len() - 1] == x);
        }
    }
}

/// A list of values that are all kept is kept whole.
proof fn lemma_filter_all(s: Seq<Value>, p: spec_fn(Value) -> bool)
    requires
        forall|i: int| 0 <= i < s.len() ==> p(#[trigger] s[i]),
    ensures
        s.filter(p) == s,
    decreases s.len(),
{
    reveal(Seq::filter);
    if s.len() > 0 {
        lemma_filter_all(s.drop_last(), p);
        assert(s.drop_last().push(s.last()) =~= s);
    } else {
        assert(s.filter(p) =~= s);
    }
}

impl Pass for Dce {
    open spec fn ready(&self) -> bool {
        true
    }

    open spec fn keeps_meaning(&self, fs: FloatSem) -> bool {
        true
    }

    open spec fn title(&self) -> Seq<char> {
        "dce"@
    }

    open spec fn does(&self, before: Function, after: Function, changed: bool) -> bool {
        &&& is_swept(before, after)
        &&& !changed <==> same_code(before, after)
    }

    fn name(&self) -> (r: &'static str) {
        "dce"
    }

    fn run(&mut self, f: &mut Function) -> (changed: bool)
        ensures
            is_swept(*old(f), *final(f)),
            !changed <==> same_code(*old(f), *final(f)),
            valid(*old(f)) ==> valid(*final(f)),
            forall|fs: FloatSem|
                healthy(*old(f)) ==> healthy(*final(f)) && #[trigger] refines(
                    *old(f),
                    *final(f),
                    fs,
                ),
    {
        let ghost start = *f;
        let ghost kept = live_values(start);
        let used: IndexSet = find_live(f);
        let mut changed: bool = false;
        let mut b: usize = 0;
        while b < f.blocks.len()
            invariant
                start == *old(f),
                kept == live_values(start),
                forall|v: u32| #[trigger] used@.contains(v) <==> live(start, v as int),
                b <= f.blocks@.len(),
                f.insts == start.insts,
                f.types == start.types,
                f.spans == start.spans,
                f.entry == start.entry,
                f.params == start.params,
                f.blocks@.len() == start.blocks@.len(),
                forall|c: int|
                    #![trigger f.blocks@[c]]
                    0 <= c < b ==> block_swept(start, *f, c),
                forall|c: int|
                    #![trigger f.blocks@[c]]
                    b <= c < f.blocks@.len() ==> f.blocks@[c] == start.blocks@[c],
                changed ==> exists|c: int|
                    #![trigger f.blocks@[c]]
                    0 <= c < b && f.listed(c) != start.listed(c),
                !changed ==> forall|c: int|
                    #![trigger f.blocks@[c]]
                    0 <= c < b ==> f.listed(c) == start.listed(c),
            decreases f.blocks@.len() - b,
        {
            let ghost mid = *f;
            let before: usize = f.blocks[b].insts.len();
            let (list, Ghost(from)): (Vec<Value>, Ghost<Seq<int>>) = keep_live_in(
                f,
                &used,
                b,
                Ghost(start),
            );
            let shorter: bool = list.len() != before;
            let data: &mut BlockData = &mut f.blocks[b];
            data.insts = list;
            assert(is_kept_list(start.listed(b as int), f.listed(b as int), from, kept));
            assert(block_swept(start, *f, b as int));
            assert forall|c: int| #![trigger f.blocks@[c]] 0 <= c < b implies f.blocks@[c]
                == mid.blocks@[c] && block_swept(start, *f, c) by {
                assert(block_swept(start, mid, c));
                let fr = choose|fr: Seq<int>|
                    is_kept_list(start.listed(c), mid.listed(c), fr, live_values(start));
                assert(is_kept_list(start.listed(c), f.listed(c), fr, live_values(start)));
            }
            if shorter {
                changed = true;
                assert(f.blocks@[b as int].insts@ != start.blocks@[b as int].insts@);
            } else {
                proof {
                    if changed {
                        let c = choose|c: int|
                            #![trigger mid.blocks@[c]]
                            0 <= c < b && mid.listed(c) != start.listed(c);
                        assert(f.blocks@[c] == mid.blocks@[c]);
                    }
                }
            }
            b += 1;
        }
        proof {
            assert forall|c: int|
                #![trigger f.blocks@[c]]
                #![trigger start.blocks@[c]]
                0 <= c < start.blocks@.len() implies block_swept(start, *f, c) by {
                assert(f.blocks@[c].insts@ == f.blocks@[c].insts@);
            }
            assert(models(*f) =~= models(start));
            if !changed {
                assert forall|c: int|
                    #![trigger f.blocks@[c]]
                    #![trigger start.blocks@[c]]
                    0 <= c < start.blocks@.len() implies {
                    &&& f.listed(c) == start.listed(c)
                    &&& f.term(c) == start.term(c)
                    &&& f.preds(c) == start.preds(c)
                } by {
                    assert(block_swept(start, *f, c));
                }
            }
            if valid(start) {
                lemma_live_closed(start);
                assert(is_pruned(start, *f, kept));
                lemma_prune_valid(start, *f, kept);
            }
            if healthy(start) {
                lemma_sweep_keeps(start, *f);
            }
        }
        changed
    }
}

fn keep_live_in(f: &Function, used: &IndexSet, b: usize, Ghost(start): Ghost<Function>) -> (r: (
    Vec<Value>,
    Ghost<Seq<int>>,
))
    requires
        b < f.blocks@.len(),
        forall|v: u32| #[trigger] used@.contains(v) <==> live(start, v as int),
    ensures
        r.0@ == f.listed(b as int).filter(is_live(start)),
        is_kept_list(f.listed(b as int), r.0@, r.1@, live_values(start)),
        r.0@.len() <= f.listed(b as int).len(),
        r.0@.len() == f.listed(b as int).len() ==> r.0@ == f.listed(b as int),
{
    keep_live(&f.blocks[b].insts, used, Ghost(start))
}

/// Live values read live values.
proof fn lemma_live_closed(f: Function)
    requires
        valid(f),
    ensures
        closed_under_uses(f, live_values(f)),
{
    let kept = live_values(f);
    assert forall|b: int, k: int, j: int|
        #![trigger f.inst(f.listed(b)[k].0 as int).args[j]]
        0 <= b < f.blocks@.len() && 0 <= k < f.listed(b).len() && kept.contains(
            f.listed(b)[k].0 as int,
        ) && 0 <= j < f.inst(f.listed(b)[k].0 as int).args.len() implies kept.contains(
        f.inst(f.listed(b)[k].0 as int).args[j].0 as int,
    ) by {
        let u = f.listed(b)[k].0 as int;
        assert(f.listed(b)[k].0 < f.insts@.len());
        let a = f.inst(u).args[j];
        assert(reads_value(f, u, a.0 as int));
        lemma_live_operand(f, u, a.0 as int);
    }
    assert forall|b: int| #![trigger f.term(b)] 0 <= b < f.blocks@.len() implies term_kept(
        f.term(b),
        kept,
    ) by {
        match f.term(b) {
            Some(Terminator::Return(v)) => {
                assert(term_reads(f, v.0 as int));
                assert(live_within(f, v.0 as int, 0));
            },
            Some(Terminator::Branch { cond, .. }) => {
                assert(term_reads(f, cond.0 as int));
                assert(live_within(f, cond.0 as int, 0));
            },
            _ => {},
        }
    }
}

} // verus!
