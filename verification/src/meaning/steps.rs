//! Runs through the code that lowering an expression adds.
use crate::builder::{emitted, next_value, same_shape, shaped, with_seal, written, State};
use crate::float::FloatSem;
use crate::interp::RtValue;
use crate::interp::{eval, reads};
use crate::ir::{Block, InstModel, Span, Terminator, Ty, Value};
use crate::lower::{
    advanced, forked, joined, lemma_advanced_trans, lemma_emitted, lemma_forked, lemma_joined,
    lemma_same_blocks, ready,
};
use crate::meaning::trace::{
    at, computes, count_at, earlier, facts_ok, fresh_ok, holds_at, knows, leads, learned,
    lemma_add, lemma_add_aside, lemma_computes_richer, lemma_write, names_ok, path_ok,
    reachable, sound, tables_ok, Trace,
};
use vstd::prelude::*;

verus! {

// ---------------------------------------------------------------------------
// Steps of lowering

/// The run comes to the end of block `cur`, or it does not come there at all.
pub open spec fn stands(h: Trace, cur: Block, live: bool) -> bool {
    if live {
        h.path.last() == cur.0
    } else {
        !h.path.contains(cur.0 as int)
    }
}

/// The run found the value to be `x`.
pub open spec fn known(h: Trace, v: Value, x: RtValue) -> bool {
    h.facts.dom().contains(v.0) && h.facts[v.0].x == x
}

/// The trace went on while code was added to block `cur` of a function of `n`
/// blocks, which bound the names.
pub open spec fn later(n: nat, cur: Block, h: Trace, g: Trace, names: Set<Seq<char>>) -> bool {
    &&& knows(h, g)
    &&& h.path.len() <= g.path.len()
    &&& forall|i: int| #![trigger g.path[i]] 0 <= i < h.path.len() ==> g.path[i] == h.path[i]
    &&& forall|i: int| #![trigger g.path[i]] h.path.len() <= i < g.path.len() ==> g.path[i] >= n
    &&& forall|name: Seq<char>|
        #![trigger h.env.dom().contains(name)]
        h.env.dom().contains(name) ==> g.env.dom().contains(name) && g.env[name] == h.env[name]
    &&& forall|name: Seq<char>|
        #![trigger g.seen.contains(name)]
        g.seen.contains(name) ==> h.seen.contains(name) || names.contains(name)
    &&& h.avail.len() <= g.avail.len()
    &&& forall|b: int|
        #![trigger g.avail[b]]
        0 <= b < h.avail.len() && b != cur.0 ==> g.avail[b] == h.avail[b]
    &&& h.avail[cur.0 as int].subset_of(g.avail[cur.0 as int])
}

/// Code was added to block `cur` that ends in block `exit`.
pub open spec fn moves(
    s: State,
    cur: Block,
    h: Trace,
    live: bool,
    exit: Block,
    t: State,
    g: Trace,
    names: Set<Seq<char>>,
    args: Seq<RtValue>,
    fs: FloatSem,
) -> bool {
    &&& sound(t, g, Set::empty(), args, fs)
    &&& ready(t, exit)
    &&& advanced(s, cur, t, exit)
    &&& later(s.ir.blocks.len(), cur, h, g, names)
    &&& h.avail[cur.0 as int].subset_of(g.avail[exit.0 as int])
    &&& stands(g, exit, live)
    &&& !live ==> g.path == h.path
    &&& s.ir.insts.len() <= t.ir.insts.len()
}

/// The value is there, and in the run it is `x`.
pub open spec fn has(t: State, g: Trace, live: bool, v: Value, x: RtValue) -> bool {
    v.0 < t.ir.insts.len() && (live ==> known(g, v, x))
}

#[verifier::rlimit(60)]
pub(crate) proof fn lemma_moves_trans(
    s: State,
    cur: Block,
    h: Trace,
    live: bool,
    b: Block,
    t: State,
    f: Trace,
    first: Set<Seq<char>>,
    exit: Block,
    z: State,
    g: Trace,
    second: Set<Seq<char>>,
    args: Seq<RtValue>,
    fs: FloatSem,
)
    requires
        ready(s, cur),
        sound(s, h, Set::empty(), args, fs),
        moves(s, cur, h, live, b, t, f, first, args, fs),
        moves(t, b, f, live, exit, z, g, second, args, fs),
    ensures
        moves(s, cur, h, live, exit, z, g, first.union(second), args, fs),
        forall|v: Value, x: RtValue|
            #![trigger has(t, f, live, v, x)]
            has(t, f, live, v, x) ==> has(z, g, live, v, x),
{
    reveal(sound);
    lemma_advanced_trans(s, cur, t, b, z, exit);
    assert(knows(h, g)) by {
        assert forall|u: u32|
            #![trigger h.facts.dom().contains(u)]
            h.facts.dom().contains(u) implies g.facts.dom().contains(u) && g.facts[u]
            == h.facts[u] by {
            assert(f.facts.dom().contains(u));
        }
    }
    assert forall|i: int| #![trigger g.path[i]] 0 <= i < h.path.len() implies g.path[i]
        == h.path[i] by {
        assert(f.path[i] == h.path[i]);
    }
    assert forall|i: int|
        #![trigger g.path[i]]
        h.path.len() <= i < g.path.len() implies g.path[i] >= s.ir.blocks.len() by {
        if i < f.path.len() {
            assert(g.path[i] == f.path[i]);
        }
    }
    assert forall|name: Seq<char>|
        #![trigger h.env.dom().contains(name)]
        h.env.dom().contains(name) implies g.env.dom().contains(name) && g.env[name]
        == h.env[name] by {
        assert(f.env.dom().contains(name));
    }
    assert forall|name: Seq<char>|
        #![trigger g.seen.contains(name)]
        g.seen.contains(name) implies h.seen.contains(name) || first.union(second).contains(
        name,
    ) by {
        if !second.contains(name) {
            assert(f.seen.contains(name));
        }
    }
    assert forall|c: int|
        #![trigger g.avail[c]]
        0 <= c < h.avail.len() && c != cur.0 implies g.avail[c] == h.avail[c] by {
        assert(f.avail[c] == h.avail[c]);
        assert(c != b.0);
    }
    if b != cur {
        assert(g.avail[cur.0 as int] == f.avail[cur.0 as int]);
    }
}

/// An instruction at the end of the current block.
#[verifier::rlimit(40)]
pub(crate) proof fn lemma_emit(
    s: State,
    cur: Block,
    h: Trace,
    live: bool,
    m: InstModel,
    ty: Ty,
    span: Span,
    x: RtValue,
    args: Seq<RtValue>,
    fs: FloatSem,
) -> (g: Trace)
    requires
        sound(s, h, Set::empty(), args, fs),
        ready(s, cur),
        stands(h, cur, live),
        s.ir.insts.len() < u32::MAX,
        live ==> {
            &&& !(m.op is Phi)
            &&& reads(m.op) <= m.args.len()
            &&& forall|j: int|
                #![trigger m.args[j]]
                0 <= j < reads(m.op) ==> h.facts.dom().contains(m.args[j].0)
            &&& eval(m.op, Seq::new(reads(m.op), |j: int| h.facts[m.args[j].0].x), args, fs)
                == Some(x)
        },
    ensures
        moves(s, cur, h, live, cur, emitted(s, cur, m, ty, span), g, Set::empty(), args, fs),
        has(emitted(s, cur, m, ty, span), g, live, next_value(s), x),
{
    reveal(sound);
    let t = emitted(s, cur, m, ty, span);
    if live {
        let i = h.path.len() - 1;
        assert(h.path[i] == cur.0);
        assert forall|j: int| #![trigger m.args[j]] 0 <= j < reads(m.op) implies earlier(
            h,
            m.args[j],
            i,
            count_at(s, h, i),
        ) by {
            let f = h.facts[m.args[j].0];
            assert(0 <= f.i < h.path.len());
        }
        lemma_add(s, h, Set::empty(), i, m, ty, span, x, args, fs);
        assert(Block(h.path[i] as u32) == cur);
        let g = learned(s, h, i, x);
        lemma_emitted(s, cur, m, ty, span);
        g
    } else {
        lemma_add_aside(s, h, Set::empty(), cur, m, ty, span, args, fs);
        lemma_emitted(s, cur, m, ty, span);
        h
    }
}

/// A variable is bound in the current block.
#[verifier::rlimit(60)]
pub(crate) proof fn lemma_bind(
    s: State,
    cur: Block,
    h: Trace,
    live: bool,
    name: Seq<char>,
    v: Value,
    x: RtValue,
    args: Seq<RtValue>,
    fs: FloatSem,
) -> (g: Trace)
    requires
        sound(s, h, Set::empty(), args, fs),
        ready(s, cur),
        stands(h, cur, live),
        !h.seen.contains(name),
        v.0 < s.ir.insts.len(),
        live ==> known(h, v, x),
    ensures
        moves(
            s,
            cur,
            h,
            live,
            cur,
            written(s, name, cur, v),
            g,
            Set::empty().insert(name),
            args,
            fs,
        ),
        g.avail[cur.0 as int].contains(name),
        live ==> g.env.dom().contains(name) && g.env[name] == x,
{
    reveal(sound);
    let c = cur.0 as int;
    let t = written(s, name, cur, v);
    let wide = Trace {
        env: if live {
            h.env.insert(name, x)
        } else {
            h.env
        },
        seen: h.seen.insert(name),
        ..h
    };
    lemma_names_wide(s, h, wide, name);
    assert forall|j: int, k: int|
        #![trigger at(s, wide, j, k)]
        0 <= j < wide.path.len() && 0 <= k < count_at(s, wide, j) implies {
        let u = at(s, wide, j, k);
        &&& wide.facts.dom().contains(u.0)
        &&& wide.facts[u.0].i == j
        &&& wide.facts[u.0].k == k
        &&& u.0 < s.ir.insts.len()
        &&& computes(wide, s.ir.insts[u.0 as int], j, k, wide.facts[u.0].x, args, fs)
    } by {
        let u = at(s, h, j, k);
        assert(at(s, wide, j, k) == u);
        lemma_computes_richer(
            h,
            wide,
            s.ir.insts[u.0 as int],
            j,
            k,
            h.facts[u.0].x,
            args,
            fs,
        );
    }
    assert forall|u: u32| #![trigger wide.facts[u]] wide.facts.dom().contains(u) implies {
        let f = wide.facts[u];
        0 <= f.i < wide.path.len() && 0 <= f.k < count_at(s, wide, f.i) && at(s, wide, f.i, f.k)
            == Value(u)
    } by {
        let f = h.facts[u];
        assert(at(s, h, f.i, f.k) == Value(u));
    }
    assert forall|i: int| #![trigger leads(s, wide, i)] 0 <= i < wide.path.len() - 1 implies leads(
        s,
        wide,
        i,
    ) by {
        assert(leads(s, h, i));
    }
    assert(sound(s, wide, Set::empty(), args, fs));
    assert forall|i: int| #![trigger wide.path[i]] 0 <= i < wide.path.len() && wide.path[i]
        == c implies {
        &&& wide.env.dom().contains(name)
        &&& earlier(wide, v, i + 1, 0)
        &&& wide.facts[v.0].x == wide.env[name]
    } by {
        assert(h.path.contains(c));
        assert(h.path[i] == h.path[h.path.len() - 1]);
        assert(i == h.path.len() - 1);
        let f = h.facts[v.0];
        assert(0 <= f.i < h.path.len());
    }
    lemma_write(s, wide, Set::empty(), name, cur, v, args, fs);
    let g = Trace { avail: h.avail.update(c, h.avail[c].insert(name)), ..wide };
    assert forall|b: int, other: Seq<char>|
        #![trigger g.avail[b].contains(other)]
        0 <= b < g.avail.len() && g.avail[b].contains(other) implies g.seen.contains(other)
        && reachable(t, g, b, other) by {
        if b == c && other == name {
            assert(t.defs[c].dom().contains(name));
        } else {
            assert(wide.avail[b].contains(other));
            assert(reachable(t, wide, b, other));
        }
    }
    assert forall|i: int, other: Seq<char>|
        #![trigger g.avail[g.path[i]].contains(other)]
        0 <= i < g.path.len() && g.avail[g.path[i]].contains(
            other,
        ) implies g.env.dom().contains(other) by {
        if g.path[i] == c && other == name {
            assert(wide.path[i] == c);
        } else {
            assert(wide.avail[wide.path[i]].contains(other));
        }
    }
    lemma_same_trace(t, wide, g, args, fs);
    assert(same_shape(s, t));
    lemma_same_blocks(s, t, cur);
    g
}

/// A new name changes nothing for the others.
pub(crate) proof fn lemma_names_wide(s: State, h: Trace, g: Trace, name: Seq<char>)
    requires
        names_ok(s, h),
        path_ok(s, h),
        shaped(s),
        !h.seen.contains(name),
        g.path == h.path,
        g.facts == h.facts,
        g.avail == h.avail,
        g.seen == h.seen.insert(name),
        g.env == h.env || exists|x: RtValue| g.env == #[trigger] h.env.insert(name, x),
    ensures
        names_ok(s, g),
{
    assert forall|other: Seq<char>|
        #![trigger h.env.dom().contains(other)]
        h.env.dom().contains(other) implies g.env.dom().contains(other) && g.env[other]
        == h.env[other] by {
        assert(h.seen.contains(other));
    }
    assert forall|i: int, other: Seq<char>|
        #![trigger s.defs[g.path[i]].dom().contains(other)]
        0 <= i < g.path.len() && s.defs[g.path[i]].dom().contains(other) implies holds_at(
        s,
        g,
        i,
        other,
    ) by {
        assert(s.defs[h.path[i]].dom().contains(other));
        assert(holds_at(s, h, i, other));
    }
    assert forall|b: int, other: Seq<char>|
        #![trigger g.avail[b].contains(other)]
        0 <= b < g.avail.len() && g.avail[b].contains(other) implies g.seen.contains(other)
        && reachable(s, g, b, other) by {
        assert(h.avail[b].contains(other));
        assert(reachable(s, h, b, other));
    }
    assert forall|i: int, other: Seq<char>|
        #![trigger g.avail[g.path[i]].contains(other)]
        0 <= i < g.path.len() && g.avail[g.path[i]].contains(
            other,
        ) implies g.env.dom().contains(other) by {
        assert(h.avail[h.path[i]].contains(other));
    }
    assert forall|other: Seq<char>|
        #![trigger g.env.dom().contains(other)]
        g.env.dom().contains(other) implies g.seen.contains(other) by {
        if other != name {
            assert(h.env.dom().contains(other));
        }
    }
}

/// Two traces that differ in the readable variables alone.
#[verifier::rlimit(60)]
pub(crate) proof fn lemma_same_trace(
    s: State,
    h: Trace,
    g: Trace,
    args: Seq<RtValue>,
    fs: FloatSem,
)
    requires
        sound(s, h, Set::empty(), args, fs),
        g.path == h.path,
        g.facts == h.facts,
        g.env == h.env,
        g.seen == h.seen,
        g.avail.len() == h.avail.len(),
        forall|b: int, name: Seq<char>|
            #![trigger g.avail[b].contains(name)]
            0 <= b < g.avail.len() && g.avail[b].contains(name) ==> g.seen.contains(name)
                && reachable(s, g, b, name),
        forall|i: int, name: Seq<char>|
            #![trigger g.avail[g.path[i]].contains(name)]
            0 <= i < g.path.len() && g.avail[g.path[i]].contains(name) ==> g.env.dom().contains(
                name,
            ),
    ensures
        sound(s, g, Set::empty(), args, fs),
{
    reveal(sound);
    assert forall|j: int, k: int|
        #![trigger at(s, g, j, k)]
        0 <= j < g.path.len() && 0 <= k < count_at(s, g, j) implies {
        let u = at(s, g, j, k);
        &&& g.facts.dom().contains(u.0)
        &&& g.facts[u.0].i == j
        &&& g.facts[u.0].k == k
        &&& u.0 < s.ir.insts.len()
        &&& computes(g, s.ir.insts[u.0 as int], j, k, g.facts[u.0].x, args, fs)
    } by {
        let u = at(s, h, j, k);
        assert(at(s, g, j, k) == u);
        lemma_computes_richer(h, g, s.ir.insts[u.0 as int], j, k, h.facts[u.0].x, args, fs);
    }
    assert forall|u: u32| #![trigger g.facts[u]] g.facts.dom().contains(u) implies {
        let f = g.facts[u];
        0 <= f.i < g.path.len() && 0 <= f.k < count_at(s, g, f.i) && at(s, g, f.i, f.k) == Value(u)
    } by {
        let f = h.facts[u];
        assert(at(s, h, f.i, f.k) == Value(u));
    }
    assert forall|i: int| #![trigger leads(s, g, i)] 0 <= i < g.path.len() - 1 implies leads(
        s,
        g,
        i,
    ) by {
        assert(leads(s, h, i));
    }
    assert forall|i: int, other: Seq<char>|
        #![trigger s.defs[g.path[i]].dom().contains(other)]
        0 <= i < g.path.len() && s.defs[g.path[i]].dom().contains(other) implies holds_at(
        s,
        g,
        i,
        other,
    ) by {
        assert(s.defs[h.path[i]].dom().contains(other));
        assert(holds_at(s, h, i, other));
    }
}

/// The trace after a conditional forks: the run goes on in the first or in the
/// second of the new blocks.
pub open spec fn split(s: State, block: Block, h: Trace, live: bool, chosen: bool) -> Trace {
    let n = s.ir.blocks.len() as int;
    let names = h.avail[block.0 as int];
    Trace {
        path: if live {
            h.path.push(
                if chosen {
                    n
                } else {
                    n + 1
                },
            )
        } else {
            h.path
        },
        avail: h.avail.push(names).push(names).push(Set::empty()),
        ..h
    }
}

/// What forking keeps of the blocks there were.
pub(crate) proof fn lemma_forked_blocks(s: State, block: Block, cond: Value)
    requires
        ready(s, block),
        s.ir.blocks.len() + 3 <= u32::MAX,
    ensures
        ({
            let t = forked(s, block, cond);
            let n = s.ir.blocks.len() as int;
            let then_ = Block(n as u32);
            let else_ = Block((n + 1) as u32);
            &&& shaped(t)
            &&& t.ir.blocks[n].preds == seq![block]
            &&& t.ir.blocks[n + 1].preds == seq![block]
            &&& t.ir.blocks[block.0 as int].term == Some(
                Terminator::Branch { cond, then_, else_ },
            )
            &&& forall|b: int|
                #![trigger t.ir.blocks[b]]
                0 <= b < n ==> t.ir.blocks[b].insts == s.ir.blocks[b].insts && t.defs[b]
                    == s.defs[b]
            &&& forall|b: int|
                #![trigger t.ir.blocks[b]]
                n <= b < n + 3 ==> t.ir.blocks[b].insts.len() == 0 && t.defs[b].dom() == Set::<
                    Seq<char>,
                >::empty()
        }),
{
    let t = forked(s, block, cond);
    let n = s.ir.blocks.len() as int;
    lemma_forked(s, block, cond);
    assert(t.ir.blocks[n].preds =~= seq![block]);
    assert(t.ir.blocks[n + 1].preds =~= seq![block]);
    assert forall|b: int, k: int|
        #![trigger t.ir.blocks[b].preds[k]]
        0 <= b < n + 3 && 0 <= k < t.ir.blocks[b].preds.len() implies t.ir.blocks[b].preds[k].0 < n
        + 3 by {
        if b < n {
            assert(t.ir.blocks[b].preds == s.ir.blocks[b].preds);
            assert(s.ir.blocks[b].preds[k].0 < n);
        }
    }
    assert forall|b: int, name: Seq<char>|
        #![trigger t.pending[b].dom().contains(name)]
        0 <= b < n + 3 && t.pending[b].dom().contains(name) implies t.pending[b][name]
        < t.ir.insts.len() by {
        assert(t.pending[b].dom() == Set::<Seq<char>>::empty());
    }
    assert forall|b: int| #![trigger t.ir.blocks[b]] n <= b < n + 3 implies {
        &&& t.ir.blocks[b].insts.len() == 0
        &&& t.defs[b].dom() == Set::<Seq<char>>::empty()
    } by {
        assert(t.defs[b] == Map::<Seq<char>, u32>::empty());
        assert(t.defs[b].dom() =~= Set::<Seq<char>>::empty());
    }
}

/// A conditional forks.
#[verifier::rlimit(80)]
pub(crate) proof fn lemma_fork(
    s: State,
    block: Block,
    cond: Value,
    h: Trace,
    live: bool,
    chosen: bool,
    args: Seq<RtValue>,
    fs: FloatSem,
)
    requires
        sound(s, h, Set::empty(), args, fs),
        ready(s, block),
        stands(h, block, live),
        live ==> known(h, cond, RtValue::Bool(chosen)),
        s.ir.blocks.len() + 3 <= u32::MAX,
    ensures
        sound(forked(s, block, cond), split(s, block, h, live, chosen), Set::empty(), args, fs),
        ready(forked(s, block, cond), Block(s.ir.blocks.len() as u32)),
        ready(forked(s, block, cond), Block((s.ir.blocks.len() + 1) as u32)),
{
    reveal(sound);
    let t = forked(s, block, cond);
    let g = split(s, block, h, live, chosen);
    let n = s.ir.blocks.len() as int;
    let c = block.0 as int;
    lemma_forked(s, block, cond);
    lemma_forked_blocks(s, block, cond);
    assert(tables_ok(t));
    assert forall|b: int| #![trigger t.sealed[b]] 0 <= b < t.ir.blocks.len() && !t.sealed[b] implies {
        &&& t.ir.blocks[b].insts.len() == 0
        &&& t.defs[b].dom() == Set::<Seq<char>>::empty()
    } by {
        if b < n {
            assert(t.ir.blocks[b].insts == s.ir.blocks[b].insts);
            assert(!s.sealed[b]);
        } else {
            assert(t.ir.blocks[b].insts.len() == 0);
        }
    }
    // The way.
    let last = h.path.len() - 1;
    assert forall|i: int| #![trigger g.path[i]] 0 <= i < h.path.len() implies g.path[i]
        == h.path[i] && g.path[i] < n by {
        assert(h.path[i] < n);
    }
    assert forall|i: int| #![trigger g.path[i]] 0 <= i < g.path.len() implies 0 <= g.path[i]
        < t.ir.blocks.len() && t.sealed[g.path[i]] by {
        if i < h.path.len() {
            assert(s.sealed[h.path[i]]);
            assert(t.ir.blocks[h.path[i]].preds == s.ir.blocks[h.path[i]].preds);
        }
    }
    assert forall|i: int| #![trigger leads(t, g, i)] 0 <= i < g.path.len() - 1 implies leads(
        t,
        g,
        i,
    ) by {
        assert(g.path[i] == h.path[i]);
        if i < last {
            assert(leads(s, h, i));
            assert(g.path[i + 1] == h.path[i + 1]);
            assert(h.path[i] != h.path[last]);
            if live {
                assert(t.ir.blocks[h.path[i]].term == s.ir.blocks[h.path[i]].term);
            } else {
                assert(h.path.contains(h.path[i]));
                assert(t.ir.blocks[h.path[i]].term == s.ir.blocks[h.path[i]].term);
            }
        } else {
            assert(live);
            assert(0 <= h.facts[cond.0].i < h.path.len());
        }
    }
    assert forall|i: int| #![trigger g.path[i]] 0 < i < g.path.len() implies t.ir.blocks[g.path[i]].preds.contains(
        Block(g.path[i - 1] as u32),
    ) by {
        assert(g.path[i - 1] == h.path[i - 1]);
        if i < h.path.len() {
            assert(s.ir.blocks[h.path[i]].preds.contains(Block(h.path[i - 1] as u32)));
            assert(t.ir.blocks[h.path[i]].preds == s.ir.blocks[h.path[i]].preds);
        } else {
            assert(seq![block][0] == block);
            assert(Block(h.path[last] as u32) == block);
        }
    }
    assert(t.ir.blocks[0].preds == s.ir.blocks[0].preds) by {
        assert(h.path[0] == 0);
    }
    assert(path_ok(t, g));
    // The facts.
    assert forall|v: u32| #![trigger g.facts[v]] g.facts.dom().contains(v) implies {
        let f = g.facts[v];
        0 <= f.i < g.path.len() && 0 <= f.k < count_at(t, g, f.i) && at(t, g, f.i, f.k) == Value(v)
    } by {
        let f = h.facts[v];
        assert(at(s, h, f.i, f.k) == Value(v));
        assert(g.path[f.i] == h.path[f.i]);
        assert(t.ir.blocks[h.path[f.i]].insts == s.ir.blocks[h.path[f.i]].insts);
    }
    assert forall|j: int, k: int|
        #![trigger at(t, g, j, k)]
        0 <= j < g.path.len() && 0 <= k < count_at(t, g, j) implies {
        let v = at(t, g, j, k);
        &&& g.facts.dom().contains(v.0)
        &&& g.facts[v.0].i == j
        &&& g.facts[v.0].k == k
        &&& v.0 < t.ir.insts.len()
        &&& computes(g, t.ir.insts[v.0 as int], j, k, g.facts[v.0].x, args, fs)
    } by {
        if j < h.path.len() {
            assert(g.path[j] == h.path[j]);
            assert(t.ir.blocks[h.path[j]].insts == s.ir.blocks[h.path[j]].insts);
            let v = at(s, h, j, k);
            assert(at(t, g, j, k) == v);
            lemma_computes_richer(h, g, s.ir.insts[v.0 as int], j, k, h.facts[v.0].x, args, fs);
        } else {
            assert(t.ir.blocks[g.path[j]].insts.len() == 0);
        }
    }
    assert forall|b: int, k: int|
        #![trigger t.ir.blocks[b].insts[k]]
        0 <= b < t.ir.blocks.len() && 0 <= k < t.ir.blocks[b].insts.len() implies t.ir.blocks[b].insts[k].0
        < t.ir.insts.len() by {
        if b < n {
            assert(t.ir.blocks[b].insts == s.ir.blocks[b].insts);
            assert(s.ir.blocks[b].insts[k].0 < s.ir.insts.len());
        } else {
            assert(t.ir.blocks[b].insts.len() == 0);
        }
    }
    assert(facts_ok(t, g, Set::empty(), args, fs));
    // The names.
    assert forall|i: int, name: Seq<char>|
        #![trigger t.defs[g.path[i]].dom().contains(name)]
        0 <= i < g.path.len() && t.defs[g.path[i]].dom().contains(name) implies holds_at(
        t,
        g,
        i,
        name,
    ) by {
        if i < h.path.len() {
            assert(g.path[i] == h.path[i]);
            assert(t.ir.blocks[h.path[i]].insts == s.ir.blocks[h.path[i]].insts);
            assert(s.defs[h.path[i]].dom().contains(name));
            assert(holds_at(s, h, i, name));
        } else {
            assert(t.ir.blocks[g.path[i]].insts.len() == 0);
        }
    }
    assert forall|b: int, name: Seq<char>|
        #![trigger t.defs[b].dom().contains(name)]
        0 <= b < t.defs.len() && t.defs[b].dom().contains(name) implies g.seen.contains(name)
        && t.defs[b][name] < t.ir.insts.len() by {
        if b < n {
            assert(t.ir.blocks[b].insts == s.ir.blocks[b].insts);
            assert(s.defs[b].dom().contains(name));
        } else {
            assert(t.ir.blocks[b].insts.len() == 0);
        }
    }
    assert forall|b: int, name: Seq<char>|
        #![trigger g.avail[b].contains(name)]
        0 <= b < g.avail.len() && g.avail[b].contains(name) implies g.seen.contains(name)
        && reachable(t, g, b, name) by {
        if b < n {
            assert(g.avail[b] == h.avail[b]);
            assert(h.avail[b].contains(name));
            assert(reachable(s, h, b, name));
            assert(t.ir.blocks[b].preds == s.ir.blocks[b].preds);
            if !s.defs[b].dom().contains(name) {
                assert forall|k: int|
                    #![trigger t.ir.blocks[b].preds[k]]
                    0 <= k < t.ir.blocks[b].preds.len() implies g.avail[t.ir.blocks[b].preds[k].0 as int].contains(
                    name,
                ) by {
                    assert(s.ir.blocks[b].preds[k].0 < n);
                    assert(h.avail[s.ir.blocks[b].preds[k].0 as int].contains(name));
                }
            }
        } else {
            assert(h.avail[c].contains(name));
            assert(t.ir.blocks[b].preds == seq![block]);
            assert(g.avail[c] == h.avail[c]);
        }
    }
    assert forall|i: int, name: Seq<char>|
        #![trigger g.avail[g.path[i]].contains(name)]
        0 <= i < g.path.len() && g.avail[g.path[i]].contains(
            name,
        ) implies g.env.dom().contains(name) by {
        if i < h.path.len() {
            assert(g.path[i] == h.path[i]);
            assert(g.avail[h.path[i]] == h.avail[h.path[i]]);
            assert(h.avail[h.path[i]].contains(name));
        } else {
            assert(h.avail[h.path[last]].contains(name));
        }
    }
}

/// A block ends in a jump to the block where the ways meet.
#[verifier::rlimit(60)]
pub(crate) proof fn lemma_join(
    s: State,
    exit: Block,
    merge: Block,
    h: Trace,
    args: Seq<RtValue>,
    fs: FloatSem,
)
    requires
        sound(s, h, Set::empty(), args, fs),
        ready(s, exit),
        h.path.contains(exit.0 as int) ==> h.path.last() == exit.0,
        merge.0 < s.ir.blocks.len(),
        !s.sealed[merge.0 as int],
        merge != exit,
    ensures
        sound(joined(s, exit, merge), h, Set::empty(), args, fs),
{
    reveal(sound);
    let t = joined(s, exit, merge);
    let last = h.path.len() - 1;
    lemma_joined(s, exit, merge);
    assert forall|b: int, k: int|
        #![trigger t.ir.blocks[b].preds[k]]
        0 <= b < t.ir.blocks.len() && 0 <= k < t.ir.blocks[b].preds.len() implies t.ir.blocks[b].preds[k].0
        < t.ir.blocks.len() by {
        if k < s.ir.blocks[b].preds.len() {
            assert(s.ir.blocks[b].preds[k].0 < s.ir.blocks.len());
        }
    }
    assert(shaped(t));
    assert(tables_ok(t));
    assert forall|i: int| 0 <= i < h.path.len() implies #[trigger] h.path[i] != merge.0 by {
        assert(s.sealed[h.path[i]]);
    }
    assert forall|b: int| #![trigger t.ir.blocks[b]] 0 <= b < t.ir.blocks.len() implies t.ir.blocks[b].insts
        == s.ir.blocks[b].insts by {}
    assert forall|i: int| #![trigger leads(t, h, i)] 0 <= i < h.path.len() - 1 implies leads(
        t,
        h,
        i,
    ) by {
        assert(leads(s, h, i));
        assert(h.path[i] != h.path[last]);
        assert(h.path.contains(h.path[i]));
        assert(t.ir.blocks[h.path[i]].term == s.ir.blocks[h.path[i]].term);
    }
    assert(path_ok(t, h)) by {
        assert(h.path[0] == 0);
    }
    assert forall|v: u32| #![trigger h.facts[v]] h.facts.dom().contains(v) implies {
        let f = h.facts[v];
        0 <= f.i < h.path.len() && 0 <= f.k < count_at(t, h, f.i) && at(t, h, f.i, f.k) == Value(v)
    } by {
        let f = h.facts[v];
        assert(at(s, h, f.i, f.k) == Value(v));
        assert(t.ir.blocks[h.path[f.i]].insts == s.ir.blocks[h.path[f.i]].insts);
    }
    assert forall|j: int, k: int|
        #![trigger at(t, h, j, k)]
        0 <= j < h.path.len() && 0 <= k < count_at(t, h, j) implies {
        let v = at(t, h, j, k);
        &&& h.facts.dom().contains(v.0)
        &&& h.facts[v.0].i == j
        &&& h.facts[v.0].k == k
        &&& v.0 < t.ir.insts.len()
        &&& computes(h, t.ir.insts[v.0 as int], j, k, h.facts[v.0].x, args, fs)
    } by {
        assert(t.ir.blocks[h.path[j]].insts == s.ir.blocks[h.path[j]].insts);
        assert(at(s, h, j, k) == at(t, h, j, k));
    }
    assert forall|b: int, k: int|
        #![trigger t.ir.blocks[b].insts[k]]
        0 <= b < t.ir.blocks.len() && 0 <= k < t.ir.blocks[b].insts.len() implies t.ir.blocks[b].insts[k].0
        < t.ir.insts.len() by {
        assert(s.ir.blocks[b].insts[k].0 < s.ir.insts.len());
    }
    assert(facts_ok(t, h, Set::empty(), args, fs));
    assert(fresh_ok(t));
    assert forall|i: int, name: Seq<char>|
        #![trigger t.defs[h.path[i]].dom().contains(name)]
        0 <= i < h.path.len() && t.defs[h.path[i]].dom().contains(name) implies holds_at(
        t,
        h,
        i,
        name,
    ) by {
        assert(s.defs[h.path[i]].dom().contains(name));
        assert(holds_at(s, h, i, name));
    }
    assert forall|b: int, name: Seq<char>|
        #![trigger h.avail[b].contains(name)]
        0 <= b < h.avail.len() && h.avail[b].contains(name) implies h.seen.contains(name)
        && reachable(t, h, b, name) by {
        assert(reachable(s, h, b, name));
        if b != merge.0 {
            assert(t.ir.blocks[b].preds == s.ir.blocks[b].preds);
        }
    }
}

/// The trace after the ways meet.
pub open spec fn met(h: Trace, merge: Block, names: Set<Seq<char>>, live: bool) -> Trace {
    Trace {
        path: if live {
            h.path.push(merge.0 as int)
        } else {
            h.path
        },
        avail: h.avail.update(merge.0 as int, names),
        ..h
    }
}

/// The block where the ways meet is sealed.
#[verifier::rlimit(80)]
pub(crate) proof fn lemma_meet(
    s: State,
    merge: Block,
    h: Trace,
    live: bool,
    names: Set<Seq<char>>,
    x_exit: Block,
    y_exit: Block,
    args: Seq<RtValue>,
    fs: FloatSem,
)
    requires
        sound(s, h, Set::empty(), args, fs),
        ready(with_seal(s, merge), merge),
        merge.0 < s.ir.blocks.len(),
        !s.sealed[merge.0 as int],
        merge.0 > 0,
        s.ir.blocks[merge.0 as int].preds == seq![x_exit, y_exit],
        names.subset_of(h.avail[x_exit.0 as int]),
        names.subset_of(h.avail[y_exit.0 as int]),
        x_exit != merge,
        y_exit != merge,
        live ==> {
            &&& h.path.last() == x_exit.0 || h.path.last() == y_exit.0
            &&& s.ir.blocks[h.path.last()].term == Some(Terminator::Jump(merge))
        },
    ensures
        sound(with_seal(s, merge), met(h, merge, names, live), Set::empty(), args, fs),
{
    reveal(sound);
    let t = with_seal(s, merge);
    let g = met(h, merge, names, live);
    let m = merge.0 as int;
    let last = h.path.len() - 1;
    assert(t.ir.blocks == s.ir.blocks);
    assert(tables_ok(t));
    assert forall|i: int| 0 <= i < h.path.len() implies #[trigger] h.path[i] != m by {
        assert(s.sealed[h.path[i]]);
    }
    assert forall|i: int| #![trigger g.path[i]] 0 <= i < h.path.len() implies g.path[i]
        == h.path[i] by {}
    assert(fresh_ok(t)) by {
        assert forall|b: int| #![trigger t.sealed[b]] 0 <= b < t.ir.blocks.len() && !t.sealed[b] implies {
            &&& t.ir.blocks[b].insts.len() == 0
            &&& t.defs[b].dom() == Set::<Seq<char>>::empty()
        } by {
            assert(!s.sealed[b]);
        }
    }
    assert(!s.sealed[m]);
    assert forall|i: int| #![trigger leads(t, g, i)] 0 <= i < g.path.len() - 1 implies leads(
        t,
        g,
        i,
    ) by {
        assert(g.path[i] == h.path[i]);
        if i < last {
            assert(leads(s, h, i));
            assert(g.path[i + 1] == h.path[i + 1]);
        }
    }
    assert forall|i: int| #![trigger g.path[i]] 0 < i < g.path.len() implies t.ir.blocks[g.path[i]].preds.contains(
        Block(g.path[i - 1] as u32),
    ) by {
        assert(g.path[i - 1] == h.path[i - 1]);
        if i < h.path.len() {
            assert(s.ir.blocks[h.path[i]].preds.contains(Block(h.path[i - 1] as u32)));
        } else {
            assert(seq![x_exit, y_exit][0] == x_exit);
            assert(seq![x_exit, y_exit][1] == y_exit);
        }
    }
    assert(path_ok(t, g)) by {
        assert(h.path[0] == 0);
        assert forall|i: int| #![trigger g.path[i]] 0 <= i < g.path.len() implies 0 <= g.path[i]
            < t.ir.blocks.len() && t.sealed[g.path[i]] by {
            if i < h.path.len() {
                assert(s.sealed[h.path[i]]);
            }
        }
    }
    assert forall|v: u32| #![trigger g.facts[v]] g.facts.dom().contains(v) implies {
        let f = g.facts[v];
        0 <= f.i < g.path.len() && 0 <= f.k < count_at(t, g, f.i) && at(t, g, f.i, f.k) == Value(v)
    } by {
        let f = h.facts[v];
        assert(at(s, h, f.i, f.k) == Value(v));
        assert(g.path[f.i] == h.path[f.i]);
    }
    assert forall|j: int, k: int|
        #![trigger at(t, g, j, k)]
        0 <= j < g.path.len() && 0 <= k < count_at(t, g, j) implies {
        let v = at(t, g, j, k);
        &&& g.facts.dom().contains(v.0)
        &&& g.facts[v.0].i == j
        &&& g.facts[v.0].k == k
        &&& v.0 < t.ir.insts.len()
        &&& computes(g, t.ir.insts[v.0 as int], j, k, g.facts[v.0].x, args, fs)
    } by {
        if j < h.path.len() {
            assert(g.path[j] == h.path[j]);
            let v = at(s, h, j, k);
            assert(at(t, g, j, k) == v);
            lemma_computes_richer(h, g, s.ir.insts[v.0 as int], j, k, h.facts[v.0].x, args, fs);
        }
    }
    assert(facts_ok(t, g, Set::empty(), args, fs));
    assert forall|i: int, name: Seq<char>|
        #![trigger t.defs[g.path[i]].dom().contains(name)]
        0 <= i < g.path.len() && t.defs[g.path[i]].dom().contains(name) implies holds_at(
        t,
        g,
        i,
        name,
    ) by {
        if i < h.path.len() {
            assert(g.path[i] == h.path[i]);
            assert(s.defs[h.path[i]].dom().contains(name));
            assert(holds_at(s, h, i, name));
        }
    }
    assert forall|b: int, name: Seq<char>|
        #![trigger g.avail[b].contains(name)]
        0 <= b < g.avail.len() && g.avail[b].contains(name) implies g.seen.contains(name)
        && reachable(t, g, b, name) by {
        if b == m {
            assert(h.avail[x_exit.0 as int].contains(name));
            assert(h.avail[y_exit.0 as int].contains(name));
        } else {
            assert(h.avail[b].contains(name));
            assert(reachable(s, h, b, name));
            if !s.defs[b].dom().contains(name) {
                assert forall|k: int|
                    #![trigger t.ir.blocks[b].preds[k]]
                    0 <= k < t.ir.blocks[b].preds.len() implies g.avail[t.ir.blocks[b].preds[k].0 as int].contains(
                    name,
                ) by {
                    assert(s.sealed[s.ir.blocks[b].preds[k].0 as int]);
                    assert(h.avail[s.ir.blocks[b].preds[k].0 as int].contains(name));
                }
            }
        }
    }
    assert forall|i: int, name: Seq<char>|
        #![trigger g.avail[g.path[i]].contains(name)]
        0 <= i < g.path.len() && g.avail[g.path[i]].contains(
            name,
        ) implies g.env.dom().contains(name) by {
        if i < h.path.len() {
            assert(g.path[i] == h.path[i]);
            assert(h.avail[h.path[i]].contains(name));
        } else {
            assert(h.avail[h.path[last]].contains(name));
        }
    }
}

} // verus!
