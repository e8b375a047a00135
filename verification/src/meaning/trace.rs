//! Runs of a function under construction, and what adding instructions and
//! reading variables do to them.
use crate::builder::{
    closed_off, emitted, filled, gathered, grown, is_only, lemma_closed_stays,
    lemma_grown_trans, lemma_missing_some, lemma_operands_grown, lemma_phi_shaped,
    lemma_replaced_grown, lemma_trivial_grown, lemma_written_grown, missing, next_value, phi_of,
    read, replaced, same_shape, shaped, with_operands, with_phi, without_trivial, written,
    State,
};
use crate::float::FloatSem;
use crate::interp::RtValue;
use crate::interp::{edge_from, eval, reads};
use crate::ir::{Block, InstModel, Op, Span, Terminator, Ty, Value};
use crate::ir::{edge_blocks, subst, subst_inst};
use crate::lower::{backward, none_wait};
use vstd::prelude::*;

verus! {

// ---------------------------------------------------------------------------
// Runs of a function under construction

/// What a run found a value to be, and where: at place `k` of the block that
/// the run came to as number `i`.
pub struct Fact {
    pub x: RtValue,
    pub i: int,
    pub k: int,
}

/// A run of a function under construction, as far as it is known: the blocks
/// it comes to, in order, and the values and variables it finds. For every
/// block, whether in the run or not, the variables that can be read there, and
/// all variables there are so far.
pub struct Trace {
    pub path: Seq<int>,
    pub facts: Map<u32, Fact>,
    pub env: Map<Seq<char>, RtValue>,
    pub avail: Seq<Set<Seq<char>>>,
    pub seen: Set<Seq<char>>,
}

/// How many values block number `i` of the run has.
pub open spec fn count_at(s: State, h: Trace, i: int) -> int {
    s.ir.blocks[h.path[i]].insts.len() as int
}

/// Value `k` of block number `i` of the run.
pub open spec fn at(s: State, h: Trace, i: int, k: int) -> Value {
    s.ir.blocks[h.path[i]].insts[k]
}

/// The value is known before place `k` of block number `i`.
pub open spec fn earlier(h: Trace, v: Value, i: int, k: int) -> bool {
    &&& h.facts.dom().contains(v.0)
    &&& h.facts[v.0].i < i || (h.facts[v.0].i == i && h.facts[v.0].k < k)
}

/// The instruction, at place `k` of block number `i`, gives `x`.
pub open spec fn computes(
    h: Trace,
    m: InstModel,
    i: int,
    k: int,
    x: RtValue,
    args: Seq<RtValue>,
    fs: FloatSem,
) -> bool {
    match m.op {
        Op::Phi(froms) => i > 0 && match edge_from(froms, Block(h.path[i - 1] as u32), 0) {
            Some(j) => {
                &&& 0 <= j < m.args.len()
                &&& earlier(h, m.args[j], i, 0)
                &&& h.facts[m.args[j].0].x == x
            },
            None => false,
        },
        _ => {
            &&& reads(m.op) <= m.args.len()
            &&& forall|j: int|
                #![trigger m.args[j]]
                0 <= j < reads(m.op) ==> earlier(h, m.args[j], i, k)
            &&& eval(
                m.op,
                Seq::new(reads(m.op), |j: int| h.facts[m.args[j].0].x),
                args,
                fs,
            ) == Some(x)
        },
    }
}

/// Control goes from block number `i` of the run to the next.
pub open spec fn leads(s: State, h: Trace, i: int) -> bool {
    match s.ir.blocks[h.path[i]].term {
        Some(Terminator::Jump(c)) => c.0 == h.path[i + 1],
        Some(Terminator::Branch { cond, then_, else_ }) => {
            &&& earlier(h, cond, i + 1, 0)
            &&& match h.facts[cond.0].x {
                RtValue::Bool(true) => then_.0 == h.path[i + 1],
                RtValue::Bool(false) => else_.0 == h.path[i + 1],
                _ => false,
            }
        },
        _ => false,
    }
}

pub open spec fn tables_ok(s: State) -> bool {
    &&& shaped(s)
    &&& closed_off(s)
    &&& backward(s)
    &&& none_wait(s)
    &&& s.ir.insts.len() <= u32::MAX
}

pub open spec fn path_ok(s: State, h: Trace) -> bool {
    &&& h.path.len() > 0
    &&& h.path[0] == 0
    &&& s.ir.blocks[0].preds.len() == 0
    &&& forall|i: int|
        #![trigger h.path[i]]
        0 <= i < h.path.len() ==> 0 <= h.path[i] < s.ir.blocks.len() && s.sealed[h.path[i]]
    &&& forall|i: int, j: int|
        #![trigger h.path[i], h.path[j]]
        0 <= i < j < h.path.len() ==> h.path[i] != h.path[j]
    &&& forall|i: int|
        #![trigger leads(s, h, i)]
        0 <= i < h.path.len() - 1 ==> leads(s, h, i)
    &&& forall|i: int|
        #![trigger h.path[i]]
        0 < i < h.path.len() ==> s.ir.blocks[h.path[i]].preds.contains(
            Block(h.path[i - 1] as u32),
        )
}

/// Every value in the run is known, and is what its instruction computes. The
/// phis in `open` do not have their operands yet.
pub open spec fn facts_ok(
    s: State,
    h: Trace,
    open: Set<u32>,
    args: Seq<RtValue>,
    fs: FloatSem,
) -> bool {
    &&& forall|v: u32|
        #![trigger h.facts[v]]
        h.facts.dom().contains(v) ==> {
            let f = h.facts[v];
            0 <= f.i < h.path.len() && 0 <= f.k < count_at(s, h, f.i) && at(s, h, f.i, f.k) == Value(
                v,
            )
        }
    &&& forall|i: int, k: int|
        #![trigger at(s, h, i, k)]
        0 <= i < h.path.len() && 0 <= k < count_at(s, h, i) ==> {
            let v = at(s, h, i, k);
            &&& h.facts.dom().contains(v.0)
            &&& h.facts[v.0].i == i
            &&& h.facts[v.0].k == k
            &&& v.0 < s.ir.insts.len()
            &&& !open.contains(v.0) ==> computes(
                h,
                s.ir.insts[v.0 as int],
                i,
                k,
                h.facts[v.0].x,
                args,
                fs,
            )
        }
    &&& forall|b: int, k: int|
        #![trigger s.ir.blocks[b].insts[k]]
        0 <= b < s.ir.blocks.len() && 0 <= k < s.ir.blocks[b].insts.len()
            ==> s.ir.blocks[b].insts[k].0 < s.ir.insts.len()
}

/// The variable of a block is what the run found it to be.
pub open spec fn holds_at(s: State, h: Trace, i: int, name: Seq<char>) -> bool {
    let v = s.defs[h.path[i]][name];
    &&& h.env.dom().contains(name)
    &&& earlier(h, Value(v), i + 1, 0)
    &&& h.facts[v].x == h.env[name]
}

/// The variable can be read at the end of block `b`.
pub open spec fn reachable(s: State, h: Trace, b: int, name: Seq<char>) -> bool {
    s.defs[b].dom().contains(name) || {
        &&& s.sealed[b]
        &&& s.ir.blocks[b].preds.len() > 0
        &&& forall|k: int|
            #![trigger s.ir.blocks[b].preds[k]]
            0 <= k < s.ir.blocks[b].preds.len() ==> h.avail[s.ir.blocks[b].preds[k].0 as int].contains(
                name,
            )
    }
}

pub open spec fn names_ok(s: State, h: Trace) -> bool {
    &&& h.avail.len() == s.ir.blocks.len()
    &&& forall|i: int, name: Seq<char>|
        #![trigger s.defs[h.path[i]].dom().contains(name)]
        0 <= i < h.path.len() && s.defs[h.path[i]].dom().contains(name) ==> holds_at(s, h, i, name)
    &&& forall|b: int, name: Seq<char>|
        #![trigger s.defs[b].dom().contains(name)]
        0 <= b < s.defs.len() && s.defs[b].dom().contains(name) ==> h.seen.contains(name)
            && s.defs[b][name] < s.ir.insts.len()
    &&& forall|b: int, name: Seq<char>|
        #![trigger h.avail[b].contains(name)]
        0 <= b < h.avail.len() && h.avail[b].contains(name) ==> h.seen.contains(name) && reachable(
            s,
            h,
            b,
            name,
        )
    &&& forall|i: int, name: Seq<char>|
        #![trigger h.avail[h.path[i]].contains(name)]
        0 <= i < h.path.len() && h.avail[h.path[i]].contains(name) ==> h.env.dom().contains(name)
    &&& forall|name: Seq<char>|
        #![trigger h.env.dom().contains(name)]
        h.env.dom().contains(name) ==> h.seen.contains(name)
}

/// A block whose predecessors are not all known is empty.
pub open spec fn fresh_ok(s: State) -> bool {
    forall|b: int|
        #![trigger s.sealed[b]]
        0 <= b < s.ir.blocks.len() && !s.sealed[b] ==> s.ir.blocks[b].insts.len() == 0
            && s.defs[b].dom() == Set::<Seq<char>>::empty()
}

/// The trace is one of the function.
#[verifier::opaque]
pub open spec fn sound(
    s: State,
    h: Trace,
    open: Set<u32>,
    args: Seq<RtValue>,
    fs: FloatSem,
) -> bool {
    &&& tables_ok(s)
    &&& fresh_ok(s)
    &&& path_ok(s, h)
    &&& facts_ok(s, h, open, args, fs)
    &&& names_ok(s, h)
}

/// Whatever is known in `h` is known in `g`.
pub open spec fn knows(h: Trace, g: Trace) -> bool {
    forall|v: u32|
        #![trigger h.facts.dom().contains(v)]
        h.facts.dom().contains(v) ==> g.facts.dom().contains(v) && g.facts[v] == h.facts[v]
}

/// More became known, of the same run.
pub open spec fn richer(h: Trace, g: Trace) -> bool {
    &&& g.path == h.path
    &&& g.env == h.env
    &&& g.avail == h.avail
    &&& g.seen == h.seen
    &&& knows(h, g)
}

/// The value at the end of block `b` is what the run found the variable to be,
/// if the run comes there.
pub open spec fn read_ok(h: Trace, b: int, name: Seq<char>, v: Value) -> bool {
    forall|i: int|
        #![trigger h.path[i]]
        0 <= i < h.path.len() && h.path[i] == b ==> h.env.dom().contains(name) && earlier(
            h,
            v,
            i + 1,
            0,
        ) && h.facts[v.0].x == h.env[name]
}

pub(crate) proof fn lemma_computes_richer(
    h: Trace,
    g: Trace,
    m: InstModel,
    i: int,
    k: int,
    x: RtValue,
    args: Seq<RtValue>,
    fs: FloatSem,
)
    requires
        computes(h, m, i, k, x, args, fs),
        g.path.len() >= h.path.len(),
        0 <= i < h.path.len(),
        forall|j: int| #![trigger g.path[j]] 0 <= j < h.path.len() ==> g.path[j] == h.path[j],
        knows(h, g),
    ensures
        computes(g, m, i, k, x, args, fs),
{
    if m.op is Phi {
        if i > 0 {
            assert(g.path[i - 1] == h.path[i - 1]);
        }
    } else {
        let a = Seq::new(reads(m.op), |j: int| h.facts[m.args[j].0].x);
        let b = Seq::new(reads(m.op), |j: int| g.facts[m.args[j].0].x);
        assert forall|j: int| 0 <= j < reads(m.op) implies a[j] == b[j] by {
            assert(earlier(h, m.args[j], i, k));
        }
        assert(a =~= b);
        assert forall|j: int| #![trigger m.args[j]] 0 <= j < reads(m.op) implies earlier(
            g,
            m.args[j],
            i,
            k,
        ) by {
            assert(earlier(h, m.args[j], i, k));
        }
    }
}

// ---------------------------------------------------------------------------
// Adding instructions

/// The trace with a new fact at the end of block number `i`.
pub open spec fn learned(s: State, h: Trace, i: int, x: RtValue) -> Trace {
    Trace {
        facts: h.facts.insert(next_value(s).0, Fact { x, i, k: count_at(s, h, i) }),
        ..h
    }
}

#[verifier::rlimit(60)]
pub(crate) proof fn lemma_new_value(
    s: State,
    h: Trace,
    open: Set<u32>,
    args: Seq<RtValue>,
    fs: FloatSem,
)
    requires
        sound(s, h, open, args, fs),
        s.ir.insts.len() < u32::MAX,
    ensures
        !h.facts.dom().contains(next_value(s).0),
{
    reveal(sound);
    let v = next_value(s).0;
    if h.facts.dom().contains(v) {
        let f = h.facts[v];
        assert(at(s, h, f.i, f.k) == Value(v));
    }
}

/// An instruction is added to block number `i` of the run.
#[verifier::rlimit(60)]
pub(crate) proof fn lemma_add(
    s: State,
    h: Trace,
    open: Set<u32>,
    i: int,
    m: InstModel,
    ty: Ty,
    span: Span,
    x: RtValue,
    args: Seq<RtValue>,
    fs: FloatSem,
)
    requires
        sound(s, h, open, args, fs),
        0 <= i < h.path.len(),
        s.ir.insts.len() < u32::MAX,
        open.contains(next_value(s).0) || computes(h, m, i, count_at(s, h, i), x, args, fs),
    ensures
        sound(
            emitted(s, Block(h.path[i] as u32), m, ty, span),
            learned(s, h, i, x),
            open,
            args,
            fs,
        ),
        knows(h, learned(s, h, i, x)),
{
    reveal(sound);
    let b = h.path[i];
    let block = Block(b as u32);
    assert(block.0 == b);
    let t = emitted(s, block, m, ty, span);
    let g = learned(s, h, i, x);
    let new = next_value(s);
    lemma_new_value(s, h, open, args, fs);
    assert(knows(h, g));
    assert(t.pending == s.pending);
    assert(same_shape(s, t));
    lemma_tables(s, t);
    assert forall|c: int| #![trigger t.ir.blocks[c]] 0 <= c < s.ir.blocks.len() implies {
        &&& t.ir.blocks[c].preds == s.ir.blocks[c].preds
        &&& t.ir.blocks[c].term == s.ir.blocks[c].term
        &&& c != b ==> t.ir.blocks[c].insts == s.ir.blocks[c].insts
    } by {}
    assert(t.ir.blocks[b].insts == s.ir.blocks[b].insts.push(new));
    assert forall|j: int| #![trigger leads(t, g, j)] 0 <= j < g.path.len() - 1 implies leads(
        t,
        g,
        j,
    ) by {
        assert(leads(s, h, j));
        assert(g.path[j] == h.path[j]);
    }
    assert(path_ok(t, g));
    assert forall|v: u32| #![trigger g.facts[v]] g.facts.dom().contains(v) implies {
        let f = g.facts[v];
        0 <= f.i < g.path.len() && 0 <= f.k < count_at(t, g, f.i) && at(t, g, f.i, f.k) == Value(v)
    } by {
        if v != new.0 {
            let f = h.facts[v];
            assert(at(s, h, f.i, f.k) == Value(v));
            assert(g.facts[v] == f);
        }
    }
    assert forall|j: int, k: int|
        #![trigger at(t, g, j, k)]
        0 <= j < g.path.len() && 0 <= k < count_at(t, g, j) implies {
        let v = at(t, g, j, k);
        &&& g.facts.dom().contains(v.0)
        &&& g.facts[v.0].i == j
        &&& g.facts[v.0].k == k
        &&& v.0 < t.ir.insts.len()
        &&& !open.contains(v.0) ==> computes(
            g,
            t.ir.insts[v.0 as int],
            j,
            k,
            g.facts[v.0].x,
            args,
            fs,
        )
    } by {
        let v = at(t, g, j, k);
        assert(h.path[j] == b ==> j == i);
        if j == i && k == count_at(s, h, i) {
            assert(v == new);
            if !open.contains(new.0) {
                lemma_computes_richer(h, g, m, i, k, x, args, fs);
            }
        } else {
            assert(at(s, h, j, k) == v);
            assert(v != new);
            if !open.contains(v.0) {
                lemma_computes_richer(
                    h,
                    g,
                    s.ir.insts[v.0 as int],
                    j,
                    k,
                    h.facts[v.0].x,
                    args,
                    fs,
                );
            }
        }
    }
    assert(facts_ok(t, g, open, args, fs)) by {
        assert forall|c: int, k: int|
            #![trigger t.ir.blocks[c].insts[k]]
            0 <= c < t.ir.blocks.len() && 0 <= k
                < t.ir.blocks[c].insts.len() implies t.ir.blocks[c].insts[k].0
            < t.ir.insts.len() by {
            if c == b && k == count_at(s, h, i) {
            } else {
                assert(s.ir.blocks[c].insts[k].0 < s.ir.insts.len());
            }
        }
    }
    lemma_names_richer(s, t, h, g);
}

/// The tables stay as they are where only instructions are added.
pub(crate) proof fn lemma_tables(s: State, t: State)
    requires
        tables_ok(s),
        shaped(t),
        same_shape(s, t),
        t.pending == s.pending,
        t.ir.insts.len() <= u32::MAX,
    ensures
        tables_ok(t),
{
    lemma_closed_stays(s, t);
    assert forall|b: int|
        #![trigger t.ir.blocks[b]]
        0 <= b < t.ir.blocks.len() && t.sealed[b] && t.ir.blocks[b].preds.len() == 1 implies t.ir.blocks[b].preds[0].0
        < b by {
        assert(t.ir.blocks[b].preds == s.ir.blocks[b].preds);
    }
}

/// What holds of the variables stays where they do.
pub(crate) proof fn lemma_names_richer(s: State, t: State, h: Trace, g: Trace)
    requires
        names_ok(s, h),
        path_ok(s, h),
        shaped(s),
        richer(h, g),
        same_shape(s, t),
        t.defs == s.defs,
    ensures
        names_ok(t, g),
{
    assert forall|i: int, name: Seq<char>|
        #![trigger t.defs[g.path[i]].dom().contains(name)]
        0 <= i < g.path.len() && t.defs[g.path[i]].dom().contains(name) implies holds_at(
        t,
        g,
        i,
        name,
    ) by {
        assert(s.defs[h.path[i]].dom().contains(name));
        assert(holds_at(s, h, i, name));
    }
    assert forall|b: int, name: Seq<char>|
        #![trigger g.avail[b].contains(name)]
        0 <= b < g.avail.len() && g.avail[b].contains(name) implies g.seen.contains(name)
        && reachable(t, g, b, name) by {
        assert(h.avail[b].contains(name));
        assert(reachable(s, h, b, name));
        assert(t.ir.blocks[b].preds == s.ir.blocks[b].preds);
    }
    assert forall|i: int, name: Seq<char>|
        #![trigger g.avail[g.path[i]].contains(name)]
        0 <= i < g.path.len() && g.avail[g.path[i]].contains(
            name,
        ) implies g.env.dom().contains(name) by {
        assert(h.avail[h.path[i]].contains(name));
    }
}

/// An instruction is added to a block that is not in the run.
#[verifier::rlimit(60)]
pub(crate) proof fn lemma_add_aside(
    s: State,
    h: Trace,
    open: Set<u32>,
    block: Block,
    m: InstModel,
    ty: Ty,
    span: Span,
    args: Seq<RtValue>,
    fs: FloatSem,
)
    requires
        sound(s, h, open, args, fs),
        block.0 < s.ir.blocks.len(),
        s.sealed[block.0 as int],
        !h.path.contains(block.0 as int),
        s.ir.insts.len() < u32::MAX,
    ensures
        sound(emitted(s, block, m, ty, span), h, open, args, fs),
{
    reveal(sound);
    let b = block.0 as int;
    let t = emitted(s, block, m, ty, span);
    assert(t.pending == s.pending);
    assert(same_shape(s, t));
    lemma_tables(s, t);
    assert forall|i: int| 0 <= i < h.path.len() implies #[trigger] h.path[i] != b by {}
    assert forall|j: int| #![trigger leads(t, h, j)] 0 <= j < h.path.len() - 1 implies leads(
        t,
        h,
        j,
    ) by {
        assert(leads(s, h, j));
        assert(h.path[j] != b);
    }
    assert(path_ok(t, h));
    assert forall|v: u32| #![trigger h.facts[v]] h.facts.dom().contains(v) implies {
        let f = h.facts[v];
        0 <= f.i < h.path.len() && 0 <= f.k < count_at(t, h, f.i) && at(t, h, f.i, f.k) == Value(v)
    } by {
        let f = h.facts[v];
        assert(at(s, h, f.i, f.k) == Value(v));
        assert(h.path[f.i] != b);
    }
    assert forall|j: int, k: int|
        #![trigger at(t, h, j, k)]
        0 <= j < h.path.len() && 0 <= k < count_at(t, h, j) implies {
        let v = at(t, h, j, k);
        &&& h.facts.dom().contains(v.0)
        &&& h.facts[v.0].i == j
        &&& h.facts[v.0].k == k
        &&& v.0 < t.ir.insts.len()
        &&& !open.contains(v.0) ==> computes(
            h,
            t.ir.insts[v.0 as int],
            j,
            k,
            h.facts[v.0].x,
            args,
            fs,
        )
    } by {
        assert(h.path[j] != b);
        assert(at(s, h, j, k) == at(t, h, j, k));
    }
    assert forall|c: int, k: int|
        #![trigger t.ir.blocks[c].insts[k]]
        0 <= c < t.ir.blocks.len() && 0 <= k
            < t.ir.blocks[c].insts.len() implies t.ir.blocks[c].insts[k].0 < t.ir.insts.len() by {
        if c == b && k == s.ir.blocks[b].insts.len() {
        } else {
            assert(s.ir.blocks[c].insts[k].0 < s.ir.insts.len());
        }
    }
    lemma_names_richer(s, t, h, h);
}

// ---------------------------------------------------------------------------
// Reading variables

/// A variable is defined in a block.
#[verifier::rlimit(60)]
pub(crate) proof fn lemma_write(
    s: State,
    h: Trace,
    open: Set<u32>,
    name: Seq<char>,
    block: Block,
    v: Value,
    args: Seq<RtValue>,
    fs: FloatSem,
)
    requires
        sound(s, h, open, args, fs),
        block.0 < s.ir.blocks.len(),
        s.sealed[block.0 as int],
        h.seen.contains(name),
        v.0 < s.ir.insts.len(),
        read_ok(h, block.0 as int, name, v),
    ensures
        sound(written(s, name, block, v), h, open, args, fs),
{
    reveal(sound);
    let t = written(s, name, block, v);
    let b = block.0 as int;
    lemma_tables(s, t);
    assert forall|i: int| #![trigger leads(t, h, i)] 0 <= i < h.path.len() - 1 implies leads(
        t,
        h,
        i,
    ) by {
        assert(leads(s, h, i));
    }
    assert(path_ok(t, h));
    lemma_facts_same(s, t, h, open, args, fs);
    assert forall|i: int, other: Seq<char>|
        #![trigger t.defs[h.path[i]].dom().contains(other)]
        0 <= i < h.path.len() && t.defs[h.path[i]].dom().contains(other) implies holds_at(
        t,
        h,
        i,
        other,
    ) by {
        if h.path[i] == b && other == name {
        } else {
            assert(s.defs[h.path[i]].dom().contains(other));
            assert(holds_at(s, h, i, other));
        }
    }
    assert forall|c: int, other: Seq<char>|
        #![trigger t.defs[c].dom().contains(other)]
        0 <= c < t.defs.len() && t.defs[c].dom().contains(other) implies h.seen.contains(other)
        && t.defs[c][other] < t.ir.insts.len() by {
        if c == b && other == name {
        } else {
            assert(s.defs[c].dom().contains(other));
        }
    }
    assert forall|c: int, other: Seq<char>|
        #![trigger h.avail[c].contains(other)]
        0 <= c < h.avail.len() && h.avail[c].contains(other) implies h.seen.contains(other)
        && reachable(t, h, c, other) by {
        assert(reachable(s, h, c, other));
    }
}

pub(crate) proof fn lemma_facts_same(
    s: State,
    t: State,
    h: Trace,
    open: Set<u32>,
    args: Seq<RtValue>,
    fs: FloatSem,
)
    requires
        facts_ok(s, h, open, args, fs),
        t.ir.insts == s.ir.insts,
        t.ir.blocks == s.ir.blocks,
    ensures
        facts_ok(t, h, open, args, fs),
{
    assert forall|v: u32| #![trigger h.facts[v]] h.facts.dom().contains(v) implies {
        let f = h.facts[v];
        0 <= f.i < h.path.len() && 0 <= f.k < count_at(t, h, f.i) && at(t, h, f.i, f.k) == Value(v)
    } by {
        let f = h.facts[v];
        assert(at(s, h, f.i, f.k) == Value(v));
    }
    assert forall|j: int, k: int|
        #![trigger at(t, h, j, k)]
        0 <= j < h.path.len() && 0 <= k < count_at(t, h, j) implies {
        let v = at(t, h, j, k);
        &&& h.facts.dom().contains(v.0)
        &&& h.facts[v.0].i == j
        &&& h.facts[v.0].k == k
        &&& v.0 < t.ir.insts.len()
        &&& !open.contains(v.0) ==> computes(
            h,
            t.ir.insts[v.0 as int],
            j,
            k,
            h.facts[v.0].x,
            args,
            fs,
        )
    } by {
        assert(at(s, h, j, k) == at(t, h, j, k));
    }
}

/// A value with an earlier one that is the same can be replaced by it.
#[verifier::rlimit(60)]
pub(crate) proof fn lemma_replaced_sound(
    s: State,
    h: Trace,
    open: Set<u32>,
    from: Value,
    to: Value,
    args: Seq<RtValue>,
    fs: FloatSem,
)
    requires
        sound(s, h, open, args, fs),
        to.0 < s.ir.insts.len(),
        h.facts.dom().contains(from.0) ==> {
            &&& earlier(h, to, h.facts[from.0].i, 0)
            &&& h.facts[to.0].x == h.facts[from.0].x
        },
    ensures
        sound(replaced(s, from, to), h, open, args, fs),
{
    reveal(sound);
    let t = replaced(s, from, to);
    lemma_replaced_grown(s, from, to, Seq::empty());
    lemma_tables(s, t);
    assert forall|i: int| #![trigger leads(t, h, i)] 0 <= i < h.path.len() - 1 implies leads(
        t,
        h,
        i,
    ) by {
        assert(leads(s, h, i));
    }
    assert(path_ok(t, h));
    assert forall|v: u32| #![trigger h.facts[v]] h.facts.dom().contains(v) implies {
        let f = h.facts[v];
        0 <= f.i < h.path.len() && 0 <= f.k < count_at(t, h, f.i) && at(t, h, f.i, f.k) == Value(v)
    } by {
        let f = h.facts[v];
        assert(at(s, h, f.i, f.k) == Value(v));
    }
    assert forall|i: int, k: int|
        #![trigger at(t, h, i, k)]
        0 <= i < h.path.len() && 0 <= k < count_at(t, h, i) implies {
        let v = at(t, h, i, k);
        &&& h.facts.dom().contains(v.0)
        &&& h.facts[v.0].i == i
        &&& h.facts[v.0].k == k
        &&& v.0 < t.ir.insts.len()
        &&& !open.contains(v.0) ==> computes(
            h,
            t.ir.insts[v.0 as int],
            i,
            k,
            h.facts[v.0].x,
            args,
            fs,
        )
    } by {
        let v = at(t, h, i, k);
        assert(at(s, h, i, k) == v);
        if !open.contains(v.0) {
            lemma_computes_replaced(
                h,
                s.ir.insts[v.0 as int],
                from,
                to,
                i,
                k,
                h.facts[v.0].x,
                args,
                fs,
            );
        }
    }
    assert(facts_ok(t, h, open, args, fs));
    assert forall|b: int| #![trigger t.sealed[b]] 0 <= b < t.ir.blocks.len() && !t.sealed[b] implies {
        &&& t.ir.blocks[b].insts.len() == 0
        &&& t.defs[b].dom() == Set::<Seq<char>>::empty()
    } by {
        assert(!s.sealed[b]);
        assert(t.defs[b].dom() =~= s.defs[b].dom());
    }
    assert forall|i: int, name: Seq<char>|
        #![trigger t.defs[h.path[i]].dom().contains(name)]
        0 <= i < h.path.len() && t.defs[h.path[i]].dom().contains(name) implies holds_at(
        t,
        h,
        i,
        name,
    ) by {
        assert(s.defs[h.path[i]].dom().contains(name));
        assert(holds_at(s, h, i, name));
    }
    assert forall|c: int, other: Seq<char>|
        #![trigger t.defs[c].dom().contains(other)]
        0 <= c < t.defs.len() && t.defs[c].dom().contains(other) implies h.seen.contains(other)
        && t.defs[c][other] < t.ir.insts.len() by {
        assert(s.defs[c].dom().contains(other));
    }
    assert forall|c: int, other: Seq<char>|
        #![trigger h.avail[c].contains(other)]
        0 <= c < h.avail.len() && h.avail[c].contains(other) implies h.seen.contains(other)
        && reachable(t, h, c, other) by {
        assert(reachable(s, h, c, other));
        assert(s.defs[c].dom().contains(other) == t.defs[c].dom().contains(other));
    }
}

pub(crate) proof fn lemma_computes_replaced(
    h: Trace,
    m: InstModel,
    from: Value,
    to: Value,
    i: int,
    k: int,
    x: RtValue,
    args: Seq<RtValue>,
    fs: FloatSem,
)
    requires
        computes(h, m, i, k, x, args, fs),
        h.facts.dom().contains(from.0) ==> {
            &&& earlier(h, to, h.facts[from.0].i, 0)
            &&& h.facts[to.0].x == h.facts[from.0].x
            &&& h.facts[to.0].k >= 0
        },
    ensures
        computes(h, subst_inst(m, from, to), i, k, x, args, fs),
{
    let n = subst_inst(m, from, to);
    assert(n.args.len() == m.args.len());
    if !(m.op is Phi) {
        let a = Seq::new(reads(m.op), |j: int| h.facts[m.args[j].0].x);
        let b = Seq::new(reads(m.op), |j: int| h.facts[n.args[j].0].x);
        assert forall|j: int| 0 <= j < reads(m.op) implies a[j] == b[j] by {
            assert(earlier(h, m.args[j], i, k));
            assert(n.args[j] == subst(m.args[j], from, to));
        }
        assert(a =~= b);
        assert forall|j: int| #![trigger n.args[j]] 0 <= j < reads(m.op) implies earlier(
            h,
            n.args[j],
            i,
            k,
        ) by {
            assert(earlier(h, m.args[j], i, k));
            assert(n.args[j] == subst(m.args[j], from, to));
        }
    }
}

/// A phi gets its operands.
#[verifier::rlimit(60)]
pub(crate) proof fn lemma_close(
    s: State,
    h: Trace,
    open: Set<u32>,
    phi: Value,
    edges: Seq<(Block, Value)>,
    args: Seq<RtValue>,
    fs: FloatSem,
)
    requires
        sound(s, h, open.insert(phi.0), args, fs),
        phi.0 < s.ir.insts.len(),
        s.ir.insts[phi.0 as int].op is Phi,
        h.facts.dom().contains(phi.0) ==> computes(
            h,
            phi_of(edges),
            h.facts[phi.0].i,
            h.facts[phi.0].k,
            h.facts[phi.0].x,
            args,
            fs,
        ),
    ensures
        sound(with_operands(s, phi, edges), h, open, args, fs),
{
    reveal(sound);
    let t = with_operands(s, phi, edges);
    lemma_operands_grown(s, phi, edges, Seq::empty());
    lemma_tables(s, t);
    assert forall|i: int| #![trigger leads(t, h, i)] 0 <= i < h.path.len() - 1 implies leads(
        t,
        h,
        i,
    ) by {
        assert(leads(s, h, i));
    }
    assert(path_ok(t, h));
    assert forall|v: u32| #![trigger h.facts[v]] h.facts.dom().contains(v) implies {
        let f = h.facts[v];
        0 <= f.i < h.path.len() && 0 <= f.k < count_at(t, h, f.i) && at(t, h, f.i, f.k) == Value(v)
    } by {
        let f = h.facts[v];
        assert(at(s, h, f.i, f.k) == Value(v));
    }
    assert forall|j: int, k: int|
        #![trigger at(t, h, j, k)]
        0 <= j < h.path.len() && 0 <= k < count_at(t, h, j) implies {
        let v = at(t, h, j, k);
        &&& h.facts.dom().contains(v.0)
        &&& h.facts[v.0].i == j
        &&& h.facts[v.0].k == k
        &&& v.0 < t.ir.insts.len()
        &&& !open.contains(v.0) ==> computes(
            h,
            t.ir.insts[v.0 as int],
            j,
            k,
            h.facts[v.0].x,
            args,
            fs,
        )
    } by {
        assert(at(s, h, j, k) == at(t, h, j, k));
    }
    lemma_names_richer(s, t, h, h);
}

/// What reading a variable keeps: the lists of values grow, by new values.
pub open spec fn passed(s: State, t: State, name: Seq<char>) -> bool {
    &&& grown(s, t, name)
    &&& t.pending == s.pending
    &&& forall|b: int|
        #![trigger t.ir.blocks[b]]
        0 <= b < s.ir.blocks.len() ==> s.ir.blocks[b].insts.len() <= t.ir.blocks[b].insts.len()
    &&& forall|i: int|
        #![trigger t.ir.insts[i]]
        0 <= i < s.ir.insts.len() ==> t.ir.insts[i].op == s.ir.insts[i].op
    &&& forall|b: int, k: int|
        #![trigger t.ir.blocks[b].insts[k]]
        0 <= b < t.ir.blocks.len() && 0 <= k < t.ir.blocks[b].insts.len() ==> if k
            < s.ir.blocks[b].insts.len() {
            t.ir.blocks[b].insts[k] == s.ir.blocks[b].insts[k]
        } else {
            t.ir.blocks[b].insts[k].0 >= s.ir.insts.len()
        }
}

pub(crate) proof fn lemma_passed_trans(a: State, b: State, c: State, name: Seq<char>)
    requires
        shaped(a),
        passed(a, b, name),
        passed(b, c, name),
    ensures
        passed(a, c, name),
{
    lemma_grown_trans(a, b, c, name);
    assert forall|i: int|
        #![trigger c.ir.insts[i]]
        0 <= i < a.ir.insts.len() implies c.ir.insts[i].op == a.ir.insts[i].op by {
        assert(b.ir.insts[i].op == a.ir.insts[i].op);
    }
    assert forall|i: int|
        #![trigger c.ir.blocks[i]]
        0 <= i < a.ir.blocks.len() implies a.ir.blocks[i].insts.len()
        <= c.ir.blocks[i].insts.len() by {
        assert(a.ir.blocks[i].insts.len() <= b.ir.blocks[i].insts.len());
    }
    assert forall|i: int, k: int|
        #![trigger c.ir.blocks[i].insts[k]]
        0 <= i < c.ir.blocks.len() && 0 <= k < c.ir.blocks[i].insts.len() implies if k
        < a.ir.blocks[i].insts.len() {
        c.ir.blocks[i].insts[k] == a.ir.blocks[i].insts[k]
    } else {
        c.ir.blocks[i].insts[k].0 >= a.ir.insts.len()
    } by {
        if k < b.ir.blocks[i].insts.len() {
            assert(b.ir.blocks[i].insts[k] == c.ir.blocks[i].insts[k]);
        }
    }
}

pub(crate) proof fn lemma_edge_found(froms: Seq<Block>, p: Block, i: int)
    requires
        0 <= i <= froms.len(),
        exists|j: int| i <= j < froms.len() && froms[j] == p,
    ensures
        edge_from(froms, p, i) matches Some(j) && i <= j < froms.len() && froms[j] == p,
    decreases froms.len() - i,
{
    let j = choose|j: int| i <= j < froms.len() && froms[j] == p;
    if froms[i] != p {
        assert(i + 1 <= j);
        lemma_edge_found(froms, p, i + 1);
    }
}

/// The operands that were found make the phi what the variable is, and they
/// may make it superfluous.
#[verifier::rlimit(60)]
pub(crate) proof fn lemma_filled(
    s: State,
    h: Trace,
    open: Set<u32>,
    phi: Value,
    block: Block,
    edges: Seq<(Block, Value)>,
    name: Seq<char>,
    args: Seq<RtValue>,
    fs: FloatSem,
)
    requires
        sound(s, h, open.insert(phi.0), args, fs),
        block.0 < s.ir.blocks.len(),
        phi.0 < s.ir.insts.len(),
        s.ir.insts[phi.0 as int].op is Phi,
        forall|b: int, k: int|
            #![trigger s.ir.blocks[b].insts[k]]
            0 <= b < s.ir.blocks.len() && 0 <= k < s.ir.blocks[b].insts.len()
                && s.ir.blocks[b].insts[k] == phi ==> b == block.0,
        read_ok(h, block.0 as int, name, phi),
        edges.len() == s.ir.blocks[block.0 as int].preds.len(),
        edges.len() > 0,
        forall|j: int|
            #![trigger edges[j]]
            0 <= j < edges.len() ==> {
                &&& edges[j].0 == s.ir.blocks[block.0 as int].preds[j]
                &&& edges[j].1.0 < s.ir.insts.len()
                &&& read_ok(h, edges[j].0.0 as int, name, edges[j].1)
            },
    ensures
        sound(without_trivial(with_operands(s, phi, edges), phi), h, open, args, fs),
{
    reveal(sound);
    let b = block.0 as int;
    let m = phi_of(edges);
    let froms = edge_blocks(edges);
    assert(froms =~= s.ir.blocks[b].preds);
    assert(m.op == Op::Phi(froms));
    let known = h.facts.dom().contains(phi.0);
    let i = h.facts[phi.0].i;
    let j = if known {
        let k = h.facts[phi.0].k;
        assert(at(s, h, i, k) == phi);
        assert(s.ir.blocks[h.path[i]].insts[k] == phi);
        assert(h.path[i] == b);
        assert(i > 0);
        let p = Block(h.path[i - 1] as u32);
        assert(s.ir.blocks[h.path[i]].preds.contains(p));
        lemma_edge_found(froms, p, 0);
        let j = edge_from(froms, p, 0).unwrap();
        assert(edges[j].0 == p);
        assert(h.path[i - 1] == edges[j].0.0);
        assert(m.args[j] == edges[j].1);
        assert(earlier(h, edges[j].1, i, 0));
        assert(computes(h, m, i, k, h.facts[phi.0].x, args, fs));
        j
    } else {
        0
    };
    lemma_close(s, h, open, phi, edges, args, fs);
    let t = with_operands(s, phi, edges);
    assert(t.ir.insts[phi.0 as int] == m);
    if exists|v: Value| is_only(m.args, phi, v) {
        let v = choose|v: Value| is_only(m.args, phi, v);
        assert(is_only(m.args, phi, v));
        let at = choose|l: int| 0 <= l < m.args.len() && m.args[l] == v;
        assert(edges[at].1 == v);
        if known {
            assert(m.args[j] == phi || m.args[j] == v);
            assert(m.args[j] != phi);
        }
        lemma_replaced_sound(t, h, open, phi, v, args, fs);
    }
}

/// Reading a variable finds what the run found it to be.
#[verifier::rlimit(100)]
pub(crate) proof fn lemma_read(
    u: nat,
    r: nat,
    s: State,
    h: Trace,
    open: Set<u32>,
    name: Seq<char>,
    block: Block,
    ty: Ty,
    args: Seq<RtValue>,
    fs: FloatSem,
) -> (g: Trace)
    requires
        sound(s, h, open, args, fs),
        block.0 < s.ir.blocks.len(),
        s.sealed[block.0 as int],
        h.avail[block.0 as int].contains(name),
        u >= missing(s, name),
        r >= block.0,
        s.ir.insts.len() + missing(s, name) <= u32::MAX,
    ensures
        ({
            let (v, t) = read(u, r, s.ir.blocks.len(), s, name, block, ty);
            &&& sound(t, g, open, args, fs)
            &&& richer(h, g)
            &&& read_ok(g, block.0 as int, name, v)
            &&& v.0 < t.ir.insts.len()
            &&& passed(s, t, name)
        }),
    decreases u, r, 1nat,
{
    reveal(sound);
    let b = block.0 as int;
    let n = s.ir.blocks.len();
    if s.defs[b].dom().contains(name) {
        assert forall|i: int| #![trigger h.path[i]] 0 <= i < h.path.len() && h.path[i] == b implies {
            &&& h.env.dom().contains(name)
            &&& earlier(h, Value(s.defs[b][name]), i + 1, 0)
            &&& h.facts[s.defs[b][name]].x == h.env[name]
        } by {
            assert(s.defs[h.path[i]].dom().contains(name));
            assert(holds_at(s, h, i, name));
        }
        assert(passed(s, s, name));
        h
    } else {
        lemma_missing_some(s, name, b);
        assert(reachable(s, h, b, name));
        let preds = s.ir.blocks[b].preds;
        assert(h.path[0] == 0);
        if preds.len() == 1 {
            let p = preds[0];
            assert(s.ir.blocks[b].preds[0].0 < b);
            assert(s.sealed[s.ir.blocks[b].preds[0].0 as int]);
            let g = lemma_read(u, (r - 1) as nat, s, h, open, name, p, ty, args, fs);
            let (v, w) = read(u, (r - 1) as nat, n, s, name, p, ty);
            assert forall|i: int| #![trigger g.path[i]] 0 <= i < g.path.len() && g.path[i]
                == b implies {
                &&& g.env.dom().contains(name)
                &&& earlier(g, v, i + 1, 0)
                &&& g.facts[v.0].x == g.env[name]
            } by {
                assert(h.path[i] == b);
                assert(i > 0);
                assert(preds.contains(Block(h.path[i - 1] as u32)));
                assert(g.path[i - 1] == p.0);
            }
            assert(w.ir.blocks[b].preds == s.ir.blocks[b].preds);
            lemma_write(w, g, open, name, block, v, args, fs);
            lemma_written_grown(w, name, block, v);
            let t = written(w, name, block, v);
            assert(passed(w, t, name));
            lemma_passed_trans(s, w, t, name);
            g
        } else {
            lemma_read_phi(u, r, s, h, open, name, block, ty, args, fs)
        }
    }
}

/// The same, in a block that does not define the variable and has several
/// predecessors.
#[verifier::rlimit(100)]
pub(crate) proof fn lemma_read_phi(
    u: nat,
    r: nat,
    s: State,
    h: Trace,
    open: Set<u32>,
    name: Seq<char>,
    block: Block,
    ty: Ty,
    args: Seq<RtValue>,
    fs: FloatSem,
) -> (g: Trace)
    requires
        sound(s, h, open, args, fs),
        block.0 < s.ir.blocks.len(),
        s.sealed[block.0 as int],
        h.avail[block.0 as int].contains(name),
        !s.defs[block.0 as int].dom().contains(name),
        s.ir.blocks[block.0 as int].preds.len() != 1,
        u >= missing(s, name),
        s.ir.insts.len() + missing(s, name) <= u32::MAX,
    ensures
        ({
            let (v, t) = read(u, r, s.ir.blocks.len(), s, name, block, ty);
            &&& sound(t, g, open, args, fs)
            &&& richer(h, g)
            &&& read_ok(g, block.0 as int, name, v)
            &&& v.0 < t.ir.insts.len()
            &&& passed(s, t, name)
        }),
    decreases u, r, 0nat,
{
    reveal(sound);
    let b = block.0 as int;
    let n = s.ir.blocks.len();
    let phi = next_value(s);
    let wider = open.insert(phi.0);
    lemma_missing_some(s, name, b);
    assert(reachable(s, h, b, name));
    let preds = s.ir.blocks[b].preds;
    let span = Span { start: 0, end: 0 };
    let empty = phi_of(Seq::empty());
    let made = with_phi(s, block, ty);
    assert(facts_ok(s, h, wider, args, fs));
    let known = if h.path.contains(b) {
        let i = h.path.index_of(b);
        assert(h.path[i] == b);
        assert(h.avail[h.path[i]].contains(name));
        lemma_add(s, h, wider, i, empty, ty, span, h.env[name], args, fs);
        let g = learned(s, h, i, h.env[name]);
        assert forall|j: int| #![trigger g.path[j]] 0 <= j < g.path.len() && g.path[j] == b implies {
            &&& g.env.dom().contains(name)
            &&& earlier(g, phi, j + 1, 0)
            &&& g.facts[phi.0].x == g.env[name]
        } by {
            assert(h.path[j] == h.path[i]);
            assert(i == j);
        }
        g
    } else {
        lemma_add_aside(s, h, wider, block, empty, ty, span, args, fs);
        h
    };
    assert(read_ok(known, b, name, phi));
    lemma_phi_shaped(s, block, ty);
    lemma_write(made, known, wider, name, block, phi, args, fs);
    lemma_written_grown(made, name, block, phi);
    let ready = written(made, name, block, phi);
    assert(missing(made, name) == missing(s, name));
    assert(grown(s, ready, name));
    assert(passed(s, ready, name));
    assert(ready.ir.blocks[b].preds == preds);
    assert forall|j: int| #![trigger preds[j]] 0 <= j < preds.len() implies {
        &&& preds[j].0 < ready.ir.blocks.len()
        &&& ready.sealed[preds[j].0 as int]
        &&& known.avail[preds[j].0 as int].contains(name)
    } by {
        assert(s.ir.blocks[b].preds[j].0 < n);
        assert(s.sealed[s.ir.blocks[b].preds[j].0 as int]);
    }
    let t_phi = ready.ir.types[phi.0 as int];
    let v = (u - 1) as nat;
    let g = lemma_gathered(v, ready, known, wider, preds, name, t_phi, preds.len(), args, fs);
    let (edges, t) = gathered(v, n, ready, preds, name, t_phi, preds.len());
    lemma_passed_trans(s, ready, t, name);
    assert(t.ir.insts[phi.0 as int].op == ready.ir.insts[phi.0 as int].op);
    assert forall|c: int, k: int|
        #![trigger t.ir.blocks[c].insts[k]]
        0 <= c < t.ir.blocks.len() && 0 <= k < t.ir.blocks[c].insts.len()
            && t.ir.blocks[c].insts[k] == phi implies c == block.0 by {
        if c != b {
            if k < s.ir.blocks[c].insts.len() {
                assert(s.ir.blocks[c].insts[k].0 < s.ir.insts.len());
            } else {
                assert(ready.ir.blocks[c].insts == s.ir.blocks[c].insts);
            }
        }
    }
    assert forall|i: int| #![trigger g.path[i]] 0 <= i < g.path.len() && g.path[i] == b implies {
        &&& g.env.dom().contains(name)
        &&& earlier(g, phi, i + 1, 0)
        &&& g.facts[phi.0].x == g.env[name]
    } by {
        assert(known.path[i] == b);
        assert(known.facts.dom().contains(phi.0));
    }
    assert(t.ir.blocks[b].preds == preds);
    lemma_filled(t, g, open, phi, block, edges, name, args, fs);
    let put = with_operands(t, phi, edges);
    let w = without_trivial(put, phi);
    lemma_operands_grown(t, phi, edges, name);
    lemma_trivial_grown(put, phi, name);
    lemma_grown_trans(t, put, w, name);
    lemma_grown_trans(s, t, w, name);
    lemma_replaced_grown(
        put,
        phi,
        choose|x: Value| is_only(put.ir.insts[phi.0 as int].args, phi, x),
        name,
    );
    assert(w.ir.blocks == t.ir.blocks);
    assert forall|i: int|
        #![trigger w.ir.insts[i]]
        0 <= i < s.ir.insts.len() implies w.ir.insts[i].op == s.ir.insts[i].op by {
        assert(t.ir.insts[i].op == s.ir.insts[i].op);
        assert(put.ir.insts[i] == t.ir.insts[i]);
    }
    assert(passed(s, w, name));
    assert(w == filled(v, n, ready, phi, block, name));
    g
}

/// Reading a variable in each of some blocks.
#[verifier::rlimit(60)]
pub(crate) proof fn lemma_gathered(
    u: nat,
    s: State,
    h: Trace,
    open: Set<u32>,
    preds: Seq<Block>,
    name: Seq<char>,
    ty: Ty,
    k: nat,
    args: Seq<RtValue>,
    fs: FloatSem,
) -> (g: Trace)
    requires
        sound(s, h, open, args, fs),
        k <= preds.len(),
        forall|j: int|
            #![trigger preds[j]]
            0 <= j < preds.len() ==> {
                &&& preds[j].0 < s.ir.blocks.len()
                &&& s.sealed[preds[j].0 as int]
                &&& h.avail[preds[j].0 as int].contains(name)
            },
        u >= missing(s, name),
        s.ir.insts.len() + missing(s, name) <= u32::MAX,
    ensures
        ({
            let (edges, t) = gathered(u, s.ir.blocks.len(), s, preds, name, ty, k);
            &&& sound(t, g, open, args, fs)
            &&& richer(h, g)
            &&& passed(s, t, name)
            &&& edges.len() == k
            &&& forall|j: int|
                #![trigger edges[j]]
                0 <= j < k ==> {
                    &&& edges[j].0 == preds[j]
                    &&& edges[j].1.0 < t.ir.insts.len()
                    &&& read_ok(g, edges[j].0.0 as int, name, edges[j].1)
                }
        }),
    decreases u, s.ir.blocks.len() + 1, k,
{
    reveal(sound);
    let n = s.ir.blocks.len();
    if k == 0 {
        assert(passed(s, s, name));
        h
    } else {
        let l = (k - 1) as nat;
        let f = lemma_gathered(u, s, h, open, preds, name, ty, l, args, fs);
        let (before, t) = gathered(u, n, s, preds, name, ty, l);
        let p = preds[k - 1];
        assert(t.ir.blocks.len() == n);
        let g = lemma_read(u, n, t, f, open, name, p, ty, args, fs);
        let (v, w) = read(u, n, n, t, name, p, ty);
        lemma_passed_trans(s, t, w, name);
        let edges = before.push((p, v));
        assert forall|j: int| #![trigger edges[j]] 0 <= j < k implies {
            &&& edges[j].0 == preds[j]
            &&& edges[j].1.0 < w.ir.insts.len()
            &&& read_ok(g, edges[j].0.0 as int, name, edges[j].1)
        } by {
            if j < l {
                assert(edges[j] == before[j]);
                let x = before[j].1;
                let c = before[j].0.0 as int;
                assert(read_ok(f, c, name, x));
                assert forall|i: int| #![trigger g.path[i]] 0 <= i < g.path.len() && g.path[i]
                    == c implies {
                    &&& g.env.dom().contains(name)
                    &&& earlier(g, x, i + 1, 0)
                    &&& g.facts[x.0].x == g.env[name]
                } by {
                    assert(f.path[i] == c);
                }
            }
        }
        g
    }
}

} // verus!
