//! What lowering makes is well-formed.
//!
//! While a function is built, a plan says for every block which blocks every
//! way to it runs through, and for every value where it stands. Adding code
//! keeps the plan right, and a finished function with a plan is well-formed.
use crate::builder::{
    emitted, filled, gathered, missing, next_value, phi_of, read, read_through, replaced,
    same_shape, shaped, with_operands, with_phi, without_trivial, written, State,
};
use crate::builder::{
    closed_off, is_only, lemma_phi_shaped, lemma_replaced_grown, lemma_written_grown,
};
use crate::ir::{subst, subst_inst, Block, InstModel, Op, Span, Terminator, Ty, Value};
use crate::ir::edge_blocks;
use crate::lower::backward;
use crate::verify::{arity, is_ordered};
use vstd::prelude::*;

verus! {

// ---------------------------------------------------------------------------
// Types of instructions

/// The value has the type.
pub open spec fn has_type(types: Seq<Ty>, v: Value, ty: Ty) -> bool {
    v.0 < types.len() && types[v.0 as int] == ty
}

/// The instruction reads `n` values of type `each`.
pub open spec fn reads_all(types: Seq<Ty>, m: InstModel, n: nat, each: Ty) -> bool {
    &&& m.args.len() == n
    &&& forall|j: int| #![trigger m.args[j]] 0 <= j < n ==> has_type(types, m.args[j], each)
}

/// The operands of the instruction fit its operation, which gives a `ty`.
#[verifier::opaque]
pub open spec fn gives(types: Seq<Ty>, params: Seq<(Seq<char>, Ty)>, m: InstModel, ty: Ty) -> bool {
    match m.op {
        Op::ConstF64(_) => m.args.len() == 0 && ty == Ty::F64,
        Op::ConstI64(_) => m.args.len() == 0 && ty == Ty::I64,
        Op::ConstBool(_) => m.args.len() == 0 && ty == Ty::Bool,
        Op::Param(i, declared) => m.args.len() == 0 && i < params.len() && params[i as int].1
            == declared && ty == declared,
        Op::Neg => reads_all(types, m, 1, ty) && ty != Ty::Bool,
        Op::Not => reads_all(types, m, 1, ty) && ty != Ty::F64,
        Op::Sqrt | Op::Abs | Op::Floor | Op::Ceil | Op::Round | Op::Trunc => reads_all(
            types,
            m,
            1,
            Ty::F64,
        ) && ty == Ty::F64,
        Op::IToF => reads_all(types, m, 1, Ty::I64) && ty == Ty::F64,
        Op::FToI => reads_all(types, m, 1, Ty::F64) && ty == Ty::I64,
        Op::Add | Op::Sub | Op::Mul | Op::Div | Op::Rem => reads_all(types, m, 2, ty) && ty
            != Ty::Bool,
        Op::Min | Op::Max => reads_all(types, m, 2, Ty::F64) && ty == Ty::F64,
        Op::And | Op::Or => reads_all(types, m, 2, ty) && ty != Ty::F64,
        Op::Xor | Op::Shl | Op::Shr | Op::Sar => reads_all(types, m, 2, Ty::I64) && ty == Ty::I64,
        Op::Compare(c) => ty == Ty::Bool && (reads_all(types, m, 2, Ty::F64) || reads_all(
            types,
            m,
            2,
            Ty::I64,
        ) || (reads_all(types, m, 2, Ty::Bool) && !is_ordered(c))),
        Op::Fma => reads_all(types, m, 3, Ty::F64) && ty == Ty::F64,
        Op::Call(func) => reads_all(types, m, arity(func), Ty::F64) && ty == Ty::F64,
        Op::Phi(froms) => reads_all(types, m, froms.len(), ty),
    }
}

/// More values, or another operand of the same type, do not matter.
pub(crate) proof fn lemma_gives_still(
    types: Seq<Ty>,
    more: Seq<Ty>,
    params: Seq<(Seq<char>, Ty)>,
    fuller: Seq<(Seq<char>, Ty)>,
    m: InstModel,
    n: InstModel,
    ty: Ty,
)
    requires
        gives(types, params, m, ty),
        types.len() <= more.len(),
        forall|i: int| #![trigger more[i]] 0 <= i < types.len() ==> more[i] == types[i],
        params.len() <= fuller.len(),
        forall|i: int| #![trigger fuller[i]] 0 <= i < params.len() ==> fuller[i] == params[i],
        n.op == m.op,
        n.args.len() == m.args.len(),
        forall|j: int, each: Ty|
            #![trigger has_type(types, m.args[j], each)]
            0 <= j < m.args.len() && has_type(types, m.args[j], each) ==> has_type(
                more,
                n.args[j],
                each,
            ),
    ensures
        gives(more, fuller, n, ty),
{
    reveal(gives);
    assert forall|k: nat, each: Ty| #[trigger] reads_all(types, m, k, each) implies reads_all(
        more,
        n,
        k,
        each,
    ) by {
        assert forall|j: int| #![trigger n.args[j]] 0 <= j < k implies has_type(
            more,
            n.args[j],
            each,
        ) by {
            assert(has_type(types, m.args[j], each));
        }
    }
}

// ---------------------------------------------------------------------------
// Plans

/// For every block: a number that grows along every edge, the blocks that
/// every way to it runs through, and the variables that can be read there. For
/// every value: the block and the place in it where it is computed.
pub struct Plan {
    pub rank: Seq<nat>,
    pub over: Seq<Set<int>>,
    pub avail: Seq<Set<Seq<char>>>,
    pub home: Seq<(int, int)>,
}

/// All predecessors of the block are reached over `c` only.
pub open spec fn over_all(s: State, p: Plan, b: int, c: int) -> bool {
    forall|k: int|
        #![trigger s.ir.blocks[b].preds[k]]
        0 <= k < s.ir.blocks[b].preds.len()
            ==> p.over[s.ir.blocks[b].preds[k].0 as int].contains(c)
}

/// The plan says how the blocks hang together.
#[verifier::opaque]
pub open spec fn graph_ok(s: State, p: Plan) -> bool {
    let n = s.ir.blocks.len();
    &&& shaped(s)
    &&& n > 0
    &&& s.ir.entry == Block(0)
    &&& p.rank.len() == n
    &&& p.over.len() == n
    &&& p.avail.len() == n
    &&& s.sealed[0]
    &&& s.ir.blocks[0].preds.len() == 0
    &&& p.over[0] == Set::empty().insert(0int)
    &&& forall|b: int| #![trigger p.over[b]] 0 <= b < n ==> p.over[b].contains(b)
    &&& forall|b: int, c: int|
        #![trigger p.over[b].contains(c)]
        0 <= b < n && p.over[b].contains(c) ==> 0 <= c < n && (c == b || p.rank[c] < p.rank[b])
    &&& forall|b: int, c: int, d: int|
        #![trigger p.over[b].contains(c), p.over[c].contains(d)]
        0 <= b < n && p.over[b].contains(c) && p.over[c].contains(d) ==> p.over[b].contains(d)
    &&& forall|b: int, k: int|
        #![trigger s.ir.blocks[b].preds[k]]
        0 <= b < n && 0 <= k < s.ir.blocks[b].preds.len() ==> p.rank[s.ir.blocks[b].preds[k].0 as int]
            < p.rank[b]
    &&& forall|b: int, c: int|
        #![trigger p.over[b].contains(c)]
        0 <= b < n && p.over[b].contains(c) && c != b ==> over_all(s, p, b, c)
    &&& forall|b: int, c: int|
        #![trigger over_all(s, p, b, c)]
        0 < b < n && s.sealed[b] && over_all(s, p, b, c) ==> p.over[b].contains(c)
    &&& forall|b: int|
        #![trigger s.sealed[b]]
        0 < b < n && s.sealed[b] ==> s.ir.blocks[b].preds.len() > 0
    &&& forall|b: int|
        #![trigger s.sealed[b]]
        0 <= b < n && !s.sealed[b] ==> {
            &&& p.over[b] == Set::empty().insert(b)
            &&& p.avail[b] == Set::<Seq<char>>::empty()
            &&& s.ir.blocks[b].insts.len() == 0
            &&& s.ir.blocks[b].term is None
            &&& s.defs[b].dom() == Set::<Seq<char>>::empty()
        }
}

/// The value is there at the end of block `b`.
pub open spec fn there(p: Plan, u: Value, b: int) -> bool {
    u.0 < p.home.len() && p.over[b].contains(p.home[u.0 as int].0)
}

/// The value is there at place `k` of block `b`.
pub open spec fn there_at(p: Plan, u: Value, b: int, k: int) -> bool {
    there(p, u, b) && (p.home[u.0 as int].0 == b ==> p.home[u.0 as int].1 < k)
}

/// What the instruction reads is there where it reads it.
pub open spec fn supplied(s: State, p: Plan, m: InstModel, b: int, k: int) -> bool {
    match m.op {
        Op::Phi(froms) => {
            &&& froms == s.ir.blocks[b].preds
            &&& froms.len() > 0
            &&& m.args.len() == froms.len()
            &&& forall|j: int|
                #![trigger m.args[j]]
                0 <= j < m.args.len() ==> there(p, m.args[j], froms[j].0 as int)
        },
        _ => forall|j: int|
            #![trigger m.args[j]]
            0 <= j < m.args.len() ==> there_at(p, m.args[j], b, k),
    }
}

/// The variable can be read in block `b`: the block defines it, or all blocks
/// before it let it be read.
pub open spec fn readable(s: State, p: Plan, b: int, name: Seq<char>) -> bool {
    s.defs[b].dom().contains(name) || (b != 0 && s.sealed[b] && forall|k: int|
        #![trigger s.ir.blocks[b].preds[k]]
        0 <= k < s.ir.blocks[b].preds.len()
            ==> p.avail[s.ir.blocks[b].preds[k].0 as int].contains(name))
}

/// What the terminator reads is there, a branch reads a bool, and nothing
/// returns yet.
pub open spec fn ends_ok(s: State, p: Plan, b: int) -> bool {
    match s.ir.blocks[b].term {
        Some(Terminator::Return(_)) => false,
        Some(Terminator::Branch { cond, .. }) => there(p, cond, b) && has_type(
            s.ir.types,
            cond,
            Ty::Bool,
        ),
        _ => true,
    }
}

/// The plan says where the values stand, and everything is typed. The phis in
/// `open` have no operands yet.
#[verifier::opaque]
pub open spec fn code_ok(s: State, p: Plan, tys: Map<Seq<char>, Ty>, open: Set<u32>) -> bool {
    let n = s.ir.blocks.len();
    &&& p.home.len() == s.ir.insts.len()
    &&& forall|v: int|
        #![trigger p.home[v]]
        0 <= v < p.home.len() ==> {
            &&& 0 <= p.home[v].0 < n
            &&& 0 <= p.home[v].1 < s.ir.blocks[p.home[v].0].insts.len()
            &&& s.ir.blocks[p.home[v].0].insts[p.home[v].1].0 == v
        }
    &&& forall|b: int, k: int|
        #![trigger s.ir.blocks[b].insts[k]]
        0 <= b < n && 0 <= k < s.ir.blocks[b].insts.len() ==> s.ir.blocks[b].insts[k].0
            < p.home.len() && p.home[s.ir.blocks[b].insts[k].0 as int] == (b, k)
    &&& forall|v: int|
        #![trigger s.ir.insts[v]]
        0 <= v < s.ir.insts.len() ==> {
            &&& gives(s.ir.types, s.ir.params, s.ir.insts[v], s.ir.types[v])
            &&& !open.contains(v as u32) ==> supplied(
                s,
                p,
                s.ir.insts[v],
                p.home[v].0,
                p.home[v].1,
            )
        }
    &&& forall|v: u32| #[trigger]
        open.contains(v) ==> v < s.ir.insts.len() && s.ir.insts[v as int].op is Phi
    &&& forall|b: int, name: Seq<char>|
        #![trigger s.defs[b].dom().contains(name)]
        0 <= b < n && s.defs[b].dom().contains(name) ==> {
            &&& there(p, Value(s.defs[b][name]), b)
            &&& tys.dom().contains(name)
            &&& s.ir.types[s.defs[b][name] as int] == tys[name]
        }
    &&& forall|b: int, name: Seq<char>|
        #![trigger p.avail[b].contains(name)]
        0 <= b < n && p.avail[b].contains(name) ==> tys.dom().contains(name) && readable(
            s,
            p,
            b,
            name,
        )
    &&& forall|b: int| #![trigger s.ir.blocks[b]] 0 <= b < n ==> ends_ok(s, p, b)
}

/// Code was added and nothing was taken away.
pub open spec fn grows(s: State, t: State) -> bool {
    &&& same_shape(s, t)
    &&& t.pending == s.pending
    &&& forall|b: int, name: Seq<char>|
        #![trigger t.defs[b].dom().contains(name)]
        0 <= b < s.defs.len() && s.defs[b].dom().contains(name) ==> t.defs[b].dom().contains(name)
}

/// The plan knows more values.
pub open spec fn fuller(p: Plan, q: Plan) -> bool {
    &&& q.rank == p.rank
    &&& q.over == p.over
    &&& q.avail == p.avail
    &&& p.home.len() <= q.home.len()
    &&& forall|v: int| #![trigger q.home[v]] 0 <= v < p.home.len() ==> q.home[v] == p.home[v]
}

/// The plan with one more value at the end of block `b`.
pub open spec fn with_home(s: State, p: Plan, b: int) -> Plan {
    Plan { home: p.home.push((b, s.ir.blocks[b].insts.len() as int)), ..p }
}

/// The graph only depends on the blocks.
pub(crate) proof fn lemma_graph_same(s: State, t: State, p: Plan, q: Plan)
    requires
        graph_ok(s, p),
        shaped(t),
        same_shape(s, t),
        fuller(p, q),
        forall|b: int|
            #![trigger t.sealed[b]]
            0 <= b < t.sealed.len() && !t.sealed[b] ==> t.ir.blocks[b].insts
                == s.ir.blocks[b].insts && t.defs[b].dom() == s.defs[b].dom(),
    ensures
        graph_ok(t, q),
{
    reveal(graph_ok);
    let n = s.ir.blocks.len();
    assert forall|b: int| #![trigger t.ir.blocks[b]] 0 <= b < n implies t.ir.blocks[b].preds
        == s.ir.blocks[b].preds by {}
    assert forall|b: int, c: int|
        #![trigger over_all(t, q, b, c)]
        0 <= b < n implies over_all(t, q, b, c) == over_all(s, p, b, c) by {
        assert(t.ir.blocks[b].preds == s.ir.blocks[b].preds);
        assert forall|k: int| 0 <= k < s.ir.blocks[b].preds.len() implies t.ir.blocks[b].preds[k]
            == #[trigger] s.ir.blocks[b].preds[k] by {}
        assert forall|k: int| 0 <= k < t.ir.blocks[b].preds.len() implies s.ir.blocks[b].preds[k]
            == #[trigger] t.ir.blocks[b].preds[k] by {}
    }
    assert forall|b: int, k: int|
        #![trigger t.ir.blocks[b].preds[k]]
        0 <= b < n && 0 <= k < t.ir.blocks[b].preds.len() implies q.rank[t.ir.blocks[b].preds[k].0 as int]
        < q.rank[b] by {
        assert(t.ir.blocks[b].preds[k] == s.ir.blocks[b].preds[k]);
    }
    assert forall|b: int, c: int|
        #![trigger q.over[b].contains(c)]
        0 <= b < n && q.over[b].contains(c) && c != b implies over_all(t, q, b, c) by {
        assert(over_all(s, p, b, c));
        assert(over_all(t, q, b, c) == over_all(s, p, b, c));
    }
    assert forall|b: int|
        #![trigger t.sealed[b]]
        0 < b < n && t.sealed[b] implies t.ir.blocks[b].preds.len() > 0 by {
        assert(s.sealed[b]);
        assert(t.ir.blocks[b].preds == s.ir.blocks[b].preds);
    }
    assert forall|b: int|
        #![trigger t.sealed[b]]
        0 <= b < n && !t.sealed[b] implies t.ir.blocks[b].term is None by {
        assert(!s.sealed[b]);
        assert(t.ir.blocks[b].term == s.ir.blocks[b].term);
    }
    assert(t.ir.blocks[0].preds == s.ir.blocks[0].preds);
}

/// One more instruction at the end of a block.
#[verifier::rlimit(60)]
pub(crate) proof fn lemma_emit_code(
    s: State,
    p: Plan,
    tys: Map<Seq<char>, Ty>,
    open: Set<u32>,
    cur: Block,
    m: InstModel,
    ty: Ty,
    span: Span,
    opens: bool,
)
    requires
        graph_ok(s, p),
        code_ok(s, p, tys, open),
        cur.0 < s.ir.blocks.len(),
        s.sealed[cur.0 as int],
        s.ir.insts.len() < u32::MAX,
        gives(s.ir.types, s.ir.params, m, ty),
        opens ==> m.op is Phi,
        !opens ==> supplied(s, p, m, cur.0 as int, s.ir.blocks[cur.0 as int].insts.len() as int),
    ensures
        ({
            let t = emitted(s, cur, m, ty, span);
            let q = with_home(s, p, cur.0 as int);
            let more = if opens {
                open.insert(next_value(s).0)
            } else {
                open
            };
            &&& graph_ok(t, q)
            &&& code_ok(t, q, tys, more)
            &&& fuller(p, q)
            &&& grows(s, t)
            &&& shaped(t)
            &&& there(q, next_value(s), cur.0 as int)
            &&& has_type(t.ir.types, next_value(s), ty)
        }),
{
    reveal(code_ok);
    let t = emitted(s, cur, m, ty, span);
    let b = cur.0 as int;
    let q = with_home(s, p, b);
    let v = s.ir.insts.len() as int;
    let more = if opens {
        open.insert(next_value(s).0)
    } else {
        open
    };
    let n = s.ir.blocks.len();
    assert(shaped(s) && p.over[b].contains(b) && s.ir.types.len() == v) by {
        reveal(graph_ok);
    }
    assert(shaped(t)) by {
        assert forall|c: int, k: int|
            #![trigger t.ir.blocks[c].preds[k]]
            0 <= c < n && 0 <= k < t.ir.blocks[c].preds.len() implies t.ir.blocks[c].preds[k].0
            < n by {
            assert(t.ir.blocks[c].preds[k] == s.ir.blocks[c].preds[k]);
        }
    }
    lemma_graph_same(s, t, p, q);
    assert forall|i: int| #![trigger q.home[i]] 0 <= i < q.home.len() implies {
        &&& 0 <= q.home[i].0 < n
        &&& 0 <= q.home[i].1 < t.ir.blocks[q.home[i].0].insts.len()
        &&& t.ir.blocks[q.home[i].0].insts[q.home[i].1].0 == i
    } by {
        if i < v {
            assert(p.home[i] == q.home[i]);
            assert(s.ir.blocks[p.home[i].0].insts[p.home[i].1].0 == i);
        }
    }
    assert forall|c: int, k: int|
        #![trigger t.ir.blocks[c].insts[k]]
        0 <= c < n && 0 <= k < t.ir.blocks[c].insts.len() implies t.ir.blocks[c].insts[k].0
        < q.home.len() && q.home[t.ir.blocks[c].insts[k].0 as int] == (c, k) by {
        if c == b && k == s.ir.blocks[b].insts.len() {
        } else {
            assert(t.ir.blocks[c].insts[k] == s.ir.blocks[c].insts[k]);
        }
    }
    assert forall|i: int| #![trigger t.ir.insts[i]] 0 <= i < t.ir.insts.len() implies {
        &&& gives(t.ir.types, t.ir.params, t.ir.insts[i], t.ir.types[i])
        &&& !more.contains(i as u32) ==> supplied(t, q, t.ir.insts[i], q.home[i].0, q.home[i].1)
    } by {
        let old_m = if i < v {
            s.ir.insts[i]
        } else {
            m
        };
        let old_ty = if i < v {
            s.ir.types[i]
        } else {
            ty
        };
        assert(gives(s.ir.types, s.ir.params, old_m, old_ty));
        lemma_gives_still(
            s.ir.types,
            t.ir.types,
            s.ir.params,
            t.ir.params,
            old_m,
            old_m,
            old_ty,
        );
        if !more.contains(i as u32) {
            let (c, k) = q.home[i];
            if i < v {
                assert(p.home[i] == q.home[i]);
                assert(supplied(s, p, old_m, c, k));
            } else {
                assert(!opens);
            }
            lemma_supplied_still(s, t, p, q, old_m, c, k);
        }
    }
    assert forall|c: int, name: Seq<char>|
        #![trigger t.defs[c].dom().contains(name)]
        0 <= c < n && t.defs[c].dom().contains(name) implies {
        &&& there(q, Value(t.defs[c][name]), c)
        &&& tys.dom().contains(name)
        &&& t.ir.types[t.defs[c][name] as int] == tys[name]
    } by {
        assert(s.defs[c].dom().contains(name));
    }
    assert forall|c: int, name: Seq<char>|
        #![trigger q.avail[c].contains(name)]
        0 <= c < n && q.avail[c].contains(name) implies tys.dom().contains(name) && readable(
        t,
        q,
        c,
        name,
    ) by {
        assert(p.avail[c].contains(name));
        assert(readable(s, p, c, name));
        lemma_readable_still(s, t, p, q, c, name);
    }
    assert forall|c: int| #![trigger t.ir.blocks[c]] 0 <= c < n implies ends_ok(t, q, c) by {
        assert(ends_ok(s, p, c));
        assert(t.ir.blocks[c].term == s.ir.blocks[c].term);
    }
}

pub(crate) proof fn lemma_supplied_still(s: State, t: State, p: Plan, q: Plan, m: InstModel, b: int, k: int)
    requires
        supplied(s, p, m, b, k),
        fuller(p, q),
        t.ir.blocks[b].preds == s.ir.blocks[b].preds,
    ensures
        supplied(t, q, m, b, k),
{
    assert forall|u: Value, c: int| there(p, u, c) implies #[trigger] there(q, u, c) by {
        assert(q.home[u.0 as int] == p.home[u.0 as int]);
    }
    match m.op {
        Op::Phi(froms) => {
            assert forall|j: int| #![trigger m.args[j]] 0 <= j < m.args.len() implies there(
                q,
                m.args[j],
                froms[j].0 as int,
            ) by {
                assert(there(p, m.args[j], froms[j].0 as int));
            }
        },
        _ => {
            assert forall|j: int| #![trigger m.args[j]] 0 <= j < m.args.len() implies there_at(
                q,
                m.args[j],
                b,
                k,
            ) by {
                assert(there_at(p, m.args[j], b, k));
                assert(q.home[m.args[j].0 as int] == p.home[m.args[j].0 as int]);
            }
        },
    }
}

pub(crate) proof fn lemma_readable_still(s: State, t: State, p: Plan, q: Plan, b: int, name: Seq<char>)
    requires
        readable(s, p, b, name),
        q.avail == p.avail,
        t.sealed == s.sealed,
        s.defs[b].dom().contains(name) ==> t.defs[b].dom().contains(name),
        t.ir.blocks[b].preds == s.ir.blocks[b].preds,
    ensures
        readable(t, q, b, name),
{
    if !s.defs[b].dom().contains(name) {
        assert forall|k: int|
            #![trigger t.ir.blocks[b].preds[k]]
            0 <= k < t.ir.blocks[b].preds.len() implies q.avail[t.ir.blocks[b].preds[k].0 as int].contains(
            name,
        ) by {
            assert(t.ir.blocks[b].preds[k] == s.ir.blocks[b].preds[k]);
        }
    }
}

/// A block defines a variable.
#[verifier::rlimit(60)]
pub(crate) proof fn lemma_write_code(
    s: State,
    p: Plan,
    tys: Map<Seq<char>, Ty>,
    open: Set<u32>,
    name: Seq<char>,
    cur: Block,
    v: Value,
)
    requires
        graph_ok(s, p),
        code_ok(s, p, tys, open),
        cur.0 < s.ir.blocks.len(),
        s.sealed[cur.0 as int],
        there(p, v, cur.0 as int),
        tys.dom().contains(name),
        has_type(s.ir.types, v, tys[name]),
    ensures
        graph_ok(written(s, name, cur, v), p),
        code_ok(written(s, name, cur, v), p, tys, open),
        grows(s, written(s, name, cur, v)),
        shaped(written(s, name, cur, v)),
{
    reveal(code_ok);
    let t = written(s, name, cur, v);
    assert(shaped(s)) by {
        reveal(graph_ok);
    }
    lemma_written_grown(s, name, cur, v);
    lemma_graph_same(s, t, p, p);
    let n = s.ir.blocks.len();
    assert forall|i: int| #![trigger t.ir.insts[i]] 0 <= i < t.ir.insts.len() && !open.contains(
        i as u32,
    ) implies supplied(t, p, t.ir.insts[i], p.home[i].0, p.home[i].1) by {
        assert(supplied(s, p, s.ir.insts[i], p.home[i].0, p.home[i].1));
    }
    assert forall|c: int, other: Seq<char>|
        #![trigger t.defs[c].dom().contains(other)]
        0 <= c < n && t.defs[c].dom().contains(other) implies {
        &&& there(p, Value(t.defs[c][other]), c)
        &&& tys.dom().contains(other)
        &&& t.ir.types[t.defs[c][other] as int] == tys[other]
    } by {
        if c == cur.0 && other == name {
            assert(Value(t.defs[c][other]) == v);
        } else {
            assert(s.defs[c].dom().contains(other));
        }
    }
    assert forall|c: int, other: Seq<char>|
        #![trigger p.avail[c].contains(other)]
        0 <= c < n && p.avail[c].contains(other) implies tys.dom().contains(other) && readable(
        t,
        p,
        c,
        other,
    ) by {
        assert(readable(s, p, c, other));
        lemma_readable_still(s, t, p, p, c, other);
    }
    assert forall|c: int| #![trigger t.ir.blocks[c]] 0 <= c < n implies ends_ok(t, p, c) by {
        assert(ends_ok(s, p, c));
    }
}

/// A phi all of whose operands are `to` is replaced by it.
#[verifier::rlimit(80)]
#[verifier::spinoff_prover]
proof fn lemma_replace_code(
    s: State,
    p: Plan,
    tys: Map<Seq<char>, Ty>,
    open: Set<u32>,
    phi: Value,
    to: Value,
)
    requires
        graph_ok(s, p),
        code_ok(s, p, tys, open),
        phi.0 < p.home.len(),
        to.0 < p.home.len(),
        0 < p.home[phi.0 as int].0,
        s.sealed[p.home[phi.0 as int].0],
        over_all(s, p, p.home[phi.0 as int].0, p.home[to.0 as int].0),
        s.ir.types[to.0 as int] == s.ir.types[phi.0 as int],
    ensures
        graph_ok(replaced(s, phi, to), p),
        code_ok(replaced(s, phi, to), p, tys, open),
        grows(s, replaced(s, phi, to)),
        shaped(replaced(s, phi, to)),
{
    reveal(code_ok);
    let t = replaced(s, phi, to);
    let n = s.ir.blocks.len();
    let b = p.home[phi.0 as int].0;
    let d = p.home[to.0 as int].0;
    assert(shaped(s)) by {
        reveal(graph_ok);
    }
    lemma_replaced_grown(s, phi, to, Seq::empty());
    assert forall|c: int| #![trigger t.sealed[c]] 0 <= c < t.sealed.len() && !t.sealed[c] implies
        t.defs[c].dom() == s.defs[c].dom() by {
        assert(t.defs[c].dom() =~= s.defs[c].dom());
    }
    lemma_graph_same(s, t, p, p);
    // The replacement is there wherever the phi is.
    assert(p.over[b].contains(d) && p.rank[d] < p.rank[b]) by {
        reveal(graph_ok);
        let k0 = s.ir.blocks[b].preds[0];
        assert(s.ir.blocks[b].preds.len() > 0);
        assert(p.over[k0.0 as int].contains(d));
        assert(p.rank[k0.0 as int] < p.rank[b]);
    }
    assert forall|c: int| 0 <= c < n && #[trigger] p.over[c].contains(b) implies p.over[c].contains(
        d,
    ) && d != c by {
        reveal(graph_ok);
        assert(p.over[b].contains(d));
    }
    assert forall|u: Value, c: int| 0 <= c < n && there(p, u, c) implies #[trigger] there(
        p,
        subst(u, phi, to),
        c,
    ) by {}
    assert forall|i: int| #![trigger t.ir.insts[i]] 0 <= i < t.ir.insts.len() implies {
        &&& gives(t.ir.types, t.ir.params, t.ir.insts[i], t.ir.types[i])
        &&& !open.contains(i as u32) ==> supplied(t, p, t.ir.insts[i], p.home[i].0, p.home[i].1)
    } by {
        let m = s.ir.insts[i];
        let w = t.ir.insts[i];
        assert(w == subst_inst(m, phi, to));
        assert forall|j: int| 0 <= j < m.args.len() implies w.args[j] == subst(
            #[trigger] m.args[j],
            phi,
            to,
        ) by {}
        assert(gives(s.ir.types, s.ir.params, m, s.ir.types[i]));
        lemma_gives_still(s.ir.types, t.ir.types, s.ir.params, t.ir.params, m, w, s.ir.types[i]);
        if !open.contains(i as u32) {
            let (c, k) = p.home[i];
            assert(supplied(s, p, m, c, k));
            assert(t.ir.blocks[c].preds == s.ir.blocks[c].preds);
            match m.op {
                Op::Phi(froms) => {
                    assert forall|j: int| #![trigger w.args[j]] 0 <= j < w.args.len() implies there(
                        p,
                        w.args[j],
                        froms[j].0 as int,
                    ) by {
                        assert(there(p, m.args[j], froms[j].0 as int));
                        assert(s.ir.blocks[c].preds[j].0 < n);
                        assert(there(p, subst(m.args[j], phi, to), froms[j].0 as int));
                    }
                },
                _ => {
                    assert forall|j: int| #![trigger w.args[j]] 0 <= j
                        < w.args.len() implies there_at(p, w.args[j], c, k) by {
                        assert(there_at(p, m.args[j], c, k));
                        assert(there(p, subst(m.args[j], phi, to), c));
                    }
                },
            }
        }
    }
    assert forall|c: int, name: Seq<char>|
        #![trigger t.defs[c].dom().contains(name)]
        0 <= c < n && t.defs[c].dom().contains(name) implies {
        &&& there(p, Value(t.defs[c][name]), c)
        &&& tys.dom().contains(name)
        &&& t.ir.types[t.defs[c][name] as int] == tys[name]
    } by {
        assert(s.defs[c].dom().contains(name));
        assert(there(p, Value(s.defs[c][name]), c));
        assert(there(p, subst(Value(s.defs[c][name]), phi, to), c));
    }
    assert forall|c: int, name: Seq<char>|
        #![trigger p.avail[c].contains(name)]
        0 <= c < n && p.avail[c].contains(name) implies tys.dom().contains(name) && readable(
        t,
        p,
        c,
        name,
    ) by {
        assert(readable(s, p, c, name));
        lemma_readable_still(s, t, p, p, c, name);
    }
    assert forall|c: int| #![trigger t.ir.blocks[c]] 0 <= c < n implies ends_ok(t, p, c) by {
        assert(ends_ok(s, p, c));
    }
}

// ---------------------------------------------------------------------------
// Reading variables

/// The parts that matter for looking for variables stay.
proof fn lemma_ways_stay(s: State, t: State)
    requires
        shaped(s),
        same_shape(s, t),
        closed_off(s),
        backward(s),
    ensures
        closed_off(t),
        backward(t),
{
    assert forall|b: int, k: int|
        #![trigger t.ir.blocks[b].preds[k]]
        0 <= b < t.ir.blocks.len() && t.sealed[b] && 0 <= k < t.ir.blocks[b].preds.len() implies t.sealed[t.ir.blocks[b].preds[k].0 as int] by {
        assert(t.ir.blocks[b].preds == s.ir.blocks[b].preds);
        assert(s.sealed[s.ir.blocks[b].preds[k].0 as int]);
    }
    assert forall|b: int|
        #![trigger t.ir.blocks[b]]
        0 <= b < t.ir.blocks.len() && t.sealed[b] && t.ir.blocks[b].preds.len() == 1 implies t.ir.blocks[b].preds[0].0
        < b by {
        assert(t.ir.blocks[b].preds == s.ir.blocks[b].preds);
        assert(s.ir.blocks[b].preds[0].0 < b);
    }
}

proof fn lemma_grows_trans(a: State, b: State, c: State)
    requires
        shaped(a),
        shaped(b),
        grows(a, b),
        grows(b, c),
    ensures
        grows(a, c),
{
    assert forall|i: int|
        #![trigger c.ir.blocks[i]]
        #![trigger a.ir.blocks[i]]
        0 <= i < a.ir.blocks.len() implies c.ir.blocks[i].preds == a.ir.blocks[i].preds
        && c.ir.blocks[i].term == a.ir.blocks[i].term by {
        assert(b.ir.blocks[i].preds == a.ir.blocks[i].preds);
    }
    assert forall|i: int, name: Seq<char>|
        #![trigger c.defs[i].dom().contains(name)]
        0 <= i < a.defs.len() && a.defs[i].dom().contains(name) implies c.defs[i].dom().contains(
        name,
    ) by {
        assert(b.defs[i].dom().contains(name));
    }
    assert forall|i: int| #![trigger c.ir.types[i]] 0 <= i < a.ir.types.len() implies c.ir.types[i]
        == a.ir.types[i] by {
        assert(b.ir.types[i] == a.ir.types[i]);
    }
}

/// The variable is looked for with enough room in block `block`.
pub open spec fn can_look(
    u: nat,
    n: nat,
    s: State,
    p: Plan,
    tys: Map<Seq<char>, Ty>,
    open: Set<u32>,
    name: Seq<char>,
    ty: Ty,
) -> bool {
    &&& graph_ok(s, p)
    &&& code_ok(s, p, tys, open)
    &&& shaped(s)
    &&& closed_off(s)
    &&& backward(s)
    &&& n == s.ir.blocks.len()
    &&& tys.dom().contains(name)
    &&& tys[name] == ty
    &&& u >= missing(s, name)
    &&& s.ir.insts.len() + missing(s, name) <= u32::MAX
}

/// What looking for a variable leaves.
pub open spec fn looked(
    s: State,
    p: Plan,
    t: State,
    q: Plan,
    tys: Map<Seq<char>, Ty>,
    open: Set<u32>,
    name: Seq<char>,
) -> bool {
    &&& graph_ok(t, q)
    &&& code_ok(t, q, tys, open)
    &&& fuller(p, q)
    &&& grows(s, t)
    &&& shaped(t)
    &&& missing(t, name) <= missing(s, name)
    &&& t.ir.insts.len() + missing(t, name) <= s.ir.insts.len() + missing(s, name)
}

proof fn lemma_looked_trans(
    a: State,
    pa: Plan,
    b: State,
    pb: Plan,
    c: State,
    pc: Plan,
    tys: Map<Seq<char>, Ty>,
    open: Set<u32>,
    last: Set<u32>,
    name: Seq<char>,
)
    requires
        shaped(a),
        looked(a, pa, b, pb, tys, open, name),
        looked(b, pb, c, pc, tys, last, name),
    ensures
        looked(a, pa, c, pc, tys, last, name),
{
    lemma_grows_trans(a, b, c);
    assert forall|v: int| #![trigger pc.home[v]] 0 <= v < pa.home.len() implies pc.home[v]
        == pa.home[v] by {
        assert(pb.home[v] == pa.home[v]);
    }
}

/// Looking for a variable finds a value of its type that is there.
#[verifier::rlimit(60)]
pub(crate) proof fn lemma_read_code(
    u: nat,
    r: nat,
    n: nat,
    s: State,
    p: Plan,
    tys: Map<Seq<char>, Ty>,
    open: Set<u32>,
    name: Seq<char>,
    block: Block,
    ty: Ty,
) -> (q: Plan)
    requires
        can_look(u, n, s, p, tys, open, name, ty),
        block.0 < n,
        s.sealed[block.0 as int],
        p.avail[block.0 as int].contains(name),
        r >= block.0,
    ensures
        ({
            let (v, t) = read(u, r, n, s, name, block, ty);
            &&& looked(s, p, t, q, tys, open, name)
            &&& there(q, v, block.0 as int)
            &&& has_type(t.ir.types, v, ty)
        }),
    decreases p.rank[block.0 as int], 2nat, 0nat,
{
    let b = block.0 as int;
    if s.defs[b].dom().contains(name) {
        reveal(code_ok);
        assert(there(p, Value(s.defs[b][name]), b));
        p
    } else {
        assert(readable(s, p, b, name)) by {
            reveal(code_ok);
        }
        if s.ir.blocks[b].preds.len() == 1 {
            lemma_read_single(u, r, n, s, p, tys, open, name, block, ty)
        } else {
            lemma_read_many(u, r, n, s, p, tys, open, name, block, ty)
        }
    }
}

#[verifier::rlimit(60)]
proof fn lemma_read_single(
    u: nat,
    r: nat,
    n: nat,
    s: State,
    p: Plan,
    tys: Map<Seq<char>, Ty>,
    open: Set<u32>,
    name: Seq<char>,
    block: Block,
    ty: Ty,
) -> (q: Plan)
    requires
        can_look(u, n, s, p, tys, open, name, ty),
        block.0 < n,
        s.sealed[block.0 as int],
        !s.defs[block.0 as int].dom().contains(name),
        readable(s, p, block.0 as int, name),
        s.ir.blocks[block.0 as int].preds.len() == 1,
        r >= block.0,
    ensures
        ({
            let (v, t) = read(u, r, n, s, name, block, ty);
            &&& looked(s, p, t, q, tys, open, name)
            &&& there(q, v, block.0 as int)
            &&& has_type(t.ir.types, v, ty)
        }),
    decreases p.rank[block.0 as int], 1nat, 0nat,
{
    let b = block.0 as int;
    let from = s.ir.blocks[b].preds[0];
    assert(from.0 < b);
    assert(s.sealed[from.0 as int]);
    assert(p.rank[from.0 as int] < p.rank[b]) by {
        reveal(graph_ok);
        assert(s.ir.blocks[b].preds[0] == from);
    }
    let q = lemma_read_code(u, (r - 1) as nat, n, s, p, tys, open, name, from, ty);
    let (v, t) = read(u, (r - 1) as nat, n, s, name, from, ty);
    let d = q.home[v.0 as int].0;
    assert(t.ir.blocks[b].preds == s.ir.blocks[b].preds);
    assert(there(q, v, b)) by {
        reveal(graph_ok);
        assert(over_all(t, q, b, d)) by {
            assert forall|k: int|
                #![trigger t.ir.blocks[b].preds[k]]
                0 <= k < t.ir.blocks[b].preds.len() implies q.over[t.ir.blocks[b].preds[k].0 as int].contains(
                d,
            ) by {
                assert(t.ir.blocks[b].preds[k] == from);
            }
        }
        assert(t.sealed[b]);
    }
    lemma_write_code(t, q, tys, open, name, block, v);
    lemma_written_grown(t, name, block, v);
    let w = written(t, name, block, v);
    lemma_looked_trans(s, p, t, q, w, q, tys, open, open, name);
    q
}

/// What the variable is in the first `k` of some blocks of lower rank.
#[verifier::rlimit(60)]
proof fn lemma_gathered_code(
    bound: nat,
    u: nat,
    n: nat,
    s: State,
    p: Plan,
    tys: Map<Seq<char>, Ty>,
    open: Set<u32>,
    preds: Seq<Block>,
    name: Seq<char>,
    ty: Ty,
    k: nat,
) -> (q: Plan)
    requires
        can_look(u, n, s, p, tys, open, name, ty),
        k <= preds.len(),
        forall|j: int|
            #![trigger preds[j]]
            0 <= j < preds.len() ==> {
                &&& preds[j].0 < n
                &&& s.sealed[preds[j].0 as int]
                &&& p.avail[preds[j].0 as int].contains(name)
                &&& p.rank[preds[j].0 as int] < bound
            },
    ensures
        ({
            let (edges, t) = gathered(u, n, s, preds, name, ty, k);
            &&& looked(s, p, t, q, tys, open, name)
            &&& edges.len() == k
            &&& forall|j: int|
                #![trigger edges[j]]
                0 <= j < k ==> {
                    &&& edges[j].0 == preds[j]
                    &&& there(q, edges[j].1, preds[j].0 as int)
                    &&& has_type(t.ir.types, edges[j].1, ty)
                }
        }),
    decreases bound, 0nat, k,
{
    if k == 0 {
        p
    } else {
        let q1 = lemma_gathered_code(
            bound,
            u,
            n,
            s,
            p,
            tys,
            open,
            preds,
            name,
            ty,
            (k - 1) as nat,
        );
        let (edges, t) = gathered(u, n, s, preds, name, ty, (k - 1) as nat);
        lemma_ways_stay(s, t);
        let from = preds[k - 1];
        let q = lemma_read_code(u, n, n, t, q1, tys, open, name, from, ty);
        let (v, w) = read(u, n, n, t, name, from, ty);
        lemma_looked_trans(s, p, t, q1, w, q, tys, open, open, name);
        let all = edges.push((from, v));
        assert forall|j: int| #![trigger all[j]] 0 <= j < k implies {
            &&& all[j].0 == preds[j]
            &&& there(q, all[j].1, preds[j].0 as int)
            &&& has_type(w.ir.types, all[j].1, ty)
        } by {
            if j < k - 1 {
                assert(all[j] == edges[j]);
                assert(there(q1, edges[j].1, preds[j].0 as int));
                assert(q.home[edges[j].1.0 as int] == q1.home[edges[j].1.0 as int]);
            }
        }
        q
    }
}

/// The operands that were found fit a phi.
pub open spec fn operands_fit(
    s: State,
    p: Plan,
    phi: Value,
    edges: Seq<(Block, Value)>,
) -> bool {
    let b = p.home[phi.0 as int].0;
    &&& phi.0 < p.home.len()
    &&& edges.len() == s.ir.blocks[b].preds.len()
    &&& edges.len() > 0
    &&& forall|j: int|
        #![trigger edges[j]]
        0 <= j < edges.len() ==> {
            &&& edges[j].0 == s.ir.blocks[b].preds[j]
            &&& there(p, edges[j].1, edges[j].0.0 as int)
            &&& has_type(s.ir.types, edges[j].1, s.ir.types[phi.0 as int])
        }
}

/// A phi gets its operands.
#[verifier::rlimit(60)]
proof fn lemma_operands_code(
    s: State,
    p: Plan,
    tys: Map<Seq<char>, Ty>,
    open: Set<u32>,
    phi: Value,
    edges: Seq<(Block, Value)>,
)
    requires
        graph_ok(s, p),
        code_ok(s, p, tys, open),
        shaped(s),
        open.contains(phi.0),
        operands_fit(s, p, phi, edges),
    ensures
        ({
            let t = with_operands(s, phi, edges);
            &&& graph_ok(t, p)
            &&& code_ok(t, p, tys, open.remove(phi.0))
            &&& grows(s, t)
            &&& shaped(t)
            &&& t.defs == s.defs
            &&& t.ir.insts == s.ir.insts.update(phi.0 as int, phi_of(edges))
        }),
{
    reveal(code_ok);
    let t = with_operands(s, phi, edges);
    let m = phi_of(edges);
    assert(s.ir.insts[phi.0 as int].op is Phi);
    assert(t.ir.insts == s.ir.insts.update(phi.0 as int, m));
    lemma_graph_same(s, t, p, p);
    let less = open.remove(phi.0);
    let n = s.ir.blocks.len();
    assert forall|i: int| #![trigger t.ir.insts[i]] 0 <= i < t.ir.insts.len() implies {
        &&& gives(t.ir.types, t.ir.params, t.ir.insts[i], t.ir.types[i])
        &&& !less.contains(i as u32) ==> supplied(t, p, t.ir.insts[i], p.home[i].0, p.home[i].1)
    } by {
        let (b, k) = p.home[i];
        if i == phi.0 {
            assert(edge_blocks(edges) =~= s.ir.blocks[b].preds) by {
                assert forall|j: int| 0 <= j < edges.len() implies edge_blocks(edges)[j]
                    == s.ir.blocks[b].preds[j] by {
                    assert(edges[j].0 == s.ir.blocks[b].preds[j]);
                }
            }
            assert forall|j: int| #![trigger m.args[j]] 0 <= j < m.args.len() implies there(
                p,
                m.args[j],
                s.ir.blocks[b].preds[j].0 as int,
            ) && has_type(t.ir.types, m.args[j], t.ir.types[i]) by {
                assert(m.args[j] == edges[j].1);
            }
            assert(gives(t.ir.types, t.ir.params, m, t.ir.types[i])) by {
                reveal(gives);
            }
        } else {
            assert(t.ir.insts[i] == s.ir.insts[i]);
            if !less.contains(i as u32) {
                assert(!open.contains(i as u32));
                assert(supplied(s, p, s.ir.insts[i], b, k));
            }
        }
    }
    assert forall|c: int, name: Seq<char>|
        #![trigger t.defs[c].dom().contains(name)]
        0 <= c < n && t.defs[c].dom().contains(name) implies {
        &&& there(p, Value(t.defs[c][name]), c)
        &&& tys.dom().contains(name)
        &&& t.ir.types[t.defs[c][name] as int] == tys[name]
    } by {
        assert(s.defs[c].dom().contains(name));
    }
    assert forall|c: int, name: Seq<char>|
        #![trigger p.avail[c].contains(name)]
        0 <= c < n && p.avail[c].contains(name) implies tys.dom().contains(name) && readable(
        t,
        p,
        c,
        name,
    ) by {
        assert(readable(s, p, c, name));
        lemma_readable_still(s, t, p, p, c, name);
    }
    assert forall|c: int| #![trigger t.ir.blocks[c]] 0 <= c < n implies ends_ok(t, p, c) by {
        assert(ends_ok(s, p, c));
    }
}

/// If all operands of a phi are one value, the phi goes.
#[verifier::rlimit(60)]
proof fn lemma_trivial_code(
    s: State,
    p: Plan,
    tys: Map<Seq<char>, Ty>,
    open: Set<u32>,
    phi: Value,
    edges: Seq<(Block, Value)>,
    name: Seq<char>,
)
    requires
        graph_ok(s, p),
        code_ok(s, p, tys, open),
        shaped(s),
        operands_fit(s, p, phi, edges),
        p.home[phi.0 as int].0 > 0,
        s.sealed[p.home[phi.0 as int].0],
        s.ir.insts[phi.0 as int] == phi_of(edges),
    ensures
        ({
            let t = without_trivial(s, phi);
            &&& looked(s, p, t, p, tys, open, name)
            &&& t.ir.insts.len() == s.ir.insts.len()
            &&& missing(t, name) == missing(s, name)
        }),
{
    let m = phi_of(edges);
    let b = p.home[phi.0 as int].0;
    if exists|v: Value| is_only(m.args, phi, v) {
        let to = choose|v: Value| is_only(m.args, phi, v);
        assert(0 <= b < s.ir.blocks.len()) by {
            reveal(code_ok);
        }
        assert forall|k: int|
            #![trigger s.ir.blocks[b].preds[k]]
            0 <= k < s.ir.blocks[b].preds.len() implies p.over[s.ir.blocks[b].preds[k].0 as int].contains(
            p.home[to.0 as int].0,
        ) by {
            let c = s.ir.blocks[b].preds[k].0 as int;
            assert(edges[k].0 == s.ir.blocks[b].preds[k]);
            assert(m.args[k] == edges[k].1);
            assert(there(p, edges[k].1, c));
            if m.args[k] == phi {
                reveal(graph_ok);
                assert(p.over[c].contains(b));
                assert(p.rank[c] < p.rank[b]);
            }
        }
        let k = choose|k: int| 0 <= k < m.args.len() && m.args[k] == to;
        assert(m.args[k] == edges[k].1);
        lemma_replace_code(s, p, tys, open, phi, to);
        lemma_replaced_grown(s, phi, to, name);
    }
}

#[verifier::rlimit(80)]
proof fn lemma_read_many(
    u: nat,
    r: nat,
    n: nat,
    s: State,
    p: Plan,
    tys: Map<Seq<char>, Ty>,
    open: Set<u32>,
    name: Seq<char>,
    block: Block,
    ty: Ty,
) -> (q: Plan)
    requires
        can_look(u, n, s, p, tys, open, name, ty),
        block.0 < n,
        s.sealed[block.0 as int],
        !s.defs[block.0 as int].dom().contains(name),
        readable(s, p, block.0 as int, name),
        s.ir.blocks[block.0 as int].preds.len() != 1,
    ensures
        ({
            let (v, t) = read(u, r, n, s, name, block, ty);
            &&& looked(s, p, t, q, tys, open, name)
            &&& there(q, v, block.0 as int)
            &&& has_type(t.ir.types, v, ty)
        }),
    decreases p.rank[block.0 as int], 1nat, 0nat,
{
    let b = block.0 as int;
    let phi = next_value(s);
    let preds = s.ir.blocks[b].preds;
    assert(preds.len() > 0) by {
        reveal(graph_ok);
        assert(s.sealed[b]);
    }
    lemma_written_grown(s, name, block, phi);
    let s1 = with_phi(s, block, ty);
    let p1 = with_home(s, p, b);
    let wide = open.insert(phi.0);
    assert(gives(s.ir.types, s.ir.params, phi_of(Seq::empty()), ty)) by {
        reveal(gives);
    }
    lemma_phi_shaped(s, block, ty);
    lemma_emit_code(
        s,
        p,
        tys,
        open,
        block,
        phi_of(Seq::empty()),
        ty,
        Span { start: 0, end: 0 },
        true,
    );
    lemma_write_code(s1, p1, tys, wide, name, block, phi);
    lemma_written_grown(s1, name, block, phi);
    let s2 = written(s1, name, block, phi);
    assert(missing(s1, name) == missing(s, name));
    assert(missing(s2, name) == missing(s, name) - 1);
    lemma_grows_trans(s, s1, s2);
    lemma_ways_stay(s, s2);
    assert(s2.ir.blocks[b].preds == preds);
    assert(s2.ir.types[phi.0 as int] == ty);
    assert forall|j: int| #![trigger preds[j]] 0 <= j < preds.len() implies {
        &&& preds[j].0 < n
        &&& s2.sealed[preds[j].0 as int]
        &&& p1.avail[preds[j].0 as int].contains(name)
        &&& p1.rank[preds[j].0 as int] < p.rank[b]
    } by {
        reveal(graph_ok);
        assert(s.ir.blocks[b].preds[j] == preds[j]);
    }
    let low = (u - 1) as nat;
    let q = lemma_gathered_code(
        p.rank[b],
        low,
        n,
        s2,
        p1,
        tys,
        wide,
        preds,
        name,
        ty,
        preds.len(),
    );
    let (edges, t) = gathered(low, n, s2, preds, name, ty, preds.len());
    assert(p.home.len() == s.ir.insts.len()) by {
        reveal(code_ok);
    }
    assert(p1.home[phi.0 as int].0 == b);
    assert(q.home[phi.0 as int] == p1.home[phi.0 as int]);
    assert(t.ir.blocks[b].preds == preds);
    assert(t.ir.types[phi.0 as int] == ty);
    assert(operands_fit(t, q, phi, edges));
    lemma_operands_code(t, q, tys, wide, phi, edges);
    let w = with_operands(t, phi, edges);
    assert(wide.remove(phi.0) =~= open) by {
        reveal(code_ok);
        if open.contains(phi.0) {
            assert(phi.0 < s.ir.insts.len());
        }
    }
    assert(w.ir.blocks[b].preds == preds);
    assert(operands_fit(w, q, phi, edges));
    lemma_trivial_code(w, q, tys, open, phi, edges, name);
    let z = without_trivial(w, phi);
    assert(looked(s2, p1, w, q, tys, open, name)) by {
        lemma_grows_trans(s2, t, w);
    }
    lemma_looked_trans(s2, p1, w, q, z, q, tys, open, open, name);
    assert(looked(s, p, z, q, tys, open, name)) by {
        lemma_grows_trans(s, s2, z);
        assert forall|v: int| #![trigger q.home[v]] 0 <= v < p.home.len() implies q.home[v]
            == p.home[v] by {
            assert(p1.home[v] == p.home[v]);
        }
    }
    assert(filled(low, n, s2, phi, block, name) == z);
    assert(read_through(u, r, n, s, name, block, ty) == (phi, z));
    assert(read(u, r, n, s, name, block, ty) == (phi, z));
    assert(there(q, phi, b)) by {
        assert(there(p1, phi, b));
    }
    assert(z.ir.types[phi.0 as int] == w.ir.types[phi.0 as int]);
    q
}

} // verus!
