//! The blocks of a conditional: how a plan goes on through them.
use crate::builder::{closed_off, shaped, with_seal, State};
use crate::ir::{Block, Terminator, Ty, Value};
use crate::lower::{forked, joined, ready};
use crate::lower::{lemma_forked, lemma_joined};
use crate::meaning::shape::{
    code_ok, ends_ok, graph_ok, has_type, over_all, readable, supplied, there, there_at, Plan,
};
use crate::verify::occurrences;
use vstd::prelude::*;

verus! {

/// How many edges a terminator has to block `b`.
pub open spec fn edges_to(t: Option<Terminator>, b: int) -> nat {
    match t {
        Some(Terminator::Jump(t)) => if t.0 == b {
            1
        } else {
            0
        },
        Some(Terminator::Branch { then_, else_, .. }) => (if then_.0 == b {
            1nat
        } else {
            0nat
        }) + (if else_.0 == b {
            1nat
        } else {
            0nat
        }),
        _ => 0,
    }
}

/// The terminators lead to blocks, and the predecessor lists hold exactly the
/// edges of the terminators.
#[verifier::opaque]
pub open spec fn counted(s: State) -> bool {
    let n = s.ir.blocks.len();
    &&& forall|b: int, p: int|
        #![trigger edges_to(s.ir.blocks[p].term, b)]
        0 <= b < n && 0 <= p < n ==> occurrences(s.ir.blocks[b].preds, Block(p as u32))
            == edges_to(s.ir.blocks[p].term, b)
    &&& forall|p: int, b: int|
        #![trigger edges_to(s.ir.blocks[p].term, b)]
        0 <= p < n && edges_to(s.ir.blocks[p].term, b) > 0 ==> 0 <= b < n
}

pub(crate) proof fn lemma_counted_same(s: State, t: State)
    requires
        counted(s),
        t.ir.blocks.len() == s.ir.blocks.len(),
        forall|b: int|
            #![trigger t.ir.blocks[b]]
            0 <= b < s.ir.blocks.len() ==> t.ir.blocks[b].preds == s.ir.blocks[b].preds
                && t.ir.blocks[b].term == s.ir.blocks[b].term,
    ensures
        counted(t),
{
    reveal(counted);
    let n = s.ir.blocks.len();
    assert forall|b: int, p: int|
        #![trigger edges_to(t.ir.blocks[p].term, b)]
        0 <= b < n && 0 <= p < n implies occurrences(t.ir.blocks[b].preds, Block(p as u32))
        == edges_to(t.ir.blocks[p].term, b) by {
        assert(t.ir.blocks[b].preds == s.ir.blocks[b].preds);
        assert(edges_to(s.ir.blocks[p].term, b) == edges_to(t.ir.blocks[p].term, b));
    }
    assert forall|p: int, b: int|
        #![trigger edges_to(t.ir.blocks[p].term, b)]
        0 <= p < n && edges_to(t.ir.blocks[p].term, b) > 0 implies 0 <= b < n by {
        assert(edges_to(s.ir.blocks[p].term, b) == edges_to(t.ir.blocks[p].term, b));
    }
}

pub(crate) proof fn lemma_occurs(s: Seq<Block>, b: Block)
    ensures
        s.contains(b) <==> occurrences(s, b) > 0,
    decreases s.len(),
{
    if s.len() > 0 {
        lemma_occurs(s.drop_last(), b);
        if s.contains(b) {
            let i = choose|i: int| 0 <= i < s.len() && s[i] == b;
            if i < s.len() - 1 {
                assert(s.drop_last()[i] == b);
            }
        }
        if s.drop_last().contains(b) {
            let i = choose|i: int| 0 <= i < s.drop_last().len() && s.drop_last()[i] == b;
            assert(s[i] == b);
        }
        if s.last() == b {
            assert(s[s.len() - 1] == b);
        }
    }
}

proof fn lemma_occurs_push(s: Seq<Block>, a: Block, b: Block)
    ensures
        occurrences(s.push(a), b) == occurrences(s, b) + if a == b {
            1nat
        } else {
            0nat
        },
{
    assert(s.push(a).drop_last() =~= s);
}

/// A block without a terminator precedes none.
pub(crate) proof fn lemma_no_successor(s: State, p: int, b: int, k: int)
    requires
        counted(s),
        shaped(s),
        0 <= p < s.ir.blocks.len(),
        0 <= b < s.ir.blocks.len(),
        s.ir.blocks[p].term is None,
        0 <= k < s.ir.blocks[b].preds.len(),
    ensures
        s.ir.blocks[b].preds[k].0 != p,
{
    reveal(counted);
    let preds = s.ir.blocks[b].preds;
    assert(edges_to(s.ir.blocks[p].term, b) == 0);
    lemma_occurs(preds, Block(p as u32));
    if preds[k].0 == p {
        assert(preds[k] == Block(p as u32));
        assert(preds.contains(Block(p as u32)));
    }
}

/// No way to another block runs over a block that is not sealed.
pub(crate) proof fn lemma_not_over(s: State, p: Plan, b: int, m: int)
    requires
        graph_ok(s, p),
        closed_off(s),
        0 <= b < s.ir.blocks.len(),
        0 <= m < s.ir.blocks.len(),
        !s.sealed[m],
        b != m,
    ensures
        !p.over[b].contains(m),
    decreases p.rank[b],
{
    reveal(graph_ok);
    if p.over[b].contains(m) {
        assert(s.sealed[b]);
        assert(b != 0);
        assert(over_all(s, p, b, m));
        let c = s.ir.blocks[b].preds[0].0 as int;
        assert(s.ir.blocks[b].preds.len() > 0);
        assert(p.over[c].contains(m));
        assert(s.sealed[c]);
        assert(p.rank[c] < p.rank[b]);
        lemma_not_over(s, p, c, m);
    }
}

/// The plan with the three blocks of a conditional behind block `b`.
pub open spec fn plan_forked(p: Plan, b: int) -> Plan {
    let n = p.over.len() as int;
    let rank = p.rank[b] + 1;
    Plan {
        rank: p.rank.push(rank).push(rank).push(0),
        over: p.over.push(p.over[b].insert(n)).push(p.over[b].insert(n + 1)).push(
            Set::empty().insert(n + 2),
        ),
        avail: p.avail.push(p.avail[b]).push(p.avail[b]).push(Set::empty()),
        home: p.home,
    }
}

/// What the blocks are like after a fork.
proof fn lemma_forked_preds(s: State, block: Block, cond: Value)
    requires
        ready(s, block),
        s.ir.blocks.len() + 3 <= u32::MAX,
    ensures
        ({
            let t = forked(s, block, cond);
            let n = s.ir.blocks.len() as int;
            &&& shaped(t)
            &&& t.ir.blocks[n].preds == seq![block]
            &&& t.ir.blocks[n + 1].preds == seq![block]
            &&& t.ir.blocks[n + 2].preds == Seq::<Block>::empty()
            &&& t.ir.types == s.ir.types
            &&& t.ir.spans == s.ir.spans
            &&& t.ir.blocks[block.0 as int].term == Some(
                Terminator::Branch { cond, then_: Block(n as u32), else_: Block((n + 1) as u32) },
            )
            &&& t.defs == s.defs.push(Map::empty()).push(Map::empty()).push(Map::empty())
            &&& forall|b: int|
                #![trigger t.ir.blocks[b]]
                0 <= b < n ==> t.ir.blocks[b].insts == s.ir.blocks[b].insts
            &&& forall|b: int|
                #![trigger t.ir.blocks[b]]
                n <= b < n + 3 ==> t.ir.blocks[b].insts.len() == 0
        }),
{
    let t = forked(s, block, cond);
    let n = s.ir.blocks.len() as int;
    assert(t.ir.blocks[n].preds =~= seq![block]);
    assert(t.ir.blocks[n + 1].preds =~= seq![block]);
    assert forall|b: int, k: int|
        #![trigger t.ir.blocks[b].preds[k]]
        0 <= b < t.ir.blocks.len() && 0 <= k < t.ir.blocks[b].preds.len() implies t.ir.blocks[b].preds[k].0
        < t.ir.blocks.len() by {
        if b < n {
            assert(t.ir.blocks[b].preds == s.ir.blocks[b].preds);
            assert(s.ir.blocks[b].preds[k].0 < n);
        }
    }
    assert forall|b: int, name: Seq<char>|
        #![trigger t.pending[b].dom().contains(name)]
        0 <= b < t.ir.blocks.len() && t.pending[b].dom().contains(name) implies t.pending[b][name]
        < t.ir.insts.len() by {
        if b < n {
            assert(s.pending[b].dom().contains(name));
        }
    }
}

/// The graph of a fork.
#[verifier::rlimit(80)]
#[verifier::spinoff_prover]
proof fn lemma_fork_graph(s: State, p: Plan, block: Block, cond: Value)
    requires
        graph_ok(s, p),
        ready(s, block),
        s.ir.blocks.len() + 3 <= u32::MAX,
    ensures
        graph_ok(forked(s, block, cond), plan_forked(p, block.0 as int)),
{
    lemma_forked(s, block, cond);
    lemma_forked_preds(s, block, cond);
    reveal(graph_ok);
    let t = forked(s, block, cond);
    let b0 = block.0 as int;
    let q = plan_forked(p, b0);
    let n = s.ir.blocks.len() as int;
    assert forall|b: int| 0 <= b < n implies #[trigger] q.over[b] == p.over[b] && q.rank[b]
        == p.rank[b] && q.avail[b] == p.avail[b] by {}
    assert(q.over[n] == p.over[b0].insert(n));
    assert(q.over[n + 1] == p.over[b0].insert(n + 1));
    assert(q.over[n + 2] == Set::empty().insert(n + 2));
    assert(q.rank[n] == p.rank[b0] + 1 && q.rank[n + 1] == p.rank[b0] + 1);
    assert forall|b: int, c: int|
        #![trigger q.over[b].contains(c)]
        0 <= b < n + 3 && q.over[b].contains(c) implies 0 <= c < n + 3 && (c == b || q.rank[c]
        < q.rank[b]) by {
        if b < n {
            assert(p.over[b].contains(c));
        } else if c != b {
            assert(p.over[b0].contains(c));
        }
    }
    assert forall|b: int, c: int, d: int|
        #![trigger q.over[b].contains(c), q.over[c].contains(d)]
        0 <= b < n + 3 && q.over[b].contains(c) && q.over[c].contains(
            d,
        ) implies q.over[b].contains(d) by {
        if b < n {
            assert(p.over[b].contains(c));
            assert(p.over[c].contains(d));
        } else if c != b {
            assert(p.over[b0].contains(c));
            assert(p.over[c].contains(d));
            assert(p.over[b0].contains(d));
        }
    }
    assert forall|b: int, c: int|
        #![trigger over_all(t, q, b, c)]
        0 <= b < n implies over_all(t, q, b, c) == over_all(s, p, b, c) by {
        assert(t.ir.blocks[b].preds == s.ir.blocks[b].preds);
        assert forall|k: int| 0 <= k < s.ir.blocks[b].preds.len() implies t.ir.blocks[b].preds[k]
            == #[trigger] s.ir.blocks[b].preds[k] && s.ir.blocks[b].preds[k].0 < n by {}
        assert forall|k: int| 0 <= k < t.ir.blocks[b].preds.len() implies s.ir.blocks[b].preds[k]
            == #[trigger] t.ir.blocks[b].preds[k] && t.ir.blocks[b].preds[k].0 < n by {
            assert(s.ir.blocks[b].preds[k].0 < n);
        }
    }
    assert forall|b: int, k: int|
        #![trigger t.ir.blocks[b].preds[k]]
        0 <= b < n + 3 && 0 <= k < t.ir.blocks[b].preds.len() implies q.rank[t.ir.blocks[b].preds[k].0 as int]
        < q.rank[b] by {
        if b < n {
            assert(t.ir.blocks[b].preds[k] == s.ir.blocks[b].preds[k]);
            assert(s.ir.blocks[b].preds[k].0 < n);
        } else {
            assert(t.ir.blocks[b].preds[k] == block);
        }
    }
    assert forall|b: int, c: int|
        #![trigger q.over[b].contains(c)]
        0 <= b < n + 3 && q.over[b].contains(c) && c != b implies over_all(t, q, b, c) by {
        if b < n {
            assert(p.over[b].contains(c));
            assert(over_all(s, p, b, c));
            assert(over_all(t, q, b, c) == over_all(s, p, b, c));
        } else {
            assert forall|k: int|
                #![trigger t.ir.blocks[b].preds[k]]
                0 <= k < t.ir.blocks[b].preds.len() implies q.over[t.ir.blocks[b].preds[k].0 as int].contains(
                c,
            ) by {
                assert(t.ir.blocks[b].preds[k] == block);
            }
        }
    }
    assert forall|b: int, c: int|
        #![trigger over_all(t, q, b, c)]
        0 < b < n + 3 && t.sealed[b] && over_all(t, q, b, c) implies q.over[b].contains(c) by {
        if b < n {
            assert(t.ir.blocks[b].preds == s.ir.blocks[b].preds);
            assert(over_all(s, p, b, c));
            assert(p.over[b].contains(c));
        } else {
            assert(t.ir.blocks[b].preds[0] == block);
            assert(q.over[b0].contains(c));
        }
    }
    assert forall|b: int|
        #![trigger t.sealed[b]]
        0 < b < n + 3 && t.sealed[b] implies t.ir.blocks[b].preds.len() > 0 by {
        if b < n {
            assert(t.ir.blocks[b].preds == s.ir.blocks[b].preds);
            assert(s.sealed[b]);
        }
    }
    assert forall|b: int|
        #![trigger t.sealed[b]]
        0 <= b < n + 3 && !t.sealed[b] implies {
        &&& q.over[b] == Set::empty().insert(b)
        &&& q.avail[b] == Set::<Seq<char>>::empty()
        &&& t.ir.blocks[b].insts.len() == 0
        &&& t.ir.blocks[b].term is None
        &&& t.defs[b].dom() == Set::<Seq<char>>::empty()
    } by {
        if b < n {
            assert(t.ir.blocks[b].preds == s.ir.blocks[b].preds);
            assert(!s.sealed[b]);
            assert(b != b0);
            assert(t.ir.blocks[b].term == s.ir.blocks[b].term);
        } else {
            assert(t.ir.blocks[b].insts.len() == 0);
            assert(t.defs[b].dom() =~= Set::<Seq<char>>::empty());
        }
    }
    assert(t.ir.blocks[0].preds == s.ir.blocks[0].preds);
}

/// The code of a fork.
#[verifier::rlimit(60)]
#[verifier::spinoff_prover]
pub(crate) proof fn lemma_fork_code(
    s: State,
    p: Plan,
    tys: Map<Seq<char>, Ty>,
    block: Block,
    cond: Value,
)
    requires
        graph_ok(s, p),
        code_ok(s, p, tys, Set::empty()),
        counted(s),
        ready(s, block),
        there(p, cond, block.0 as int),
        has_type(s.ir.types, cond, Ty::Bool),
        s.ir.blocks.len() + 3 <= u32::MAX,
    ensures
        graph_ok(forked(s, block, cond), plan_forked(p, block.0 as int)),
        code_ok(forked(s, block, cond), plan_forked(p, block.0 as int), tys, Set::empty()),
        counted(forked(s, block, cond)),
        shaped(forked(s, block, cond)),
        forked(s, block, cond).ir.types == s.ir.types,
{
    lemma_fork_graph(s, p, block, cond);
    lemma_forked(s, block, cond);
    lemma_forked_preds(s, block, cond);
    let t = forked(s, block, cond);
    let b0 = block.0 as int;
    let q = plan_forked(p, b0);
    let n = s.ir.blocks.len() as int;
    assert(p.over.len() == n && p.avail.len() == n) by {
        reveal(graph_ok);
    }
    assert forall|b: int| 0 <= b < n implies #[trigger] q.over[b] == p.over[b] by {}
    assert forall|b: int| 0 <= b < n implies #[trigger] q.avail[b] == p.avail[b] by {}
    reveal(code_ok);
    assert forall|v: int| #![trigger q.home[v]] 0 <= v < q.home.len() implies {
        &&& 0 <= q.home[v].0 < n + 3
        &&& 0 <= q.home[v].1 < t.ir.blocks[q.home[v].0].insts.len()
        &&& t.ir.blocks[q.home[v].0].insts[q.home[v].1].0 == v
    } by {
        assert(p.home[v] == q.home[v]);
        assert(t.ir.blocks[p.home[v].0].insts == s.ir.blocks[p.home[v].0].insts);
    }
    assert forall|b: int, k: int|
        #![trigger t.ir.blocks[b].insts[k]]
        0 <= b < n + 3 && 0 <= k < t.ir.blocks[b].insts.len() implies t.ir.blocks[b].insts[k].0
        < q.home.len() && q.home[t.ir.blocks[b].insts[k].0 as int] == (b, k) by {
        if b < n {
            assert(t.ir.blocks[b].insts[k] == s.ir.blocks[b].insts[k]);
        } else {
            assert(t.ir.blocks[b].insts.len() == 0);
        }
    }
    assert forall|v: int| #![trigger t.ir.insts[v]] 0 <= v < t.ir.insts.len() implies supplied(
        t,
        q,
        t.ir.insts[v],
        q.home[v].0,
        q.home[v].1,
    ) by {
        assert(p.home[v] == q.home[v]);
        let (b, k) = p.home[v];
        assert(!Set::<u32>::empty().contains(v as u32));
        assert(supplied(s, p, s.ir.insts[v], b, k));
        assert(t.ir.blocks[b].preds == s.ir.blocks[b].preds);
        lemma_supplied_elsewhere(s, t, p, q, s.ir.insts[v], b, k);
    }
    assert forall|b: int, name: Seq<char>|
        #![trigger t.defs[b].dom().contains(name)]
        0 <= b < n + 3 && t.defs[b].dom().contains(name) implies {
        &&& there(q, Value(t.defs[b][name]), b)
        &&& tys.dom().contains(name)
        &&& t.ir.types[t.defs[b][name] as int] == tys[name]
    } by {
        if b < n {
            assert(s.defs[b].dom().contains(name));
        } else {
            assert(t.defs[b] == Map::<Seq<char>, u32>::empty());
        }
    }
    assert forall|b: int, name: Seq<char>|
        #![trigger q.avail[b].contains(name)]
        0 <= b < n + 3 && q.avail[b].contains(name) implies tys.dom().contains(name) && readable(
        t,
        q,
        b,
        name,
    ) by {
        if b < n {
            assert(p.avail[b].contains(name));
            assert(readable(s, p, b, name));
            assert(t.ir.blocks[b].preds == s.ir.blocks[b].preds);
            assert forall|k: int|
                #![trigger t.ir.blocks[b].preds[k]]
                !s.defs[b].dom().contains(name) && 0 <= k
                    < t.ir.blocks[b].preds.len() implies q.avail[t.ir.blocks[b].preds[k].0 as int].contains(
                name,
            ) by {
                assert(t.ir.blocks[b].preds[k] == s.ir.blocks[b].preds[k]);
                assert(s.ir.blocks[b].preds[k].0 < n);
            }
        } else {
            assert(b == n || b == n + 1);
            assert(p.avail[b0].contains(name));
            assert forall|k: int|
                #![trigger t.ir.blocks[b].preds[k]]
                0 <= k < t.ir.blocks[b].preds.len() implies q.avail[t.ir.blocks[b].preds[k].0 as int].contains(
                name,
            ) by {
                assert(t.ir.blocks[b].preds[k] == block);
            }
        }
    }
    assert forall|b: int| #![trigger t.ir.blocks[b]] 0 <= b < n + 3 implies ends_ok(t, q, b) by {
        if b < n && b != b0 {
            assert(ends_ok(s, p, b));
            assert(t.ir.blocks[b].term == s.ir.blocks[b].term);
        }
    }
    lemma_fork_counted(s, block, cond);
}

/// An instruction that is supplied in an old block stays so.
proof fn lemma_supplied_elsewhere(
    s: State,
    t: State,
    p: Plan,
    q: Plan,
    m: crate::ir::InstModel,
    b: int,
    k: int,
)
    requires
        shaped(s),
        0 <= b < s.ir.blocks.len(),
        supplied(s, p, m, b, k),
        q.home == p.home,
        t.ir.blocks[b].preds == s.ir.blocks[b].preds,
        forall|c: int| 0 <= c < s.ir.blocks.len() ==> #[trigger] q.over[c] == p.over[c],
    ensures
        supplied(t, q, m, b, k),
{
    match m.op {
        crate::ir::Op::Phi(froms) => {
            assert forall|j: int| #![trigger m.args[j]] 0 <= j < m.args.len() implies there(
                q,
                m.args[j],
                froms[j].0 as int,
            ) by {
                assert(there(p, m.args[j], froms[j].0 as int));
                assert(s.ir.blocks[b].preds[j].0 < s.ir.blocks.len());
                assert(q.over[froms[j].0 as int] == p.over[froms[j].0 as int]);
            }
        },
        _ => {
            assert forall|j: int| #![trigger m.args[j]] 0 <= j < m.args.len() implies there_at(
                q,
                m.args[j],
                b,
                k,
            ) by {
                assert(there_at(p, m.args[j], b, k));
                assert(q.over[b] == p.over[b]);
            }
        },
    }
}

#[verifier::rlimit(40)]
proof fn lemma_fork_counted(s: State, block: Block, cond: Value)
    requires
        counted(s),
        ready(s, block),
        s.ir.blocks.len() + 3 <= u32::MAX,
    ensures
        counted(forked(s, block, cond)),
{
    lemma_forked(s, block, cond);
    lemma_forked_preds(s, block, cond);
    reveal(counted);
    let t = forked(s, block, cond);
    let b0 = block.0 as int;
    let n = s.ir.blocks.len() as int;
    lemma_occurs_push(Seq::empty(), block, block);
    assert(Seq::<Block>::empty().push(block) =~= seq![block]);
    assert forall|b: int, a: int|
        #![trigger edges_to(t.ir.blocks[a].term, b)]
        0 <= b < n + 3 && 0 <= a < n + 3 implies occurrences(
        t.ir.blocks[b].preds,
        Block(a as u32),
    ) == edges_to(t.ir.blocks[a].term, b) by {
        if b < n {
            assert(t.ir.blocks[b].preds == s.ir.blocks[b].preds);
            if a < n {
                assert(occurrences(s.ir.blocks[b].preds, Block(a as u32)) == edges_to(
                    s.ir.blocks[a].term,
                    b,
                ));
                if a != b0 {
                    assert(t.ir.blocks[a].term == s.ir.blocks[a].term);
                } else {
                    assert(edges_to(s.ir.blocks[a].term, b) == 0);
                }
            } else {
                lemma_occurs(s.ir.blocks[b].preds, Block(a as u32));
                if s.ir.blocks[b].preds.contains(Block(a as u32)) {
                    let k = choose|k: int|
                        0 <= k < s.ir.blocks[b].preds.len() && s.ir.blocks[b].preds[k] == Block(
                            a as u32,
                        );
                    assert(s.ir.blocks[b].preds[k].0 < n);
                }
            }
        } else {
            lemma_occurs_push(Seq::empty(), block, Block(a as u32));
            if a < n && a != b0 {
                assert(t.ir.blocks[a].term == s.ir.blocks[a].term);
                if edges_to(s.ir.blocks[a].term, b) > 0 {
                    assert(b < n);
                }
            }
        }
    }
    assert forall|a: int, b: int|
        #![trigger edges_to(t.ir.blocks[a].term, b)]
        0 <= a < n + 3 && edges_to(t.ir.blocks[a].term, b) > 0 implies 0 <= b < n + 3 by {
        if a < n && a != b0 {
            assert(t.ir.blocks[a].term == s.ir.blocks[a].term);
            assert(edges_to(s.ir.blocks[a].term, b) > 0);
        }
    }
}

/// The plan with an edge from `exit` to the open block `merge`.
pub open spec fn plan_joined(p: Plan, exit: int, merge: int) -> Plan {
    let rank = if p.rank[merge] > p.rank[exit] {
        p.rank[merge]
    } else {
        p.rank[exit] + 1
    };
    Plan { rank: p.rank.update(merge, rank), ..p }
}

/// A block ends in a jump to an open block.
#[verifier::rlimit(80)]
#[verifier::spinoff_prover]
pub(crate) proof fn lemma_join_code(
    s: State,
    p: Plan,
    tys: Map<Seq<char>, Ty>,
    exit: Block,
    merge: Block,
)
    requires
        graph_ok(s, p),
        code_ok(s, p, tys, Set::empty()),
        counted(s),
        ready(s, exit),
        merge.0 < s.ir.blocks.len(),
        !s.sealed[merge.0 as int],
        merge != exit,
    ensures
        ({
            let t = joined(s, exit, merge);
            let q = plan_joined(p, exit.0 as int, merge.0 as int);
            &&& graph_ok(t, q)
            &&& code_ok(t, q, tys, Set::empty())
            &&& counted(t)
            &&& shaped(t)
            &&& t.ir.types == s.ir.types
        }),
{
    lemma_joined(s, exit, merge);
    let t = joined(s, exit, merge);
    let e = exit.0 as int;
    let m = merge.0 as int;
    let q = plan_joined(p, e, m);
    let n = s.ir.blocks.len() as int;
    assert(shaped(t)) by {
        assert forall|b: int, k: int|
            #![trigger t.ir.blocks[b].preds[k]]
            0 <= b < n && 0 <= k < t.ir.blocks[b].preds.len() implies t.ir.blocks[b].preds[k].0
            < n by {
            if b == m && k == s.ir.blocks[m].preds.len() {
            } else {
                assert(t.ir.blocks[b].preds[k] == s.ir.blocks[b].preds[k]);
            }
        }
    }
    assert(graph_ok(t, q)) by {
        reveal(graph_ok);
        assert(s.ir.blocks[m].term is None);
        assert(p.over[m] == Set::empty().insert(m));
        assert(m != 0);
        assert forall|b: int, c: int|
            #![trigger q.over[b].contains(c)]
            0 <= b < n && q.over[b].contains(c) implies 0 <= c < n && (c == b || q.rank[c]
            < q.rank[b]) by {
            assert(p.over[b].contains(c));
            if c == m && b != m {
                lemma_not_over(s, p, b, m);
            }
        }
        assert forall|b: int, c: int|
            #![trigger over_all(t, q, b, c)]
            0 <= b < n && b != m implies over_all(t, q, b, c) == over_all(s, p, b, c) by {
            assert(t.ir.blocks[b].preds == s.ir.blocks[b].preds);
            assert forall|k: int| 0 <= k < s.ir.blocks[b].preds.len() implies t.ir.blocks[b].preds[k]
                == #[trigger] s.ir.blocks[b].preds[k] by {}
            assert forall|k: int| 0 <= k < t.ir.blocks[b].preds.len() implies s.ir.blocks[b].preds[k]
                == #[trigger] t.ir.blocks[b].preds[k] by {}
        }
        assert forall|b: int, k: int|
            #![trigger t.ir.blocks[b].preds[k]]
            0 <= b < n && 0 <= k < t.ir.blocks[b].preds.len() implies q.rank[t.ir.blocks[b].preds[k].0 as int]
            < q.rank[b] by {
            if b == m && k == s.ir.blocks[m].preds.len() {
                assert(t.ir.blocks[b].preds[k] == exit);
            } else {
                assert(t.ir.blocks[b].preds[k] == s.ir.blocks[b].preds[k]);
                lemma_no_successor(s, m, b, k);
            }
        }
        assert forall|b: int, c: int|
            #![trigger q.over[b].contains(c)]
            0 <= b < n && q.over[b].contains(c) && c != b implies over_all(t, q, b, c) by {
            assert(p.over[b].contains(c));
            assert(over_all(s, p, b, c));
            assert(b != m);
            assert(over_all(t, q, b, c) == over_all(s, p, b, c));
        }
        assert forall|b: int|
            #![trigger t.sealed[b]]
            0 < b < n && t.sealed[b] implies t.ir.blocks[b].preds.len() > 0 by {
            assert(s.sealed[b]);
            assert(t.ir.blocks[b].preds == s.ir.blocks[b].preds);
        }
        assert forall|b: int|
            #![trigger t.sealed[b]]
            0 <= b < n && !t.sealed[b] implies t.ir.blocks[b].term is None
            && t.ir.blocks[b].insts.len() == 0 by {
            assert(!s.sealed[b]);
            assert(t.ir.blocks[b].term == s.ir.blocks[b].term);
        }
        assert(t.ir.blocks[0].preds == s.ir.blocks[0].preds);
    }
    reveal(code_ok);
    assert forall|v: int| #![trigger q.home[v]] 0 <= v < q.home.len() implies {
        &&& 0 <= q.home[v].0 < n
        &&& 0 <= q.home[v].1 < t.ir.blocks[q.home[v].0].insts.len()
        &&& t.ir.blocks[q.home[v].0].insts[q.home[v].1].0 == v
    } by {
        assert(p.home[v] == q.home[v]);
        assert(t.ir.blocks[p.home[v].0].insts == s.ir.blocks[p.home[v].0].insts);
    }
    assert forall|b: int, k: int|
        #![trigger t.ir.blocks[b].insts[k]]
        0 <= b < n && 0 <= k < t.ir.blocks[b].insts.len() implies t.ir.blocks[b].insts[k].0
        < q.home.len() && q.home[t.ir.blocks[b].insts[k].0 as int] == (b, k) by {
        assert(t.ir.blocks[b].insts[k] == s.ir.blocks[b].insts[k]);
    }
    assert(s.ir.blocks[m].insts.len() == 0) by {
        reveal(graph_ok);
    }
    assert forall|v: int| #![trigger t.ir.insts[v]] 0 <= v < t.ir.insts.len() implies supplied(
        t,
        q,
        t.ir.insts[v],
        q.home[v].0,
        q.home[v].1,
    ) by {
        assert(p.home[v] == q.home[v]);
        let (b, k) = p.home[v];
        assert(!Set::<u32>::empty().contains(v as u32));
        assert(supplied(s, p, s.ir.insts[v], b, k));
        assert(b != m);
        assert(t.ir.blocks[b].preds == s.ir.blocks[b].preds);
        lemma_supplied_elsewhere(s, t, p, q, s.ir.insts[v], b, k);
    }
    assert forall|b: int, name: Seq<char>|
        #![trigger t.defs[b].dom().contains(name)]
        0 <= b < n && t.defs[b].dom().contains(name) implies {
        &&& there(q, Value(t.defs[b][name]), b)
        &&& tys.dom().contains(name)
        &&& t.ir.types[t.defs[b][name] as int] == tys[name]
    } by {
        assert(s.defs[b].dom().contains(name));
    }
    assert forall|b: int, name: Seq<char>|
        #![trigger q.avail[b].contains(name)]
        0 <= b < n && q.avail[b].contains(name) implies tys.dom().contains(name) && readable(
        t,
        q,
        b,
        name,
    ) by {
        assert(p.avail[b].contains(name));
        assert(readable(s, p, b, name));
        assert(b != m) by {
            reveal(graph_ok);
        }
        assert(t.ir.blocks[b].preds == s.ir.blocks[b].preds);
        assert forall|k: int|
            #![trigger t.ir.blocks[b].preds[k]]
            !s.defs[b].dom().contains(name) && 0 <= k
                < t.ir.blocks[b].preds.len() implies q.avail[t.ir.blocks[b].preds[k].0 as int].contains(
            name,
        ) by {
            assert(t.ir.blocks[b].preds[k] == s.ir.blocks[b].preds[k]);
        }
    }
    assert forall|b: int| #![trigger t.ir.blocks[b]] 0 <= b < n implies ends_ok(t, q, b) by {
        if b != e {
            assert(ends_ok(s, p, b));
            assert(t.ir.blocks[b].term == s.ir.blocks[b].term);
        }
    }
    lemma_join_counted(s, exit, merge);
}

proof fn lemma_join_counted(s: State, exit: Block, merge: Block)
    requires
        counted(s),
        ready(s, exit),
        merge.0 < s.ir.blocks.len(),
        !s.sealed[merge.0 as int],
        merge != exit,
    ensures
        counted(joined(s, exit, merge)),
{
    lemma_joined(s, exit, merge);
    reveal(counted);
    let t = joined(s, exit, merge);
    let n = s.ir.blocks.len() as int;
    let e = exit.0 as int;
    assert(t.ir.blocks[e].term == Some(Terminator::Jump(merge)));
    assert forall|b: int, a: int|
        #![trigger edges_to(t.ir.blocks[a].term, b)]
        0 <= b < n && 0 <= a < n implies occurrences(t.ir.blocks[b].preds, Block(a as u32))
        == edges_to(t.ir.blocks[a].term, b) by {
        assert(occurrences(s.ir.blocks[b].preds, Block(a as u32)) == edges_to(
            s.ir.blocks[a].term,
            b,
        ));
        lemma_occurs_push(s.ir.blocks[b].preds, exit, Block(a as u32));
        if a != e {
            assert(t.ir.blocks[a].term == s.ir.blocks[a].term);
        } else {
            assert(edges_to(s.ir.blocks[a].term, b) == 0);
        }
        if b != merge.0 {
            assert(t.ir.blocks[b].preds == s.ir.blocks[b].preds);
        }
    }
    assert forall|a: int, b: int|
        #![trigger edges_to(t.ir.blocks[a].term, b)]
        0 <= a < n && edges_to(t.ir.blocks[a].term, b) > 0 implies 0 <= b < n by {
        if a != e {
            assert(t.ir.blocks[a].term == s.ir.blocks[a].term);
            assert(edges_to(s.ir.blocks[a].term, b) > 0);
        }
    }
}

/// The plan with the block sealed in which two ways meet.
pub open spec fn plan_met(p: Plan, x: int, y: int, merge: int) -> Plan {
    Plan {
        over: p.over.update(merge, p.over[x].intersect(p.over[y]).insert(merge)),
        avail: p.avail.update(merge, p.avail[x].intersect(p.avail[y])),
        ..p
    }
}

/// Two ways meet.
#[verifier::rlimit(80)]
#[verifier::spinoff_prover]
pub(crate) proof fn lemma_meet_code(
    s: State,
    p: Plan,
    tys: Map<Seq<char>, Ty>,
    x: Block,
    y: Block,
    merge: Block,
)
    requires
        graph_ok(s, p),
        code_ok(s, p, tys, Set::empty()),
        counted(s),
        closed_off(s),
        merge.0 < s.ir.blocks.len(),
        !s.sealed[merge.0 as int],
        s.ir.blocks[merge.0 as int].preds == seq![x, y],
    ensures
        ({
            let t = with_seal(s, merge);
            let q = plan_met(p, x.0 as int, y.0 as int, merge.0 as int);
            &&& graph_ok(t, q)
            &&& code_ok(t, q, tys, Set::empty())
            &&& counted(t)
            &&& shaped(t)
        }),
{
    let t = with_seal(s, merge);
    let m = merge.0 as int;
    let a = x.0 as int;
    let b0 = y.0 as int;
    let q = plan_met(p, a, b0, m);
    let n = s.ir.blocks.len() as int;
    assert(shaped(s) && p.over.len() == n && p.avail.len() == n && m != 0) by {
        reveal(graph_ok);
    }
    assert(s.ir.blocks[m].preds[0] == x && s.ir.blocks[m].preds[1] == y);
    assert(a < n && b0 < n);
    assert(a != m && b0 != m) by {
        reveal(graph_ok);
        assert(p.rank[s.ir.blocks[m].preds[0].0 as int] < p.rank[m]);
        assert(p.rank[s.ir.blocks[m].preds[1].0 as int] < p.rank[m]);
    }
    assert forall|b: int| 0 <= b < n && b != m implies #[trigger] q.over[b] == p.over[b] by {}
    assert forall|b: int| 0 <= b < n && b != m implies #[trigger] q.avail[b] == p.avail[b] by {}
    assert(graph_ok(t, q)) by {
        reveal(graph_ok);
        assert(p.rank[a] < p.rank[m] && p.rank[b0] < p.rank[m]);
        assert forall|b: int, c: int|
            #![trigger q.over[b].contains(c)]
            0 <= b < n && q.over[b].contains(c) implies 0 <= c < n && (c == b || q.rank[c]
            < q.rank[b]) by {
            if b == m {
                if c != m {
                    assert(p.over[a].contains(c));
                }
            } else {
                assert(p.over[b].contains(c));
            }
        }
        assert forall|b: int, c: int, d: int|
            #![trigger q.over[b].contains(c), q.over[c].contains(d)]
            0 <= b < n && q.over[b].contains(c) && q.over[c].contains(
                d,
            ) implies q.over[b].contains(d) by {
            if b == m {
                if c != m {
                    assert(p.over[a].contains(c) && p.over[b0].contains(c));
                    assert(p.over[c].contains(d));
                    assert(p.over[a].contains(d) && p.over[b0].contains(d));
                }
            } else {
                lemma_not_over(s, p, b, m);
                assert(c != m);
                assert(p.over[b].contains(c) && p.over[c].contains(d));
            }
        }
        assert forall|b: int, c: int|
            #![trigger over_all(t, q, b, c)]
            0 <= b < n implies over_all(t, q, b, c) == over_all(s, p, b, c) by {
            assert forall|k: int| 0 <= k < s.ir.blocks[b].preds.len() implies q.over[(
            #[trigger] s.ir.blocks[b].preds[k]).0 as int] == p.over[s.ir.blocks[b].preds[k].0 as int] by {
                lemma_no_successor(s, m, b, k);
            }
        }
        assert forall|b: int, c: int|
            #![trigger q.over[b].contains(c)]
            0 <= b < n && q.over[b].contains(c) && c != b implies over_all(t, q, b, c) by {
            if b == m {
                assert(p.over[a].contains(c) && p.over[b0].contains(c));
                assert forall|k: int|
                    #![trigger s.ir.blocks[b].preds[k]]
                    0 <= k < s.ir.blocks[b].preds.len() implies p.over[s.ir.blocks[b].preds[k].0 as int].contains(
                    c,
                ) by {}
                assert(over_all(s, p, b, c));
            } else {
                assert(p.over[b].contains(c));
                assert(over_all(s, p, b, c));
            }
            assert(over_all(t, q, b, c) == over_all(s, p, b, c));
        }
        assert forall|b: int, c: int|
            #![trigger over_all(t, q, b, c)]
            0 < b < n && t.sealed[b] && over_all(t, q, b, c) implies q.over[b].contains(c) by {
            assert(over_all(s, p, b, c));
            if b == m {
                assert(p.over[s.ir.blocks[m].preds[0].0 as int].contains(c));
                assert(p.over[s.ir.blocks[m].preds[1].0 as int].contains(c));
            } else {
                assert(s.sealed[b]);
                assert(p.over[b].contains(c));
            }
        }
        assert forall|b: int|
            #![trigger t.sealed[b]]
            0 < b < n && t.sealed[b] implies t.ir.blocks[b].preds.len() > 0 by {
            if b != m {
                assert(s.sealed[b]);
            }
        }
        assert forall|b: int|
            #![trigger t.sealed[b]]
            0 <= b < n && !t.sealed[b] implies {
            &&& q.over[b] == Set::empty().insert(b)
            &&& q.avail[b] == Set::<Seq<char>>::empty()
            &&& t.ir.blocks[b].insts.len() == 0
            &&& t.ir.blocks[b].term is None
            &&& t.defs[b].dom() == Set::<Seq<char>>::empty()
        } by {
            assert(b != m);
            assert(!s.sealed[b]);
        }
        assert(t.sealed[0] == s.sealed[0]);
    }
    reveal(code_ok);
    assert(s.ir.blocks[m].insts.len() == 0 && s.defs[m].dom() == Set::<Seq<char>>::empty()
        && s.ir.blocks[m].term is None) by {
        reveal(graph_ok);
    }
    assert forall|v: int| #![trigger t.ir.insts[v]] 0 <= v < t.ir.insts.len() implies supplied(
        t,
        q,
        t.ir.insts[v],
        q.home[v].0,
        q.home[v].1,
    ) by {
        let (b, k) = p.home[v];
        assert(p.home[v] == q.home[v]);
        assert(!Set::<u32>::empty().contains(v as u32));
        let i = s.ir.insts[v];
        assert(supplied(s, p, i, b, k));
        assert(b != m);
        match i.op {
            crate::ir::Op::Phi(froms) => {
                assert forall|j: int| #![trigger i.args[j]] 0 <= j < i.args.len() implies there(
                    q,
                    i.args[j],
                    froms[j].0 as int,
                ) by {
                    assert(there(p, i.args[j], froms[j].0 as int));
                    lemma_no_successor(s, m, b, j);
                    assert(s.ir.blocks[b].preds[j].0 < n);
                }
            },
            _ => {
                assert forall|j: int| #![trigger i.args[j]] 0 <= j < i.args.len() implies there_at(
                    q,
                    i.args[j],
                    b,
                    k,
                ) by {
                    assert(there_at(p, i.args[j], b, k));
                }
            },
        }
    }
    assert forall|b: int, name: Seq<char>|
        #![trigger t.defs[b].dom().contains(name)]
        0 <= b < n && t.defs[b].dom().contains(name) implies {
        &&& there(q, Value(t.defs[b][name]), b)
        &&& tys.dom().contains(name)
        &&& t.ir.types[t.defs[b][name] as int] == tys[name]
    } by {
        assert(s.defs[b].dom().contains(name));
        assert(b != m);
    }
    assert forall|b: int, name: Seq<char>|
        #![trigger q.avail[b].contains(name)]
        0 <= b < n && q.avail[b].contains(name) implies tys.dom().contains(name) && readable(
        t,
        q,
        b,
        name,
    ) by {
        if b == m {
            assert(p.avail[a].contains(name) && p.avail[b0].contains(name));
            assert forall|k: int|
                #![trigger t.ir.blocks[b].preds[k]]
                0 <= k < t.ir.blocks[b].preds.len() implies q.avail[t.ir.blocks[b].preds[k].0 as int].contains(
                name,
            ) by {}
        } else {
            assert(p.avail[b].contains(name));
            assert(readable(s, p, b, name));
            assert forall|k: int|
                #![trigger t.ir.blocks[b].preds[k]]
                !s.defs[b].dom().contains(name) && 0 <= k
                    < t.ir.blocks[b].preds.len() implies q.avail[t.ir.blocks[b].preds[k].0 as int].contains(
                name,
            ) by {
                lemma_no_successor(s, m, b, k);
                assert(s.ir.blocks[b].preds[k].0 < n);
            }
        }
    }
    assert forall|b: int| #![trigger t.ir.blocks[b]] 0 <= b < n implies ends_ok(t, q, b) by {
        assert(ends_ok(s, p, b));
    }
    lemma_counted_same(s, t);
}

} // verus!
