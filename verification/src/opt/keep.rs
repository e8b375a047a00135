//! The rewrites keep a function well-formed.
use crate::dominance::{dom, edge, is_path, on_every_path, path_to, reachable};
use crate::dominance::{lemma_dom_antisym, lemma_dom_trans};
use crate::ir::{
    is_subst, subst, subst_inst, subst_opt_term, Block, Function, InstModel, Op, Terminator, Ty,
    Value,
};
use crate::opt::rewrite::{closed_under_uses, fresh, is_kept_list, is_pruned, is_spliced};
use crate::opt::rewrite::{lemma_phi_pairs, lemma_spliced_list};
use crate::opt::simulate::{loop_free, ranks, term_kept};
use crate::verify::{
    def_at, edge_count, end_use_ok, inst_ok, listing_ok, occurrences, operand_defect,
    operands_defect, preds_ok, targets_ok, term_ok, type_defect, use_ok, valid,
};
use vstd::prelude::*;

verus! {

/// A phi names exactly the predecessors of its block, of which there are some.
pub open spec fn phis_match(f: Function) -> bool {
    forall|b: int, k: int|
        #![trigger f.listed(b)[k]]
        0 <= b < f.blocks@.len() && 0 <= k < f.listed(b).len() ==> phi_matches(
            f.inst(f.listed(b)[k].0 as int),
            f.preds(b),
        )
}

pub open spec fn phi_matches(m: InstModel, preds: Seq<Block>) -> bool {
    m.op matches Op::Phi(froms) ==> froms.len() > 0 && forall|p: Block|
        froms.contains(p) <==> #[trigger] preds.contains(p)
}

/// Every operand in the table, also that of a dead instruction, is a value of
/// the table.
pub open spec fn args_in_table(f: Function) -> bool {
    forall|i: int, j: int|
        #![trigger f.inst(i).args[j]]
        0 <= i < f.insts@.len() && 0 <= j < f.inst(i).args.len() ==> f.inst(i).args[j].0
            < f.insts@.len()
}

/// What a function is like before and after every pass.
pub open spec fn healthy(f: Function) -> bool {
    &&& valid(f)
    &&& loop_free(f)
    &&& phis_match(f)
    &&& args_in_table(f)
    &&& f.blocks@.len() <= u32::MAX
    &&& f.insts@.len() <= u32::MAX
}

/// The two functions have the same control flow.
pub open spec fn same_graph(f: Function, g: Function) -> bool {
    &&& g.blocks@.len() == f.blocks@.len()
    &&& g.entry == f.entry
    &&& forall|a: int, b: int| #[trigger] edge(g, a, b) == edge(f, a, b)
}

proof fn lemma_same_paths(f: Function, g: Function, p: Seq<int>)
    requires
        same_graph(f, g),
    ensures
        is_path(f, p) == is_path(g, p),
{
    if is_path(f, p) {
        assert forall|i: int| #![trigger p[i]] 0 < i < p.len() implies edge(g, p[i - 1], p[i]) by {
            assert(edge(f, p[i - 1], p[i]));
        }
    }
    if is_path(g, p) {
        assert forall|i: int| #![trigger p[i]] 0 < i < p.len() implies edge(f, p[i - 1], p[i]) by {
            assert(edge(g, p[i - 1], p[i]));
        }
    }
}

/// Functions with the same control flow have the same dominators.
pub proof fn lemma_same_dom(f: Function, g: Function, a: int, b: int)
    requires
        same_graph(f, g),
    ensures
        dom(f, a, b) == dom(g, a, b),
        reachable(f, b) == reachable(g, b),
{
    assert forall|p: Seq<int>| path_to(f, p, b) == path_to(g, p, b) by {
        lemma_same_paths(f, g, p);
    }
    if reachable(f, b) {
        let p = choose|p: Seq<int>| path_to(f, p, b);
        assert(path_to(g, p, b));
    }
    if reachable(g, b) {
        let p = choose|p: Seq<int>| path_to(g, p, b);
        assert(path_to(f, p, b));
    }
    if on_every_path(f, a, b) {
        assert forall|p: Seq<int>| #[trigger] path_to(g, p, b) implies p.contains(a) by {
            assert(path_to(f, p, b));
        }
    }
    if on_every_path(g, a, b) {
        assert forall|p: Seq<int>| #[trigger] path_to(f, p, b) implies p.contains(a) by {
            assert(path_to(g, p, b));
        }
    }
}

/// Blocks that end alike make the same control flow.
pub proof fn lemma_same_targets(f: Function, g: Function, v0: Value, e0: Value)
    requires
        g.blocks@.len() == f.blocks@.len(),
        g.entry == f.entry,
        forall|b: int|
            #![trigger g.term(b)]
            0 <= b < f.blocks@.len() ==> g.term(b) == subst_opt_term(f.term(b), v0, e0),
        forall|b: int|
            #![trigger g.blocks@[b]]
            0 <= b < f.blocks@.len() ==> g.blocks@[b].preds == f.blocks@[b].preds,
    ensures
        same_graph(f, g),
        forall|p: int, b: int|
            0 <= p < f.blocks@.len() ==> #[trigger] edge_count(g, p, b) == edge_count(f, p, b),
        targets_ok(f) ==> targets_ok(g),
        targets_ok(f) && preds_ok(f) ==> preds_ok(g),
        loop_free(f) ==> loop_free(g),
{
    assert forall|a: int, b: int| #[trigger] edge(g, a, b) == edge(f, a, b) by {
        if 0 <= a < f.blocks@.len() {
            assert(g.term(a) == g.term(a));
        }
    }
    assert forall|p: int, b: int| 0 <= p < f.blocks@.len() implies #[trigger] edge_count(g, p, b)
        == edge_count(f, p, b) by {
        assert(g.term(p) == g.term(p));
    }
    if targets_ok(f) {
        assert forall|b: int| #![trigger g.term(b)] 0 <= b < g.blocks@.len() implies g.term(
            b,
        ) is Some by {
            assert(f.term(b) is Some);
        }
        if preds_ok(f) {
            assert forall|b: int, p: int|
                #![trigger edge_count(g, p, b)]
                0 <= b < g.blocks@.len() && 0 <= p < g.blocks@.len() implies occurrences(
                g.preds(b),
                Block(p as u32),
            ) == edge_count(g, p, b) by {
                assert(g.blocks@[b].preds == f.blocks@[b].preds);
                assert(edge_count(f, p, b) == edge_count(g, p, b));
            }
        }
    }
    if loop_free(f) {
        let rank = choose|rank: spec_fn(int) -> int| ranks(f, rank);
        assert(ranks(g, rank));
    }
}

// ---------------------------------------------------------------------------
// Types

proof fn lemma_operands_congruent(
    f: Function,
    g: Function,
    v: Value,
    s: Seq<Value>,
    t: Seq<Value>,
    expected: Ty,
    i: int,
)
    requires
        s.len() == t.len(),
        0 <= i <= s.len(),
        forall|j: int|
            #![trigger s[j]]
            0 <= j < s.len() && s[j].0 < f.types@.len() ==> t[j].0 < g.types@.len()
                && g.types@[t[j].0 as int] == f.types@[s[j].0 as int],
        operands_defect(f, v, s, expected, i) is None,
    ensures
        operands_defect(g, v, t, expected, i) is None,
    decreases s.len() - i,
{
    if i < s.len() {
        assert(operand_defect(f, v, s[i], expected) is None);
        lemma_operands_congruent(f, g, v, s, t, expected, i + 1);
    }
}

/// The instruction has as many operands as its operation takes.
pub open spec fn shape_ok(m: InstModel) -> bool {
    match m.op {
        Op::Call(_) | Op::Phi(_) => true,
        _ => m.args.len() == crate::interp::reads(m.op),
    }
}

pub proof fn lemma_shape(f: Function, i: int)
    requires
        0 <= i < f.insts@.len(),
    ensures
        shape_ok(f.inst(i)),
{
}

/// Operands of the same types make a well-typed instruction well-typed.
pub proof fn lemma_types_congruent(
    f: Function,
    g: Function,
    v: Value,
    m: InstModel,
    n: InstModel,
)
    requires
        m.op == n.op,
        shape_ok(m),
        m.args.len() == n.args.len(),
        g.params == f.params,
        g.types@[v.0 as int] == f.types@[v.0 as int],
        forall|j: int|
            #![trigger m.args[j]]
            0 <= j < m.args.len() && m.args[j].0 < f.types@.len() ==> n.args[j].0 < g.types@.len()
                && g.types@[n.args[j].0 as int] == f.types@[m.args[j].0 as int],
        type_defect(f, v, m) is None,
    ensures
        type_defect(g, v, n) is None,
{
    match m.op {
        Op::Fma => {
            lemma_operands_congruent(f, g, v, m.args, n.args, Ty::F64, 0);
        },
        Op::Call(_) => {
            lemma_operands_congruent(f, g, v, m.args, n.args, Ty::F64, 0);
        },
        Op::Phi(_) => {
            lemma_operands_congruent(f, g, v, m.args, n.args, f.types@[v.0 as int], 0);
        },
        _ => {
            if m.args.len() > 0 {
                let a = m.args[0];
                assert(a == m.args[0]);
            }
            if m.args.len() > 1 {
                let b = m.args[1];
                assert(b == m.args[1]);
            }
        },
    }
}

// ---------------------------------------------------------------------------
// Redirecting uses

/// `e` is computed before `v`, wherever `v` is computed, and has its type.
pub open spec fn may_replace(f: Function, v: Value, e: Value) -> bool {
    forall|b: int, k: int| #[trigger]
        def_at(f, v.0 as int, b, k) ==> use_ok(f, e.0 as int, b, k) && e.0 < f.types@.len()
            && f.types@[e.0 as int] == f.types@[v.0 as int]
}

/// A use of `v` at a place can become a use of `e`.
pub proof fn lemma_use_moves(f: Function, v: Value, e: Value, b: int, k: int)
    requires
        may_replace(f, v, e),
        use_ok(f, v.0 as int, b, k),
    ensures
        use_ok(f, e.0 as int, b, k),
{
    let (c0, l0) = choose|c: int, l: int| #[trigger]
        def_at(f, v.0 as int, c, l) && dom(f, c, b) && (c == b ==> l < k);
    assert(use_ok(f, e.0 as int, c0, l0));
    let (c, l) = choose|c: int, l: int| #[trigger]
        def_at(f, e.0 as int, c, l) && dom(f, c, c0) && (c == c0 ==> l < l0);
    lemma_dom_trans(f, c, c0, b);
    if c == b {
        lemma_dom_antisym(f, c, c0);
    }
    assert(def_at(f, e.0 as int, c, l) && dom(f, c, b) && (c == b ==> l < k));
}

proof fn lemma_end_use_moves(f: Function, v: Value, e: Value, b: int)
    requires
        may_replace(f, v, e),
        end_use_ok(f, v.0 as int, b),
    ensures
        end_use_ok(f, e.0 as int, b),
{
    let (c0, l0) = choose|c: int, l: int| #[trigger]
        def_at(f, v.0 as int, c, l) && dom(f, c, b);
    assert(use_ok(f, e.0 as int, c0, l0));
    let (c, l) = choose|c: int, l: int| #[trigger]
        def_at(f, e.0 as int, c, l) && dom(f, c, c0) && (c == c0 ==> l < l0);
    lemma_dom_trans(f, c, c0, b);
    assert(def_at(f, e.0 as int, c, l) && dom(f, c, b));
}

/// Uses look only at placement and control flow.
proof fn lemma_uses_carry(f: Function, g: Function, u: int, b: int, k: int)
    requires
        same_graph(f, g),
        forall|v: int, c: int, l: int| #[trigger] def_at(f, v, c, l) ==> def_at(g, v, c, l),
    ensures
        use_ok(f, u, b, k) ==> use_ok(g, u, b, k),
        end_use_ok(f, u, b) ==> end_use_ok(g, u, b),
{
    if use_ok(f, u, b, k) {
        let (c, l) = choose|c: int, l: int| #[trigger]
            def_at(f, u, c, l) && dom(f, c, b) && (c == b ==> l < k);
        lemma_same_dom(f, g, c, b);
        assert(def_at(g, u, c, l));
    }
    if end_use_ok(f, u, b) {
        let (c, l) = choose|c: int, l: int| #[trigger] def_at(f, u, c, l) && dom(f, c, b);
        lemma_same_dom(f, g, c, b);
        assert(def_at(g, u, c, l));
    }
}

proof fn lemma_subst_inst_ok(
    f: Function,
    g: Function,
    v0: Value,
    e0: Value,
    b: int,
    k: int,
)
    requires
        valid(f),
        is_subst(f, g, v0, e0),
        may_replace(f, v0, e0),
        same_graph(f, g),
        forall|v: int, c: int, l: int| #[trigger] def_at(f, v, c, l) ==> def_at(g, v, c, l),
        0 <= b < f.blocks@.len(),
        0 <= k < f.listed(b).len(),
    ensures
        inst_ok(g, b, k),
{
    let v = f.listed(b)[k];
    assert(g.blocks@[b].insts == f.blocks@[b].insts);
    assert(g.listed(b)[k] == v);
    assert(inst_ok(f, b, k));
    let m = f.inst(v.0 as int);
    let n = g.inst(v.0 as int);
    assert(g.insts@[v.0 as int]@ == subst_inst(f.insts@[v.0 as int]@, v0, e0));
    lemma_shape(f, v.0 as int);
    lemma_phi_pairs(f, v.0 as int);
    assert forall|j: int|
        #![trigger m.args[j]]
        0 <= j < m.args.len() && m.args[j].0 < f.types@.len() implies n.args[j].0 < g.types@.len()
        && g.types@[n.args[j].0 as int] == f.types@[m.args[j].0 as int] by {
        if m.args[j] == v0 {
            let u = v0.0 as int;
            if m.op is Phi {
                assert(end_use_ok(f, u, (m.op->Phi_0)[j].0 as int));
                let (c, l) = choose|c: int, l: int| #[trigger]
                    def_at(f, u, c, l) && dom(f, c, (m.op->Phi_0)[j].0 as int);
                assert(def_at(f, v0.0 as int, c, l));
            } else {
                assert(use_ok(f, u, b, k));
                let (c, l) = choose|c: int, l: int| #[trigger]
                    def_at(f, u, c, l) && dom(f, c, b) && (c == b ==> l < k);
                assert(def_at(f, v0.0 as int, c, l));
            }
        }
    }
    lemma_types_congruent(f, g, v, m, n);
    match m.op {
        Op::Phi(froms) => {
            assert forall|j: int| #![trigger n.args[j]] 0 <= j < n.args.len() implies end_use_ok(
                g,
                n.args[j].0 as int,
                froms[j].0 as int,
            ) by {
                assert(end_use_ok(f, m.args[j].0 as int, froms[j].0 as int));
                if m.args[j] == v0 {
                    lemma_end_use_moves(f, v0, e0, froms[j].0 as int);
                }
                lemma_uses_carry(f, g, n.args[j].0 as int, froms[j].0 as int, 0);
            }
            assert(g.blocks@[b].preds == f.blocks@[b].preds);
        },
        _ => {
            assert forall|j: int| #![trigger n.args[j]] 0 <= j < n.args.len() implies use_ok(
                g,
                n.args[j].0 as int,
                b,
                k,
            ) by {
                assert(use_ok(f, m.args[j].0 as int, b, k));
                if m.args[j] == v0 {
                    lemma_use_moves(f, v0, e0, b, k);
                }
                lemma_uses_carry(f, g, n.args[j].0 as int, b, k);
            }
        },
    }
}

/// Redirecting uses keeps a function well-formed.
pub proof fn lemma_subst_valid(f: Function, g: Function, v0: Value, e0: Value)
    requires
        valid(f),
        is_subst(f, g, v0, e0),
        may_replace(f, v0, e0),
    ensures
        valid(g),
        same_graph(f, g),
        loop_free(f) ==> loop_free(g),
        phis_match(f) ==> phis_match(g),
        args_in_table(f) && e0.0 < f.insts@.len() ==> args_in_table(g),
{
    assert forall|b: int| #![trigger g.term(b)] 0 <= b < f.blocks@.len() implies g.term(b)
        == subst_opt_term(f.term(b), v0, e0) by {
        assert(g.blocks@[b].term == subst_opt_term(f.term(b), v0, e0));
    }
    lemma_same_targets(f, g, v0, e0);
    assert forall|v: int, c: int, l: int| #[trigger] def_at(f, v, c, l) implies def_at(
        g,
        v,
        c,
        l,
    ) by {
        assert(g.blocks@[c].insts == f.blocks@[c].insts);
    }
    assert forall|v: int, c: int, l: int| #[trigger] def_at(g, v, c, l) implies def_at(
        f,
        v,
        c,
        l,
    ) by {
        assert(g.blocks@[c].insts == f.blocks@[c].insts);
    }
    assert(listing_ok(g)) by {
        assert forall|b: int, k: int|
            #![trigger g.listed(b)[k]]
            0 <= b < g.blocks@.len() && 0 <= k < g.listed(b).len() implies g.listed(b)[k].0
            < g.insts@.len() by {
            assert(g.blocks@[b].insts == f.blocks@[b].insts);
            assert(f.listed(b)[k].0 < f.insts@.len());
        }
        assert forall|b: int, k: int|
            #![trigger g.preds(b)[k]]
            0 <= b < g.blocks@.len() && 0 <= k < g.preds(b).len() implies g.preds(b)[k].0
            < g.blocks@.len() by {
            assert(g.blocks@[b].preds == f.blocks@[b].preds);
            assert(f.preds(b)[k].0 < f.blocks@.len());
        }
    }
    assert forall|b: int, k: int|
        #![trigger g.listed(b)[k]]
        0 <= b < g.blocks@.len() && 0 <= k < g.listed(b).len() implies inst_ok(g, b, k) by {
        assert(g.blocks@[b].insts == f.blocks@[b].insts);
        lemma_subst_inst_ok(f, g, v0, e0, b, k);
    }
    assert forall|b: int| #![trigger g.term(b)] 0 <= b < g.blocks@.len() implies term_ok(g, b) by {
        assert(g.blocks@[b].term == subst_opt_term(f.term(b), v0, e0));
        assert(term_ok(f, b));
        let u = match f.term(b) {
            Some(Terminator::Return(v)) => v,
            Some(Terminator::Branch { cond, .. }) => cond,
            _ => v0,
        };
        if f.term(b) is Some && !(f.term(b)->Some_0 is Jump) {
            if u == v0 {
                lemma_end_use_moves(f, v0, e0, b);
            }
            lemma_uses_carry(f, g, subst(u, v0, e0).0 as int, b, 0);
        }
    }
    if phis_match(f) {
        assert forall|b: int, k: int|
            #![trigger g.listed(b)[k]]
            0 <= b < g.blocks@.len() && 0 <= k < g.listed(b).len() implies phi_matches(
            g.inst(g.listed(b)[k].0 as int),
            g.preds(b),
        ) by {
            assert(g.blocks@[b].insts == f.blocks@[b].insts);
            assert(g.blocks@[b].preds == f.blocks@[b].preds);
            assert(phi_matches(f.inst(f.listed(b)[k].0 as int), f.preds(b)));
            assert(g.insts@[f.listed(b)[k].0 as int]@ == subst_inst(
                f.insts@[f.listed(b)[k].0 as int]@,
                v0,
                e0,
            ));
        }
    }
    if args_in_table(f) && e0.0 < f.insts@.len() {
        assert forall|i: int, j: int|
            #![trigger g.inst(i).args[j]]
            0 <= i < g.insts@.len() && 0 <= j < g.inst(i).args.len() implies g.inst(i).args[j].0
            < g.insts@.len() by {
            assert(g.insts@[i]@ == subst_inst(f.insts@[i]@, v0, e0));
            assert(f.inst(i).args[j].0 < f.insts@.len());
        }
    }
}

// ---------------------------------------------------------------------------
// Splicing

/// Where place `k` of block `c` has moved.
pub open spec fn moved(b: int, pos: int, count: int, c: int, k: int) -> int {
    if c == b && k >= pos {
        k + count
    } else {
        k
    }
}

pub proof fn lemma_spliced_defs(f: Function, g: Function, b: int, pos: int, count: int)
    requires
        listing_ok(f),
        is_spliced(f, g, b, pos, count),
    ensures
        forall|v: int, c: int, k: int| #[trigger]
            def_at(f, v, c, k) ==> def_at(g, v, c, moved(b, pos, count, c, k)),
        forall|v: int, c: int, k: int| #[trigger]
            def_at(g, v, c, k) ==> (if c == b && pos <= k < pos + count {
                v == f.insts@.len() + (k - pos)
            } else {
                v < f.insts@.len() && def_at(
                    f,
                    v,
                    c,
                    if c == b && k >= pos + count {
                        k - count
                    } else {
                        k
                    },
                )
            }),
{
    let n = f.insts@.len() as int;
    let lf = f.listed(b);
    let front = lf.take(pos) + fresh(n, count);
    assert(g.listed(b) == front + lf.skip(pos));
    assert(front.len() == pos + count);
    assert forall|v: int, c: int, k: int| #[trigger] def_at(f, v, c, k) implies def_at(
        g,
        v,
        c,
        moved(b, pos, count, c, k),
    ) by {
        assert(g.blocks@[c].preds == f.blocks@[c].preds);
        if c == b {
            if k >= pos {
                lemma_spliced_list(f, g, b, pos, count, k);
            } else {
                assert(g.listed(b)[k] == lf[k]);
            }
        }
    }
    assert forall|v: int, c: int, k: int| #[trigger] def_at(g, v, c, k) implies (if c == b && pos
        <= k < pos + count {
        v == f.insts@.len() + (k - pos)
    } else {
        v < f.insts@.len() && def_at(
            f,
            v,
            c,
            if c == b && k >= pos + count {
                k - count
            } else {
                k
            },
        )
    }) by {
        assert(g.blocks@[c].preds == f.blocks@[c].preds);
        if c == b {
            if k < pos {
                assert(g.listed(b)[k] == lf[k]);
                assert(lf[k].0 < n);
            } else if k < pos + count {
                assert(g.listed(b)[k] == fresh(n, count)[k - pos]);
            } else {
                assert(g.listed(b)[k] == lf.skip(pos)[k - pos - count]);
                assert(lf[k - count].0 < n);
            }
        } else {
            assert(f.listed(c)[k].0 < n);
        }
    }
}

proof fn lemma_spliced_uses(
    f: Function,
    g: Function,
    b: int,
    pos: int,
    count: int,
    u: int,
    c: int,
    k: int,
)
    requires
        listing_ok(f),
        is_spliced(f, g, b, pos, count),
        same_graph(f, g),
    ensures
        use_ok(f, u, c, k) ==> use_ok(g, u, c, moved(b, pos, count, c, k)),
        end_use_ok(f, u, c) ==> end_use_ok(g, u, c),
{
    lemma_spliced_defs(f, g, b, pos, count);
    if use_ok(f, u, c, k) {
        let (d, l) = choose|d: int, l: int| #[trigger]
            def_at(f, u, d, l) && dom(f, d, c) && (d == c ==> l < k);
        lemma_same_dom(f, g, d, c);
        assert(def_at(g, u, d, moved(b, pos, count, d, l)));
    }
    if end_use_ok(f, u, c) {
        let (d, l) = choose|d: int, l: int| #[trigger] def_at(f, u, d, l) && dom(f, d, c);
        lemma_same_dom(f, g, d, c);
        assert(def_at(g, u, d, moved(b, pos, count, d, l)));
    }
}

proof fn lemma_spliced_inst_ok(
    f: Function,
    g: Function,
    b: int,
    pos: int,
    count: int,
    c: int,
    k: int,
)
    requires
        valid(f),
        is_spliced(f, g, b, pos, count),
        same_graph(f, g),
        0 <= c < f.blocks@.len(),
        0 <= k < f.listed(c).len(),
        c != b || k != pos,
    ensures
        inst_ok(g, c, moved(b, pos, count, c, k)),
{
    let h = moved(b, pos, count, c, k);
    let v = f.listed(c)[k];
    lemma_spliced_defs(f, g, b, pos, count);
    assert(def_at(f, v.0 as int, c, k));
    assert(def_at(g, v.0 as int, c, h));
    assert(g.listed(c)[h] == v);
    assert(inst_ok(f, c, k));
    assert(def_at(f, f.listed(b)[pos].0 as int, b, pos));
    assert(v.0 != f.listed(b)[pos].0);
    assert(g.insts@[v.0 as int]@ == f.insts@[v.0 as int]@);
    let m = f.inst(v.0 as int);
    lemma_shape(f, v.0 as int);
    lemma_types_congruent(f, g, v, m, m);
    match m.op {
        Op::Phi(froms) => {
            assert forall|j: int| #![trigger m.args[j]] 0 <= j < m.args.len() implies end_use_ok(
                g,
                m.args[j].0 as int,
                froms[j].0 as int,
            ) by {
                assert(end_use_ok(f, m.args[j].0 as int, froms[j].0 as int));
                lemma_spliced_uses(
                    f,
                    g,
                    b,
                    pos,
                    count,
                    m.args[j].0 as int,
                    froms[j].0 as int,
                    0,
                );
            }
            assert(g.blocks@[c].preds == f.blocks@[c].preds);
        },
        _ => {
            assert forall|j: int| #![trigger m.args[j]] 0 <= j < m.args.len() implies use_ok(
                g,
                m.args[j].0 as int,
                c,
                h,
            ) by {
                assert(use_ok(f, m.args[j].0 as int, c, k));
                lemma_spliced_uses(f, g, b, pos, count, m.args[j].0 as int, c, k);
            }
        },
    }
}

/// Splicing keeps a function well-formed, if the spliced instructions are.
pub proof fn lemma_splice_valid(f: Function, g: Function, b: int, pos: int, count: int)
    requires
        valid(f),
        is_spliced(f, g, b, pos, count),
        forall|i: int| #![trigger g.listed(b)[i]] pos <= i <= pos + count ==> inst_ok(g, b, i),
    ensures
        valid(g),
        same_graph(f, g),
        loop_free(f) ==> loop_free(g),
{
    assert forall|c: int| #![trigger g.term(c)] 0 <= c < f.blocks@.len() implies g.term(c)
        == subst_opt_term(f.term(c), Value(0), Value(0)) by {
        assert(g.blocks@[c].term == f.blocks@[c].term);
    }
    lemma_same_targets(f, g, Value(0), Value(0));
    lemma_spliced_defs(f, g, b, pos, count);
    assert(listing_ok(g)) by {
        assert forall|c: int, k: int|
            #![trigger g.listed(c)[k]]
            0 <= c < g.blocks@.len() && 0 <= k < g.listed(c).len() implies g.listed(c)[k].0
            < g.insts@.len() by {
            assert(def_at(g, g.listed(c)[k].0 as int, c, k));
        }
        assert forall|c: int, k: int|
            #![trigger g.preds(c)[k]]
            0 <= c < g.blocks@.len() && 0 <= k < g.preds(c).len() implies g.preds(c)[k].0
            < g.blocks@.len() by {
            assert(g.blocks@[c].preds == f.blocks@[c].preds);
            assert(f.preds(c)[k].0 < f.blocks@.len());
        }
    }
    assert forall|c: int, h: int|
        #![trigger g.listed(c)[h]]
        0 <= c < g.blocks@.len() && 0 <= h < g.listed(c).len() implies inst_ok(g, c, h) by {
        assert(def_at(g, g.listed(c)[h].0 as int, c, h));
        if c == b && pos <= h <= pos + count {
        } else {
            let k = if c == b && h >= pos + count {
                h - count
            } else {
                h
            };
            assert(def_at(f, g.listed(c)[h].0 as int, c, k));
            lemma_spliced_inst_ok(f, g, b, pos, count, c, k);
        }
    }
    assert forall|c: int| #![trigger g.term(c)] 0 <= c < g.blocks@.len() implies term_ok(g, c) by {
        assert(g.blocks@[c].term == f.blocks@[c].term);
        assert(term_ok(f, c));
        let u = match f.term(c) {
            Some(Terminator::Return(v)) => v,
            Some(Terminator::Branch { cond, .. }) => cond,
            _ => Value(0),
        };
        lemma_spliced_uses(f, g, b, pos, count, u.0 as int, c, 0);
    }
}

// ---------------------------------------------------------------------------
// Dropping

proof fn lemma_pruned_defs(f: Function, g: Function, kept: Set<int>, v: int, c: int, l: int)
    requires
        is_pruned(f, g, kept),
        def_at(g, v, c, l),
    ensures
        kept.contains(v),
        exists|k: int| #[trigger] def_at(f, v, c, k),
{
    assert(g.blocks@[c].preds == f.blocks@[c].preds);
    let from = choose|from: Seq<int>| is_kept_list(f.listed(c), g.listed(c), from, kept);
    assert(from[l] == from[l]);
    assert(def_at(f, v, c, from[l]));
}

/// Kept values stay in order.
proof fn lemma_pruned_use(
    f: Function,
    g: Function,
    kept: Set<int>,
    u: int,
    c: int,
    h: int,
    k: int,
)
    requires
        is_pruned(f, g, kept),
        same_graph(f, g),
        kept.contains(u),
    ensures
        end_use_ok(f, u, c) ==> end_use_ok(g, u, c),
        0 <= c < f.blocks@.len() && def_at(g, f.listed(c)[k].0 as int, c, h) && listing_ok(f) && 0
            <= k < f.listed(c).len() && use_ok(f, u, c, k) ==> use_ok(g, u, c, h),
{
    if end_use_ok(f, u, c) {
        let (d, l) = choose|d: int, l: int| #[trigger] def_at(f, u, d, l) && dom(f, d, c);
        lemma_same_dom(f, g, d, c);
        lemma_pruned_place(f, g, kept, u, d, l);
        let i = choose|i: int| #[trigger] def_at(g, u, d, i);
        assert(def_at(g, u, d, i) && dom(g, d, c));
    }
    if 0 <= c < f.blocks@.len() && def_at(g, f.listed(c)[k].0 as int, c, h) && listing_ok(f) && 0
        <= k < f.listed(c).len() && use_ok(f, u, c, k) {
        let (d, l) = choose|d: int, l: int| #[trigger]
            def_at(f, u, d, l) && dom(f, d, c) && (d == c ==> l < k);
        lemma_same_dom(f, g, d, c);
        if d == c {
            assert(g.blocks@[c].preds == f.blocks@[c].preds);
            let from = choose|from: Seq<int>| is_kept_list(f.listed(c), g.listed(c), from, kept);
            assert(f.listed(c)[l].0 == u);
            assert(from.contains(l));
            let i = choose|i: int| 0 <= i < from.len() && from[i] == l;
            assert(def_at(g, u, c, i));
            assert(from[h] == from[h]);
            assert(def_at(f, f.listed(c)[k].0 as int, c, from[h]));
            assert(def_at(f, f.listed(c)[k].0 as int, c, k));
            assert(from[h] == k);
            if i >= h {
                if h < i {
                    assert(from[h] < from[i]);
                }
            }
            assert(i < h);
            assert(def_at(g, u, d, i) && dom(g, d, c) && (d == c ==> i < h));
        } else {
            lemma_pruned_place(f, g, kept, u, d, l);
            let i = choose|i: int| #[trigger] def_at(g, u, d, i);
            assert(def_at(g, u, d, i) && dom(g, d, c) && (d == c ==> i < h));
        }
    }
}

proof fn lemma_pruned_place(f: Function, g: Function, kept: Set<int>, v: int, c: int, l: int)
    requires
        is_pruned(f, g, kept),
        def_at(f, v, c, l),
        kept.contains(v),
    ensures
        exists|i: int| #[trigger] def_at(g, v, c, i),
{
    assert(g.blocks@[c].preds == f.blocks@[c].preds);
    let from = choose|from: Seq<int>| is_kept_list(f.listed(c), g.listed(c), from, kept);
    assert(f.listed(c)[l].0 == v);
    assert(from.contains(l));
    let i = choose|i: int| 0 <= i < from.len() && from[i] == l;
    assert(def_at(g, v, c, i));
}

proof fn lemma_pruned_inst_ok(f: Function, g: Function, kept: Set<int>, c: int, h: int)
    requires
        valid(f),
        is_pruned(f, g, kept),
        closed_under_uses(f, kept),
        same_graph(f, g),
        0 <= c < g.blocks@.len(),
        0 <= h < g.listed(c).len(),
    ensures
        g.listed(c)[h].0 < f.insts@.len(),
        inst_ok(g, c, h),
{
    let v = g.listed(c)[h];
    assert(def_at(g, v.0 as int, c, h));
    lemma_pruned_defs(f, g, kept, v.0 as int, c, h);
    let k = choose|k: int| #[trigger] def_at(f, v.0 as int, c, k);
    assert(f.listed(c)[k] == v);
    assert(inst_ok(f, c, k));
    assert(g.insts@[v.0 as int]@ == f.insts@[v.0 as int]@);
    let m = f.inst(v.0 as int);
    lemma_shape(f, v.0 as int);
    lemma_types_congruent(f, g, v, m, m);
    lemma_phi_pairs(f, v.0 as int);
    match m.op {
        Op::Phi(froms) => {
            assert forall|j: int| #![trigger m.args[j]] 0 <= j < m.args.len() implies end_use_ok(
                g,
                m.args[j].0 as int,
                froms[j].0 as int,
            ) by {
                assert(end_use_ok(f, m.args[j].0 as int, froms[j].0 as int));
                assert(kept.contains(f.inst(f.listed(c)[k].0 as int).args[j].0 as int));
                lemma_pruned_use(f, g, kept, m.args[j].0 as int, froms[j].0 as int, 0, 0);
            }
            assert(g.blocks@[c].preds == f.blocks@[c].preds);
        },
        _ => {
            assert forall|j: int| #![trigger m.args[j]] 0 <= j < m.args.len() implies use_ok(
                g,
                m.args[j].0 as int,
                c,
                h,
            ) by {
                assert(use_ok(f, m.args[j].0 as int, c, k));
                assert(kept.contains(f.inst(f.listed(c)[k].0 as int).args[j].0 as int));
                lemma_pruned_use(f, g, kept, m.args[j].0 as int, c, h, k);
            }
        },
    }
}

/// Dropping values that nothing kept reads keeps a function well-formed.
pub proof fn lemma_prune_valid(f: Function, g: Function, kept: Set<int>)
    requires
        valid(f),
        is_pruned(f, g, kept),
        closed_under_uses(f, kept),
    ensures
        valid(g),
        same_graph(f, g),
        loop_free(f) ==> loop_free(g),
        phis_match(f) ==> phis_match(g),
{
    assert forall|c: int| #![trigger g.term(c)] 0 <= c < f.blocks@.len() implies g.term(c)
        == subst_opt_term(f.term(c), Value(0), Value(0)) by {
        assert(g.blocks@[c].term == f.blocks@[c].term);
    }
    lemma_same_targets(f, g, Value(0), Value(0));
    assert(listing_ok(g)) by {
        assert forall|c: int, k: int|
            #![trigger g.listed(c)[k]]
            0 <= c < g.blocks@.len() && 0 <= k < g.listed(c).len() implies g.listed(c)[k].0
            < g.insts@.len() by {
            lemma_pruned_inst_ok(f, g, kept, c, k);
        }
        assert forall|c: int, k: int|
            #![trigger g.preds(c)[k]]
            0 <= c < g.blocks@.len() && 0 <= k < g.preds(c).len() implies g.preds(c)[k].0
            < g.blocks@.len() by {
            assert(g.blocks@[c].preds == f.blocks@[c].preds);
            assert(f.preds(c)[k].0 < f.blocks@.len());
        }
        assert forall|v: int, b: int, k: int, c: int, l: int|
            #![trigger def_at(g, v, b, k), def_at(g, v, c, l)]
            def_at(g, v, b, k) && def_at(g, v, c, l) implies b == c && k == l by {
            lemma_pruned_defs(f, g, kept, v, b, k);
            lemma_pruned_defs(f, g, kept, v, c, l);
            let i = choose|i: int| #[trigger] def_at(f, v, b, i);
            let j = choose|j: int| #[trigger] def_at(f, v, c, j);
            assert(b == c && i == j);
            assert(g.blocks@[b].preds == f.blocks@[b].preds);
            let from = choose|from: Seq<int>| is_kept_list(f.listed(b), g.listed(b), from, kept);
            assert(from[k] == from[k] && from[l] == from[l]);
            assert(def_at(f, v, b, from[k]));
            assert(def_at(f, v, b, from[l]));
            if k < l {
                assert(from[k] < from[l]);
            }
            if l < k {
                assert(from[l] < from[k]);
            }
        }
    }
    assert forall|c: int, h: int|
        #![trigger g.listed(c)[h]]
        0 <= c < g.blocks@.len() && 0 <= h < g.listed(c).len() implies inst_ok(g, c, h) by {
        lemma_pruned_inst_ok(f, g, kept, c, h);
    }
    assert forall|c: int| #![trigger g.term(c)] 0 <= c < g.blocks@.len() implies term_ok(g, c) by {
        assert(g.blocks@[c].term == f.blocks@[c].term);
        assert(term_ok(f, c));
        assert(term_kept(f.term(c), kept));
        let u = match f.term(c) {
            Some(Terminator::Return(v)) => v,
            Some(Terminator::Branch { cond, .. }) => cond,
            _ => Value(0),
        };
        if f.term(c) is Some && !(f.term(c)->Some_0 is Jump) {
            lemma_pruned_use(f, g, kept, u.0 as int, c, 0, 0);
        }
    }
    if phis_match(f) {
        assert forall|c: int, h: int|
            #![trigger g.listed(c)[h]]
            0 <= c < g.blocks@.len() && 0 <= h < g.listed(c).len() implies phi_matches(
            g.inst(g.listed(c)[h].0 as int),
            g.preds(c),
        ) by {
            let v = g.listed(c)[h];
            assert(def_at(g, v.0 as int, c, h));
            lemma_pruned_defs(f, g, kept, v.0 as int, c, h);
            let k = choose|k: int| #[trigger] def_at(f, v.0 as int, c, k);
            assert(f.listed(c)[k] == v);
            assert(f.listed(c)[k].0 < f.insts@.len());
            assert(g.blocks@[c].preds == f.blocks@[c].preds);
            assert(g.insts@[v.0 as int]@ == f.insts@[v.0 as int]@);
        }
    }
}

} // verus!
