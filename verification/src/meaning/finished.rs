//! What lowering makes is what the optimizer takes: the optimizer keeps the
//! value of every expression that type-checks.
use crate::array::first_return;
use crate::builder::{
    emitted, empty_state, ir_of, next_value, shaped, with_block, with_param, with_seal, with_term,
    written, State,
};
use crate::dominance::{dom, edge, is_path, path_to, reachable};
use crate::dominance::{lemma_entry_reachable, lemma_reachable_edge};
use crate::float::FloatSem;
use crate::interp::{lemma_trap_or_value, traps, yields, RtValue};
use crate::ir::model0;
use crate::ir::{Block, Function, InstModel, Op, Span, Terminator, Ty, Value};
use crate::lower::{
    ifs, lemma_nodes_positive, lemma_params_ready, lemma_written, lowered, lowered_function, nodes,
    ready, small_enough, lowerable, with_params, TypedAst,
};
use crate::meaning::blocks::{counted, edges_to, lemma_counted_same, lemma_occurs};
use crate::meaning::lowered::{
    built, can_lower_here, in_scope, lemma_add_inst, lemma_lower_code, lemma_more_names,
    lemma_name_known, names_added, typed_tree, unused, with_name,
};
use crate::meaning::shape::{
    code_ok, ends_ok, gives, graph_ok, has_type, lemma_gives_still, lemma_readable_still,
    lemma_supplied_still, lemma_write_code, over_all, readable, supplied, there, there_at,
    with_home, Plan,
};
use crate::meaning::{
    binds, lemma_lowering_keeps_meaning, param_env, param_names, params_distinct, scoped, value_of,
};
use crate::meaning::progress::{
    bool_branch, branches_on_bools, extremes_of_doubles, lemma_one_trap, lemma_runs_or_traps,
};
use crate::opt::keep::{args_in_table, phi_matches};
use crate::opt::simulate::{args_match, loop_free, ranks, regular, same, yields_same};
use crate::opt::{keeps, tame, xor_on_integers};
use crate::verify::{
    def_at, edge_count, end_use_ok, inst_ok, listing_ok, occurrences, operands_defect, preds_ok,
    tables_ok, targets_ok, term_ok, type_defect, use_ok, valid,
};
use vstd::prelude::*;

verus! {

// ---------------------------------------------------------------------------
// The beginning

/// The types of the first `k` parameters.
pub open spec fn param_types(params: Seq<(String, Ty)>, k: nat) -> Map<Seq<char>, Ty>
    decreases k,
{
    if k == 0 {
        Map::empty()
    } else {
        param_types(params, (k - 1) as nat).insert(params[k - 1].0@, params[k - 1].1)
    }
}

proof fn lemma_param_types(params: Seq<(String, Ty)>, k: nat)
    ensures
        param_types(params, k).dom() =~= param_names(params, k),
    decreases k,
{
    if k > 0 {
        lemma_param_types(params, (k - 1) as nat);
    }
}

/// One more parameter.
#[verifier::rlimit(40)]
proof fn lemma_param_code(s: State, p: Plan, tys: Map<Seq<char>, Ty>, name: Seq<char>, ty: Ty)
    requires
        built(s, Block(0), p, tys),
    ensures
        built(with_param(s, name, ty), Block(0), p, tys),
{
    let t = with_param(s, name, ty);
    lemma_params_ready(s, Block(0), name, ty);
    lemma_counted_same(s, t);
    assert(graph_ok(t, p)) by {
        reveal(graph_ok);
        assert forall|b: int, c: int|
            #![trigger over_all(t, p, b, c)]
            over_all(t, p, b, c) == over_all(s, p, b, c) by {
            assert(t.ir.blocks == s.ir.blocks);
        }
        assert forall|b: int, k: int|
            #![trigger t.ir.blocks[b].preds[k]]
            0 <= b < t.ir.blocks.len() && 0 <= k
                < t.ir.blocks[b].preds.len() implies p.rank[t.ir.blocks[b].preds[k].0 as int]
            < p.rank[b] by {
            assert(t.ir.blocks[b].preds[k] == s.ir.blocks[b].preds[k]);
        }
        assert forall|b: int, c: int|
            #![trigger p.over[b].contains(c)]
            0 <= b < t.ir.blocks.len() && p.over[b].contains(c) && c != b implies over_all(
            t,
            p,
            b,
            c,
        ) by {
            assert(over_all(s, p, b, c));
            assert(over_all(t, p, b, c) == over_all(s, p, b, c));
        }
    }
    reveal(code_ok);
    assert forall|v: int| #![trigger t.ir.insts[v]] 0 <= v < t.ir.insts.len() implies {
        &&& gives(t.ir.types, t.ir.params, t.ir.insts[v], t.ir.types[v])
        &&& supplied(t, p, t.ir.insts[v], p.home[v].0, p.home[v].1)
    } by {
        let m = s.ir.insts[v];
        assert(gives(s.ir.types, s.ir.params, m, s.ir.types[v]));
        lemma_gives_still(s.ir.types, t.ir.types, s.ir.params, t.ir.params, m, m, s.ir.types[v]);
        assert(!Set::<u32>::empty().contains(v as u32));
        assert(supplied(s, p, m, p.home[v].0, p.home[v].1));
        lemma_supplied_still(s, t, p, p, m, p.home[v].0, p.home[v].1);
    }
    assert forall|b: int, x: Seq<char>|
        #![trigger p.avail[b].contains(x)]
        0 <= b < t.ir.blocks.len() && p.avail[b].contains(x) implies tys.dom().contains(x)
        && readable(t, p, b, x) by {
        assert(readable(s, p, b, x));
        lemma_readable_still(s, t, p, p, b, x);
    }
    assert forall|b: int| #![trigger t.ir.blocks[b]] 0 <= b < t.ir.blocks.len() implies ends_ok(
        t,
        p,
        b,
    ) by {
        assert(ends_ok(s, p, b));
    }
}

/// The entry, with nothing in it.
#[verifier::rlimit(40)]
proof fn lemma_entry_code() -> (p: Plan)
    ensures
        ({
            let s = with_seal(with_block(empty_state()), Block(0));
            &&& built(s, Block(0), p, Map::empty())
            &&& s.ir.blocks.len() == 1
            &&& s.ir.insts.len() == 0
            &&& s.ir.params.len() == 0
        }),
{
    let s = with_seal(with_block(empty_state()), Block(0));
    let p = Plan {
        rank: seq![0nat],
        over: seq![Set::empty().insert(0int)],
        avail: seq![Set::empty()],
        home: Seq::empty(),
    };
    assert(s.pending[0].dom() =~= Set::<Seq<char>>::empty());
    assert(s.defs[0].dom() =~= Set::<Seq<char>>::empty());
    assert(shaped(s));
    assert(graph_ok(s, p)) by {
        reveal(graph_ok);
    }
    assert(code_ok(s, p, Map::empty(), Set::empty())) by {
        reveal(code_ok);
    }
    assert(counted(s)) by {
        reveal(counted);
    }
    assert(ready(s, Block(0)));
    p
}

/// The entry with its parameters.
#[verifier::rlimit(60)]
proof fn lemma_params_code(params: Seq<(String, Ty)>, span: Span, k: nat) -> (p: Plan)
    requires
        k <= params.len(),
        k <= u32::MAX,
        params_distinct(params, k),
    ensures
        ({
            let s = with_params(params, span, k);
            &&& built(s, Block(0), p, param_types(params, k))
            &&& s.ir.blocks.len() == 1
            &&& s.ir.insts.len() == k
            &&& s.ir.params.len() == k
            &&& in_scope(p, Block(0), param_types(params, k), param_names(params, k), param_types(
                params,
                k,
            ))
        }),
    decreases k,
{
    if k == 0 {
        lemma_entry_code()
    } else {
        let j = (k - 1) as nat;
        let p0 = lemma_params_code(params, span, j);
        let s = with_params(params, span, j);
        let (string, ty) = params[k - 1];
        let name = string@;
        let v = next_value(s);
        let m = model0(Op::Param((k - 1) as u32, ty));
        let tys0 = param_types(params, j);
        let tys = param_types(params, k);
        lemma_param_types(params, j);
        lemma_param_types(params, k);
        let one = Set::empty().insert(name);
        assert(names_added(tys0, tys, one));
        let a = with_param(s, name, ty);
        lemma_param_code(s, p0, tys0, name, ty);
        assert(gives(a.ir.types, a.ir.params, m, ty)) by {
            reveal(gives);
            assert(a.ir.params[k - 1] == (name, ty));
        }
        lemma_add_inst(a, Block(0), p0, tys0, m, ty, span);
        let b = emitted(a, Block(0), m, ty, span);
        let p1 = with_home(a, p0, 0);
        assert(with_param(emitted(s, Block(0), m, ty, span), name, ty) =~= b);
        lemma_more_names(b, p1, tys0, tys, one);
        lemma_write_code(b, p1, tys, Set::empty(), name, Block(0), v);
        let w = written(b, name, Block(0), v);
        lemma_written(b, Block(0), name, v);
        lemma_counted_same(b, w);
        lemma_name_known(w, p1, tys, 0, name);
        let p = with_name(p1, 0, name);
        assert(w == with_params(params, span, k));
        let names = param_names(params, k);
        assert(p1.avail.len() == 1) by {
            reveal(graph_ok);
        }
        assert forall|x: Seq<char>| #![trigger names.contains(x)] names.contains(x) implies p.avail[0].contains(
            x,
        ) && tys.dom().contains(x) by {
            if x != name {
                assert(param_names(params, j).contains(x));
                assert(p0.avail[0].contains(x));
            }
        }
        p
    }
}

// ---------------------------------------------------------------------------
// The end

/// The function is what was built, with a last terminator.
pub open spec fn is_finished(f: Function, t: State, exit: Block, v: Value) -> bool {
    &&& ir_of(f) == with_term(t, exit, Terminator::Return(v)).ir
    &&& exit.0 < t.ir.blocks.len()
    &&& t.ir.blocks[exit.0 as int].term is None
    &&& t.sealed[exit.0 as int]
    &&& forall|b: int|
        #![trigger t.ir.blocks[b]]
        0 <= b < t.ir.blocks.len() && b != exit.0 ==> t.ir.blocks[b].term is Some
}

/// What the parts of the function are.
proof fn lemma_parts(f: Function, t: State, exit: Block, v: Value)
    requires
        is_finished(f, t, exit, v),
        shaped(t),
    ensures
        f.insts@.len() == t.ir.insts.len(),
        f.types@ == t.ir.types,
        f.spans@ == t.ir.spans,
        f.entry == t.ir.entry,
        f.blocks@.len() == t.ir.blocks.len(),
        f.params@.len() == t.ir.params.len(),
        forall|i: int|
            #![trigger f.params@[i]]
            0 <= i < f.params@.len() ==> f.params@[i].1 == t.ir.params[i].1,
        forall|i: int| #![trigger f.inst(i)] 0 <= i < f.insts@.len() ==> f.inst(i) == t.ir.insts[i],
        forall|b: int|
            #![trigger f.listed(b)]
            0 <= b < f.blocks@.len() ==> f.listed(b) == t.ir.blocks[b].insts,
        forall|b: int|
            #![trigger f.preds(b)]
            0 <= b < f.blocks@.len() ==> f.preds(b) == t.ir.blocks[b].preds,
        forall|b: int|
            #![trigger f.term(b)]
            0 <= b < f.blocks@.len() ==> f.term(b) == if b == exit.0 {
                Some(Terminator::Return(v))
            } else {
                t.ir.blocks[b].term
            },
{
    let w = with_term(t, exit, Terminator::Return(v)).ir;
    assert(ir_of(f).insts.len() == f.insts@.len());
    assert(ir_of(f).blocks.len() == f.blocks@.len());
    assert(ir_of(f).params.len() == f.params@.len());
    assert forall|i: int| #![trigger f.params@[i]] 0 <= i < f.params@.len() implies f.params@[i].1
        == t.ir.params[i].1 by {
        assert(ir_of(f).params[i].1 == f.params@[i].1);
    }
    assert forall|i: int| #![trigger f.inst(i)] 0 <= i < f.insts@.len() implies f.inst(i)
        == t.ir.insts[i] by {
        assert(ir_of(f).insts[i] == f.inst(i));
    }
    assert forall|b: int| 0 <= b < f.blocks@.len() implies f.listed(b) == t.ir.blocks[b].insts
        && f.preds(b) == t.ir.blocks[b].preds && f.term(b) == if b == exit.0 {
        Some(Terminator::Return(v))
    } else {
        t.ir.blocks[b].term
    } by {
        assert(ir_of(f).blocks[b].insts == f.listed(b));
        assert(ir_of(f).blocks[b].preds == f.preds(b));
        assert(ir_of(f).blocks[b].term == f.term(b));
        assert(w.blocks[b].insts == t.ir.blocks[b].insts);
    }
}

/// An edge stands in the predecessor list of its end, and the plan knows.
proof fn lemma_edge_known(f: Function, t: State, p: Plan, exit: Block, v: Value, a: int, b: int)
    requires
        is_finished(f, t, exit, v),
        graph_ok(t, p),
        counted(t),
        edge(f, a, b),
    ensures
        0 <= b < t.ir.blocks.len(),
        exists|k: int|
            #![trigger t.ir.blocks[b].preds[k]]
            0 <= k < t.ir.blocks[b].preds.len() && t.ir.blocks[b].preds[k].0 == a,
        p.rank[a] < p.rank[b],
{
    assert(shaped(t)) by {
        reveal(graph_ok);
    }
    lemma_parts(f, t, exit, v);
    reveal(counted);
    assert(f.term(a) == t.ir.blocks[a].term);
    assert(edges_to(t.ir.blocks[a].term, b) > 0);
    let preds = t.ir.blocks[b].preds;
    lemma_occurs(preds, Block(a as u32));
    let k = choose|k: int| 0 <= k < preds.len() && preds[k] == Block(a as u32);
    assert(t.ir.blocks[b].preds[k].0 == a);
    reveal(graph_ok);
}

proof fn lemma_all_sealed(t: State, p: Plan, exit: Block, f: Function, v: Value, b: int)
    requires
        is_finished(f, t, exit, v),
        graph_ok(t, p),
        0 <= b < t.ir.blocks.len(),
    ensures
        t.sealed[b],
        b > 0 ==> t.ir.blocks[b].preds.len() > 0,
{
    reveal(graph_ok);
    if b != exit.0 {
        assert(t.ir.blocks[b].term is Some);
    }
}

/// Every block can be reached.
proof fn lemma_reached(f: Function, t: State, p: Plan, exit: Block, v: Value, b: int)
    requires
        is_finished(f, t, exit, v),
        graph_ok(t, p),
        counted(t),
        0 <= b < t.ir.blocks.len(),
    ensures
        reachable(f, b),
    decreases p.rank[b],
{
    assert(shaped(t)) by {
        reveal(graph_ok);
    }
    lemma_parts(f, t, exit, v);
    if b == 0 {
        assert(f.entry.0 == 0) by {
            reveal(graph_ok);
        }
        lemma_entry_reachable(f);
    } else {
        lemma_all_sealed(t, p, exit, f, v, b);
        let from = t.ir.blocks[b].preds[0];
        let a = from.0 as int;
        assert(p.rank[a] < p.rank[b] && a < t.ir.blocks.len()) by {
            reveal(graph_ok);
            assert(t.ir.blocks[b].preds[0] == from);
        }
        lemma_reached(f, t, p, exit, v, a);
        assert(edge(f, a, b)) by {
            reveal(counted);
            lemma_occurs(t.ir.blocks[b].preds, from);
            assert(t.ir.blocks[b].preds[0] == from);
            assert(t.ir.blocks[b].preds.contains(from));
            assert(from == Block(a as u32));
            assert(edges_to(t.ir.blocks[a].term, b) > 0);
            assert(a != exit.0);
            assert(f.term(a) == t.ir.blocks[a].term);
        }
        lemma_reachable_edge(f, a, b);
    }
}

/// A path runs through the blocks that the plan names.
proof fn lemma_path_over(
    f: Function,
    t: State,
    p: Plan,
    exit: Block,
    v: Value,
    path: Seq<int>,
    c: int,
)
    requires
        is_finished(f, t, exit, v),
        graph_ok(t, p),
        counted(t),
        is_path(f, path),
        0 <= path.last() < t.ir.blocks.len(),
        p.over[path.last()].contains(c),
    ensures
        path.contains(c),
    decreases path.len(),
{
    assert(shaped(t)) by {
        reveal(graph_ok);
    }
    lemma_parts(f, t, exit, v);
    let b = path.last();
    let n = path.len() - 1;
    assert(path[n] == b);
    if c != b {
        if n == 0 {
            reveal(graph_ok);
            assert(b == 0);
            assert(p.over[0].contains(c));
        } else {
            let a = path[n - 1];
            assert(edge(f, path[n - 1], path[n]));
            lemma_edge_known(f, t, p, exit, v, a, b);
            let k = choose|k: int|
                #![trigger t.ir.blocks[b].preds[k]]
                0 <= k < t.ir.blocks[b].preds.len() && t.ir.blocks[b].preds[k].0 == a;
            assert(p.over[a].contains(c)) by {
                reveal(graph_ok);
                assert(over_all(t, p, b, c));
            }
            let front = path.take(n);
            assert(is_path(f, front)) by {
                assert forall|i: int| #![trigger front[i]] 0 < i < front.len() implies edge(
                    f,
                    front[i - 1],
                    front[i],
                ) by {
                    assert(edge(f, path[i - 1], path[i]));
                }
            }
            assert(front.last() == a);
            assert(0 <= a < t.ir.blocks.len());
            lemma_path_over(f, t, p, exit, v, front, c);
            let i = choose|i: int| 0 <= i < front.len() && front[i] == c;
            assert(path[i] == c);
        }
    }
}

/// What every way runs over dominates.
proof fn lemma_over_dom(f: Function, t: State, p: Plan, exit: Block, v: Value, b: int, c: int)
    requires
        is_finished(f, t, exit, v),
        graph_ok(t, p),
        counted(t),
        0 <= b < t.ir.blocks.len(),
        p.over[b].contains(c),
    ensures
        dom(f, c, b),
{
    lemma_reached(f, t, p, exit, v, b);
    assert forall|path: Seq<int>| #[trigger] path_to(f, path, b) implies path.contains(c) by {
        lemma_path_over(f, t, p, exit, v, path, c);
    }
}

proof fn lemma_all_typed_args(f: Function, v: Value, m: InstModel, each: Ty, i: int)
    requires
        0 <= i,
        forall|j: int|
            #![trigger m.args[j]]
            0 <= j < m.args.len() ==> has_type(f.types@, m.args[j], each),
    ensures
        operands_defect(f, v, m.args, each, i) is None,
    decreases m.args.len() - i,
{
    if i < m.args.len() {
        lemma_all_typed_args(f, v, m, each, i + 1);
        assert(has_type(f.types@, m.args[i], each));
    }
}

/// Instructions whose operands fit have no defect.
#[verifier::rlimit(60)]
proof fn lemma_no_type_defect(
    f: Function,
    params: Seq<(Seq<char>, Ty)>,
    v: Value,
    m: InstModel,
)
    requires
        gives(f.types@, params, m, f.types@[v.0 as int]),
        f.params@.len() == params.len(),
        forall|i: int|
            #![trigger f.params@[i]]
            0 <= i < f.params@.len() ==> f.params@[i].1 == params[i].1,
    ensures
        type_defect(f, v, m) is None,
        forall|j: int|
            #![trigger m.args[j]]
            0 <= j < m.args.len() ==> m.args[j].0 < f.types@.len(),
        m.op is Xor ==> f.types@[v.0 as int] == Ty::I64,
{
    reveal(gives);
    let ty = f.types@[v.0 as int];
    match m.op {
        Op::Fma => lemma_all_typed_args(f, v, m, Ty::F64, 0),
        Op::Call(_) => lemma_all_typed_args(f, v, m, Ty::F64, 0),
        Op::Phi(_) => lemma_all_typed_args(f, v, m, ty, 0),
        _ => {
            if m.args.len() > 0 {
                assert(m.args[0].0 < f.types@.len());
            }
            if m.args.len() > 1 {
                assert(m.args[1].0 < f.types@.len());
            }
        },
    }
}

/// Operands that are there are defined where they are read.
proof fn lemma_there_defined(
    f: Function,
    t: State,
    p: Plan,
    tys: Map<Seq<char>, Ty>,
    exit: Block,
    v: Value,
    u: Value,
    b: int,
)
    requires
        is_finished(f, t, exit, v),
        graph_ok(t, p),
        code_ok(t, p, tys, Set::empty()),
        counted(t),
        0 <= b < t.ir.blocks.len(),
        there(p, u, b),
    ensures
        def_at(f, u.0 as int, p.home[u.0 as int].0, p.home[u.0 as int].1),
        dom(f, p.home[u.0 as int].0, b),
        end_use_ok(f, u.0 as int, b),
{
    assert(shaped(t)) by {
        reveal(graph_ok);
    }
    lemma_parts(f, t, exit, v);
    let h = p.home[u.0 as int];
    lemma_over_dom(f, t, p, exit, v, b, h.0);
    assert(0 <= h.0 < t.ir.blocks.len() && 0 <= h.1 < t.ir.blocks[h.0].insts.len()
        && t.ir.blocks[h.0].insts[h.1].0 == u.0) by {
        reveal(code_ok);
    }
    assert(f.listed(h.0) == t.ir.blocks[h.0].insts);
}

#[verifier::rlimit(60)]
proof fn lemma_inst_finished(
    f: Function,
    t: State,
    p: Plan,
    tys: Map<Seq<char>, Ty>,
    exit: Block,
    v: Value,
    b: int,
    k: int,
)
    requires
        is_finished(f, t, exit, v),
        graph_ok(t, p),
        code_ok(t, p, tys, Set::empty()),
        counted(t),
        0 <= b < f.blocks@.len(),
        0 <= k < f.listed(b).len(),
    ensures
        f.listed(b)[k].0 < f.insts@.len(),
        inst_ok(f, b, k),
        phi_matches(f.inst(f.listed(b)[k].0 as int), f.preds(b)),
        p.home[f.listed(b)[k].0 as int] == (b, k),
{
    assert(shaped(t)) by {
        reveal(graph_ok);
    }
    lemma_parts(f, t, exit, v);
    let u = f.listed(b)[k];
    assert(t.ir.blocks[b].insts[k] == u);
    let m = t.ir.insts[u.0 as int];
    assert(u.0 < t.ir.insts.len() && p.home[u.0 as int] == (b, k) && gives(
        t.ir.types,
        t.ir.params,
        m,
        t.ir.types[u.0 as int],
    ) && supplied(t, p, m, b, k)) by {
        reveal(code_ok);
        assert(!Set::<u32>::empty().contains(u.0));
    }
    assert(f.inst(u.0 as int) == m);
    lemma_no_type_defect(f, t.ir.params, u, m);
    assert(f.preds(b) == t.ir.blocks[b].preds);
    match m.op {
        Op::Phi(froms) => {
            assert forall|j: int| #![trigger m.args[j]] 0 <= j < m.args.len() implies end_use_ok(
                f,
                m.args[j].0 as int,
                froms[j].0 as int,
            ) by {
                assert(there(p, m.args[j], froms[j].0 as int));
                assert(t.ir.blocks[b].preds[j].0 < t.ir.blocks.len());
                lemma_there_defined(f, t, p, tys, exit, v, m.args[j], froms[j].0 as int);
            }
        },
        _ => {
            assert forall|j: int| #![trigger m.args[j]] 0 <= j < m.args.len() implies use_ok(
                f,
                m.args[j].0 as int,
                b,
                k,
            ) by {
                assert(there_at(p, m.args[j], b, k));
                lemma_there_defined(f, t, p, tys, exit, v, m.args[j], b);
            }
        },
    }
}

/// The lists of a finished function.
proof fn lemma_finished_listing(
    f: Function,
    t: State,
    p: Plan,
    tys: Map<Seq<char>, Ty>,
    exit: Block,
    v: Value,
)
    requires
        is_finished(f, t, exit, v),
        graph_ok(t, p),
        code_ok(t, p, tys, Set::empty()),
        counted(t),
    ensures
        listing_ok(f),
        forall|b: int, k: int|
            #![trigger f.listed(b)[k]]
            0 <= b < f.blocks@.len() && 0 <= k < f.listed(b).len() ==> inst_ok(f, b, k)
                && phi_matches(f.inst(f.listed(b)[k].0 as int), f.preds(b)),
{
    assert(shaped(t)) by {
        reveal(graph_ok);
    }
    lemma_parts(f, t, exit, v);
    let n = t.ir.blocks.len();
    assert forall|b: int, k: int|
        #![trigger f.listed(b)[k]]
        0 <= b < f.blocks@.len() && 0 <= k < f.listed(b).len() implies f.listed(b)[k].0
        < f.insts@.len() && inst_ok(f, b, k) && phi_matches(
        f.inst(f.listed(b)[k].0 as int),
        f.preds(b),
    ) by {
        lemma_inst_finished(f, t, p, tys, exit, v, b, k);
    }
    assert forall|u: int, b: int, k: int, c: int, l: int|
        #![trigger def_at(f, u, b, k), def_at(f, u, c, l)]
        def_at(f, u, b, k) && def_at(f, u, c, l) implies b == c && k == l by {
        lemma_inst_finished(f, t, p, tys, exit, v, b, k);
        lemma_inst_finished(f, t, p, tys, exit, v, c, l);
    }
    assert forall|b: int, k: int|
        #![trigger f.preds(b)[k]]
        0 <= b < f.blocks@.len() && 0 <= k < f.preds(b).len() implies f.preds(b)[k].0
        < f.blocks@.len() by {
        assert(f.preds(b) == t.ir.blocks[b].preds);
        assert(t.ir.blocks[b].preds[k].0 < n);
    }
}

/// The edges of a finished function.
proof fn lemma_finished_edges(
    f: Function,
    t: State,
    p: Plan,
    tys: Map<Seq<char>, Ty>,
    exit: Block,
    v: Value,
)
    requires
        is_finished(f, t, exit, v),
        graph_ok(t, p),
        code_ok(t, p, tys, Set::empty()),
        counted(t),
    ensures
        targets_ok(f),
        preds_ok(f),
        loop_free(f),
{
    assert(shaped(t)) by {
        reveal(graph_ok);
    }
    lemma_parts(f, t, exit, v);
    assert forall|b: int| #![trigger f.term(b)] 0 <= b < f.blocks@.len() implies f.term(
        b,
    ) is Some by {
        assert(b != exit.0 ==> t.ir.blocks[b].term is Some);
    }
    assert forall|a: int, b: int| #[trigger] edge(f, a, b) implies 0 <= b < f.blocks@.len() by {
        lemma_edge_known(f, t, p, exit, v, a, b);
    }
    assert(preds_ok(f)) by {
        reveal(counted);
        assert forall|b: int, a: int|
            #![trigger edge_count(f, a, b)]
            0 <= b < f.blocks@.len() && 0 <= a < f.blocks@.len() implies occurrences(
            f.preds(b),
            Block(a as u32),
        ) == edge_count(f, a, b) by {
            assert(f.preds(b) == t.ir.blocks[b].preds);
            assert(f.term(a) == if a == exit.0 {
                Some(Terminator::Return(v))
            } else {
                t.ir.blocks[a].term
            });
            assert(edge_count(f, a, b) == edges_to(t.ir.blocks[a].term, b));
        }
    }
    let rank = |b: int| p.rank[b] as int;
    assert forall|a: int, b: int| #[trigger] edge(f, a, b) implies rank(a) < rank(b) by {
        lemma_edge_known(f, t, p, exit, v, a, b);
    }
    assert(ranks(f, rank));
}

/// The terminators of a finished function.
proof fn lemma_finished_terms(
    f: Function,
    t: State,
    p: Plan,
    tys: Map<Seq<char>, Ty>,
    exit: Block,
    v: Value,
)
    requires
        is_finished(f, t, exit, v),
        graph_ok(t, p),
        code_ok(t, p, tys, Set::empty()),
        counted(t),
        there(p, v, exit.0 as int),
    ensures
        forall|b: int| #![trigger f.term(b)] 0 <= b < f.blocks@.len() ==> term_ok(f, b),
        branches_on_bools(f),
{
    assert(shaped(t)) by {
        reveal(graph_ok);
    }
    lemma_parts(f, t, exit, v);
    assert forall|b: int| #![trigger f.term(b)] 0 <= b < f.blocks@.len() implies term_ok(f, b) by {
        if b == exit.0 {
            lemma_there_defined(f, t, p, tys, exit, v, v, b);
        } else {
            assert(t.ir.blocks[b].term is Some);
            assert(ends_ok(t, p, b)) by {
                reveal(code_ok);
            }
            match t.ir.blocks[b].term {
                Some(Terminator::Branch { cond, .. }) => {
                    lemma_there_defined(f, t, p, tys, exit, v, cond, b);
                },
                _ => {},
            }
        }
    }
    assert forall|b: int| #![trigger f.term(b)] 0 <= b < f.blocks@.len() implies bool_branch(
        f,
        b,
    ) by {
        if b != exit.0 {
            assert(t.ir.blocks[b].term is Some);
            assert(ends_ok(t, p, b)) by {
                reveal(code_ok);
            }
        }
    }
}

/// The instructions of a finished function.
proof fn lemma_finished_insts(
    f: Function,
    t: State,
    p: Plan,
    tys: Map<Seq<char>, Ty>,
    exit: Block,
    v: Value,
)
    requires
        is_finished(f, t, exit, v),
        graph_ok(t, p),
        code_ok(t, p, tys, Set::empty()),
        counted(t),
        t.ir.insts.len() <= u32::MAX,
    ensures
        args_in_table(f),
        xor_on_integers(f),
        extremes_of_doubles(f),
{
    assert(shaped(t)) by {
        reveal(graph_ok);
    }
    lemma_parts(f, t, exit, v);
    assert forall|i: int|
        #![trigger f.inst(i)]
        0 <= i < f.insts@.len() && f.inst(i).op is Xor implies f.types@[i] != Ty::Bool by {
        let m = t.ir.insts[i];
        assert(gives(t.ir.types, t.ir.params, m, t.ir.types[i])) by {
            reveal(code_ok);
        }
        lemma_no_type_defect(f, t.ir.params, Value(i as u32), m);
    }
    assert forall|i: int|
        #![trigger f.inst(i)]
        0 <= i < f.insts@.len() && (f.inst(i).op is Min || f.inst(i).op is Max) implies f.types@[i]
        == Ty::F64 by {
        let m = t.ir.insts[i];
        assert(gives(t.ir.types, t.ir.params, m, t.ir.types[i])) by {
            reveal(code_ok);
        }
        reveal(gives);
    }
    assert forall|i: int, j: int|
        #![trigger f.inst(i).args[j]]
        0 <= i < f.insts@.len() && 0 <= j < f.inst(i).args.len() implies f.inst(i).args[j].0
        < f.insts@.len() by {
        let m = t.ir.insts[i];
        assert(gives(t.ir.types, t.ir.params, m, t.ir.types[i])) by {
            reveal(code_ok);
        }
        assert(f.inst(i) == m);
        lemma_no_type_defect(f, t.ir.params, Value(i as u32), m);
        assert(m.args[j].0 < f.types@.len());
    }
}

/// A finished function with a plan is what the optimizer takes.
proof fn lemma_finished_tame(
    f: Function,
    t: State,
    p: Plan,
    tys: Map<Seq<char>, Ty>,
    exit: Block,
    v: Value,
)
    requires
        is_finished(f, t, exit, v),
        graph_ok(t, p),
        code_ok(t, p, tys, Set::empty()),
        counted(t),
        there(p, v, exit.0 as int),
        t.ir.insts.len() <= u32::MAX,
    ensures
        tame(f),
        branches_on_bools(f),
        extremes_of_doubles(f),
        f.preds(f.entry.0 as int).len() == 0,
{
    assert(t.ir.blocks[0].preds.len() == 0) by {
        reveal(graph_ok);
    }
    assert(shaped(t) && t.ir.entry == Block(0) && t.ir.blocks.len() > 0) by {
        reveal(graph_ok);
    }
    lemma_parts(f, t, exit, v);
    lemma_finished_listing(f, t, p, tys, exit, v);
    lemma_finished_edges(f, t, p, tys, exit, v);
    lemma_finished_terms(f, t, p, tys, exit, v);
    lemma_finished_insts(f, t, p, tys, exit, v);
    assert(tables_ok(f));
    assert(valid(f));
}

/// Every expression that type-checks is lowered to a well-formed function that
/// the optimizer takes.
#[verifier::rlimit(40)]
pub proof fn lemma_lowering_is_tame(typed: TypedAst, f: Function)
    requires
        lowerable(typed.root),
        small_enough(typed),
        params_distinct(typed.params@, typed.params@.len()),
        scoped(typed.root, param_names(typed.params@, typed.params@.len())),
        binds(typed.root).disjoint(param_names(typed.params@, typed.params@.len())),
        typed_tree(typed.root, param_types(typed.params@, typed.params@.len())),
        ir_of(f) == lowered_function(typed),
    ensures
        tame(f),
        valid(f),
        branches_on_bools(f),
        extremes_of_doubles(f),
        f.preds(f.entry.0 as int).len() == 0,
{
    let params = typed.params@;
    let n = params.len();
    let root = typed.root;
    let span = root.span;
    let limit = 1 + 3 * ifs(root);
    lemma_nodes_positive(root);
    assert(nodes(root) * (limit + 3) >= 0) by (nonlinear_arith);
    let p = lemma_params_code(params, span, n);
    let s = with_params(params, span, n);
    let names = param_names(params, n);
    let tys = param_types(params, n);
    lemma_param_types(params, n);
    assert(unused(tys, binds(root))) by {
        assert forall|x: Seq<char>| #![trigger binds(root).contains(x)] binds(root).contains(
            x,
        ) implies !tys.dom().contains(x) by {
            assert(!names.contains(x));
        }
    }
    assert(can_lower_here(s, Block(0), root, p, tys, names, tys, limit));
    let (q, more) = lemma_lower_code(s, Block(0), root, p, tys, names, tys, limit);
    let (v, exit, t) = lowered(s, Block(0), root);
    assert(is_finished(f, t, exit, v));
    lemma_finished_tame(f, t, q, more, exit, v);
}

/// The function of an expression that type-checks returns one value, in one
/// place.
pub proof fn lemma_single_return(typed: TypedAst, f: Function) -> (v: Value)
    requires
        lowerable(typed.root),
        small_enough(typed),
        params_distinct(typed.params@, typed.params@.len()),
        scoped(typed.root, param_names(typed.params@, typed.params@.len())),
        binds(typed.root).disjoint(param_names(typed.params@, typed.params@.len())),
        typed_tree(typed.root, param_types(typed.params@, typed.params@.len())),
        ir_of(f) == lowered_function(typed),
    ensures
        first_return(ir_of(f), 0) == Some(v),
        forall|b: int|
            #![trigger f.term(b)]
            0 <= b < f.blocks@.len() ==> (f.term(b) matches Some(Terminator::Return(w)) ==> w == v),
        f.insts@.len() <= u32::MAX,
{
    let params = typed.params@;
    let n = params.len();
    let root = typed.root;
    let span = root.span;
    let limit = 1 + 3 * ifs(root);
    lemma_nodes_positive(root);
    assert(nodes(root) * (limit + 3) >= 0) by (nonlinear_arith);
    let p = lemma_params_code(params, span, n);
    let s = with_params(params, span, n);
    let names = param_names(params, n);
    let tys = param_types(params, n);
    lemma_param_types(params, n);
    assert(unused(tys, binds(root))) by {
        assert forall|x: Seq<char>| #![trigger binds(root).contains(x)] binds(root).contains(
            x,
        ) implies !tys.dom().contains(x) by {
            assert(!names.contains(x));
        }
    }
    assert(can_lower_here(s, Block(0), root, p, tys, names, tys, limit));
    let (q, more) = lemma_lower_code(s, Block(0), root, p, tys, names, tys, limit);
    let (v, exit, t) = lowered(s, Block(0), root);
    assert(is_finished(f, t, exit, v));
    assert(shaped(t)) by {
        reveal(graph_ok);
    }
    lemma_parts(f, t, exit, v);
    assert forall|b: int| #![trigger f.term(b)] 0 <= b < f.blocks@.len() implies (f.term(
        b,
    ) matches Some(Terminator::Return(w)) ==> b == exit.0 && w == v) by {
        if b != exit.0 {
            assert(t.ir.blocks[b].term is Some);
            assert(ends_ok(t, q, b)) by {
                reveal(code_ok);
            }
        }
    }
    lemma_first_return(f, exit, v, 0);
    v
}

proof fn lemma_first_return(f: Function, exit: Block, v: Value, i: nat)
    requires
        i <= exit.0 < f.blocks@.len(),
        f.term(exit.0 as int) == Some(Terminator::Return(v)),
        forall|b: int|
            #![trigger f.term(b)]
            0 <= b < f.blocks@.len() ==> (f.term(b) matches Some(Terminator::Return(w)) ==> b
                == exit.0 && w == v),
    ensures
        first_return(ir_of(f), i) == Some(v),
    decreases exit.0 - i,
{
    assert(ir_of(f).blocks[i as int].term == f.term(i as int));
    if i < exit.0 {
        lemma_first_return(f, exit, v, i + 1);
    }
}

/// Optimized code gives what the expression means: where an expression that
/// type-checks has a value, the optimized function returns it. The unoptimized
/// function returns or divides an integer by zero; the optimized one returns
/// where it returns, and divides by zero exactly where it does, in the same
/// operation. Two NaNs count as the same value.
pub proof fn lemma_optimizing_keeps_meaning(
    typed: TypedAst,
    f: Function,
    g: Function,
    args: Seq<RtValue>,
    fs: FloatSem,
)
    requires
        lowerable(typed.root),
        small_enough(typed),
        params_distinct(typed.params@, typed.params@.len()),
        scoped(typed.root, param_names(typed.params@, typed.params@.len())),
        binds(typed.root).disjoint(param_names(typed.params@, typed.params@.len())),
        typed_tree(typed.root, param_types(typed.params@, typed.params@.len())),
        ir_of(f) == lowered_function(typed),
        keeps(f, g, fs),
        regular(fs),
        args_match(f, args),
    ensures
        valid(g),
        value_of(typed.root, param_env(typed.params@, args, args.len()), fs) matches Some(x)
            ==> yields_same(g, args, fs, x),
        forall|x: RtValue| #[trigger] yields(f, args, fs, x) ==> yields_same(g, args, fs, x),
        (exists|x: RtValue| yields(f, args, fs, x)) || (exists|op: Op| traps(f, args, fs, op)),
        forall|op: Op| #[trigger] traps(g, args, fs, op) <==> traps(f, args, fs, op),
{
    lemma_lowering_is_tame(typed, f);
    lemma_runs_or_traps(f, args, fs);
    assert forall|op: Op| #[trigger] traps(g, args, fs, op) implies traps(f, args, fs, op) by {
        if exists|x: RtValue| yields(f, args, fs, x) {
            let x = choose|x: RtValue| yields(f, args, fs, x);
            assert(yields_same(g, args, fs, x));
            let y = choose|y: RtValue| #[trigger] yields(g, args, fs, y) && same(x, y);
            lemma_trap_or_value(g, args, fs, op, y);
        } else {
            let other = choose|other: Op| traps(f, args, fs, other);
            assert(traps(g, args, fs, other));
            lemma_one_trap(g, args, fs, op, other);
        }
    }
    let params = typed.params@;
    assert(ir_of(f).params.len() == f.params@.len());
    assert(args.len() == params.len()) by {
        let n = params.len();
        let root = typed.root;
        let limit = 1 + 3 * ifs(root);
        lemma_nodes_positive(root);
        assert(nodes(root) * (limit + 3) >= 0) by (nonlinear_arith);
        let p = lemma_params_code(params, root.span, n);
        let s = with_params(params, root.span, n);
        let names = param_names(params, n);
        let tys = param_types(params, n);
        lemma_param_types(params, n);
        assert(unused(tys, binds(root))) by {
            assert forall|x: Seq<char>| #![trigger binds(root).contains(x)] binds(root).contains(
                x,
            ) implies !tys.dom().contains(x) by {
                assert(!names.contains(x));
            }
        }
        let (q, more) = lemma_lower_code(s, Block(0), root, p, tys, names, tys, limit);
        let (v, exit, t) = lowered(s, Block(0), root);
        assert(t.ir.params == s.ir.params);
    }
    if let Some(x) = value_of(typed.root, param_env(params, args, args.len()), fs) {
        lemma_lowering_keeps_meaning(typed, f, args, fs, x);
    }
}

} // verus!
