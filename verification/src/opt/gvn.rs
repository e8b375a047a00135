//! Global value numbering: of two instructions that compute the same, where
//! one dominates the other, only the first is kept.
//!
//! The table of instructions seen is scoped to the path from the root of the
//! dominator tree: what a block enters is visible in the blocks it dominates
//! and nowhere else. A flat table would merge instructions of sibling blocks,
//! and uses would no longer be dominated by their definition.
use crate::collections::BlockMap;
use crate::dominance::compute_dominators;
use crate::dominance::{
    cfg_ok, dom, dominators, edge, is_dominator_tree, is_idom, lemma_dom_antisym, lemma_dom_trans,
    lemma_fewer_dominators, reachable, sdom,
};
use crate::float::{FloatOp, FloatSem};
use crate::interp::{eval_inst, operand_values, readable, slot, Frame, RtValue};
use crate::ir::{
    copy_inst, replace_value_everywhere, Block, CmpOp, Function, Inst, Ty, Value,
};
use crate::ir::{
    is_subst, model0, model2, subst, subst_inst, subst_opt_term, InstModel, Op,
};
use crate::opt::edit::{is_updated, lemma_dead_update, lemma_prune_keeps, lemma_subst_keeps};
use crate::opt::keep::{healthy, lemma_same_dom, lemma_same_targets, may_replace, same_graph};
use crate::opt::rewrite::{before_value, closed_under_uses, is_kept_list, is_pruned, stands_for};
use crate::opt::simulate::{lemma_refines_trans, ranks, refines, regular, same};
use crate::opt::{keeps_always, tame, Pass};
use crate::opt::{lemma_always_refl, lemma_always_tame, lemma_always_trans, lemma_always_wild};
use crate::verify::{
    def_at, defined, inst_ok, lemma_occurs, lemma_preds_match, operands_defect, use_ok, valid,
};
use crate::interp::divides_by_zero;
use crate::opt::rewrite::drops_no_trap;
use crate::opt::simulate::{inv, never_traps};
use crate::opt::table::{entries, knows, Table};
use vstd::prelude::*;

verus! {

pub struct Gvn;

/// The operations whose two operands may change places.
pub open spec fn commutes(op: Op) -> bool {
    op is Add || op is Mul || op is And || op is Or || op is Xor || op == Op::Compare(CmpOp::Eq)
        || op == Op::Compare(CmpOp::Ne)
}

/// The instruction with the operands of a commutative operation in order, so
/// that `a + b` and `b + a` are the same.
pub open spec fn canonical(m: InstModel) -> InstModel {
    if commutes(m.op) && m.args[0].0 > m.args[1].0 {
        InstModel { op: m.op, args: seq![m.args[1], m.args[0]] }
    } else {
        m
    }
}

fn min2(a: Value, b: Value) -> (r: Value)
    ensures
        r == if a.0 <= b.0 { a } else { b },
{
    if a.0 <= b.0 {
        a
    } else {
        b
    }
}

fn max2(a: Value, b: Value) -> (r: Value)
    ensures
        r == if a.0 <= b.0 { b } else { a },
{
    if a.0 <= b.0 {
        b
    } else {
        a
    }
}

fn canonicalize(inst: &Inst) -> (r: Inst)
    ensures
        r@ == canonical(inst@),
{
    match inst {
        Inst::Add(a, b) => Inst::Add(min2(*a, *b), max2(*a, *b)),
        Inst::Mul(a, b) => Inst::Mul(min2(*a, *b), max2(*a, *b)),
        Inst::And(a, b) => Inst::And(min2(*a, *b), max2(*a, *b)),
        Inst::Or(a, b) => Inst::Or(min2(*a, *b), max2(*a, *b)),
        Inst::Xor(a, b) => Inst::Xor(min2(*a, *b), max2(*a, *b)),
        Inst::Cmp { op, lhs, rhs } => {
            if *op == CmpOp::Eq || *op == CmpOp::Ne {
                Inst::Cmp { op: *op, lhs: min2(*lhs, *rhs), rhs: max2(*lhs, *rhs) }
            } else {
                copy_inst(inst)
            }
        },
        _ => copy_inst(inst),
    }
}

/// A constant of the type, to leave in the place of an instruction that is
/// gone.
pub open spec fn placeholder(ty: Ty) -> InstModel {
    match ty {
        Ty::F64 => model0(Op::ConstF64(0)),
        Ty::I64 => model0(Op::ConstI64(0)),
        Ty::Bool => model0(Op::ConstBool(false)),
    }
}

fn dead_placeholder(ty: Ty) -> (r: Inst)
    ensures
        r@ == placeholder(ty),
{
    match ty {
        Ty::F64 => Inst::ConstF64(0),
        Ty::I64 => Inst::ConstI64(0),
        Ty::Bool => Inst::ConstBool(false),
    }
}

/// The blocks among the first `n` that stand directly below `b` in the tree.
pub open spec fn children(idom: Seq<Option<Block>>, b: Block, n: nat) -> Seq<Block>
    decreases n,
{
    if n == 0 {
        Seq::empty()
    } else {
        let rest = children(idom, b, (n - 1) as nat);
        if idom[n - 1] == Some(b) && b.0 != n - 1 {
            rest.push(Block((n - 1) as u32))
        } else {
            rest
        }
    }
}

/// What stands below `b` in a dominator tree is immediately dominated by it.
proof fn lemma_children(f: Function, idom: Seq<Option<Block>>, b: Block, n: nat, i: int)
    requires
        cfg_ok(f),
        is_dominator_tree(f, idom),
        n <= idom.len() <= u32::MAX,
        0 <= i < children(idom, b, n).len(),
    ensures
        children(idom, b, n)[i].0 < n,
        idom[children(idom, b, n)[i].0 as int] == Some(b),
        is_idom(f, b.0 as int, children(idom, b, n)[i].0 as int),
    decreases n,
{
    let rest = children(idom, b, (n - 1) as nat);
    if i < rest.len() {
        lemma_children(f, idom, b, (n - 1) as nat, i);
    } else {
        let c = n - 1;
        assert(idom[c] == Some(b));
        if c == f.entry.0 {
            assert(b == f.entry);
        }
    }
}

/// What a map lists under a block.
pub open spec fn listed_under(map: Map<u32, Seq<Block>>, b: Block) -> Seq<Block> {
    if map.dom().contains(b.0) {
        map[b.0]
    } else {
        Seq::empty()
    }
}

/// Turns the tree upside down: for each block, those directly below it.
pub fn dom_tree_children(idom: &[Option<Block>]) -> (r: BlockMap)
    requires
        idom@.len() <= u32::MAX,
    ensures
        forall|b: Block| #[trigger]
            listed_under(r@, b) == children(idom@, b, idom@.len()),
{
    let mut r: BlockMap = BlockMap::new();
    let mut n: usize = 0;
    while n < idom.len()
        invariant
            n <= idom@.len(),
            idom@.len() <= u32::MAX,
            forall|b: Block| #[trigger] listed_under(r@, b) == children(idom@, b, n as nat),
        decreases idom@.len() - n,
    {
        let ghost before = r@;
        match idom[n] {
            Some(p) => {
                if p.0 as usize != n {
                    let mut list: Vec<Block> = match r.remove(p.0) {
                        Some(list) => list,
                        None => Vec::new(),
                    };
                    assert(list@ == listed_under(before, p));
                    list.push(Block(n as u32));
                    r.insert(p.0, list);
                }
            },
            None => {},
        }
        assert forall|b: Block| #[trigger] listed_under(r@, b) == children(
            idom@,
            b,
            (n + 1) as nat,
        ) by {
            assert(listed_under(before, b) == children(idom@, b, n as nat));
        }
        n += 1;
    }
    r
}

// ---------------------------------------------------------------------------
// What the pass does

/// `g` is `f` with the value at place `pos` of block `b` merged into `e`: its
/// uses are redirected, the block no longer lists it, and a constant is left
/// in its place in the table.
pub open spec fn is_merged(f: Function, g: Function, b: int, pos: int, e: Value) -> bool {
    let v = f.listed(b)[pos];
    &&& g.insts@.len() == f.insts@.len()
    &&& forall|i: int|
        #![trigger g.insts@[i]]
        #![trigger f.insts@[i]]
        0 <= i < f.insts@.len() && i != v.0 ==> g.inst(i) == subst_inst(f.inst(i), v, e)
    &&& g.inst(v.0 as int) == placeholder(f.types@[v.0 as int])
    &&& g.types@ == f.types@
    &&& g.spans@ == f.spans@
    &&& g.entry == f.entry
    &&& g.params == f.params
    &&& g.blocks@.len() == f.blocks@.len()
    &&& forall|c: int|
        #![trigger g.blocks@[c]]
        #![trigger f.blocks@[c]]
        0 <= c < f.blocks@.len() ==> {
            &&& g.blocks@[c].preds == f.blocks@[c].preds
            &&& g.blocks@[c].term == subst_opt_term(f.blocks@[c].term, v, e)
            &&& c != b ==> g.listed(c) == f.listed(c)
        }
    &&& g.listed(b) == f.listed(b).remove(pos)
}

/// The state of the pass within a block.
pub struct Scan {
    pub f: Function,
    pub table: Seq<(InstModel, Value)>,
    pub pos: int,
    pub changed: bool,
}

/// The value was merged into `e`.
pub open spec fn merged_into(s: Scan, t: Scan, b: int, key: InstModel, e: Value) -> bool {
    &&& knows(s.table, key, e)
    &&& is_merged(s.f, t.f, b, s.pos, e)
    &&& t.table == s.table
    &&& t.pos == s.pos
    &&& t.changed
}

/// One value of block `b` is looked up: merged if the table knows its
/// instruction, entered otherwise.
pub open spec fn scan_step(s: Scan, t: Scan, b: int) -> bool {
    let v = s.f.listed(b)[s.pos];
    let key = canonical(s.f.inst(v.0 as int));
    if exists|e: Value| knows(s.table, key, e) {
        exists|e: Value| merged_into(s, t, b, key, e)
    } else {
        t == Scan { f: s.f, table: s.table.push((key, v)), pos: s.pos + 1, changed: s.changed }
    }
}

/// State `i + 1` of `h` follows from state `i`.
pub open spec fn linked(h: Seq<Scan>, i: int, b: int) -> bool {
    h[i].pos < h[i].f.listed(b).len() && scan_step(h[i], h[i + 1], b)
}

/// Each state of `h` follows from the one before.
pub open spec fn scan_path(h: Seq<Scan>, b: int) -> bool {
    forall|i: int| 0 <= i < h.len() - 1 ==> #[trigger] linked(h, i, b)
}

proof fn lemma_scan_path_more(h: Seq<Scan>, t: Scan, b: int)
    requires
        h.len() > 0,
        scan_path(h, b),
        h[h.len() - 1].pos < h[h.len() - 1].f.listed(b).len(),
        scan_step(h[h.len() - 1], t, b),
    ensures
        scan_path(h.push(t), b),
{
    let g = h.push(t);
    assert forall|i: int| 0 <= i < g.len() - 1 implies #[trigger] linked(g, i, b) by {
        if i < h.len() - 1 {
            assert(linked(h, i, b));
            assert(h[i] == g[i] && h[i + 1] == g[i + 1]);
        } else {
            assert(g[i] == h[h.len() - 1]);
            assert(g[i + 1] == t);
        }
    }
}

/// `h` leads through all values of block `b`.
pub open spec fn is_scan(h: Seq<Scan>, b: int, f: Function, table: Seq<(InstModel, Value)>) -> bool {
    &&& h.len() > 0
    &&& h[0] == Scan { f, table, pos: 0, changed: false }
    &&& scan_path(h, b)
    &&& h[h.len() - 1].pos == h[h.len() - 1].f.listed(b).len()
}

/// A part of the walk of the tree: where it led, and whether anything was
/// merged in it.
pub struct Turn {
    pub f: Function,
    pub changed: bool,
}

pub open spec fn any_changed(turns: Seq<Turn>) -> bool {
    exists|i: int| 0 <= i < turns.len() && #[trigger] turns[i].changed
}

/// The pass turns `f` into `g` by going through block `b` and, with what the
/// table has learned there, through everything below it.
pub open spec fn visited(
    idom: Seq<Option<Block>>,
    b: Block,
    table: Seq<(InstModel, Value)>,
    f: Function,
    g: Function,
    changed: bool,
    depth: nat,
) -> bool
    decreases depth,
{
    &&& depth > 0
    &&& exists|h: Seq<Scan>, turns: Seq<Turn>|
        {
            let last = h[h.len() - 1];
            let kids = children(idom, b, idom.len());
            &&& #[trigger] is_scan(h, b.0 as int, f, table)
            &&& turns.len() == kids.len() + 1
            &&& turns[0] == Turn { f: last.f, changed: last.changed }
            &&& forall|i: int|
                #![trigger kids[i]]
                0 <= i < kids.len() ==> visited(
                    idom,
                    kids[i],
                    last.table,
                    turns[i].f,
                    turns[i + 1].f,
                    turns[i + 1].changed,
                    (depth - 1) as nat,
                )
            &&& turns[turns.len() - 1].f == g
            &&& changed == #[trigger] any_changed(turns)
        }
}

// ---------------------------------------------------------------------------
// Merging keeps the meaning

proof fn lemma_bits_commute(x: i64, y: i64)
    ensures
        x & y == y & x,
        x | y == y | x,
        x ^ y == y ^ x,
{
    assert(x & y == y & x && x | y == y | x && x ^ y == y ^ x) by (bit_vector);
}

/// Changing the places of the operands of a commutative operation.
proof fn lemma_commuted(
    op: Op,
    x: Value,
    y: Value,
    vals: Frame,
    prev: Option<Block>,
    args: Seq<RtValue>,
    fs: FloatSem,
)
    requires
        commutes(op),
        regular(fs),
        eval_inst(model2(op, x, y), vals, prev, args, fs) is Some,
    ensures
        eval_inst(model2(op, y, x), vals, prev, args, fs) is Some,
        same(
            eval_inst(model2(op, x, y), vals, prev, args, fs).unwrap(),
            eval_inst(model2(op, y, x), vals, prev, args, fs).unwrap(),
        ),
{
    let m = model2(op, x, y);
    let n = model2(op, y, x);
    assert(m.args[0] == x && m.args[1] == y);
    assert(n.args[0] == y && n.args[1] == x);
    assert(readable(m, vals));
    assert(slot(vals, m.args[0]) is Some && slot(vals, m.args[1]) is Some);
    assert(readable(n, vals));
    let vs = operand_values(m, vals);
    let ws = operand_values(n, vals);
    assert(vs[0] == ws[1] && vs[1] == ws[0]);
    match (vs[0], vs[1]) {
        (RtValue::I64(a), RtValue::I64(b)) => {
            lemma_bits_commute(a, b);
            assert(a * b == b * a) by (nonlinear_arith);
        },
        (RtValue::F64(a), RtValue::F64(b)) => {
            assert(crate::opt::simulate::neutral_elements(fs));
        },
        _ => {},
    }
}

/// Instructions with the same canonical form compute the same.
proof fn lemma_canonical_same(
    m: InstModel,
    n: InstModel,
    vals: Frame,
    prev: Option<Block>,
    args: Seq<RtValue>,
    fs: FloatSem,
)
    requires
        canonical(m) == canonical(n),
        crate::opt::keep::shape_ok(m),
        crate::opt::keep::shape_ok(n),
        regular(fs),
        eval_inst(m, vals, prev, args, fs) is Some,
    ensures
        eval_inst(n, vals, prev, args, fs) is Some,
        same(
            eval_inst(m, vals, prev, args, fs).unwrap(),
            eval_inst(n, vals, prev, args, fs).unwrap(),
        ),
{
    if commutes(m.op) {
        assert(m.args =~= seq![m.args[0], m.args[1]]);
        assert(n.args =~= seq![n.args[0], n.args[1]]);
        let c = canonical(m);
        assert(c.args[0] == canonical(n).args[0]);
        assert(c.args[1] == canonical(n).args[1]);
        if n.args != m.args {
            assert(n.args[0] == m.args[1] && n.args[1] == m.args[0]);
            assert(m == model2(m.op, m.args[0], m.args[1]));
            assert(n == model2(m.op, m.args[1], m.args[0]));
            lemma_commuted(m.op, m.args[0], m.args[1], vals, prev, args, fs);
        } else {
            assert(m == n);
        }
    } else {
        assert(m == n);
    }
}

/// Instructions with the same canonical form have the same type.
proof fn lemma_canonical_type(f: Function, b: int, k: int, c: int, l: int)
    requires
        healthy(f),
        0 <= b < f.blocks@.len(),
        0 <= k < f.listed(b).len(),
        0 <= c < f.blocks@.len(),
        0 <= l < f.listed(c).len(),
        canonical(f.inst(f.listed(b)[k].0 as int)) == canonical(f.inst(f.listed(c)[l].0 as int)),
    ensures
        f.types@[f.listed(b)[k].0 as int] == f.types@[f.listed(c)[l].0 as int],
{
    let v = f.listed(b)[k];
    let e = f.listed(c)[l];
    let m = f.inst(v.0 as int);
    let n = f.inst(e.0 as int);
    assert(inst_ok(f, b, k));
    assert(inst_ok(f, c, l));
    crate::opt::keep::lemma_shape(f, v.0 as int);
    crate::opt::keep::lemma_shape(f, e.0 as int);
    if commutes(m.op) {
        assert(canonical(m).args[0] == canonical(n).args[0]);
        assert(canonical(m).args[1] == canonical(n).args[1]);
    } else if m.op is Phi {
        assert(m == n);
        crate::opt::rewrite::lemma_phi_pairs(f, v.0 as int);
        assert(crate::opt::keep::phi_matches(m, f.preds(b)));
        assert(m.args.len() > 0);
        assert(operands_defect(f, v, m.args, f.types@[v.0 as int], 0) is None);
        assert(operands_defect(f, e, m.args, f.types@[e.0 as int], 0) is None);
    } else {
        assert(m == n);
    }
}

/// A loop-free function has no two phis in different blocks, one above the
/// other, that name the same predecessors.
proof fn lemma_phis_apart(f: Function, c: int, l: int, b: int, k: int)
    requires
        healthy(f),
        0 <= b < f.blocks@.len(),
        0 <= k < f.listed(b).len(),
        0 <= c < f.blocks@.len(),
        0 <= l < f.listed(c).len(),
        reachable(f, b),
        f.inst(f.listed(b)[k].0 as int).op is Phi,
        f.inst(f.listed(b)[k].0 as int).op == f.inst(f.listed(c)[l].0 as int).op,
    ensures
        !sdom(f, c, b),
{
    if sdom(f, c, b) {
        let froms = f.inst(f.listed(b)[k].0 as int).op->Phi_0;
        assert(crate::opt::keep::phi_matches(f.inst(f.listed(b)[k].0 as int), f.preds(b)));
        assert(crate::opt::keep::phi_matches(f.inst(f.listed(c)[l].0 as int), f.preds(c)));
        let rank = choose|rank: spec_fn(int) -> int| ranks(f, rank);
        if b == f.entry.0 {
            crate::dominance::lemma_dom_of_entry(f, c);
        } else {
            let a = lemma_reachable_pred(f, b);
            crate::dominance::lemma_sdom_pred(f, c, a, b);
            lemma_edge_listed(f, a, b);
            assert(froms.contains(Block(a as u32)));
            assert(f.preds(c).contains(Block(a as u32)));
            lemma_listed_edge(f, a, c);
            lemma_dom_rank(f, rank, c, a);
            assert(rank(a) < rank(c));
        }
    }
}

/// A block that is reached from the entry is reached through a predecessor.
proof fn lemma_reachable_pred(f: Function, b: int) -> (a: int)
    requires
        cfg_ok(f),
        reachable(f, b),
        b != f.entry.0,
    ensures
        reachable(f, a),
        0 <= a < f.blocks@.len(),
        edge(f, a, b),
{
    let path = choose|p: Seq<int>| crate::dominance::path_to(f, p, b);
    assert(path.len() > 1);
    let n = path.len() - 1;
    let a = path[n - 1];
    crate::dominance::lemma_prefix(f, path, n);
    assert(crate::dominance::path_to(f, path.take(n), a));
    assert(edge(f, path[n - 1], path[n]));
    crate::dominance::lemma_path_range(f, path, n - 1);
    a
}

/// A predecessor is in the list of predecessors.
proof fn lemma_edge_listed(f: Function, a: int, b: int)
    requires
        valid(f),
        f.blocks@.len() <= u32::MAX,
        0 <= a < f.blocks@.len(),
        0 <= b < f.blocks@.len(),
        edge(f, a, b),
    ensures
        f.preds(b).contains(Block(a as u32)),
{
    assert(crate::verify::edge_count(f, a, b) > 0);
    lemma_occurs(f.preds(b), Block(a as u32));
}

proof fn lemma_listed_edge(f: Function, a: int, b: int)
    requires
        valid(f),
        f.blocks@.len() <= u32::MAX,
        0 <= a < f.blocks@.len(),
        0 <= b < f.blocks@.len(),
        f.preds(b).contains(Block(a as u32)),
    ensures
        edge(f, a, b),
{
    lemma_occurs(f.preds(b), Block(a as u32));
    assert(crate::verify::edge_count(f, a, b) > 0);
}

/// Rank grows on the way from a dominator.
proof fn lemma_dom_rank(f: Function, rank: spec_fn(int) -> int, c: int, a: int)
    requires
        cfg_ok(f),
        ranks(f, rank),
        dom(f, c, a),
        reachable(f, a),
    ensures
        rank(c) <= rank(a),
{
    let p = choose|p: Seq<int>| crate::dominance::path_to(f, p, a);
    assert(p.contains(c));
    let i = choose|i: int| 0 <= i < p.len() && p[i] == c;
    lemma_path_rank(f, rank, p, i, p.len() - 1);
}

proof fn lemma_path_rank(f: Function, rank: spec_fn(int) -> int, p: Seq<int>, i: int, j: int)
    requires
        ranks(f, rank),
        crate::dominance::is_path(f, p),
        0 <= i <= j < p.len(),
    ensures
        rank(p[i]) <= rank(p[j]),
    decreases j - i,
{
    if i < j {
        lemma_path_rank(f, rank, p, i, j - 1);
        assert(edge(f, p[j - 1], p[j]));
    }
}

/// The earlier of two values with the same canonical instruction stands for
/// the later one.
proof fn lemma_known_stands(f: Function, b: int, pos: int, e: Value, fs: FloatSem)
    requires
        healthy(f),
        0 <= b < f.blocks@.len(),
        0 <= pos < f.listed(b).len(),
        use_ok(f, e.0 as int, b, pos),
        canonical(f.inst(f.listed(b)[pos].0 as int)) == canonical(f.inst(e.0 as int)),
        e.0 < f.insts@.len(),
    ensures
        may_replace(f, f.listed(b)[pos], e),
        stands_for(f, f.listed(b)[pos], e, fs),
{
    let v = f.listed(b)[pos];
    let (c, l) = choose|c: int, l: int| #[trigger]
        def_at(f, e.0 as int, c, l) && dom(f, c, b) && (c == b ==> l < pos);
    assert(f.listed(c)[l] == e);
    assert(def_at(f, v.0 as int, b, pos));
    lemma_canonical_type(f, b, pos, c, l);
    assert forall|b1: int, k1: int| #[trigger] def_at(f, v.0 as int, b1, k1) implies use_ok(
        f,
        e.0 as int,
        b1,
        k1,
    ) && e.0 < f.types@.len() && f.types@[e.0 as int] == f.types@[v.0 as int] by {
        assert(b1 == b && k1 == pos);
    }
    let m = f.inst(v.0 as int);
    let n = f.inst(e.0 as int);
    crate::opt::keep::lemma_shape(f, v.0 as int);
    crate::opt::keep::lemma_shape(f, e.0 as int);
    assert forall|
        b1: int,
        k1: int,
        rank: spec_fn(int) -> int,
        vals: Frame,
        prev: Option<Block>,
        args: Seq<RtValue>,
    | #[trigger]
        before_value(f, v, b1, k1, rank, vals, prev, args, fs) implies slot(vals, e) is Some
        && same(eval_inst(m, vals, prev, args, fs).unwrap(), slot(vals, e).unwrap()) by {
        assert(def_at(f, v.0 as int, b1, k1));
        assert(b1 == b && k1 == pos);
        if c == b {
            assert(vals[f.listed(b)[l].0 as int] is Some);
        } else {
            assert(sdom(f, c, b));
            assert(vals[f.listed(c)[l].0 as int] is Some);
        }
        if m.op is Phi {
            assert(m == n);
            lemma_phis_apart(f, c, l, b, pos);
            assert(c == b);
            assert(f.inst(f.listed(b)[l].0 as int).op is Phi);
        } else {
            assert(!(n.op is Phi)) by {
                if n.op is Phi {
                    assert(canonical(n) == n);
                    assert(canonical(m).op == m.op);
                }
            }
            assert(eval_inst(n, vals, None, args, fs) == vals[e.0 as int]);
            assert(eval_inst(n, vals, prev, args, fs) == eval_inst(n, vals, None, args, fs));
            lemma_canonical_same(m, n, vals, prev, args, fs);
        }
    }
}

/// `g` is `f` with place `pos` of block `b` gone from the list.
spec fn is_unlisted(f: Function, g: Function, b: int, pos: int) -> bool {
    &&& g.insts@ == f.insts@
    &&& g.types@ == f.types@
    &&& g.spans@ == f.spans@
    &&& g.entry == f.entry
    &&& g.params == f.params
    &&& g.blocks@.len() == f.blocks@.len()
    &&& forall|c: int|
        #![trigger g.blocks@[c]]
        #![trigger f.blocks@[c]]
        0 <= c < f.blocks@.len() ==> {
            &&& g.blocks@[c].preds == f.blocks@[c].preds
            &&& g.blocks@[c].term == f.blocks@[c].term
            &&& c != b ==> g.listed(c) == f.listed(c)
        }
    &&& g.listed(b) == f.listed(b).remove(pos)
}

/// No instruction and no terminator reads `v`.
spec fn unread(f: Function, v: Value) -> bool {
    &&& forall|i: int, j: int|
        #![trigger f.inst(i).args[j]]
        0 <= i < f.insts@.len() && 0 <= j < f.inst(i).args.len() ==> f.inst(i).args[j] != v
    &&& forall|b: int|
        #![trigger f.term(b)]
        0 <= b < f.blocks@.len() ==> crate::opt::simulate::term_kept(
            f.term(b),
            all_but(v),
        )
}

proof fn lemma_redirected_unread(f: Function, g: Function, v: Value, e: Value)
    requires
        is_subst(f, g, v, e),
        v != e,
    ensures
        unread(g, v),
{
    assert forall|i: int, j: int|
        #![trigger g.inst(i).args[j]]
        0 <= i < g.insts@.len() && 0 <= j < g.inst(i).args.len() implies g.inst(i).args[j] != v by {
        assert(g.insts@[i]@ == subst_inst(f.insts@[i]@, v, e));
        assert(g.inst(i).args[j] == subst(f.inst(i).args[j], v, e));
    }
    assert forall|b: int| #![trigger g.term(b)] 0 <= b < g.blocks@.len() implies
        crate::opt::simulate::term_kept(g.term(b), all_but(v)) by {
        assert(g.blocks@[b].term == subst_opt_term(f.blocks@[b].term, v, e));
    }
}

/// All values but `v`.
spec fn all_but(v: Value) -> Set<int> {
    Set::new(|u: int| u != v.0)
}

/// The list without place `pos` keeps all values but the one there.
proof fn lemma_removed_list(s: Seq<Value>, pos: int)
    requires
        0 <= pos < s.len(),
        forall|i: int, j: int|
            #![trigger s[i], s[j]]
            0 <= i < s.len() && 0 <= j < s.len() && s[i] == s[j] ==> i == j,
    ensures
        exists|from: Seq<int>| is_kept_list(s, s.remove(pos), from, all_but(s[pos])),
{
    let t = s.remove(pos);
    let kept = all_but(s[pos]);
    let from = Seq::new(t.len(), |i: int| if i < pos { i } else { i + 1 });
    assert forall|i: int| #![trigger from[i]] 0 <= i < from.len() implies 0 <= from[i] < s.len()
        && t[i] == s[from[i]] && kept.contains(t[i].0 as int) by {
        if s[from[i]].0 == s[pos].0 {
            assert(s[from[i]] == s[pos]);
        }
    }
    assert forall|k: int|
        #![trigger s[k]]
        0 <= k < s.len() && kept.contains(s[k].0 as int) implies from.contains(k) by {
        if k > pos {
            assert(from[k - 1] == k);
        } else {
            assert(k != pos);
            assert(from[k] == k);
        }
    }
    assert(is_kept_list(s, t, from, kept));
}

proof fn lemma_other_list(s: Seq<Value>, v: Value)
    requires
        forall|i: int| #![trigger s[i]] 0 <= i < s.len() ==> s[i] != v,
    ensures
        exists|from: Seq<int>| is_kept_list(s, s, from, all_but(v)),
{
    let kept = all_but(v);
    let from = Seq::new(s.len(), |i: int| i);
    assert forall|i: int| #![trigger from[i]] 0 <= i < from.len() implies 0 <= from[i] < s.len()
        && s[i] == s[from[i]] && kept.contains(s[i].0 as int) by {
        if s[i].0 == v.0 {
            assert(s[i] == v);
        }
    }
    assert forall|k: int|
        #![trigger s[k]]
        0 <= k < s.len() && kept.contains(s[k].0 as int) implies from.contains(k) by {
        assert(from[k] == k);
    }
    assert(is_kept_list(s, s, from, kept));
}

proof fn lemma_unlist_pruned(f: Function, g: Function, b: int, pos: int)
    requires
        valid(f),
        0 <= b < f.blocks@.len(),
        0 <= pos < f.listed(b).len(),
        is_unlisted(f, g, b, pos),
    ensures
        is_pruned(f, g, all_but(f.listed(b)[pos])),
{
    let v = f.listed(b)[pos];
    let kept = all_but(v);
    assert(def_at(f, v.0 as int, b, pos));
    assert forall|c: int|
        #![trigger g.blocks@[c]]
        #![trigger f.blocks@[c]]
        0 <= c < f.blocks@.len() implies {
        &&& g.blocks@[c].preds == f.blocks@[c].preds
        &&& g.blocks@[c].term == f.blocks@[c].term
        &&& exists|from: Seq<int>| is_kept_list(f.listed(c), g.listed(c), from, kept)
    } by {
        let s = f.listed(c);
        if c == b {
            assert forall|i: int, j: int|
                #![trigger s[i], s[j]]
                0 <= i < s.len() && 0 <= j < s.len() && s[i] == s[j] implies i == j by {
                assert(def_at(f, s[i].0 as int, b, i));
                assert(def_at(f, s[i].0 as int, b, j));
            }
            lemma_removed_list(s, pos);
        } else {
            assert forall|i: int| #![trigger s[i]] 0 <= i < s.len() implies s[i] != v by {
                if s[i] == v {
                    assert(def_at(f, v.0 as int, c, i));
                }
            }
            lemma_other_list(s, v);
        }
    }
}

proof fn lemma_unlist_drops(f: Function, b: int, pos: int, fs: FloatSem)
    requires
        valid(f),
        0 <= b < f.blocks@.len(),
        0 <= pos < f.listed(b).len(),
        never_traps(f, b, pos, fs),
    ensures
        drops_no_trap(f, all_but(f.listed(b)[pos]), fs),
{
    let v = f.listed(b)[pos];
    assert(def_at(f, v.0 as int, b, pos));
    assert forall|b1: int, k: int|
        #![trigger f.listed(b1)[k]]
        0 <= b1 < f.blocks@.len() && 0 <= k < f.listed(b1).len() && !all_but(v).contains(
            f.listed(b1)[k].0 as int,
        ) implies never_traps(f, b1, k, fs) by {
        assert(def_at(f, v.0 as int, b1, k));
    }
}

/// Taking a value that nothing reads off its list.
#[verifier::rlimit(40)]
proof fn lemma_unlist_keeps(f: Function, g: Function, b: int, pos: int, fs: FloatSem)
    requires
        healthy(f),
        0 <= b < f.blocks@.len(),
        0 <= pos < f.listed(b).len(),
        unread(f, f.listed(b)[pos]),
        is_unlisted(f, g, b, pos),
        never_traps(f, b, pos, fs),
    ensures
        healthy(g),
        refines(f, g, fs),
        !defined(g, f.listed(b)[pos].0 as int),
{
    let v = f.listed(b)[pos];
    let kept = all_but(v);
    lemma_unlist_pruned(f, g, b, pos);
    assert(closed_under_uses(f, kept)) by {
        assert forall|b1: int, k: int, j: int|
            #![trigger f.inst(f.listed(b1)[k].0 as int).args[j]]
            0 <= b1 < f.blocks@.len() && 0 <= k < f.listed(b1).len() && kept.contains(
                f.listed(b1)[k].0 as int,
            ) && 0 <= j < f.inst(f.listed(b1)[k].0 as int).args.len() implies kept.contains(
            f.inst(f.listed(b1)[k].0 as int).args[j].0 as int,
        ) by {
            let a = f.inst(f.listed(b1)[k].0 as int).args[j];
            assert(a != v);
            assert(a.0 != v.0);
        }
    }
    assert(crate::opt::keep::args_in_table(g)) by {
        assert forall|i: int, j: int|
            #![trigger g.inst(i).args[j]]
            0 <= i < g.insts@.len() && 0 <= j < g.inst(i).args.len() implies g.inst(i).args[j].0
            < g.insts@.len() by {
            assert(f.inst(i).args[j].0 < f.insts@.len());
        }
    }
    assert(def_at(f, v.0 as int, b, pos));
    lemma_unlist_drops(f, b, pos, fs);
    lemma_prune_keeps(f, g, kept, fs);
    if defined(g, v.0 as int) {
        let (c, l) = choose|c: int, l: int| def_at(g, v.0 as int, c, l);
        let k = if c == b && l >= pos {
            l + 1
        } else {
            l
        };
        assert(f.blocks@[c].preds == g.blocks@[c].preds);
        assert(def_at(f, v.0 as int, c, k));
    }
}

/// The key of an entry is out of date: it reads a value that is gone, so no
/// instruction has it.
pub open spec fn stale(f: Function, key: InstModel) -> bool {
    exists|u: Value|
        #![trigger key.args.contains(u)]
        key.args.contains(u) && !defined(f, u.0 as int) && forall|i: int, j: int|
            #![trigger f.inst(i).args[j]]
            0 <= i < f.insts@.len() && 0 <= j < f.inst(i).args.len() ==> f.inst(i).args[j] != u
}

/// The entry says what the value computes, or is out of date.
pub open spec fn keyed(f: Function, entry: (InstModel, Value)) -> bool {
    entry.1.0 < f.insts@.len() && (entry.0 == canonical(f.inst(entry.1.0 as int)) || stale(
        f,
        entry.0,
    ))
}

proof fn lemma_canonical_args(m: InstModel, u: Value)
    requires
        crate::opt::keep::shape_ok(m),
    ensures
        canonical(m).args.contains(u) <==> m.args.contains(u),
{
    let c = canonical(m);
    if c != m {
        assert(m.args =~= seq![m.args[0], m.args[1]]);
        assert(c.args[0] == m.args[1] && c.args[1] == m.args[0]);
        if m.args.contains(u) {
            let i = choose|i: int| 0 <= i < m.args.len() && m.args[i] == u;
            assert(c.args[1 - i] == u);
        }
        if c.args.contains(u) {
            let i = choose|i: int| 0 <= i < c.args.len() && c.args[i] == u;
            assert(m.args[1 - i] == u);
        }
    }
}

/// An instruction of the function has no key that is out of date.
proof fn lemma_not_stale(f: Function, v: int)
    requires
        0 <= v < f.insts@.len(),
    ensures
        !stale(f, canonical(f.inst(v))),
{
    let key = canonical(f.inst(v));
    crate::opt::keep::lemma_shape(f, v);
    if stale(f, key) {
        let u = choose|u: Value|
            #![trigger key.args.contains(u)]
            key.args.contains(u) && !defined(f, u.0 as int) && forall|i: int, j: int|
                #![trigger f.inst(i).args[j]]
                0 <= i < f.insts@.len() && 0 <= j < f.inst(i).args.len() ==> f.inst(i).args[j] != u;
        lemma_canonical_args(f.inst(v), u);
        let j = choose|j: int| 0 <= j < f.inst(v).args.len() && f.inst(v).args[j] == u;
        assert(f.inst(v).args[j] == u);
    }
}

/// Merging keeps the entries of the table true.
proof fn lemma_merge_keyed(
    f: Function,
    g: Function,
    b: int,
    pos: int,
    e: Value,
    entry: (InstModel, Value),
)
    requires
        healthy(f),
        0 <= b < f.blocks@.len(),
        0 <= pos < f.listed(b).len(),
        is_merged(f, g, b, pos, e),
        e != f.listed(b)[pos],
        defined(f, e.0 as int),
        !defined(g, f.listed(b)[pos].0 as int),
        forall|u: int| defined(g, u) ==> defined(f, u),
        entry.1 != f.listed(b)[pos],
        keyed(f, entry),
    ensures
        keyed(g, entry),
{
    let v = f.listed(b)[pos];
    let key = entry.0;
    let w = entry.1.0 as int;
    if stale(f, key) {
        let u = choose|u: Value|
            #![trigger key.args.contains(u)]
            key.args.contains(u) && !defined(f, u.0 as int) && forall|i: int, j: int|
                #![trigger f.inst(i).args[j]]
                0 <= i < f.insts@.len() && 0 <= j < f.inst(i).args.len() ==> f.inst(i).args[j] != u;
        assert forall|i: int, j: int|
            #![trigger g.inst(i).args[j]]
            0 <= i < g.insts@.len() && 0 <= j < g.inst(i).args.len() implies g.inst(i).args[j]
            != u by {
            if i != v.0 {
                assert(g.insts@[i]@ == subst_inst(f.insts@[i]@, v, e));
                assert(g.inst(i).args[j] == subst(f.inst(i).args[j], v, e));
                assert(f.inst(i).args[j] != u);
            }
        }
        assert(key.args.contains(u));
        assert(stale(g, key));
    } else {
        let m = f.inst(w);
        crate::opt::keep::lemma_shape(f, w);
        assert(g.insts@[w]@ == subst_inst(f.insts@[w]@, v, e));
        if m.args.contains(v) {
            lemma_canonical_args(m, v);
            assert(key.args.contains(v));
            assert forall|i: int, j: int|
                #![trigger g.inst(i).args[j]]
                0 <= i < g.insts@.len() && 0 <= j < g.inst(i).args.len() implies g.inst(i).args[j]
                != v by {
                if i != v.0 {
                    assert(g.insts@[i]@ == subst_inst(f.insts@[i]@, v, e));
                    assert(g.inst(i).args[j] == subst(f.inst(i).args[j], v, e));
                }
            }
            assert(stale(g, key));
        } else {
            assert forall|j: int| 0 <= j < m.args.len() implies subst(m.args[j], v, e)
                == m.args[j] by {
                assert(m.args[j] != v);
            }
            assert(subst_inst(m, v, e).args =~= m.args);
            assert(g.inst(w) == m);
        }
    }
}

/// Places that stay when the value at place `pos` of block `b` goes.
proof fn lemma_merge_places(f: Function, g: Function, b: int, pos: int, e: Value)
    requires
        valid(f),
        0 <= b < f.blocks@.len(),
        0 <= pos < f.listed(b).len(),
        is_merged(f, g, b, pos, e),
    ensures
        forall|v: int, c: int, l: int| #[trigger]
            def_at(f, v, c, l) && (c != b || l < pos) ==> def_at(g, v, c, l),
        forall|v: int, c: int, l: int| #[trigger]
            def_at(g, v, c, l) ==> def_at(f, v, c, if c == b && l >= pos { l + 1 } else { l }),
        forall|u: int| defined(g, u) ==> defined(f, u),
        same_graph(f, g),
{
    let v = f.listed(b)[pos];
    assert forall|w: int, c: int, l: int| #[trigger]
        def_at(f, w, c, l) && (c != b || l < pos) implies def_at(g, w, c, l) by {
        assert(f.blocks@[c].preds == g.blocks@[c].preds);
    }
    assert forall|w: int, c: int, l: int| #[trigger] def_at(g, w, c, l) implies def_at(
        f,
        w,
        c,
        if c == b && l >= pos {
            l + 1
        } else {
            l
        },
    ) by {
        assert(f.blocks@[c].preds == g.blocks@[c].preds);
    }
    assert forall|u: int| defined(g, u) implies defined(f, u) by {
        let (c, l) = choose|c: int, l: int| def_at(g, u, c, l);
        assert(def_at(g, u, c, l));
        let k = if c == b && l >= pos {
            l + 1
        } else {
            l
        };
        assert(def_at(f, u, c, k));
    }
    assert forall|c: int| #![trigger g.term(c)] 0 <= c < f.blocks@.len() implies g.term(c)
        == subst_opt_term(f.term(c), v, e) by {
        assert(g.blocks@[c].term == subst_opt_term(f.blocks@[c].term, v, e));
    }
    lemma_same_targets(f, g, v, e);
}

/// A value that is merged does not divide by zero: the earlier one, which
/// divides the same, did not.
proof fn lemma_merged_never_traps(
    f: Function,
    f1: Function,
    b: int,
    pos: int,
    e: Value,
    fs: FloatSem,
)
    requires
        healthy(f),
        healthy(f1),
        0 <= b < f.blocks@.len(),
        0 <= pos < f.listed(b).len(),
        use_ok(f, e.0 as int, b, pos),
        canonical(f.inst(f.listed(b)[pos].0 as int)) == canonical(f.inst(e.0 as int)),
        e.0 < f.insts@.len(),
        is_subst(f, f1, f.listed(b)[pos], e),
    ensures
        never_traps(f1, b, pos, fs),
{
    let v = f.listed(b)[pos];
    let (c, l) = choose|c: int, l: int| #[trigger]
        def_at(f, e.0 as int, c, l) && dom(f, c, b) && (c == b ==> l < pos);
    assert forall|d: int| #![trigger f1.term(d)] 0 <= d < f.blocks@.len() implies f1.term(d)
        == crate::ir::subst_opt_term(f.term(d), v, e) by {
        assert(f1.blocks@[d].term == crate::ir::subst_opt_term(f.blocks@[d].term, v, e));
    }
    lemma_same_targets(f, f1, v, e);
    lemma_same_dom(f, f1, c, b);
    assert(f1.blocks@[b].insts == f.blocks@[b].insts);
    assert(f1.blocks@[c].insts == f.blocks@[c].insts);
    assert(f.listed(c)[l] == e);
    assert(f1.listed(c)[l] == e);
    let m = f1.inst(v.0 as int);
    let n = f1.inst(e.0 as int);
    assert(m == subst_inst(f.inst(v.0 as int), v, e));
    assert(n == subst_inst(f.inst(e.0 as int), v, e));
    reveal(never_traps);
    assert forall|
        rank: spec_fn(int) -> int,
        vals: Frame,
        prev: Option<Block>,
        args: Seq<RtValue>,
    | #[trigger]
        inv(f1, rank, b, pos, vals, prev, args, fs) implies !divides_by_zero(m, vals) by {
        if divides_by_zero(m, vals) {
            assert(f.inst(v.0 as int).op == m.op);
            assert(f.inst(e.0 as int) == f.inst(v.0 as int));
            if c == b {
                assert(vals[f1.listed(b)[l].0 as int] is Some);
            } else {
                assert(sdom(f1, c, b));
                assert(vals[f1.listed(c)[l].0 as int] is Some);
            }
            assert(eval_inst(n, vals, None, args, fs) == vals[e.0 as int]);
            let vs = crate::interp::operand_values(m, vals);
            assert(crate::interp::eval_binary(m.op, vs[0], vs[1], fs) is None);
        }
    }
}

/// Merging the value at place `pos` of block `b` into an earlier value with
/// the same instruction, by way of `f1` and `f2`.
proof fn lemma_merge_keeps(
    f: Function,
    f1: Function,
    f2: Function,
    g: Function,
    b: int,
    pos: int,
    e: Value,
    fs: FloatSem,
)
    requires
        tame(f),
        0 <= b < f.blocks@.len(),
        0 <= pos < f.listed(b).len(),
        use_ok(f, e.0 as int, b, pos),
        keyed(f, (canonical(f.inst(f.listed(b)[pos].0 as int)), e)),
        is_subst(f, f1, f.listed(b)[pos], e),
        is_unlisted(f1, f2, b, pos),
        is_updated(
            f2,
            g,
            f.listed(b)[pos].0 as int,
            placeholder(f.types@[f.listed(b)[pos].0 as int]),
        ),
    ensures
        tame(g),
        refines(f, g, fs),
        !defined(g, f.listed(b)[pos].0 as int),
        e != f.listed(b)[pos],
        defined(f, e.0 as int),
{
    let v = f.listed(b)[pos];
    assert(f.listed(b)[pos].0 < f.insts@.len());
    lemma_not_stale(f, v.0 as int);
    let (c, l) = choose|c: int, l: int| #[trigger]
        def_at(f, e.0 as int, c, l) && dom(f, c, b) && (c == b ==> l < pos);
    assert(def_at(f, v.0 as int, b, pos));
    assert(e != v);
    lemma_known_stands(f, b, pos, e, fs);
    lemma_subst_keeps(f, f1, v, e, fs);
    lemma_redirected_unread(f, f1, v, e);
    assert(f1.blocks@[b].insts == f.blocks@[b].insts);
    assert(f1.listed(b)[pos] == v);
    lemma_merged_never_traps(f, f1, b, pos, e, fs);
    lemma_unlist_keeps(f1, f2, b, pos, fs);
    let m = placeholder(f.types@[v.0 as int]);
    lemma_dead_update(f2, g, v.0 as int, m, fs);
    lemma_refines_trans(f, f1, f2, fs);
    lemma_refines_trans(f, f2, g, fs);
    assert(!defined(g, v.0 as int)) by {
        if defined(g, v.0 as int) {
            let (c, l) = choose|c: int, l: int| def_at(g, v.0 as int, c, l);
            assert(def_at(f2, v.0 as int, c, l));
        }
    }
    assert forall|i: int|
        #![trigger g.inst(i)]
        0 <= i < g.insts@.len() && g.inst(i).op is Xor implies g.types@[i] != Ty::Bool by {
        if i != v.0 {
            assert(g.insts@[i]@ == f2.insts@[i]@);
            assert(f1.insts@[i]@ == subst_inst(f.insts@[i]@, v, e));
            assert(f.inst(i).op is Xor);
        }
    }
}

// ---------------------------------------------------------------------------
// The pass

/// The lists of the blocks name values of the table.
spec fn walkable(f: Function) -> bool {
    &&& f.types@.len() == f.insts@.len()
    &&& f.blocks@.len() <= u32::MAX
    &&& f.insts@.len() <= u32::MAX
    &&& forall|b: int, i: int|
        #![trigger f.listed(b)[i]]
        0 <= b < f.blocks@.len() && 0 <= i < f.listed(b).len() ==> f.listed(b)[i].0 < f.insts@.len()
}

proof fn lemma_merge_walkable(f: Function, g: Function, b: int, pos: int, e: Value)
    requires
        walkable(f),
        0 <= b < f.blocks@.len(),
        0 <= pos < f.listed(b).len(),
        is_merged(f, g, b, pos, e),
    ensures
        walkable(g),
{
    assert forall|c: int, i: int|
        #![trigger g.listed(c)[i]]
        0 <= c < g.blocks@.len() && 0 <= i < g.listed(c).len() implies g.listed(c)[i].0
        < g.insts@.len() by {
        assert(f.blocks@[c].preds == g.blocks@[c].preds);
        let k = if c == b && i >= pos {
            i + 1
        } else {
            i
        };
        assert(g.listed(c)[i] == f.listed(c)[k]);
    }
}

/// The entry is in scope at place `pos` of block `b`.
spec fn in_scope(f: Function, entry: (InstModel, Value), b: int, pos: int) -> bool {
    use_ok(f, entry.1.0 as int, b, pos) && keyed(f, entry)
}

/// All entries are in scope there.
#[verifier::opaque]
spec fn scoped(f: Function, table: Seq<(InstModel, Value)>, b: int, pos: int) -> bool {
    forall|i: int| #![trigger table[i]] 0 <= i < table.len() ==> in_scope(f, table[i], b, pos)
}

/// Merges the value at place `pos` of the block into `e`.
fn merge(f: &mut Function, block: Block, pos: usize, e: Value)
    requires
        walkable(*old(f)),
        block.0 < old(f).blocks@.len(),
        pos < old(f).listed(block.0 as int).len(),
    ensures
        is_merged(*old(f), *final(f), block.0 as int, pos as int, e),
        tame(*old(f)) && in_scope(
            *old(f),
            (canonical(old(f).inst(old(f).listed(block.0 as int)[pos as int].0 as int)), e),
            block.0 as int,
            pos as int,
        ) ==> {
            &&& keeps_always(*old(f), *final(f))
            &&& !defined(*final(f), old(f).listed(block.0 as int)[pos as int].0 as int)
            &&& e != old(f).listed(block.0 as int)[pos as int]
            &&& defined(*old(f), e.0 as int)
        },
{
    proof {
        reveal(keeps_always);
    }
    let ghost start = *f;
    let ghost b = block.0 as int;
    let v: Value = f.blocks[block.0 as usize].insts[pos];
    assert(start.listed(b)[pos as int] == v);
    replace_value_everywhere(f, v, e);
    let ghost f1 = *f;
    assert(f1.blocks@[b].insts == start.blocks@[b].insts);
    f.blocks[block.0 as usize].insts.remove(pos);
    let ghost f2 = *f;
    assert(is_unlisted(f1, f2, b, pos as int));
    let ty: Ty = f.types[v.0 as usize];
    f.insts.set(v.0 as usize, dead_placeholder(ty));
    assert(is_updated(f2, *f, v.0 as int, placeholder(ty)));
    assert(is_merged(start, *f, b, pos as int, e)) by {
        assert forall|c: int|
            #![trigger f.blocks@[c]]
            #![trigger start.blocks@[c]]
            0 <= c < start.blocks@.len() implies {
            &&& f.blocks@[c].preds == start.blocks@[c].preds
            &&& f.blocks@[c].term == subst_opt_term(start.blocks@[c].term, v, e)
            &&& c != b ==> f.listed(c) == start.listed(c)
        } by {
            assert(f1.blocks@[c].preds == start.blocks@[c].preds);
            assert(f2.blocks@[c].preds == f1.blocks@[c].preds);
        }
    }
    proof {
        if tame(start) && in_scope(start, (canonical(start.inst(v.0 as int)), e), b, pos as int) {
            assert forall|fs: FloatSem| #[trigger] refines(start, *f, fs) by {
                lemma_merge_keeps(start, f1, f2, *f, b, pos as int, e, fs);
            }
            lemma_merge_keeps(
                start,
                f1,
                f2,
                *f,
                b,
                pos as int,
                e,
                |op: FloatOp, a: u64, b: u64, c: u64| 0u64,
            );
        }
    }
}

/// The entries stay in scope when another value is merged away.
proof fn lemma_merge_scoped(
    f: Function,
    g: Function,
    b: int,
    pos: int,
    e: Value,
    table: Seq<(InstModel, Value)>,
)
    requires
        tame(f),
        0 <= b < f.blocks@.len(),
        0 <= pos < f.listed(b).len(),
        is_merged(f, g, b, pos, e),
        !defined(g, f.listed(b)[pos].0 as int),
        e != f.listed(b)[pos],
        defined(f, e.0 as int),
        scoped(f, table, b, pos),
    ensures
        scoped(g, table, b, pos),
{
    reveal(scoped);
    lemma_merge_places(f, g, b, pos, e);
    let v = f.listed(b)[pos];
    assert(def_at(f, v.0 as int, b, pos));
    assert forall|i: int| #![trigger table[i]] 0 <= i < table.len() implies in_scope(
        g,
        table[i],
        b,
        pos,
    ) by {
        assert(in_scope(f, table[i], b, pos));
        let u = table[i].1;
        let (c, l) = choose|c: int, l: int| #[trigger]
            def_at(f, u.0 as int, c, l) && dom(f, c, b) && (c == b ==> l < pos);
        lemma_same_dom(f, g, c, b);
        assert(def_at(g, u.0 as int, c, l));
        assert(u != v);
        lemma_merge_keyed(f, g, b, pos, e, table[i]);
    }
}

/// A value that was entered is in scope behind its place.
proof fn lemma_enter_scoped(f: Function, b: int, pos: int, table: Seq<(InstModel, Value)>)
    requires
        0 <= b < f.blocks@.len(),
        0 <= pos < f.listed(b).len(),
        f.listed(b)[pos].0 < f.insts@.len(),
        scoped(f, table, b, pos),
    ensures
        scoped(
            f,
            table.push((canonical(f.inst(f.listed(b)[pos].0 as int)), f.listed(b)[pos])),
            b,
            pos + 1,
        ),
{
    reveal(scoped);
    let v = f.listed(b)[pos];
    let more = table.push((canonical(f.inst(v.0 as int)), v));
    assert forall|i: int| #![trigger more[i]] 0 <= i < more.len() implies in_scope(
        f,
        more[i],
        b,
        pos + 1,
    ) by {
        if i < table.len() {
            assert(in_scope(f, table[i], b, pos));
            let u = table[i].1;
            let (c, l) = choose|c: int, l: int| #[trigger]
                def_at(f, u.0 as int, c, l) && dom(f, c, b) && (c == b ==> l < pos);
            assert(def_at(f, u.0 as int, c, l) && dom(f, c, b) && (c == b ==> l < pos + 1));
        } else {
            assert(def_at(f, v.0 as int, b, pos) && dom(f, b, b) && (b == b ==> pos < pos + 1));
        }
    }
}

/// What holds between the function at the start of a scan and later.
#[verifier::opaque]
spec fn scanned(f: Function, g: Function, b: int) -> bool {
    &&& same_graph(f, g)
    &&& walkable(g)
    &&& g.blocks@.len() == f.blocks@.len()
    &&& forall|c: int|
        #![trigger g.listed(c)]
        0 <= c < f.blocks@.len() && c != b ==> g.listed(c) == f.listed(c)
}

/// The state of the pass at a place of a block.
spec fn at(f: Function, table: Seq<(Inst, Value)>, pos: int, changed: bool) -> Scan {
    Scan { f, table: entries(table), pos, changed }
}

/// Looks up the value at place `pos` of the block.
fn scan_value(f: &mut Function, block: Block, pos: usize, table: &mut Table) -> (merged:
    bool)
    requires
        walkable(*old(f)),
        block.0 < old(f).blocks@.len(),
        pos < old(f).listed(block.0 as int).len(),
    ensures
        forall|c: bool|
            scan_step(
                #[trigger] at(*old(f), old(table)@, pos as int, c),
                at(
                    *final(f),
                    final(table)@,
                    if merged {
                        pos as int
                    } else {
                        pos + 1
                    },
                    c || merged,
                ),
                block.0 as int,
            ),
        scanned(*old(f), *final(f), block.0 as int),
        scoped(*old(f), entries(old(table)@), block.0 as int, pos as int) ==> keeps_always(
            *old(f),
            *final(f),
        ),
        tame(*old(f)) && scoped(
            *old(f),
            entries(old(table)@),
            block.0 as int,
            pos as int,
        ) ==> scoped(
            *final(f),
            entries(final(table)@),
            block.0 as int,
            if merged {
                pos as int
            } else {
                pos + 1
            },
        ),
        merged ==> final(f).listed(block.0 as int).len() + 1 == old(f).listed(block.0 as int).len(),
        !merged ==> *final(f) == *old(f),
        old(table)@.len() <= final(table)@.len(),
        final(table)@.take(old(table)@.len() as int) == old(table)@,
{
    proof {
        reveal(scanned);
    }
    let ghost before = *f;
    let ghost table0 = table@;
    let ghost b = block.0 as int;
    let v: Value = f.blocks[block.0 as usize].insts[pos];
    assert(v == before.listed(b)[pos as int]);
    let key: Inst = canonicalize(&f.insts[v.0 as usize]);
    match table.get(&key) {
        Some(e) => {
            merge(f, block, pos, e);
            proof {
                let i = choose|i: int|
                    0 <= i < entries(table@).len() && #[trigger] entries(table@)[i] == (key@, e);
                lemma_merge_walkable(before, *f, b, pos as int, e);
                if tame(before) && scoped(before, entries(table@), b, pos as int) {
                    reveal(scoped);
                    assert(in_scope(before, entries(table@)[i], b, pos as int));
                    lemma_merge_scoped(before, *f, b, pos as int, e, entries(table@));
                }
                if !tame(before) {
                    lemma_always_wild(before, *f);
                }
                lemma_merge_graph(before, *f, b, pos as int, e);
                assert forall|c: bool|
                    scan_step(
                        #[trigger] at(before, table0, pos as int, c),
                        at(*f, table@, pos as int, c || true),
                        b,
                    ) by {
                    assert(merged_into(
                        at(before, table0, pos as int, c),
                        at(*f, table@, pos as int, true),
                        b,
                        key@,
                        e,
                    ));
                }
                assert(table@.take(table0.len() as int) =~= table0);
            }
            true
        },
        None => {
            proof {
                if scoped(before, entries(table@), b, pos as int) {
                    lemma_enter_scoped(before, b, pos as int, entries(table@));
                }
                lemma_always_refl(before);
            }
            table.enter(key, v);
            proof {
                assert(entries(table@) =~= entries(table0).push((key@, v)));
                assert(table@.take(table0.len() as int) =~= table0);
            }
            false
        },
    }
}

/// Goes through the values of one block.
fn scan_block(f: &mut Function, block: Block, table: &mut Table) -> (changed: bool)
    requires
        walkable(*old(f)),
        block.0 < old(f).blocks@.len(),
    ensures
        exists|h: Seq<Scan>|
            {
                &&& #[trigger] is_scan(h, block.0 as int, *old(f), entries(old(table)@))
                &&& h[h.len() - 1].f == *final(f)
                &&& h[h.len() - 1].table == entries(final(table)@)
                &&& h[h.len() - 1].changed == changed
            },
        old(table)@.len() <= final(table)@.len(),
        final(table)@.take(old(table)@.len() as int) == old(table)@,
        scanned(*old(f), *final(f), block.0 as int),
        scoped(*old(f), entries(old(table)@), block.0 as int, 0) ==> keeps_always(
            *old(f),
            *final(f),
        ),
        tame(*old(f)) && scoped(*old(f), entries(old(table)@), block.0 as int, 0) ==> scoped(
            *final(f),
            entries(final(table)@),
            block.0 as int,
            final(f).listed(block.0 as int).len() as int,
        ),
        !changed ==> *final(f) == *old(f),
{
    let ghost start = *f;
    let ghost table0 = table@;
    let ghost b = block.0 as int;
    let ghost mut h: Seq<Scan> = seq![at(*f, table@, 0, false)];
    let mut changed: bool = false;
    let mut pos: usize = 0;
    proof {
        lemma_always_refl(start);
        reveal(scanned);
        assert(table@.take(table0.len() as int) =~= table0);
    }
    while pos < f.blocks[block.0 as usize].insts.len()
        invariant
            b == block.0,
            0 <= b < start.blocks@.len(),
            f.blocks@.len() == start.blocks@.len(),
            walkable(*f),
            scanned(start, *f, b),
            h.len() > 0,
            h[0] == at(start, table0, 0, false),
            h[h.len() - 1] == at(*f, table@, pos as int, changed),
            scan_path(h, b),
            pos <= f.listed(b).len(),
            table0.len() <= table@.len(),
            table@.take(table0.len() as int) == table0,
            scoped(start, entries(table0), b, 0) ==> keeps_always(start, *f),
            tame(start) && scoped(start, entries(table0), b, 0) ==> scoped(
                *f,
                entries(table@),
                b,
                pos as int,
            ),
            !changed ==> *f == start,
        decreases f.listed(b).len() - pos,
    {
        let ghost before = *f;
        let ghost table1 = table@;
        let ghost h0 = h;
        let ghost c = changed;
        let merged: bool = scan_value(f, block, pos, table);
        if merged {
            changed = true;
        } else {
            pos = pos + 1;
        }
        proof {
            let t = at(*f, table@, pos as int, changed);
            assert(scan_step(at(before, table1, h0[h0.len() - 1].pos, c), t, b));
            lemma_scan_path_more(h0, t, b);
            h = h.push(t);
            if !tame(start) {
                lemma_always_wild(start, *f);
            } else if scoped(start, entries(table0), b, 0) {
                lemma_always_tame(start, before);
                lemma_always_trans(start, before, *f);
            }
            reveal(scanned);
            assert(table@.take(table0.len() as int) =~= table1.take(table0.len() as int));
        }
    }
    assert(is_scan(h, b, start, entries(table0)));
    changed
}

/// Merging leaves the control flow and the other lists as they are.
proof fn lemma_merge_graph(f: Function, g: Function, b: int, pos: int, e: Value)
    requires
        0 <= b < f.blocks@.len(),
        0 <= pos < f.listed(b).len(),
        is_merged(f, g, b, pos, e),
    ensures
        same_graph(f, g),
        forall|c: int|
            #![trigger g.listed(c)]
            0 <= c < f.blocks@.len() && c != b ==> g.listed(c) == f.listed(c),
{
    let v = f.listed(b)[pos];
    assert forall|c: int| #![trigger g.term(c)] 0 <= c < f.blocks@.len() implies g.term(c)
        == subst_opt_term(f.term(c), v, e) by {
        assert(g.blocks@[c].term == subst_opt_term(f.blocks@[c].term, v, e));
    }
    assert forall|c: int|
        #![trigger g.listed(c)]
        0 <= c < f.blocks@.len() && c != b implies g.listed(c) == f.listed(c) by {
        assert(g.blocks@[c].preds == f.blocks@[c].preds);
    }
    lemma_same_targets(f, g, v, e);
}

/// The lists of all blocks that `b` does not dominate are the same.
spec fn same_outside(start: Function, b: int, f: Function, g: Function) -> bool {
    forall|c: int|
        #![trigger g.listed(c)]
        0 <= c < f.blocks@.len() && !dom(start, b, c) ==> g.listed(c) == f.listed(c)
}

/// What is in scope at the end of a block is in scope below it.
proof fn lemma_scope_down(f: Function, table: Seq<(InstModel, Value)>, b: int, c: int)
    requires
        scoped(f, table, b, f.listed(b).len() as int),
        sdom(f, b, c),
    ensures
        scoped(f, table, c, 0),
{
    reveal(scoped);
    assert forall|i: int| #![trigger table[i]] 0 <= i < table.len() implies in_scope(
        f,
        table[i],
        c,
        0,
    ) by {
        assert(in_scope(f, table[i], b, f.listed(b).len() as int));
        let u = table[i].1;
        let (d, l) = choose|d: int, l: int| #[trigger]
            def_at(f, u.0 as int, d, l) && dom(f, d, b) && (d == b ==> l < f.listed(b).len());
        lemma_dom_trans(f, d, b, c);
        if d == c {
            lemma_dom_antisym(f, b, c);
        }
        assert(def_at(f, u.0 as int, d, l) && dom(f, d, c) && (d == c ==> l < 0));
    }
}

/// What is in scope at the end of a block stays so while the pass goes through
/// what is below.
proof fn lemma_scope_stays(
    start: Function,
    f: Function,
    g: Function,
    table: Seq<(InstModel, Value)>,
    b: int,
    c: int,
)
    requires
        same_graph(start, f),
        same_graph(f, g),
        scoped(f, table, b, f.listed(b).len() as int),
        sdom(start, b, c),
        0 <= b < f.blocks@.len(),
        same_outside(start, c, f, g),
        forall|i: int| #![trigger table[i]] 0 <= i < table.len() ==> keyed(g, table[i]),
    ensures
        scoped(g, table, b, g.listed(b).len() as int),
{
    reveal(scoped);
    assert(!dom(start, c, b)) by {
        if dom(start, c, b) {
            lemma_dom_antisym(start, b, c);
        }
    }
    assert(g.listed(b) == f.listed(b));
    assert forall|i: int| #![trigger table[i]] 0 <= i < table.len() implies in_scope(
        g,
        table[i],
        b,
        g.listed(b).len() as int,
    ) by {
        assert(in_scope(f, table[i], b, f.listed(b).len() as int));
        let u = table[i].1;
        let (d, l) = choose|d: int, l: int| #[trigger]
            def_at(f, u.0 as int, d, l) && dom(f, d, b) && (d == b ==> l < f.listed(b).len());
        lemma_same_dom(start, f, d, b);
        lemma_same_dom(f, g, d, b);
        assert(!dom(start, c, d)) by {
            if dom(start, c, d) {
                lemma_dom_trans(start, c, d, b);
            }
        }
        assert(g.listed(d) == f.listed(d));
        assert(def_at(g, u.0 as int, d, l) && dom(g, d, b) && (d == b ==> l < g.listed(b).len()));
    }
}

proof fn lemma_graph_trans(f: Function, g: Function, h: Function)
    requires
        same_graph(f, g),
        same_graph(g, h),
    ensures
        same_graph(f, h),
{
    assert forall|a: int, b: int| #[trigger] edge(h, a, b) == edge(f, a, b) by {
        assert(edge(h, a, b) == edge(g, a, b));
        assert(edge(g, a, b) == edge(f, a, b));
    }
}

/// A dominator tree is no deeper than there are blocks.
proof fn lemma_dominators_bound(f: Function, b: int)
    ensures
        dominators(f, b).len() <= f.blocks@.len(),
{
    let n = f.blocks@.len() as int;
    let all = vstd::set_lib::set_int_range(0, n);
    vstd::set_lib::lemma_int_range(0, n);
    assert(dominators(f, b).subset_of(all));
    vstd::set_lib::lemma_len_subset(dominators(f, b), all);
}

/// What a visit of block `b` leaves behind.
spec fn visit_keeps(
    start: Function,
    b: int,
    table: Seq<(InstModel, Value)>,
    f: Function,
    g: Function,
) -> bool {
    &&& same_graph(f, g)
    &&& walkable(g)
    &&& same_outside(start, b, f, g)
    &&& scoped(f, table, b, 0) ==> keeps_always(f, g)
    &&& tame(f) && scoped(f, table, b, 0) ==> forall|i: int|
        #![trigger table[i]]
        0 <= i < table.len() ==> keyed(g, table[i])
}

/// Goes through a block and everything below it in the tree, and leaves the
/// table as it was.
#[verifier::spinoff_prover]
#[verifier::rlimit(60)]
fn visit(
    block: Block,
    f: &mut Function,
    kids: &BlockMap,
    table: &mut Table,
    Ghost(start): Ghost<Function>,
    Ghost(idom): Ghost<Seq<Option<Block>>>,
    Ghost(depth): Ghost<nat>,
) -> (changed: bool)
    requires
        cfg_ok(start),
        is_dominator_tree(start, idom),
        same_graph(start, *old(f)),
        walkable(*old(f)),
        block.0 < start.blocks@.len(),
        forall|c: Block| #[trigger] listed_under(kids@, c) == children(idom, c, idom.len()),
        depth + dominators(start, block.0 as int).len() > start.blocks@.len(),
    ensures
        visited(idom, block, entries(old(table)@), *old(f), *final(f), changed, depth),
        final(table)@ == old(table)@,
        visit_keeps(start, block.0 as int, entries(old(table)@), *old(f), *final(f)),
        !changed ==> *final(f) == *old(f),
    decreases depth,
{
    let ghost f0 = *f;
    let ghost table0 = table@;
    let ghost b = block.0 as int;
    let ghost n = start.blocks@.len();
    let count: usize = table.len();
    proof {
        lemma_dominators_bound(start, b);
        reveal(scanned);
    }
    let mut changed: bool = scan_block(f, block, table);
    let ghost h = choose|h: Seq<Scan>|
        {
            &&& #[trigger] is_scan(h, b, f0, entries(table0))
            &&& h[h.len() - 1].f == *f
            &&& h[h.len() - 1].table == entries(table@)
            &&& h[h.len() - 1].changed == changed
        };
    let ghost last = h[h.len() - 1];
    let ghost table1 = table@;
    let ghost f1 = *f;
    let ghost below = children(idom, block, idom.len());
    let ghost mut turns: Seq<Turn> = seq![Turn { f: *f, changed }];
    let own: Vec<Block> = match kids.get(block.0) {
        Some(list) => list,
        None => Vec::new(),
    };
    let ghost fine = tame(f0) && scoped(f0, entries(table0), b, 0);
    proof {
        lemma_graph_trans(start, f0, f1);
        assert(own@ == listed_under(kids@, block));
        if fine {
            lemma_always_tame(f0, f1);
        }
        lemma_always_refl(f1);
        assert(turns[0].changed == changed);
    }
    let mut i: usize = 0;
    while i < own.len()
        invariant
            cfg_ok(start),
            n == start.blocks@.len(),
            is_dominator_tree(start, idom),
            same_graph(start, *f),
            same_graph(f0, *f),
            f0.blocks@.len() == n,
            f.blocks@.len() == n,
            walkable(*f),
            b == block.0,
            0 <= b < n,
            idom.len() == n,
            forall|c: Block| #[trigger] listed_under(kids@, c) == children(idom, c, idom.len()),
            below == children(idom, block, idom.len()),
            own@ == below,
            i <= below.len(),
            depth > 0,
            depth + dominators(start, b).len() > n,
            table@ == table1,
            turns.len() == i + 1,
            turns[0] == (Turn { f: last.f, changed: last.changed }),
            turns[i as int].f == *f,
            changed == any_changed(turns),
            forall|j: int|
                #![trigger below[j]]
                0 <= j < i ==> visited(
                    idom,
                    below[j],
                    last.table,
                    turns[j].f,
                    turns[j + 1].f,
                    turns[j + 1].changed,
                    (depth - 1) as nat,
                ),
            last.table == entries(table1),
            same_outside(start, b, f0, *f),
            fine == (tame(f0) && scoped(f0, entries(table0), b, 0)),
            fine ==> tame(*f) && keeps_always(f0, *f) && scoped(
                *f,
                entries(table1),
                b,
                f.listed(b).len() as int,
            ),
            !changed ==> *f == f0,
        decreases below.len() - i,
    {
        let ghost before = *f;
        let ghost turns0 = turns;
        let child: Block = own[i];
        let ghost c = child.0 as int;
        proof {
            lemma_children(start, idom, block, idom.len(), i as int);
            lemma_fewer_dominators(start, b, c);
            lemma_same_dom(start, before, b, c);
            if fine {
                lemma_scope_down(before, entries(table1), b, c);
            }
        }
        let below_changed: bool = visit(
            child,
            f,
            kids,
            table,
            Ghost(start),
            Ghost(idom),
            Ghost((depth - 1) as nat),
        );
        proof {
            lemma_graph_trans(start, before, *f);
            lemma_graph_trans(f0, before, *f);
            lemma_outside_more(start, b, c, f0, before, *f);
            if fine {
                lemma_always_trans(f0, before, *f);
                lemma_always_tame(before, *f);
                lemma_scope_stays(start, before, *f, entries(table1), b, c);
            }
        }
        if below_changed {
            changed = true;
        }
        proof {
            turns = turns.push(Turn { f: *f, changed: below_changed });
            assert forall|j: int| #![trigger below[j]] 0 <= j < i + 1 implies visited(
                idom,
                below[j],
                last.table,
                turns[j].f,
                turns[j + 1].f,
                turns[j + 1].changed,
                (depth - 1) as nat,
            ) by {
                if j < i {
                    assert(turns[j] == turns0[j] && turns[j + 1] == turns0[j + 1]);
                } else {
                    assert(turns[j] == turns0[j]);
                }
            }
            lemma_any_more(turns0, Turn { f: *f, changed: below_changed });
        }
        i += 1;
    }
    table.truncate(count);
    proof {
        assert(table@ == table1.take(table0.len() as int));
        assert(table@ == table0);
        assert(is_scan(h, b, f0, entries(table0)));
        assert(turns.len() == below.len() + 1);
        if fine {
            assert forall|j: int|
                #![trigger entries(table0)[j]]
                0 <= j < entries(table0).len() implies keyed(*f, entries(table0)[j]) by {
                reveal(scoped);
                assert(table1.take(table0.len() as int)[j] == table1[j]);
                assert(entries(table1)[j] == entries(table0)[j]);
                assert(in_scope(*f, entries(table1)[j], b, f.listed(b).len() as int));
            }
        } else if !tame(f0) {
            lemma_always_wild(f0, *f);
        }
    }
    changed
}

proof fn lemma_any_more(turns: Seq<Turn>, t: Turn)
    ensures
        any_changed(turns.push(t)) == (any_changed(turns) || t.changed),
{
    let more = turns.push(t);
    if any_changed(turns) {
        let i = choose|i: int| 0 <= i < turns.len() && #[trigger] turns[i].changed;
        assert(more[i].changed);
    }
    if t.changed {
        assert(more[turns.len() as int].changed);
    }
    if any_changed(more) {
        let i = choose|i: int| 0 <= i < more.len() && #[trigger] more[i].changed;
        if i < turns.len() {
            assert(turns[i].changed);
        }
    }
}

proof fn lemma_outside_more(
    start: Function,
    b: int,
    c: int,
    f: Function,
    g: Function,
    h: Function,
)
    requires
        sdom(start, b, c),
        g.blocks@.len() == f.blocks@.len(),
        same_outside(start, b, f, g),
        same_outside(start, c, g, h),
    ensures
        same_outside(start, b, f, h),
{
    assert forall|d: int|
        #![trigger h.listed(d)]
        0 <= d < f.blocks@.len() && !dom(start, b, d) implies h.listed(d) == f.listed(d) by {
        if dom(start, c, d) {
            lemma_dom_trans(start, b, c, d);
        }
        assert(g.listed(d) == f.listed(d));
    }
}

impl Pass for Gvn {
    open spec fn ready(&self) -> bool {
        true
    }

    open spec fn keeps_meaning(&self, fs: FloatSem) -> bool {
        true
    }

    open spec fn title(&self) -> Seq<char> {
        "gvn"@
    }

    open spec fn does(&self, before: Function, after: Function, changed: bool) -> bool {
        exists|idom: Seq<Option<Block>>|
            {
                &&& #[trigger] is_dominator_tree(before, idom)
                &&& visited(
                    idom,
                    before.entry,
                    Seq::empty(),
                    before,
                    after,
                    changed,
                    before.blocks@.len(),
                )
            }
    }

    fn name(&self) -> (r: &'static str) {
        "gvn"
    }

    fn run(&mut self, f: &mut Function) -> (changed: bool)
        ensures
            exists|idom: Seq<Option<Block>>|
                {
                    &&& #[trigger] is_dominator_tree(*old(f), idom)
                    &&& visited(
                        idom,
                        old(f).entry,
                        Seq::empty(),
                        *old(f),
                        *final(f),
                        changed,
                        old(f).blocks@.len(),
                    )
                },
    {
        let ghost start = *f;
        assert(cfg_ok(start));
        proof {
            lemma_preds_match(start);
        }
        let idom: Vec<Option<Block>> = compute_dominators(f);
        let kids: BlockMap = dom_tree_children(&idom);
        let mut table: Table = Table::new();
        proof {
            assert(dominators(start, start.entry.0 as int).contains(start.entry.0 as int));
            lemma_dominators_some(start, start.entry.0 as int);
            reveal(scoped);
            assert(entries(table@) =~= Seq::empty());
        }
        let block: Block = f.entry;
        let changed: bool = visit(
            block,
            f,
            &kids,
            &mut table,
            Ghost(start),
            Ghost(idom@),
            Ghost(start.blocks@.len()),
        );
        proof {
            reveal(keeps_always);
            assert(keeps_always(start, *f));
        }
        changed
    }
}

proof fn lemma_dominators_some(f: Function, b: int)
    requires
        0 <= b < f.blocks@.len(),
    ensures
        dominators(f, b).len() > 0,
{
    let n = f.blocks@.len() as int;
    let all = vstd::set_lib::set_int_range(0, n);
    vstd::set_lib::lemma_int_range(0, n);
    assert(dominators(f, b).subset_of(all));
    vstd::set_lib::lemma_len_subset(dominators(f, b), all);
    assert(dominators(f, b).contains(b));
    if dominators(f, b).len() == 0 {
        assert(dominators(f, b) =~= Set::empty());
    }
}

} // verus!
