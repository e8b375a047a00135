//! Reassociation of integer sums and products.
//!
//! A chain of the same operation, such as `((a + b) + c) + d`, is flattened
//! into its operands and rebuilt as a balanced tree, which shortens the
//! longest dependency from linear to logarithmic. Wrapping addition and
//! multiplication are associative without exception, being arithmetic modulo
//! 2^64; floating-point arithmetic is not, so only integers are touched.
//!
//! A link of a chain is flattened only if the chain is its one use. Any other
//! link is an operand like any other, and stays as it is. The order of the
//! operands is kept.
use crate::arith::wrap;
use crate::arith::{lemma_wrap_congruent, lemma_wrap_id, lemma_wrap_offset};
use crate::collections::IndexMap;
use crate::dominance::{dom, lemma_dom_antisym, lemma_dom_trans};
use crate::float::{FloatOp, FloatSem};
use crate::interp::{eval_inst, operand_values, readable, slot, Frame, RtValue};
use crate::ir::{
    copy_inst, replace_value_everywhere, uses_of, Block, Function, Inst, Terminator, Ty, Value,
};
use crate::ir::{is_subst, model2, InstModel, Op};
use crate::opt::edit::lemma_subst_keeps;
use crate::opt::intcode::{
    code_of, in_tables, int_code, int_inst, is_reduced, lemma_in_tables, lemma_int_splice_keeps,
    lemma_pair_eval, nth, ref_ok, usable, Reduced,
};
use crate::opt::intcode::{nth_value, splice};
use crate::opt::keep::{healthy, may_replace};
use crate::opt::rewrite::{
    before_value, fresh, is_spliced, padded, run_fresh, splice_agrees, stands_for,
};
use crate::opt::simulate::{lemma_refines_trans, refines, same};
use crate::opt::{keeps_always, lemma_always_refl, tame, xor_on_integers, Pass};
use crate::verify::{def_at, inst_ok, use_ok, valid};
use vstd::arithmetic::power2::{lemma_pow2_unfold, pow2};
use vstd::prelude::*;

verus! {

pub struct Reassociate;

/// The operations whose chains are rebuilt.
#[derive(Clone, Copy, Debug, PartialEq, Eq, Structural)]
pub enum AssocOp {
    Add,
    Mul,
}

impl AssocOp {
    pub open spec fn op(self) -> Op {
        match self {
            AssocOp::Add => Op::Add,
            AssocOp::Mul => Op::Mul,
        }
    }

    /// The operands of `inst`, if it is this operation.
    pub fn operands(self, inst: &Inst) -> (r: Option<(Value, Value)>)
        ensures
            match r {
                Some((a, b)) => inst@ == model2(self.op(), a, b),
                None => inst@.op != self.op(),
            },
    {
        match (self, inst) {
            (AssocOp::Add, Inst::Add(a, b)) => Some((*a, *b)),
            (AssocOp::Mul, Inst::Mul(a, b)) => Some((*a, *b)),
            _ => None,
        }
    }

    pub fn make(self, a: Value, b: Value) -> (r: Inst)
        ensures
            r@ == model2(self.op(), a, b),
    {
        match self {
            AssocOp::Add => Inst::Add(a, b),
            AssocOp::Mul => Inst::Mul(a, b),
        }
    }
}

/// The operation of `v`, if it is an integer sum or product.
pub open spec fn assoc_op(f: Function, v: Value) -> Option<AssocOp> {
    if v.0 >= f.insts@.len() || v.0 >= f.types@.len() || f.types@[v.0 as int] != Ty::I64 {
        None
    } else {
        match f.inst(v.0 as int).op {
            Op::Add => Some(AssocOp::Add),
            Op::Mul => Some(AssocOp::Mul),
            _ => None,
        }
    }
}

fn assoc_i64_op(f: &Function, v: Value) -> (r: Option<AssocOp>)
    ensures
        r == assoc_op(*f, v),
{
    if v.0 as usize >= f.insts.len() || v.0 as usize >= f.types.len() {
        return None;
    }
    if f.types[v.0 as usize] != Ty::I64 {
        return None;
    }
    match &f.insts[v.0 as usize] {
        Inst::Add(_, _) => Some(AssocOp::Add),
        Inst::Mul(_, _) => Some(AssocOp::Mul),
        _ => None,
    }
}

// ---------------------------------------------------------------------------
// Uses

/// One use of a value, by an instruction or by a terminator.
pub struct Use {
    pub user: Option<Value>,
    pub value: Value,
}

/// The uses by `user` in its first `j` operands.
pub open spec fn operand_uses(m: InstModel, user: Value, j: nat) -> Seq<Use>
    decreases j,
{
    if j == 0 {
        Seq::empty()
    } else {
        operand_uses(m, user, (j - 1) as nat).push(
            Use { user: Some(user), value: m.args[j - 1] },
        )
    }
}

/// The uses in the first `k` instructions that block `b` lists.
pub open spec fn inst_uses(f: Function, b: int, k: nat) -> Seq<Use>
    decreases k,
{
    if k == 0 {
        Seq::empty()
    } else {
        let user = f.listed(b)[k - 1];
        let m = f.inst(user.0 as int);
        inst_uses(f, b, (k - 1) as nat) + operand_uses(m, user, m.args.len())
    }
}

pub open spec fn term_uses(t: Option<Terminator>) -> Seq<Use> {
    match t {
        Some(Terminator::Return(v)) => seq![Use { user: None, value: v }],
        Some(Terminator::Branch { cond, .. }) => seq![Use { user: None, value: cond }],
        _ => Seq::empty(),
    }
}

/// The uses in the first `n` blocks. Only what a block lists counts: a dead
/// instruction uses nothing.
pub open spec fn all_uses(f: Function, n: nat) -> Seq<Use>
    decreases n,
{
    if n == 0 {
        Seq::empty()
    } else {
        all_uses(f, (n - 1) as nat) + inst_uses(f, n - 1, f.listed(n - 1).len()) + term_uses(
            f.term(n - 1),
        )
    }
}

/// How often `v` is used.
pub open spec fn use_count(uses: Seq<Use>, v: Value) -> nat
    decreases uses.len(),
{
    if uses.len() == 0 {
        0
    } else {
        use_count(uses.drop_last(), v) + if uses.last().value == v {
            1nat
        } else {
            0nat
        }
    }
}

/// The last instruction that uses `v`.
pub open spec fn last_user(uses: Seq<Use>, v: Value) -> Option<Value>
    decreases uses.len(),
{
    if uses.len() == 0 {
        None
    } else if uses.last().value == v && uses.last().user is Some {
        uses.last().user
    } else {
        last_user(uses.drop_last(), v)
    }
}

/// The one instruction that uses `v`, if nothing else does.
pub open spec fn sole_consumer(uses: Seq<Use>, v: Value) -> Option<Value> {
    if use_count(uses, v) == 1 {
        last_user(uses, v)
    } else {
        None
    }
}

/// How often each value is used, up to twice, and by whom.
pub struct UseTable {
    counts: IndexMap,
    consumers: IndexMap,
}

impl UseTable {
    pub closed spec fn holds(&self, uses: Seq<Use>) -> bool {
        &&& forall|v: Value|
            #![trigger use_count(uses, v)]
            (self.counts@.dom().contains(v.0) <==> use_count(uses, v) > 0) && (
            self.counts@.dom().contains(v.0) ==> self.counts@[v.0] == if use_count(uses, v) >= 2 {
                2
            } else {
                1int
            })
        &&& forall|v: Value|
            #![trigger last_user(uses, v)]
            (self.consumers@.dom().contains(v.0) <==> last_user(uses, v) is Some) && (
            self.consumers@.dom().contains(v.0) ==> last_user(uses, v) == Some(
                Value(self.consumers@[v.0]),
            ))
    }

    fn new() -> (t: UseTable)
        ensures
            t.holds(Seq::empty()),
    {
        UseTable { counts: IndexMap::new(), consumers: IndexMap::new() }
    }

    fn record(&mut self, user: Option<Value>, value: Value)
        ensures
            forall|uses: Seq<Use>|
                old(self).holds(uses) ==> final(self).holds(
                    #[trigger] uses.push(Use { user, value }),
                ),
    {
        let ghost before = *self;
        match self.counts.get(value.0) {
            Some(_) => self.counts.insert(value.0, 2),
            None => self.counts.insert(value.0, 1),
        }
        match user {
            Some(u) => self.consumers.insert(value.0, u.0),
            None => {},
        }
        assert forall|uses: Seq<Use>| before.holds(uses) implies self.holds(
            #[trigger] uses.push(Use { user, value }),
        ) by {
            let more = uses.push(Use { user, value });
            assert(more.drop_last() =~= uses);
            assert forall|v: Value|
                #![trigger use_count(more, v)]
                (self.counts@.dom().contains(v.0) <==> use_count(more, v) > 0) && (
                self.counts@.dom().contains(v.0) ==> self.counts@[v.0] == if use_count(more, v)
                    >= 2 {
                    2
                } else {
                    1int
                }) by {
                assert(use_count(uses, v) >= 0);
                assert(v == value <==> v.0 == value.0);
            }
            assert forall|v: Value|
                #![trigger last_user(more, v)]
                (self.consumers@.dom().contains(v.0) <==> last_user(more, v) is Some) && (
                self.consumers@.dom().contains(v.0) ==> last_user(more, v) == Some(
                    Value(self.consumers@[v.0]),
                )) by {
                assert(last_user(uses, v) is Some || last_user(uses, v) is None);
                assert(v == value <==> v.0 == value.0);
            }
        }
    }

    /// Whether `v` is used once.
    fn used_once(&self, v: Value) -> (r: bool)
        ensures
            forall|uses: Seq<Use>| #[trigger] self.holds(uses) ==> r == (use_count(uses, v) == 1),
    {
        let found: Option<u32> = self.counts.get(v.0);
        assert forall|uses: Seq<Use>| #[trigger] self.holds(uses) implies (found == Some(1u32)) == (
        use_count(uses, v) == 1) by {
            assert(use_count(uses, v) >= 0);
        }
        match found {
            Some(n) => n == 1,
            None => false,
        }
    }

    fn sole_consumer(&self, v: Value) -> (r: Option<Value>)
        ensures
            forall|uses: Seq<Use>| #[trigger] self.holds(uses) ==> r == sole_consumer(uses, v),
    {
        let once: bool = self.used_once(v);
        let found: Option<u32> = self.consumers.get(v.0);
        assert forall|uses: Seq<Use>| #[trigger] self.holds(uses) implies match found {
            Some(u) => last_user(uses, v) == Some(Value(u)),
            None => last_user(uses, v) is None,
        } by {
            assert(last_user(uses, v) is Some || last_user(uses, v) is None);
        }
        if once {
            match found {
                Some(u) => Some(Value(u)),
                None => None,
            }
        } else {
            None
        }
    }
}

/// Counts the uses of all values.
pub fn analyze_uses(f: &Function) -> (t: UseTable)
    requires
        in_tables(*f),
    ensures
        t.holds(all_uses(*f, f.blocks@.len())),
{
    let mut t: UseTable = UseTable::new();
    let mut b: usize = 0;
    while b < f.blocks.len()
        invariant
            in_tables(*f),
            b <= f.blocks@.len(),
            t.holds(all_uses(*f, b as nat)),
        decreases f.blocks@.len() - b,
    {
        let ghost base = all_uses(*f, b as nat);
        let mut k: usize = 0;
        assert(base + inst_uses(*f, b as int, 0) =~= base);
        while k < f.blocks[b].insts.len()
            invariant
                in_tables(*f),
                b < f.blocks@.len(),
                k <= f.listed(b as int).len(),
                t.holds(base + inst_uses(*f, b as int, k as nat)),
            decreases f.listed(b as int).len() - k,
        {
            let user: Value = f.blocks[b].insts[k];
            assert(user == f.listed(b as int)[k as int]);
            let operands: Vec<Value> = uses_of(&f.insts[user.0 as usize]);
            let ghost m = f.inst(user.0 as int);
            let ghost here = base + inst_uses(*f, b as int, k as nat);
            let mut j: usize = 0;
            assert(here + operand_uses(m, user, 0) =~= here);
            while j < operands.len()
                invariant
                    operands@ == m.args,
                    j <= operands@.len(),
                    t.holds(here + operand_uses(m, user, j as nat)),
                decreases operands@.len() - j,
            {
                let ghost so_far = here + operand_uses(m, user, j as nat);
                t.record(Some(user), operands[j]);
                assert(here + operand_uses(m, user, (j + 1) as nat) =~= so_far.push(
                    Use { user: Some(user), value: m.args[j as int] },
                ));
                j += 1;
            }
            assert(here + operand_uses(m, user, m.args.len()) =~= base + inst_uses(
                *f,
                b as int,
                (k + 1) as nat,
            ));
            k += 1;
        }
        let ghost listed = base + inst_uses(*f, b as int, f.listed(b as int).len());
        match &f.blocks[b].term {
            Some(Terminator::Return(v)) => {
                t.record(None, *v);
                assert(all_uses(*f, (b + 1) as nat) =~= listed.push(
                    Use { user: None, value: *v },
                ));
            },
            Some(Terminator::Branch { cond, .. }) => {
                t.record(None, *cond);
                assert(all_uses(*f, (b + 1) as nat) =~= listed.push(
                    Use { user: None, value: *cond },
                ));
            },
            _ => {
                assert(all_uses(*f, (b + 1) as nat) =~= listed);
            },
        }
        b += 1;
    }
    t
}

// ---------------------------------------------------------------------------
// Chains and trees

/// A chain: its operands from left to right, and how deep it is.
pub struct Chain {
    pub leaves: Seq<Value>,
    pub depth: nat,
}

/// Two chains joined by one more operation.
pub open spec fn joined(a: Chain, b: Chain) -> Chain {
    Chain {
        leaves: a.leaves + b.leaves,
        depth: 1 + if a.depth >= b.depth {
            a.depth
        } else {
            b.depth
        },
    }
}

/// The chain that operand `v` brings: its own, if it is a link that is used
/// once, or itself. A chain has at most `fuel` links one below the other.
pub open spec fn operand_chain(
    f: Function,
    uses: Seq<Use>,
    op: AssocOp,
    v: Value,
    fuel: nat,
) -> Chain
    decreases fuel,
{
    if fuel > 0 && assoc_op(f, v) == Some(op) && use_count(uses, v) == 1 {
        let m = f.inst(v.0 as int);
        joined(
            operand_chain(f, uses, op, m.args[0], (fuel - 1) as nat),
            operand_chain(f, uses, op, m.args[1], (fuel - 1) as nat),
        )
    } else {
        Chain { leaves: seq![v], depth: 0 }
    }
}

/// The chain that ends in `v`. No chain is longer than the table.
pub open spec fn chain_of(f: Function, uses: Seq<Use>, op: AssocOp, v: Value) -> Chain {
    let m = f.inst(v.0 as int);
    let fuel = f.insts@.len();
    joined(
        operand_chain(f, uses, op, m.args[0], fuel),
        operand_chain(f, uses, op, m.args[1], fuel),
    )
}

/// A balanced tree over `leaves`: the instructions, numbered from `n` on, and
/// the value of the root. The leaves are split in half, the left half is
/// built first.
pub open spec fn tree(leaves: Seq<Value>, op: AssocOp, n: int) -> (Seq<InstModel>, Value)
    decreases leaves.len(),
{
    if leaves.len() <= 1 {
        (Seq::empty(), leaves[0])
    } else {
        let mid = (leaves.len() / 2) as int;
        let (left, a) = tree(leaves.take(mid), op, n);
        let (right, b) = tree(leaves.skip(mid), op, n + left.len());
        let code = left + right;
        (code.push(model2(op.op(), a, b)), nth(n, code.len() as int))
    }
}

/// How deep a balanced tree over `count` leaves is.
pub open spec fn is_tree_depth(count: nat, depth: nat) -> bool {
    pow2(depth) >= count && forall|j: nat| j < depth ==> #[trigger] pow2(j) < count
}

/// Rebuilding the chain makes it shallower. With fewer than four leaves no
/// tree is.
pub open spec fn worth_it(c: Chain) -> bool {
    c.leaves.len() >= 4 && forall|d: nat| #[trigger] is_tree_depth(c.leaves.len(), d) ==> d < c.depth
}

/// `v` is the last link of a chain that is worth rebuilding. A value whose
/// one use is a link of the same operation is part of the longer chain.
pub open spec fn rebuilds(f: Function, uses: Seq<Use>, v: Value) -> bool {
    match assoc_op(f, v) {
        None => false,
        Some(op) => {
            &&& sole_consumer(uses, v) matches Some(parent) ==> assoc_op(f, parent) != Some(op)
            &&& worth_it(chain_of(f, uses, op, v))
            &&& f.insts@.len() + chain_of(f, uses, op, v).leaves.len() <= u32::MAX
        },
    }
}

proof fn lemma_tree_len(leaves: Seq<Value>, op: AssocOp, n: int)
    requires
        leaves.len() >= 1,
    ensures
        tree(leaves, op, n).0.len() == leaves.len() - 1,
        leaves.len() >= 2 ==> tree(leaves, op, n).1 == nth(n, leaves.len() - 2),
    decreases leaves.len(),
{
    if leaves.len() > 1 {
        let mid = (leaves.len() / 2) as int;
        lemma_tree_len(leaves.take(mid), op, n);
        lemma_tree_len(leaves.skip(mid), op, n + (mid - 1));
    }
}

/// The values that a list holds.
pub open spec fn members(s: Seq<Value>) -> Set<Value> {
    Set::new(|v: Value| s.contains(v))
}

/// The code of a tree is made of the operation, on leaves and on values
/// computed before.
proof fn lemma_tree_code(leaves: Seq<Value>, op: AssocOp, n: int)
    requires
        leaves.len() >= 1,
        0 <= n,
        n + leaves.len() <= u32::MAX,
    ensures
        ({
            let (code, root) = tree(leaves, op, n);
            &&& forall|i: int|
                #![trigger code[i]]
                0 <= i < code.len() ==> {
                    &&& code[i].op == op.op()
                    &&& code[i].args.len() == 2
                    &&& ref_ok(code[i].args[0], members(leaves), n, i)
                    &&& ref_ok(code[i].args[1], members(leaves), n, i)
                }
            &&& ref_ok(root, members(leaves), n, code.len() as int)
        }),
    decreases leaves.len(),
{
    let (code, root) = tree(leaves, op, n);
    if leaves.len() > 1 {
        let mid = (leaves.len() / 2) as int;
        let front = leaves.take(mid);
        let back = leaves.skip(mid);
        lemma_tree_len(front, op, n);
        let (left, a) = tree(front, op, n);
        let (right, b) = tree(back, op, n + left.len());
        lemma_tree_len(back, op, n + left.len());
        lemma_tree_code(front, op, n);
        lemma_tree_code(back, op, n + left.len());
        assert forall|v: Value| members(front).contains(v) implies members(leaves).contains(v) by {
            let i = choose|i: int| 0 <= i < front.len() && front[i] == v;
            assert(leaves[i] == v);
        }
        assert forall|v: Value| members(back).contains(v) implies members(leaves).contains(v) by {
            let i = choose|i: int| 0 <= i < back.len() && back[i] == v;
            assert(leaves[i + mid] == v);
        }
        assert forall|i: int| #![trigger code[i]] 0 <= i < code.len() implies {
            &&& code[i].op == op.op()
            &&& code[i].args.len() == 2
            &&& ref_ok(code[i].args[0], members(leaves), n, i)
            &&& ref_ok(code[i].args[1], members(leaves), n, i)
        } by {
            if i < left.len() {
                assert(code[i] == left[i]);
            } else if i < left.len() + right.len() {
                assert(code[i] == right[i - left.len()]);
            } else {
                assert(code[i] == model2(op.op(), a, b));
            }
        }
    } else {
        assert(leaves[0] == root);
    }
}

/// The depth of a balanced tree.
fn tree_depth(count: usize) -> (d: u32)
    requires
        1 <= count <= u32::MAX,
    ensures
        is_tree_depth(count as nat, d as nat),
        d <= 32,
{
    let mut d: u32 = 0;
    let mut p: u64 = 1;
    proof {
        vstd::arithmetic::power2::lemma2_to64();
    }
    while p < count as u64
        invariant
            p == pow2(d as nat),
            d <= 32,
            pow2(32) == 0x1_0000_0000,
            1 <= count <= u32::MAX,
            forall|j: nat| j < d ==> #[trigger] pow2(j) < count,
        decreases 32 - d,
    {
        proof {
            if d >= 32 {
                assert(d == 32);
            }
            lemma_pow2_unfold((d + 1) as nat);
        }
        p = p * 2;
        d = d + 1;
    }
    d
}

proof fn lemma_depth_unique(count: nat, d: nat, e: nat)
    requires
        is_tree_depth(count, d),
        is_tree_depth(count, e),
    ensures
        d == e,
{
    if d < e {
        assert(pow2(d) < count);
    } else if e < d {
        assert(pow2(e) < count);
    }
}

/// The chain that an operand brings.
fn flatten_operand(f: &Function, v: Value, op: AssocOp, table: &UseTable, fuel: usize) -> (r: (
    Vec<Value>,
    u64,
))
    requires
        fuel <= u32::MAX,
        forall|i: int|
            #![trigger f.insts@[i]]
            0 <= i < f.insts@.len() ==> crate::opt::keep::shape_ok(f.inst(i)),
    ensures
        forall|uses: Seq<Use>| #[trigger]
            table.holds(uses) ==> r.0@ == operand_chain(*f, uses, op, v, fuel as nat).leaves && r.1
                == operand_chain(*f, uses, op, v, fuel as nat).depth,
        r.1 <= fuel,
    decreases fuel,
{
    if fuel > 0 && assoc_i64_op(f, v) == Some(op) && table.used_once(v) {
        match op.operands(&f.insts[v.0 as usize]) {
            Some((a, b)) => {
                assert(f.inst(v.0 as int).args[0] == a && f.inst(v.0 as int).args[1] == b);
                join(
                    flatten_operand(f, a, op, table, fuel - 1),
                    flatten_operand(f, b, op, table, fuel - 1),
                )
            },
            None => (Vec::new(), 0),
        }
    } else {
        let mut leaves: Vec<Value> = Vec::new();
        leaves.push(v);
        assert(leaves@ =~= seq![v]);
        (leaves, 0)
    }
}

spec fn chain(r: (Vec<Value>, u64)) -> Chain {
    Chain { leaves: r.0@, depth: r.1 as nat }
}

fn join(a: (Vec<Value>, u64), b: (Vec<Value>, u64)) -> (r: (Vec<Value>, u64))
    requires
        a.1 <= u32::MAX,
        b.1 <= u32::MAX,
    ensures
        chain(r) == joined(chain(a), chain(b)),
        r.1 <= a.1 + 1 || r.1 <= b.1 + 1,
{
    let (mut leaves, x): (Vec<Value>, u64) = a;
    let (mut rest, y): (Vec<Value>, u64) = b;
    leaves.append(&mut rest);
    let depth: u64 = if x >= y {
        x
    } else {
        y
    };
    (leaves, 1 + depth)
}

/// The chain that ends in `v`.
fn flatten(f: &Function, v: Value, op: AssocOp, table: &UseTable) -> (r: (Vec<Value>, u64))
    requires
        assoc_op(*f, v) == Some(op),
        f.insts@.len() <= u32::MAX,
    ensures
        forall|uses: Seq<Use>| #[trigger]
            table.holds(uses) ==> r.0@ == chain_of(*f, uses, op, v).leaves && r.1 == chain_of(
                *f,
                uses,
                op,
                v,
            ).depth,
{
    let fuel: usize = f.insts.len();
    proof {
        assert forall|i: int|
            #![trigger f.insts@[i]]
            0 <= i < f.insts@.len() implies crate::opt::keep::shape_ok(f.inst(i)) by {
            crate::opt::keep::lemma_shape(*f, i);
        }
    }
    match op.operands(&f.insts[v.0 as usize]) {
        Some((a, b)) => {
            assert(f.inst(v.0 as int).args[0] == a && f.inst(v.0 as int).args[1] == b);
            join(
                flatten_operand(f, a, op, table, fuel),
                flatten_operand(f, b, op, table, fuel),
            )
        },
        None => (Vec::new(), 0),
    }
}

/// The code of a balanced tree over the leaves from `from` to `to`.
fn build_balanced(leaves: &Vec<Value>, from: usize, to: usize, op: AssocOp, n: usize) -> (r: (
    Vec<Inst>,
    Value,
))
    requires
        from < to <= leaves@.len(),
        n + (to - from) <= u32::MAX,
    ensures
        (code_of(r.0@), r.1) == tree(leaves@.subrange(from as int, to as int), op, n as int),
    decreases to - from,
{
    let ghost part = leaves@.subrange(from as int, to as int);
    if to - from == 1 {
        let code: Vec<Inst> = Vec::new();
        assert(code_of(code@) =~= Seq::empty());
        return (code, leaves[from]);
    }
    let mid: usize = from + (to - from) / 2;
    proof {
        assert(part.take(mid - from) =~= leaves@.subrange(from as int, mid as int));
        assert(part.skip(mid - from) =~= leaves@.subrange(mid as int, to as int));
        lemma_tree_len(leaves@.subrange(from as int, mid as int), op, n as int);
    }
    let (mut code, a): (Vec<Inst>, Value) = build_balanced(leaves, from, mid, op, n);
    let ghost left = code@;
    assert(code_of(left).len() == left.len());
    let (mut right, b): (Vec<Inst>, Value) = build_balanced(leaves, mid, to, op, n + code.len());
    let ghost right0 = right@;
    proof {
        lemma_tree_len(leaves@.subrange(mid as int, to as int), op, n + left.len());
        assert(code_of(right0).len() == right0.len());
    }
    code.append(&mut right);
    let root: Value = nth_value(n, code.len());
    code.push(op.make(a, b));
    assert(code_of(code@) =~= (code_of(left) + code_of(right0)).push(model2(op.op(), a, b)));
    (code, root)
}

// ---------------------------------------------------------------------------
// Chain and tree compute the same

/// The sum or product of integers.
pub open spec fn total(op: AssocOp, xs: Seq<i64>) -> int
    decreases xs.len(),
{
    if xs.len() == 0 {
        match op {
            AssocOp::Add => 0,
            AssocOp::Mul => 1,
        }
    } else {
        match op {
            AssocOp::Add => total(op, xs.drop_last()) + xs.last(),
            AssocOp::Mul => total(op, xs.drop_last()) * xs.last(),
        }
    }
}

pub open spec fn combine(op: AssocOp, a: int, b: int) -> int {
    match op {
        AssocOp::Add => a + b,
        AssocOp::Mul => a * b,
    }
}

/// A total can be taken in parts.
pub proof fn lemma_total_split(op: AssocOp, xs: Seq<i64>, ys: Seq<i64>)
    ensures
        total(op, xs + ys) == combine(op, total(op, xs), total(op, ys)),
    decreases ys.len(),
{
    if ys.len() == 0 {
        assert(xs + ys =~= xs);
    } else {
        assert((xs + ys).drop_last() =~= xs + ys.drop_last());
        lemma_total_split(op, xs, ys.drop_last());
        let a = total(op, xs);
        let b = total(op, ys.drop_last());
        let c = ys.last();
        assert((a * b) * c == a * (b * c)) by (nonlinear_arith);
    }
}

/// Wrapping before or after an operation makes no difference.
pub proof fn lemma_wrap_combine(op: AssocOp, a: int, b: int)
    ensures
        wrap(combine(op, wrap(a) as int, wrap(b) as int)) == wrap(combine(op, a, b)),
{
    let j = lemma_wrap_offset(a);
    let k = lemma_wrap_offset(b);
    let p = wrap(a) as int;
    let q = wrap(b) as int;
    let w = 0x1_0000_0000_0000_0000int;
    match op {
        AssocOp::Add => {
            assert(a + b == p + q + (j + k) * w) by (nonlinear_arith)
                requires
                    a == p + j * w,
                    b == q + k * w,
            ;
            lemma_wrap_congruent(a + b, p + q, j + k);
        },
        AssocOp::Mul => {
            let jw = j * w;
            let kw = k * w;
            assert(a * b == p * q + p * kw + jw * q + jw * kw) by (nonlinear_arith)
                requires
                    a == p + jw,
                    b == q + kw,
            ;
            assert(p * kw == (p * k) * w) by (nonlinear_arith)
                requires
                    kw == k * w,
            ;
            assert(jw * q == (j * q) * w) by (nonlinear_arith)
                requires
                    jw == j * w,
            ;
            assert(jw * kw == (j * kw) * w) by (nonlinear_arith)
                requires
                    jw == j * w,
            ;
            let z = p * k + j * q + j * kw;
            assert(z * w == (p * k) * w + (j * q) * w + (j * kw) * w) by (nonlinear_arith)
                requires
                    z == p * k + j * q + j * kw,
            ;
            lemma_wrap_congruent(a * b, p * q, z);
        },
    }
}

/// The integers that a frame holds for values.
pub open spec fn integers(vals: Frame, leaves: Seq<Value>) -> Seq<i64> {
    leaves.map_values(|v: Value| slot(vals, v).unwrap()->I64_0)
}

pub open spec fn all_integers(vals: Frame, leaves: Seq<Value>) -> bool {
    forall|i: int|
        #![trigger leaves[i]]
        0 <= i < leaves.len() ==> slot(vals, leaves[i]) matches Some(RtValue::I64(_))
}

proof fn lemma_joined_integers(vals: Frame, a: Seq<Value>, b: Seq<Value>)
    requires
        all_integers(vals, a),
        all_integers(vals, b),
    ensures
        all_integers(vals, a + b),
        integers(vals, a + b) == integers(vals, a) + integers(vals, b),
{
    assert forall|i: int| #![trigger (a + b)[i]] 0 <= i < (a + b).len() implies slot(
        vals,
        (a + b)[i],
    ) matches Some(RtValue::I64(_)) by {
        if i < a.len() {
            assert((a + b)[i] == a[i]);
        } else {
            assert((a + b)[i] == b[i - a.len()]);
        }
    }
    assert(integers(vals, a + b) =~= integers(vals, a) + integers(vals, b));
}

/// The sum or product of two integers.
proof fn lemma_assoc_eval(
    op: AssocOp,
    a: Value,
    b: Value,
    vals: Frame,
    prev: Option<Block>,
    args: Seq<RtValue>,
    fs: FloatSem,
)
    requires
        slot(vals, a) matches Some(RtValue::I64(_)),
        slot(vals, b) matches Some(RtValue::I64(_)),
    ensures
        eval_inst(model2(op.op(), a, b), vals, prev, args, fs) == Some(
            RtValue::I64(
                wrap(
                    combine(
                        op,
                        slot(vals, a).unwrap()->I64_0 as int,
                        slot(vals, b).unwrap()->I64_0 as int,
                    ),
                ),
            ),
        ),
{
    let p = slot(vals, a).unwrap()->I64_0;
    let q = slot(vals, b).unwrap()->I64_0;
    lemma_pair_eval(op.op(), a, b, p, q, vals, prev, args, fs);
}

/// An integer sum or product has integer operands.
proof fn lemma_assoc_operands(
    op: AssocOp,
    a: Value,
    b: Value,
    x: i64,
    vals: Frame,
    prev: Option<Block>,
    args: Seq<RtValue>,
    fs: FloatSem,
)
    requires
        eval_inst(model2(op.op(), a, b), vals, prev, args, fs) == Some(RtValue::I64(x)),
    ensures
        slot(vals, a) matches Some(RtValue::I64(_)),
        slot(vals, b) matches Some(RtValue::I64(_)),
{
    let m = model2(op.op(), a, b);
    assert(m.args[0] == a && m.args[1] == b);
    assert(readable(m, vals));
    assert(slot(vals, m.args[0]) is Some);
    assert(slot(vals, m.args[1]) is Some);
    let vs = operand_values(m, vals);
    assert(vs[0] == slot(vals, a).unwrap());
    assert(vs[1] == slot(vals, b).unwrap());
}

/// Every value of the frame but a phi is what its instruction computes.
#[verifier::opaque]
spec fn settled(f: Function, vals: Frame, args: Seq<RtValue>, fs: FloatSem) -> bool {
    forall|v: int|
        #![trigger vals[v]]
        0 <= v < vals.len() && v < f.insts@.len() && vals[v] is Some && !(f.inst(v).op is Phi)
            ==> eval_inst(f.inst(v), vals, None, args, fs) == vals[v]
}

/// What two chains joined compute.
proof fn lemma_join_value(
    op: AssocOp,
    a: Value,
    b: Value,
    ca: Chain,
    cb: Chain,
    x: i64,
    vals: Frame,
    prev: Option<Block>,
    args: Seq<RtValue>,
    fs: FloatSem,
)
    requires
        eval_inst(model2(op.op(), a, b), vals, prev, args, fs) == Some(RtValue::I64(x)),
        all_integers(vals, ca.leaves),
        all_integers(vals, cb.leaves),
        slot(vals, a) == Some(RtValue::I64(wrap(total(op, integers(vals, ca.leaves))))),
        slot(vals, b) == Some(RtValue::I64(wrap(total(op, integers(vals, cb.leaves))))),
    ensures
        all_integers(vals, joined(ca, cb).leaves),
        x == wrap(total(op, integers(vals, joined(ca, cb).leaves))),
{
    lemma_assoc_eval(op, a, b, vals, prev, args, fs);
    lemma_joined_integers(vals, ca.leaves, cb.leaves);
    lemma_total_split(op, integers(vals, ca.leaves), integers(vals, cb.leaves));
    lemma_wrap_combine(
        op,
        total(op, integers(vals, ca.leaves)),
        total(op, integers(vals, cb.leaves)),
    );
}

/// A chain computes the total of its operands.
proof fn lemma_chain_value(
    f: Function,
    uses: Seq<Use>,
    op: AssocOp,
    v: Value,
    fuel: nat,
    vals: Frame,
    args: Seq<RtValue>,
    fs: FloatSem,
)
    requires
        settled(f, vals, args, fs),
        slot(vals, v) matches Some(RtValue::I64(_)),
    ensures
        all_integers(vals, operand_chain(f, uses, op, v, fuel).leaves),
        slot(vals, v) == Some(
            RtValue::I64(wrap(total(op, integers(vals, operand_chain(f, uses, op, v, fuel).leaves)))),
        ),
    decreases fuel,
{
    reveal(settled);
    let x = slot(vals, v).unwrap()->I64_0;
    if fuel > 0 && assoc_op(f, v) == Some(op) && use_count(uses, v) == 1 {
        let m = f.inst(v.0 as int);
        crate::opt::keep::lemma_shape(f, v.0 as int);
        let a = m.args[0];
        let b = m.args[1];
        assert(m.args =~= seq![a, b]);
        assert(m == model2(op.op(), a, b));
        assert(vals[v.0 as int] is Some);
        lemma_assoc_operands(op, a, b, x, vals, None, args, fs);
        lemma_chain_value(f, uses, op, a, (fuel - 1) as nat, vals, args, fs);
        lemma_chain_value(f, uses, op, b, (fuel - 1) as nat, vals, args, fs);
        lemma_join_value(
            op,
            a,
            b,
            operand_chain(f, uses, op, a, (fuel - 1) as nat),
            operand_chain(f, uses, op, b, (fuel - 1) as nat),
            x,
            vals,
            None,
            args,
            fs,
        );
    } else {
        let xs = integers(vals, seq![v]);
        assert(xs =~= seq![x]);
        assert(xs.drop_last() =~= Seq::empty());
        assert(total(op, xs.drop_last()) == total(op, Seq::empty()));
        lemma_wrap_id(x);
    }
}

/// The last link of a chain computes the total of the operands.
proof fn lemma_root_value(
    f: Function,
    uses: Seq<Use>,
    op: AssocOp,
    v: Value,
    x: i64,
    vals: Frame,
    prev: Option<Block>,
    args: Seq<RtValue>,
    fs: FloatSem,
)
    requires
        settled(f, vals, args, fs),
        assoc_op(f, v) == Some(op),
        eval_inst(f.inst(v.0 as int), vals, prev, args, fs) == Some(RtValue::I64(x)),
    ensures
        all_integers(vals, chain_of(f, uses, op, v).leaves),
        x == wrap(total(op, integers(vals, chain_of(f, uses, op, v).leaves))),
{
    let m = f.inst(v.0 as int);
    crate::opt::keep::lemma_shape(f, v.0 as int);
    let a = m.args[0];
    let b = m.args[1];
    assert(m.args =~= seq![a, b]);
    assert(m == model2(op.op(), a, b));
    let fuel = f.insts@.len();
    lemma_assoc_operands(op, a, b, x, vals, prev, args, fs);
    lemma_chain_value(f, uses, op, a, fuel, vals, args, fs);
    lemma_chain_value(f, uses, op, b, fuel, vals, args, fs);
    lemma_join_value(
        op,
        a,
        b,
        operand_chain(f, uses, op, a, fuel),
        operand_chain(f, uses, op, b, fuel),
        x,
        vals,
        prev,
        args,
        fs,
    );
}

/// The new instructions of `g` are `code`, and the frame holds what they
/// compute.
spec fn tree_settled(
    g: Function,
    n: int,
    code: Seq<InstModel>,
    vals: Frame,
    args: Seq<RtValue>,
    fs: FloatSem,
) -> bool {
    forall|i: int|
        #![trigger code[i]]
        0 <= i < code.len() ==> n + i < vals.len() && eval_inst(code[i], vals, None, args, fs)
            == vals[n + i]
}

/// A tree computes the total of its leaves.
proof fn lemma_tree_value(
    g: Function,
    leaves: Seq<Value>,
    op: AssocOp,
    n: int,
    vals: Frame,
    args: Seq<RtValue>,
    fs: FloatSem,
)
    requires
        leaves.len() >= 1,
        0 <= n,
        n + leaves.len() <= u32::MAX,
        all_integers(vals, leaves),
        tree_settled(g, n, tree(leaves, op, n).0, vals, args, fs),
    ensures
        slot(vals, tree(leaves, op, n).1) == Some(
            RtValue::I64(wrap(total(op, integers(vals, leaves)))),
        ),
    decreases leaves.len(),
{
    if leaves.len() == 1 {
        let x = slot(vals, leaves[0]).unwrap()->I64_0;
        let xs = integers(vals, leaves);
        assert(xs =~= seq![x]);
        assert(xs.drop_last() =~= Seq::empty());
        assert(total(op, xs.drop_last()) == total(op, Seq::empty()));
        lemma_wrap_id(x);
        assert(slot(vals, leaves[0]) is Some);
    } else {
        let mid = (leaves.len() / 2) as int;
        let front = leaves.take(mid);
        let back = leaves.skip(mid);
        let (left, a) = tree(front, op, n);
        let (right, b) = tree(back, op, n + left.len());
        let code = tree(leaves, op, n).0;
        lemma_tree_len(front, op, n);
        lemma_tree_len(back, op, n + left.len());
        assert(all_integers(vals, front)) by {
            assert forall|i: int| #![trigger front[i]] 0 <= i < front.len() implies slot(
                vals,
                front[i],
            ) matches Some(RtValue::I64(_)) by {
                assert(front[i] == leaves[i]);
            }
        }
        assert(all_integers(vals, back)) by {
            assert forall|i: int| #![trigger back[i]] 0 <= i < back.len() implies slot(
                vals,
                back[i],
            ) matches Some(RtValue::I64(_)) by {
                assert(back[i] == leaves[i + mid]);
            }
        }
        assert(tree_settled(g, n, left, vals, args, fs)) by {
            assert forall|i: int| #![trigger left[i]] 0 <= i < left.len() implies n + i < vals.len()
                && eval_inst(left[i], vals, None, args, fs) == vals[n + i] by {
                assert(code[i] == left[i]);
            }
        }
        assert(tree_settled(g, n + left.len(), right, vals, args, fs)) by {
            assert forall|i: int| #![trigger right[i]] 0 <= i < right.len() implies n + left.len()
                + i < vals.len() && eval_inst(right[i], vals, None, args, fs) == vals[n + left.len()
                + i] by {
                assert(code[left.len() + i] == right[i]);
                assert(n + (left.len() + i) == n + left.len() + i);
            }
        }
        lemma_tree_value(g, front, op, n, vals, args, fs);
        lemma_tree_value(g, back, op, n + left.len(), vals, args, fs);
        let last = code.len() - 1;
        assert(code[last] == model2(op.op(), a, b));
        lemma_assoc_eval(op, a, b, vals, None, args, fs);
        lemma_total_split(op, integers(vals, front), integers(vals, back));
        lemma_wrap_combine(
            op,
            total(op, integers(vals, front)),
            total(op, integers(vals, back)),
        );
        assert(front + back =~= leaves);
        lemma_joined_integers(vals, front, back);
    }
}

/// The code of a tree runs.
proof fn lemma_tree_runs(
    g: Function,
    n: int,
    leaves: Seq<Value>,
    op: AssocOp,
    count: int,
    i: int,
    vals: Frame,
    args: Seq<RtValue>,
    fs: FloatSem,
) -> (e: Frame)
    requires
        leaves.len() >= 2,
        0 <= n,
        n + leaves.len() <= u32::MAX,
        vals.len() == n,
        all_integers(vals, leaves),
        count == tree(leaves, op, n).0.len(),
        0 <= i <= count,
        forall|j: int|
            #![trigger tree(leaves, op, n).0[j]]
            0 <= j < count ==> g.inst(n + j) == tree(leaves, op, n).0[j],
    ensures
        run_fresh(g, n, i, padded(vals, count), args, fs) == Some(e),
        e.len() == n + count,
        forall|u: int| #![trigger e[u]] 0 <= u < n ==> e[u] == vals[u],
        forall|u: int| #![trigger e[u]] n <= u < n + i ==> e[u] matches Some(RtValue::I64(_)),
    decreases i,
{
    let code = tree(leaves, op, n).0;
    if i == 0 {
        padded(vals, count)
    } else {
        let e = lemma_tree_runs(g, n, leaves, op, count, i - 1, vals, args, fs);
        lemma_tree_code(leaves, op, n);
        let m = code[i - 1];
        assert(g.inst(n + (i - 1)) == m);
        let a = m.args[0];
        let b = m.args[1];
        assert(m.args =~= seq![a, b]);
        assert(m == model2(op.op(), a, b));
        assert(slot(e, a) matches Some(RtValue::I64(_))) by {
            lemma_ref_integer(leaves, n, i - 1, vals, e, a);
        }
        assert(slot(e, b) matches Some(RtValue::I64(_))) by {
            lemma_ref_integer(leaves, n, i - 1, vals, e, b);
        }
        lemma_assoc_eval(op, a, b, e, None, args, fs);
        let y = eval_inst(m, e, None, args, fs).unwrap();
        assert(run_fresh(g, n, i, padded(vals, count), args, fs) == Some(
            e.update(n + i - 1, Some(y)),
        ));
        e.update(n + i - 1, Some(y))
    }
}

proof fn lemma_ref_integer(
    leaves: Seq<Value>,
    n: int,
    i: int,
    vals: Frame,
    e: Frame,
    a: Value,
)
    requires
        vals.len() == n,
        all_integers(vals, leaves),
        0 <= i,
        n + i <= e.len(),
        forall|u: int| #![trigger e[u]] 0 <= u < n ==> e[u] == vals[u],
        forall|u: int| #![trigger e[u]] n <= u < n + i ==> e[u] matches Some(RtValue::I64(_)),
        ref_ok(a, members(leaves), n, i),
    ensures
        slot(e, a) matches Some(RtValue::I64(_)),
{
    if members(leaves).contains(a) {
        let j = choose|j: int| 0 <= j < leaves.len() && leaves[j] == a;
        assert(slot(vals, leaves[j]) matches Some(RtValue::I64(_)));
        assert(e[a.0 as int] == vals[a.0 as int]);
    } else {
        assert(e[a.0 as int] matches Some(RtValue::I64(_)));
    }
}

// ---------------------------------------------------------------------------
// Rebuilding a chain keeps the meaning

/// A place that can use a value can use what its definition uses.
proof fn lemma_use_of_use(f: Function, v: Value, a: Value, b: int, pos: int, c: int, l: int)
    requires
        def_at(f, v.0 as int, c, l),
        dom(f, c, b),
        c == b ==> l < pos,
        use_ok(f, a.0 as int, c, l),
    ensures
        use_ok(f, a.0 as int, b, pos),
{
    let (d, k) = choose|d: int, k: int| #[trigger]
        def_at(f, a.0 as int, d, k) && dom(f, d, c) && (d == c ==> k < l);
    lemma_dom_trans(f, d, c, b);
    if d == b {
        lemma_dom_antisym(f, d, c);
    }
    assert(def_at(f, a.0 as int, d, k) && dom(f, d, b) && (d == b ==> k < pos));
}

/// A value of integer type that place `pos` of block `b` can use.
spec fn good_operand(f: Function, v: Value, b: int, pos: int) -> bool {
    use_ok(f, v.0 as int, b, pos) && v.0 < f.insts@.len() && f.types@[v.0 as int] == Ty::I64
}

/// The operands of an integer sum or product.
proof fn lemma_good_operands(f: Function, op: AssocOp, v: Value, c: int, l: int)
    requires
        healthy(f),
        def_at(f, v.0 as int, c, l),
        assoc_op(f, v) == Some(op),
    ensures
        f.inst(v.0 as int).args.len() == 2,
        good_operand(f, f.inst(v.0 as int).args[0], c, l),
        good_operand(f, f.inst(v.0 as int).args[1], c, l),
{
    let m = f.inst(v.0 as int);
    assert(f.listed(c)[l] == v);
    assert(inst_ok(f, c, l));
    crate::opt::keep::lemma_shape(f, v.0 as int);
    assert(use_ok(f, m.args[0].0 as int, c, l));
    assert(use_ok(f, m.args[1].0 as int, c, l));
    assert(f.inst(v.0 as int).args[0].0 < f.insts@.len());
    assert(f.inst(v.0 as int).args[1].0 < f.insts@.len());
}

/// The operands of a chain can be used where the chain can.
proof fn lemma_chain_usable(
    f: Function,
    uses: Seq<Use>,
    op: AssocOp,
    v: Value,
    fuel: nat,
    b: int,
    pos: int,
)
    requires
        healthy(f),
        good_operand(f, v, b, pos),
    ensures
        operand_chain(f, uses, op, v, fuel).leaves.len() >= 1,
        forall|i: int|
            #![trigger operand_chain(f, uses, op, v, fuel).leaves[i]]
            0 <= i < operand_chain(f, uses, op, v, fuel).leaves.len() ==> good_operand(
                f,
                operand_chain(f, uses, op, v, fuel).leaves[i],
                b,
                pos,
            ),
    decreases fuel,
{
    if fuel > 0 && assoc_op(f, v) == Some(op) && use_count(uses, v) == 1 {
        let m = f.inst(v.0 as int);
        let (c, l) = choose|c: int, l: int| #[trigger]
            def_at(f, v.0 as int, c, l) && dom(f, c, b) && (c == b ==> l < pos);
        lemma_good_operands(f, op, v, c, l);
        lemma_use_of_use(f, v, m.args[0], b, pos, c, l);
        lemma_use_of_use(f, v, m.args[1], b, pos, c, l);
        let x = operand_chain(f, uses, op, m.args[0], (fuel - 1) as nat);
        let y = operand_chain(f, uses, op, m.args[1], (fuel - 1) as nat);
        lemma_chain_usable(f, uses, op, m.args[0], (fuel - 1) as nat, b, pos);
        lemma_chain_usable(f, uses, op, m.args[1], (fuel - 1) as nat, b, pos);
        let all = operand_chain(f, uses, op, v, fuel).leaves;
        assert(all == x.leaves + y.leaves);
        assert forall|i: int| #![trigger all[i]] 0 <= i < all.len() implies good_operand(
            f,
            all[i],
            b,
            pos,
        ) by {
            if i < x.leaves.len() {
                assert(all[i] == x.leaves[i]);
            } else {
                assert(all[i] == y.leaves[i - x.leaves.len()]);
            }
        }
    }
}

proof fn lemma_root_usable(f: Function, uses: Seq<Use>, op: AssocOp, b: int, pos: int)
    requires
        healthy(f),
        0 <= b < f.blocks@.len(),
        0 <= pos < f.listed(b).len(),
        assoc_op(f, f.listed(b)[pos]) == Some(op),
    ensures
        forall|i: int|
            #![trigger chain_of(f, uses, op, f.listed(b)[pos]).leaves[i]]
            0 <= i < chain_of(f, uses, op, f.listed(b)[pos]).leaves.len() ==> good_operand(
                f,
                chain_of(f, uses, op, f.listed(b)[pos]).leaves[i],
                b,
                pos,
            ),
{
    let v = f.listed(b)[pos];
    let m = f.inst(v.0 as int);
    let fuel = f.insts@.len();
    assert(def_at(f, v.0 as int, b, pos));
    lemma_good_operands(f, op, v, b, pos);
    let x = operand_chain(f, uses, op, m.args[0], fuel);
    let y = operand_chain(f, uses, op, m.args[1], fuel);
    lemma_chain_usable(f, uses, op, m.args[0], fuel, b, pos);
    lemma_chain_usable(f, uses, op, m.args[1], fuel, b, pos);
    let all = chain_of(f, uses, op, v).leaves;
    assert(all == x.leaves + y.leaves);
    assert forall|i: int| #![trigger all[i]] 0 <= i < all.len() implies good_operand(
        f,
        all[i],
        b,
        pos,
    ) by {
        if i < x.leaves.len() {
            assert(all[i] == x.leaves[i]);
        } else {
            assert(all[i] == y.leaves[i - x.leaves.len()]);
        }
    }
}

/// What the state of a running function says, without the places.
proof fn lemma_settled(
    f: Function,
    v: Value,
    b: int,
    pos: int,
    rank: spec_fn(int) -> int,
    vals: Frame,
    prev: Option<Block>,
    args: Seq<RtValue>,
    fs: FloatSem,
)
    requires
        before_value(f, v, b, pos, rank, vals, prev, args, fs),
    ensures
        settled(f, vals, args, fs),
        vals.len() == f.insts@.len(),
        crate::opt::simulate::frame_typed(f, vals),
        eval_inst(f.inst(v.0 as int), vals, prev, args, fs) is Some,
{
    reveal(settled);
}

/// A sum or product of integer operands is an integer.
proof fn lemma_integer_result(
    f: Function,
    op: AssocOp,
    a: Value,
    b: Value,
    vals: Frame,
    prev: Option<Block>,
    args: Seq<RtValue>,
    fs: FloatSem,
) -> (x: i64)
    requires
        crate::opt::simulate::frame_typed(f, vals),
        a.0 < f.insts@.len(),
        b.0 < f.insts@.len(),
        vals.len() == f.insts@.len(),
        f.types@[a.0 as int] == Ty::I64,
        f.types@[b.0 as int] == Ty::I64,
        eval_inst(model2(op.op(), a, b), vals, prev, args, fs) is Some,
    ensures
        eval_inst(model2(op.op(), a, b), vals, prev, args, fs) == Some(RtValue::I64(x)),
{
    let m = model2(op.op(), a, b);
    assert(m.args[0] == a && m.args[1] == b);
    assert(readable(m, vals));
    assert(slot(vals, m.args[0]) is Some);
    assert(slot(vals, m.args[1]) is Some);
    assert(vals[a.0 as int] is Some);
    assert(vals[b.0 as int] is Some);
    let vs = operand_values(m, vals);
    assert(vs[0] == slot(vals, a).unwrap());
    assert(vs[1] == slot(vals, b).unwrap());
    assert(vs[0] is I64 && vs[1] is I64);
    eval_inst(m, vals, prev, args, fs).unwrap()->I64_0
}

/// The tree runs before the last link of the chain, which computes what it
/// did.
proof fn lemma_tree_agrees(
    f: Function,
    g: Function,
    uses: Seq<Use>,
    op: AssocOp,
    v: Value,
    vals: Frame,
    prev: Option<Block>,
    args: Seq<RtValue>,
    fs: FloatSem,
)
    requires
        args_in_range(f, v),
        assoc_op(f, v) == Some(op),
        settled(f, vals, args, fs),
        vals.len() == f.insts@.len(),
        eval_inst(f.inst(v.0 as int), vals, prev, args, fs) matches Some(RtValue::I64(_)),
        chain_of(f, uses, op, v).leaves.len() >= 2,
        f.insts@.len() + chain_of(f, uses, op, v).leaves.len() <= u32::MAX,
        g.inst(v.0 as int) == f.inst(v.0 as int),
        ({
            let n = f.insts@.len() as int;
            let code = tree(chain_of(f, uses, op, v).leaves, op, n).0;
            forall|j: int|
                #![trigger code[j]]
                0 <= j < code.len() ==> g.inst(n + j) == code[j]
        }),
    ensures
        splice_agrees(
            f,
            g,
            v,
            tree(
                chain_of(f, uses, op, v).leaves,
                op,
                f.insts@.len() as int,
            ).0.len() as int,
            vals,
            prev,
            args,
            fs,
        ),
{
    let n = f.insts@.len() as int;
    let leaves = chain_of(f, uses, op, v).leaves;
    let count = tree(leaves, op, n).0.len() as int;
    let m = f.inst(v.0 as int);
    let x = eval_inst(m, vals, prev, args, fs).unwrap()->I64_0;
    lemma_root_value(f, uses, op, v, x, vals, prev, args, fs);
    let e = lemma_tree_runs(g, n, leaves, op, count, count, vals, args, fs);
    crate::opt::keep::lemma_shape(f, v.0 as int);
    let a = m.args[0];
    let b = m.args[1];
    assert(m.args =~= seq![a, b]);
    assert(m == model2(op.op(), a, b));
    lemma_assoc_operands(op, a, b, x, vals, prev, args, fs);
    assert(e[a.0 as int] == vals[a.0 as int]);
    assert(e[b.0 as int] == vals[b.0 as int]);
    lemma_assoc_eval(op, a, b, vals, prev, args, fs);
    lemma_assoc_eval(op, a, b, e, prev, args, fs);
}

spec fn args_in_range(f: Function, v: Value) -> bool {
    forall|j: int|
        #![trigger f.inst(v.0 as int).args[j]]
        0 <= j < f.inst(v.0 as int).args.len() ==> f.inst(v.0 as int).args[j].0 < f.insts@.len()
}

/// What a chain is rebuilt to: the tree, and the last link as it was.
pub open spec fn rebuilt(f: Function, uses: Seq<Use>, op: AssocOp, v: Value) -> Reduced {
    Reduced {
        code: tree(chain_of(f, uses, op, v).leaves, op, f.insts@.len() as int).0,
        last: f.inst(v.0 as int),
    }
}

pub open spec fn new_root(f: Function, uses: Seq<Use>, op: AssocOp, v: Value) -> Value {
    tree(chain_of(f, uses, op, v).leaves, op, f.insts@.len() as int).1
}

/// Everything that the tree and the last link read from outside.
spec fn chain_values(f: Function, uses: Seq<Use>, op: AssocOp, v: Value) -> Set<Value> {
    let m = f.inst(v.0 as int);
    members(chain_of(f, uses, op, v).leaves).insert(m.args[0]).insert(m.args[1])
}

proof fn lemma_tree_int_code(f: Function, uses: Seq<Use>, op: AssocOp, v: Value)
    requires
        assoc_op(f, v) == Some(op),
        f.inst(v.0 as int).args.len() == 2,
        chain_of(f, uses, op, v).leaves.len() >= 2,
        f.insts@.len() + chain_of(f, uses, op, v).leaves.len() <= u32::MAX,
    ensures
        int_code(rebuilt(f, uses, op, v), chain_values(f, uses, op, v), f.insts@.len() as int),
{
    let n = f.insts@.len() as int;
    let leaves = chain_of(f, uses, op, v).leaves;
    let r = rebuilt(f, uses, op, v);
    let outside = chain_values(f, uses, op, v);
    lemma_tree_code(leaves, op, n);
    assert forall|i: int| #![trigger r.code[i]] 0 <= i < r.code.len() implies int_inst(
        r.code[i],
        outside,
        n,
        i,
    ) by {
        assert(ref_ok(r.code[i].args[0], members(leaves), n, i));
        assert(ref_ok(r.code[i].args[1], members(leaves), n, i));
    }
}

proof fn lemma_chain_values_usable(f: Function, uses: Seq<Use>, op: AssocOp, b: int, pos: int)
    requires
        healthy(f),
        0 <= b < f.blocks@.len(),
        0 <= pos < f.listed(b).len(),
        assoc_op(f, f.listed(b)[pos]) == Some(op),
    ensures
        usable(f, chain_values(f, uses, op, f.listed(b)[pos]), b, pos),
        f.inst(f.listed(b)[pos].0 as int).args.len() == 2,
        good_operand(f, f.inst(f.listed(b)[pos].0 as int).args[0], b, pos),
        good_operand(f, f.inst(f.listed(b)[pos].0 as int).args[1], b, pos),
{
    let v = f.listed(b)[pos];
    let leaves = chain_of(f, uses, op, v).leaves;
    let outside = chain_values(f, uses, op, v);
    assert(def_at(f, v.0 as int, b, pos));
    lemma_good_operands(f, op, v, b, pos);
    lemma_root_usable(f, uses, op, b, pos);
    assert forall|a: Value| #[trigger] outside.contains(a) implies good_operand(f, a, b, pos) by {
        if members(leaves).contains(a) {
            let i = choose|i: int| 0 <= i < leaves.len() && leaves[i] == a;
            assert(good_operand(f, leaves[i], b, pos));
        }
    }
}

/// The last link computes the same behind the tree.
proof fn lemma_agrees_at(
    f: Function,
    mid: Function,
    uses: Seq<Use>,
    op: AssocOp,
    b: int,
    pos: int,
    vals: Frame,
    prev: Option<Block>,
    args: Seq<RtValue>,
    fs: FloatSem,
)
    requires
        assoc_op(f, f.listed(b)[pos]) == Some(op),
        chain_of(f, uses, op, f.listed(b)[pos]).leaves.len() >= 2,
        f.insts@.len() + chain_of(f, uses, op, f.listed(b)[pos]).leaves.len() <= u32::MAX,
        is_reduced(f, mid, b, pos, rebuilt(f, uses, op, f.listed(b)[pos])),
        f.inst(f.listed(b)[pos].0 as int).args.len() == 2,
        good_operand(f, f.inst(f.listed(b)[pos].0 as int).args[0], b, pos),
        good_operand(f, f.inst(f.listed(b)[pos].0 as int).args[1], b, pos),
        settled(f, vals, args, fs),
        vals.len() == f.insts@.len(),
        crate::opt::simulate::frame_typed(f, vals),
        eval_inst(f.inst(f.listed(b)[pos].0 as int), vals, prev, args, fs) is Some,
    ensures
        splice_agrees(
            f,
            mid,
            f.listed(b)[pos],
            rebuilt(f, uses, op, f.listed(b)[pos]).code.len() as int,
            vals,
            prev,
            args,
            fs,
        ),
{
    let v = f.listed(b)[pos];
    let m = f.inst(v.0 as int);
    assert(m.args =~= seq![m.args[0], m.args[1]]);
    assert(m == model2(op.op(), m.args[0], m.args[1]));
    let x = lemma_integer_result(f, op, m.args[0], m.args[1], vals, prev, args, fs);
    let r = rebuilt(f, uses, op, v);
    assert(mid.inst(v.0 as int) == r.last);
    assert(args_in_range(f, v));
    lemma_tree_agrees(f, mid, uses, op, v, vals, prev, args, fs);
}

/// Putting the tree before the last link of the chain.
proof fn lemma_tree_keeps(
    f: Function,
    mid: Function,
    uses: Seq<Use>,
    op: AssocOp,
    b: int,
    pos: int,
    fs: FloatSem,
)
    requires
        healthy(f),
        0 <= b < f.blocks@.len(),
        0 <= pos < f.listed(b).len(),
        assoc_op(f, f.listed(b)[pos]) == Some(op),
        chain_of(f, uses, op, f.listed(b)[pos]).leaves.len() >= 2,
        f.insts@.len() + chain_of(f, uses, op, f.listed(b)[pos]).leaves.len() <= u32::MAX,
        is_reduced(f, mid, b, pos, rebuilt(f, uses, op, f.listed(b)[pos])),
    ensures
        healthy(mid),
        refines(f, mid, fs),
        xor_on_integers(f) ==> xor_on_integers(mid),
{
    let v = f.listed(b)[pos];
    let r = rebuilt(f, uses, op, v);
    let outside = chain_values(f, uses, op, v);
    lemma_chain_values_usable(f, uses, op, b, pos);
    lemma_tree_int_code(f, uses, op, v);
    assert forall|
        rank: spec_fn(int) -> int,
        vals: Frame,
        prev: Option<Block>,
        args: Seq<RtValue>,
    | #[trigger]
        before_value(f, v, b, pos, rank, vals, prev, args, fs) implies splice_agrees(
        f,
        mid,
        v,
        r.code.len() as int,
        vals,
        prev,
        args,
        fs,
    ) by {
        lemma_settled(f, v, b, pos, rank, vals, prev, args, fs);
        lemma_agrees_at(f, mid, uses, op, b, pos, vals, prev, args, fs);
    }
    lemma_int_splice_keeps(f, mid, b, pos, r, outside, fs);
}

/// The frame holds what the tree computes, when the last link is computed.
proof fn lemma_tree_there(
    f: Function,
    mid: Function,
    v: Value,
    b: int,
    pos: int,
    r: Reduced,
    rank: spec_fn(int) -> int,
    vals: Frame,
    prev: Option<Block>,
    args: Seq<RtValue>,
    fs: FloatSem,
)
    requires
        is_reduced(f, mid, b, pos, r),
        before_value(mid, v, b, pos + r.code.len(), rank, vals, prev, args, fs),
        forall|i: int| #![trigger r.code[i]] 0 <= i < r.code.len() ==> !(r.code[i].op is Phi),
    ensures
        tree_settled(mid, f.insts@.len() as int, r.code, vals, args, fs),
{
    let n = f.insts@.len() as int;
    assert forall|i: int| #![trigger r.code[i]] 0 <= i < r.code.len() implies n + i < vals.len()
        && eval_inst(r.code[i], vals, None, args, fs) == vals[n + i] by {
        lemma_fresh_there(f, mid, v, b, pos, r, i, rank, vals, prev, args, fs);
    }
}

/// The root of the tree stands for the last link at its place.
proof fn lemma_stands_at(
    f: Function,
    mid: Function,
    uses: Seq<Use>,
    op: AssocOp,
    v: Value,
    vals: Frame,
    prev: Option<Block>,
    args: Seq<RtValue>,
    fs: FloatSem,
)
    requires
        assoc_op(f, v) == Some(op),
        chain_of(f, uses, op, v).leaves.len() >= 2,
        f.insts@.len() + chain_of(f, uses, op, v).leaves.len() <= u32::MAX,
        f.inst(v.0 as int).args.len() == 2,
        settled(f, vals, args, fs),
        tree_settled(
            mid,
            f.insts@.len() as int,
            rebuilt(f, uses, op, v).code,
            vals,
            args,
            fs,
        ),
        eval_inst(f.inst(v.0 as int), vals, prev, args, fs) matches Some(RtValue::I64(_)),
    ensures
        slot(vals, new_root(f, uses, op, v)) == eval_inst(
            f.inst(v.0 as int),
            vals,
            prev,
            args,
            fs,
        ),
{
    let n = f.insts@.len() as int;
    let leaves = chain_of(f, uses, op, v).leaves;
    let x = eval_inst(f.inst(v.0 as int), vals, prev, args, fs).unwrap()->I64_0;
    lemma_root_value(f, uses, op, v, x, vals, prev, args, fs);
    lemma_tree_value(mid, leaves, op, n, vals, args, fs);
}

/// What of the old instruction carries over.
proof fn lemma_last_link(f: Function, mid: Function, b: int, pos: int, r: Reduced, op: AssocOp)
    requires
        is_reduced(f, mid, b, pos, r),
        assoc_op(f, f.listed(b)[pos]) == Some(op),
        r.last == f.inst(f.listed(b)[pos].0 as int),
        f.types@.len() == f.insts@.len(),
        f.inst(f.listed(b)[pos].0 as int).args.len() == 2,
        good_operand(f, f.inst(f.listed(b)[pos].0 as int).args[0], b, pos),
        good_operand(f, f.inst(f.listed(b)[pos].0 as int).args[1], b, pos),
    ensures
        ({
            let m = f.inst(f.listed(b)[pos].0 as int);
            &&& mid.inst(f.listed(b)[pos].0 as int) == m
            &&& m == model2(op.op(), m.args[0], m.args[1])
            &&& m.args[0].0 < mid.insts@.len()
            &&& m.args[1].0 < mid.insts@.len()
            &&& mid.types@[m.args[0].0 as int] == Ty::I64
            &&& mid.types@[m.args[1].0 as int] == Ty::I64
        }),
{
    let m = f.inst(f.listed(b)[pos].0 as int);
    assert(m.args =~= seq![m.args[0], m.args[1]]);
    assert(mid.types@[m.args[0].0 as int] == f.types@[m.args[0].0 as int]);
    assert(mid.types@[m.args[1].0 as int] == f.types@[m.args[1].0 as int]);
}

/// In the rebuilt function, the root of the tree stands for the last link of
/// the chain.
proof fn lemma_tree_stands(
    f: Function,
    mid: Function,
    uses: Seq<Use>,
    op: AssocOp,
    b: int,
    pos: int,
    fs: FloatSem,
)
    requires
        healthy(f),
        crate::verify::listing_ok(mid),
        0 <= b < f.blocks@.len(),
        0 <= pos < f.listed(b).len(),
        assoc_op(f, f.listed(b)[pos]) == Some(op),
        chain_of(f, uses, op, f.listed(b)[pos]).leaves.len() >= 2,
        f.insts@.len() + chain_of(f, uses, op, f.listed(b)[pos]).leaves.len() <= u32::MAX,
        is_reduced(f, mid, b, pos, rebuilt(f, uses, op, f.listed(b)[pos])),
    ensures
        stands_for(mid, f.listed(b)[pos], new_root(f, uses, op, f.listed(b)[pos]), fs),
{
    let v = f.listed(b)[pos];
    let count = rebuilt(f, uses, op, v).code.len() as int;
    let root = new_root(f, uses, op, v);
    lemma_places(f, mid, b, pos, count);
    assert(def_at(mid, v.0 as int, b, pos + count));
    lemma_chain_values_usable(f, uses, op, b, pos);
    let m = f.inst(v.0 as int);
    let r = rebuilt(f, uses, op, v);
    lemma_last_link(f, mid, b, pos, r, op);
    lemma_tree_code(chain_of(f, uses, op, v).leaves, op, f.insts@.len() as int);
    assert forall|i: int| #![trigger r.code[i]] 0 <= i < r.code.len() implies !(
    r.code[i].op is Phi) by {
        assert(r.code[i].op == op.op());
    }
    assert forall|
        b1: int,
        k1: int,
        rank: spec_fn(int) -> int,
        vals: Frame,
        prev: Option<Block>,
        args: Seq<RtValue>,
    | #[trigger]
        before_value(mid, v, b1, k1, rank, vals, prev, args, fs) implies slot(vals, root) is Some
        && same(
        eval_inst(mid.inst(v.0 as int), vals, prev, args, fs).unwrap(),
        slot(vals, root).unwrap(),
    ) by {
        assert(def_at(mid, v.0 as int, b1, k1));
        assert(b1 == b && k1 == pos + count);
        lemma_settled(mid, v, b1, k1, rank, vals, prev, args, fs);
        lemma_settled_before(f, mid, v, b, pos, r, vals, args, fs);
        lemma_tree_there(f, mid, v, b, pos, r, rank, vals, prev, args, fs);
        let x = lemma_integer_result(mid, op, m.args[0], m.args[1], vals, prev, args, fs);
        lemma_stands_at(f, mid, uses, op, v, vals, prev, args, fs);
    }
}

/// The root of the tree is computed just before the last link of the chain.
proof fn lemma_tree_replaces(
    f: Function,
    mid: Function,
    uses: Seq<Use>,
    op: AssocOp,
    b: int,
    pos: int,
)
    requires
        healthy(f),
        valid(mid),
        0 <= b < f.blocks@.len(),
        0 <= pos < f.listed(b).len(),
        assoc_op(f, f.listed(b)[pos]) == Some(op),
        chain_of(f, uses, op, f.listed(b)[pos]).leaves.len() >= 2,
        f.insts@.len() + chain_of(f, uses, op, f.listed(b)[pos]).leaves.len() <= u32::MAX,
        is_reduced(f, mid, b, pos, rebuilt(f, uses, op, f.listed(b)[pos])),
    ensures
        may_replace(mid, f.listed(b)[pos], new_root(f, uses, op, f.listed(b)[pos])),
        new_root(f, uses, op, f.listed(b)[pos]).0 < mid.insts@.len(),
{
    let v = f.listed(b)[pos];
    let n = f.insts@.len() as int;
    let leaves = chain_of(f, uses, op, v).leaves;
    let code = rebuilt(f, uses, op, v).code;
    let count = code.len() as int;
    let root = new_root(f, uses, op, v);
    lemma_tree_len(leaves, op, n);
    assert(root == nth(n, count - 1));
    lemma_places(f, mid, b, pos, count);
    assert(def_at(mid, v.0 as int, b, pos + count));
    assert(def_at(mid, n + (count - 1), b, pos + (count - 1)));
    assert(mid.types@[v.0 as int] == f.types@[v.0 as int]);
    assert(code[count - 1] == code[count - 1]);
    assert(mid.types@[f.types@.len() + (count - 1)] == Ty::I64);
    assert forall|b1: int, k1: int| #[trigger] def_at(mid, v.0 as int, b1, k1) implies use_ok(
        mid,
        root.0 as int,
        b1,
        k1,
    ) && root.0 < mid.types@.len() && mid.types@[root.0 as int] == mid.types@[v.0 as int] by {
        assert(b1 == b && k1 == pos + count);
        assert(def_at(mid, root.0 as int, b, pos + (count - 1)) && dom(mid, b, b) && (b == b ==> pos
            + (count - 1) < pos + count));
    }
}

proof fn lemma_places(f: Function, mid: Function, b: int, pos: int, count: int)
    requires
        is_spliced(f, mid, b, pos, count),
    ensures
        def_at(mid, f.listed(b)[pos].0 as int, b, pos + count),
        forall|i: int|
            0 <= i < count ==> #[trigger] def_at(mid, f.insts@.len() + i, b, pos + i),
{
    let n = f.insts@.len() as int;
    let lf = f.listed(b);
    let front = lf.take(pos) + fresh(n, count);
    assert(mid.listed(b) == front + lf.skip(pos));
    assert(mid.listed(b)[pos + count] == lf[pos]);
    assert forall|i: int| 0 <= i < count implies #[trigger] def_at(mid, n + i, b, pos + i) by {
        assert(mid.listed(b)[pos + i] == fresh(n, count)[i]);
    }
}

/// The frame of the rebuilt function fits the instructions of the old one.
proof fn lemma_settled_before(
    f: Function,
    mid: Function,
    v: Value,
    b: int,
    pos: int,
    r: Reduced,
    vals: Frame,
    args: Seq<RtValue>,
    fs: FloatSem,
)
    requires
        is_reduced(f, mid, b, pos, r),
        v == f.listed(b)[pos],
        r.last == f.inst(v.0 as int),
        settled(mid, vals, args, fs),
    ensures
        settled(f, vals, args, fs),
{
    reveal(settled);
    assert forall|u: int|
        #![trigger vals[u]]
        0 <= u < vals.len() && u < f.insts@.len() && vals[u] is Some && !(f.inst(u).op is Phi)
            implies eval_inst(f.inst(u), vals, None, args, fs) == vals[u] by {
        if u != v.0 {
            assert(mid.insts@[u]@ == f.insts@[u]@);
        }
        assert(mid.inst(u) == f.inst(u));
    }
}

/// The values of the tree are there when the last link is computed.
proof fn lemma_fresh_there(
    f: Function,
    mid: Function,
    v: Value,
    b: int,
    pos: int,
    r: Reduced,
    i: int,
    rank: spec_fn(int) -> int,
    vals: Frame,
    prev: Option<Block>,
    args: Seq<RtValue>,
    fs: FloatSem,
)
    requires
        is_reduced(f, mid, b, pos, r),
        before_value(mid, v, b, pos + r.code.len(), rank, vals, prev, args, fs),
        0 <= i < r.code.len(),
        !(r.code[i].op is Phi),
    ensures
        f.insts@.len() + i < vals.len(),
        eval_inst(r.code[i], vals, None, args, fs) == vals[f.insts@.len() + i],
{
    let n = f.insts@.len() as int;
    lemma_places(f, mid, b, pos, r.code.len() as int);
    assert(def_at(mid, n + i, b, pos + i));
    assert(vals[mid.listed(b)[pos + i].0 as int] is Some);
    assert(mid.inst(n + i) == r.code[i]);
}

/// Rebuilding the chain that ends at place `pos` of block `b`.
pub proof fn lemma_rebuild_keeps(
    f: Function,
    mid: Function,
    g: Function,
    uses: Seq<Use>,
    op: AssocOp,
    b: int,
    pos: int,
    fs: FloatSem,
)
    requires
        tame(f),
        0 <= b < f.blocks@.len(),
        0 <= pos < f.listed(b).len(),
        assoc_op(f, f.listed(b)[pos]) == Some(op),
        rebuilds(f, uses, f.listed(b)[pos]),
        is_reduced(f, mid, b, pos, rebuilt(f, uses, op, f.listed(b)[pos])),
        is_subst(mid, g, f.listed(b)[pos], new_root(f, uses, op, f.listed(b)[pos])),
    ensures
        tame(g),
        refines(f, g, fs),
{
    let v = f.listed(b)[pos];
    let root = new_root(f, uses, op, v);
    lemma_tree_keeps(f, mid, uses, op, b, pos, fs);
    lemma_tree_stands(f, mid, uses, op, b, pos, fs);
    lemma_tree_replaces(f, mid, uses, op, b, pos);
    lemma_subst_keeps(mid, g, v, root, fs);
    lemma_refines_trans(f, mid, g, fs);
    assert forall|i: int|
        #![trigger g.inst(i)]
        0 <= i < g.insts@.len() && g.inst(i).op is Xor implies g.types@[i] != Ty::Bool by {
        assert(g.insts@[i]@ == crate::ir::subst_inst(mid.insts@[i]@, v, root));
        assert(mid.inst(i).op is Xor);
    }
}

// ---------------------------------------------------------------------------
// The pass

/// The pass has come to place `pos` of block `b`.
pub struct Spot {
    pub f: Function,
    pub b: int,
    pub pos: int,
}

/// The place holds the last link of a chain that is worth rebuilding.
pub open spec fn rebuildable(uses: Seq<Use>, s: Spot) -> bool {
    s.pos < s.f.listed(s.b).len() && rebuilds(s.f, uses, s.f.listed(s.b)[s.pos])
}

/// `g` is `f` with the chain at place `pos` of block `b` rebuilt by way of
/// `mid`: the tree before the last link, then the uses of the link redirected
/// to the root.
pub open spec fn rebuilt_through(
    uses: Seq<Use>,
    f: Function,
    mid: Function,
    g: Function,
    b: int,
    pos: int,
) -> bool {
    let v = f.listed(b)[pos];
    match assoc_op(f, v) {
        Some(op) => is_reduced(f, mid, b, pos, rebuilt(f, uses, op, v)) && is_subst(
            mid,
            g,
            v,
            new_root(f, uses, op, v),
        ),
        None => false,
    }
}

pub open spec fn rebuilt_by(
    uses: Seq<Use>,
    f: Function,
    g: Function,
    b: int,
    pos: int,
) -> bool {
    exists|mid: Function| rebuilt_through(uses, f, mid, g, b, pos)
}

/// How many operands the chain at the place has.
pub open spec fn chain_len(uses: Seq<Use>, f: Function, v: Value) -> nat {
    match assoc_op(f, v) {
        Some(op) => chain_of(f, uses, op, v).leaves.len(),
        None => 0,
    }
}

/// The pass takes each place in turn.
pub open spec fn rebuild_step(uses: Seq<Use>, s: Spot, t: Spot) -> bool {
    if s.pos >= s.f.listed(s.b).len() {
        t == Spot { f: s.f, b: s.b + 1, pos: 0 }
    } else if rebuildable(uses, s) {
        &&& rebuilt_by(uses, s.f, t.f, s.b, s.pos)
        &&& t.b == s.b
        &&& t.pos == s.pos + chain_len(uses, s.f, s.f.listed(s.b)[s.pos])
    } else {
        t == Spot { f: s.f, b: s.b, pos: s.pos + 1 }
    }
}

/// Step `i` of `h`.
pub open spec fn linked(uses: Seq<Use>, h: Seq<Spot>, i: int) -> bool {
    rebuild_step(uses, h[i], h[i + 1])
}

/// `h` leads from `f` to `g`, through all places of all blocks. What counts
/// as a use is what was one at the start.
pub open spec fn rebuild_steps(f: Function, g: Function, h: Seq<Spot>) -> bool {
    let uses = all_uses(f, f.blocks@.len());
    &&& h.len() > 0
    &&& h[0] == Spot { f, b: 0, pos: 0 }
    &&& h[h.len() - 1].f == g
    &&& h[h.len() - 1].b == f.blocks@.len()
    &&& forall|i: int| 0 <= i < h.len() - 1 ==> #[trigger] linked(uses, h, i)
}

/// Some chain on the way was rebuilt.
pub open spec fn rebuilt_any(uses: Seq<Use>, h: Seq<Spot>) -> bool {
    exists|i: int| 0 <= i < h.len() - 1 && #[trigger] rebuildable(uses, h[i])
}

proof fn lemma_extend(uses: Seq<Use>, h: Seq<Spot>, t: Spot)
    requires
        h.len() > 0,
        rebuild_step(uses, h[h.len() - 1], t),
        forall|i: int| 0 <= i < h.len() - 1 ==> #[trigger] linked(uses, h, i),
    ensures
        forall|i: int| 0 <= i < h.len() ==> #[trigger] linked(uses, h.push(t), i),
        rebuilt_any(uses, h.push(t)) <==> rebuilt_any(uses, h) || rebuildable(
            uses,
            h[h.len() - 1],
        ),
{
    let g = h.push(t);
    assert forall|i: int| 0 <= i < h.len() implies #[trigger] linked(uses, g, i) by {
        if i < h.len() - 1 {
            assert(linked(uses, h, i));
            assert(h[i] == g[i] && h[i + 1] == g[i + 1]);
        } else {
            assert(g[i] == h[h.len() - 1]);
            assert(g[i + 1] == t);
        }
    }
    if rebuilt_any(uses, h) {
        let i = choose|i: int| 0 <= i < h.len() - 1 && #[trigger] rebuildable(uses, h[i]);
        assert(g[i] == h[i]);
        assert(rebuildable(uses, g[i]));
    }
    if rebuildable(uses, h[h.len() - 1]) {
        assert(g[h.len() - 1] == h[h.len() - 1]);
        assert(rebuildable(uses, g[h.len() - 1]));
    }
    if rebuilt_any(uses, g) {
        let i = choose|i: int| 0 <= i < g.len() - 1 && #[trigger] rebuildable(uses, g[i]);
        assert(g[i] == h[i]);
        if i < h.len() - 1 {
            assert(rebuildable(uses, h[i]));
        }
    }
}

/// The chain that ends in `v`, if it is to be rebuilt.
fn try_rebuild(f: &Function, v: Value, table: &UseTable) -> (r: Option<(AssocOp, Vec<Value>)>)
    requires
        f.insts@.len() <= u32::MAX,
    ensures
        forall|uses: Seq<Use>| #[trigger]
            table.holds(uses) ==> match r {
                Some((op, leaves)) => rebuilds(*f, uses, v) && assoc_op(*f, v) == Some(op)
                    && leaves@ == chain_of(*f, uses, op, v).leaves,
                None => !rebuilds(*f, uses, v),
            },
{
    let op: AssocOp = match assoc_i64_op(f, v) {
        Some(op) => op,
        None => return None,
    };
    match table.sole_consumer(v) {
        Some(parent) => {
            if assoc_i64_op(f, parent) == Some(op) {
                return None;
            }
        },
        None => {},
    }
    let (leaves, depth): (Vec<Value>, u64) = flatten(f, v, op, table);
    if leaves.len() < 4 || leaves.len() > u32::MAX as usize - f.insts.len() {
        return None;
    }
    let balanced: u32 = tree_depth(leaves.len());
    proof {
        assert forall|d: nat| #[trigger]
            is_tree_depth(leaves@.len(), d) implies d == balanced by {
            lemma_depth_unique(leaves@.len(), d, balanced as nat);
        }
    }
    if balanced as u64 >= depth {
        assert(is_tree_depth(leaves@.len(), balanced as nat));
        return None;
    }
    Some((op, leaves))
}

/// Rebuilds the chain that ends at place `pos` of the block.
fn rebuild(f: &mut Function, block: Block, pos: usize, op: AssocOp, leaves: Vec<Value>)
    requires
        in_tables(*old(f)),
        block.0 < old(f).blocks@.len(),
        pos < old(f).listed(block.0 as int).len(),
        assoc_op(*old(f), old(f).listed(block.0 as int)[pos as int]) == Some(op),
        leaves@.len() >= 4,
        old(f).insts@.len() + leaves@.len() <= u32::MAX,
    ensures
        in_tables(*final(f)),
        final(f).blocks@.len() == old(f).blocks@.len(),
        final(f).listed(block.0 as int).len() == old(f).listed(block.0 as int).len() + leaves@.len()
            - 1,
        forall|uses: Seq<Use>|
            leaves@ == (#[trigger] chain_of(
                *old(f),
                uses,
                op,
                old(f).listed(block.0 as int)[pos as int],
            )).leaves ==> rebuilt_by(uses, *old(f), *final(f), block.0 as int, pos as int),
        forall|uses: Seq<Use>|
            leaves@ == (#[trigger] chain_of(
                *old(f),
                uses,
                op,
                old(f).listed(block.0 as int)[pos as int],
            )).leaves && rebuilds(
                *old(f),
                uses,
                old(f).listed(block.0 as int)[pos as int],
            ) ==> keeps_always(*old(f), *final(f)),
{
    let ghost start = *f;
    let ghost b = block.0 as int;
    let v: Value = f.blocks[block.0 as usize].insts[pos];
    assert(start.listed(b)[pos as int] == v);
    let last: Inst = copy_inst(&f.insts[v.0 as usize]);
    let n: usize = f.insts.len();
    let (code, root): (Vec<Inst>, Value) = build_balanced(&leaves, 0, leaves.len(), op, n);
    let ghost r = Reduced { code: code_of(code@), last: last@ };
    proof {
        assert(leaves@.subrange(0, leaves@.len() as int) =~= leaves@);
        lemma_tree_len(leaves@, op, n as int);
        assert(code_of(code@).len() == code@.len());
    }
    splice(f, block, pos, code, last);
    let ghost mid = *f;
    proof {
        lemma_in_tables(start, mid, b, pos as int, r);
    }
    replace_value_everywhere(f, v, root);
    proof {
        assert(f.blocks@[b].insts == mid.blocks@[b].insts);
        assert(in_tables(*f)) by {
            assert forall|c: int, i: int|
                #![trigger f.listed(c)[i]]
                0 <= c < f.blocks@.len() && 0 <= i < f.listed(c).len() implies f.listed(c)[i].0
                < f.insts@.len() by {
                assert(f.blocks@[c].insts == mid.blocks@[c].insts);
                assert(mid.listed(c)[i].0 < mid.insts@.len());
            }
        }
        assert forall|uses: Seq<Use>|
            leaves@ == (#[trigger] chain_of(start, uses, op, v)).leaves implies rebuilt_by(
            uses,
            start,
            *f,
            b,
            pos as int,
        ) by {
            assert(r == rebuilt(start, uses, op, v));
            assert(rebuilt_through(uses, start, mid, *f, b, pos as int));
        }
        assert forall|uses: Seq<Use>|
            leaves@ == (#[trigger] chain_of(start, uses, op, v)).leaves && rebuilds(
                start,
                uses,
                v,
            ) implies keeps_always(start, *f) by {
            assert(r == rebuilt(start, uses, op, v));
            lemma_rebuild_always(start, mid, *f, uses, op, b, pos as int);
        }
    }
}

proof fn lemma_rebuild_always(
    f: Function,
    mid: Function,
    g: Function,
    uses: Seq<Use>,
    op: AssocOp,
    b: int,
    pos: int,
)
    requires
        0 <= b < f.blocks@.len(),
        0 <= pos < f.listed(b).len(),
        assoc_op(f, f.listed(b)[pos]) == Some(op),
        rebuilds(f, uses, f.listed(b)[pos]),
        is_reduced(f, mid, b, pos, rebuilt(f, uses, op, f.listed(b)[pos])),
        is_subst(mid, g, f.listed(b)[pos], new_root(f, uses, op, f.listed(b)[pos])),
    ensures
        keeps_always(f, g),
{
    reveal(keeps_always);
    if tame(f) {
        assert forall|fs: FloatSem| #[trigger] refines(f, g, fs) by {
            lemma_rebuild_keeps(f, mid, g, uses, op, b, pos, fs);
        }
        lemma_rebuild_keeps(
            f,
            mid,
            g,
            uses,
            op,
            b,
            pos,
            |op: FloatOp, a: u64, b: u64, c: u64| 0u64,
        );
    }
}

impl Pass for Reassociate {
    open spec fn ready(&self) -> bool {
        true
    }

    open spec fn keeps_meaning(&self, fs: FloatSem) -> bool {
        true
    }

    open spec fn title(&self) -> Seq<char> {
        "reassoc"@
    }

    open spec fn does(&self, before: Function, after: Function, changed: bool) -> bool {
        exists|h: Seq<Spot>| #[trigger]
            rebuild_steps(before, after, h) && (changed <==> rebuilt_any(
                all_uses(before, before.blocks@.len()),
                h,
            ))
    }

    fn name(&self) -> (r: &'static str) {
        "reassoc"
    }

    fn run(&mut self, f: &mut Function) -> (changed: bool)
        ensures
            exists|h: Seq<Spot>|
                #[trigger] rebuild_steps(*old(f), *final(f), h) && (changed <==> rebuilt_any(
                    all_uses(*old(f), old(f).blocks@.len()),
                    h,
                )),
    {
        let ghost start = *f;
        let ghost uses = all_uses(start, start.blocks@.len());
        let ghost mut h: Seq<Spot> = seq![Spot { f: *f, b: 0, pos: 0 }];
        assert(in_tables(start));
        let table: UseTable = analyze_uses(f);
        let mut changed: bool = false;
        let mut b: usize = 0;
        let mut pos: usize = 0;
        proof {
            lemma_always_refl(start);
        }
        while b < f.blocks.len()
            invariant
                start == *old(f),
                uses == all_uses(start, start.blocks@.len()),
                table.holds(uses),
                f.blocks@.len() == start.blocks@.len(),
                start.blocks@.len() <= u32::MAX,
                in_tables(*f),
                b <= start.blocks@.len(),
                b < start.blocks@.len() ==> pos <= f.listed(b as int).len(),
                h.len() > 0,
                h[0] == (Spot { f: start, b: 0, pos: 0 }),
                h[h.len() - 1] == (Spot { f: *f, b: b as int, pos: pos as int }),
                forall|i: int| 0 <= i < h.len() - 1 ==> #[trigger] linked(uses, h, i),
                changed <==> rebuilt_any(uses, h),
                !changed ==> *f == start,
                keeps_always(start, *f),
            decreases start.blocks@.len() - b, f.listed(b as int).len() - pos,
        {
            let ghost before = *f;
            let ghost at = Spot { f: before, b: b as int, pos: pos as int };
            let len: usize = f.blocks[b].insts.len();
            if pos >= len {
                b += 1;
                pos = 0;
            } else {
                let v: Value = f.blocks[b].insts[pos];
                assert(v == before.listed(b as int)[pos as int]);
                match try_rebuild(f, v, &table) {
                    None => {
                        pos += 1;
                    },
                    Some((op, leaves)) => {
                        let count: usize = leaves.len();
                        assert(rebuilds(before, uses, v));
                        assert(leaves@ == chain_of(before, uses, op, v).leaves);
                        rebuild(f, Block(b as u32), pos, op, leaves);
                        changed = true;
                        proof {
                            crate::opt::lemma_always_trans(start, before, *f);
                            assert(rebuilt_by(uses, before, *f, b as int, pos as int));
                            assert(rebuildable(uses, at));
                        }
                        let new_len: usize = f.blocks[b].insts.len();
                        pos = pos + count;
                    },
                }
            }
            proof {
                let t = Spot { f: *f, b: b as int, pos: pos as int };
                assert(rebuild_step(uses, at, t));
                lemma_extend(uses, h, t);
                h = h.push(t);
            }
        }
        proof {
            reveal(keeps_always);
        }
        assert(rebuild_steps(*old(f), *f, h));
        changed
    }
}

} // verus!
