//! SSA construction on the fly, after Braun, Buchwald, Hack, Leissa, Mallon
//! and Zwinkau.
use crate::collections::{lists};
use crate::collections::{EdgeList, NameMap};
use crate::ir::{edge_blocks, edge_values, subst_inst, InstModel, Op};
use crate::ir::{renamed_inst, Block, BlockData, Function, Inst, Span, Terminator, Ty, Value};
use vstd::prelude::*;

verus! {

// ---------------------------------------------------------------------------
// The function as it is built

#[verifier::ext_equal]
pub struct BlockModel {
    pub insts: Seq<Value>,
    pub preds: Seq<Block>,
    pub term: Option<Terminator>,
}

/// A function as a value.
#[verifier::ext_equal]
pub struct Ir {
    pub insts: Seq<InstModel>,
    pub types: Seq<Ty>,
    pub spans: Seq<Span>,
    pub blocks: Seq<BlockModel>,
    pub entry: Block,
    pub params: Seq<(Seq<char>, Ty)>,
}

pub open spec fn ir_of(f: Function) -> Ir {
    Ir {
        insts: Seq::new(f.insts@.len(), |i: int| f.insts@[i]@),
        types: f.types@,
        spans: f.spans@,
        blocks: Seq::new(
            f.blocks@.len(),
            |b: int| BlockModel { insts: f.listed(b), preds: f.preds(b), term: f.term(b) },
        ),
        entry: f.entry,
        params: Seq::new(f.params@.len(), |i: int| (f.params@[i].0@, f.params@[i].1)),
    }
}

/// A function under construction: for every block the values of the variables
/// at its end, whether all its predecessors are known, and the phis that wait
/// for them.
#[verifier::ext_equal]
pub struct State {
    pub ir: Ir,
    pub defs: Seq<Map<Seq<char>, u32>>,
    pub sealed: Seq<bool>,
    pub pending: Seq<Map<Seq<char>, u32>>,
}

/// The value that the next instruction gets.
pub open spec fn next_value(s: State) -> Value {
    Value(s.ir.insts.len() as u32)
}

/// A new instruction at the end of a block.
pub open spec fn emitted(s: State, block: Block, m: InstModel, ty: Ty, span: Span) -> State {
    let b = block.0 as int;
    State {
        ir: Ir {
            insts: s.ir.insts.push(m),
            types: s.ir.types.push(ty),
            spans: s.ir.spans.push(span),
            blocks: s.ir.blocks.update(
                b,
                BlockModel { insts: s.ir.blocks[b].insts.push(next_value(s)), ..s.ir.blocks[b] },
            ),
            ..s.ir
        },
        ..s
    }
}

pub open spec fn phi_of(edges: Seq<(Block, Value)>) -> InstModel {
    InstModel { op: Op::Phi(edge_blocks(edges)), args: edge_values(edges) }
}

/// A new phi without operands. It stands for no place in the source.
pub open spec fn with_phi(s: State, block: Block, ty: Ty) -> State {
    emitted(s, block, phi_of(Seq::empty()), ty, Span { start: 0, end: 0 })
}

pub open spec fn written(s: State, name: Seq<char>, block: Block, v: Value) -> State {
    let b = block.0 as int;
    State { defs: s.defs.update(b, s.defs[b].insert(name, v.0)), ..s }
}

pub open spec fn awaited(s: State, name: Seq<char>, block: Block, v: Value) -> State {
    let b = block.0 as int;
    State { pending: s.pending.update(b, s.pending[b].insert(name, v.0)), ..s }
}

/// The phi gets its operands.
pub open spec fn with_operands(s: State, phi: Value, edges: Seq<(Block, Value)>) -> State {
    if s.ir.insts[phi.0 as int].op is Phi {
        State { ir: Ir { insts: s.ir.insts.update(phi.0 as int, phi_of(edges)), ..s.ir }, ..s }
    } else {
        s
    }
}

pub open spec fn renamed_defs(m: Map<Seq<char>, u32>, from: Value, to: Value) -> Map<
    Seq<char>,
    u32,
> {
    Map::new(
        |name: Seq<char>| m.dom().contains(name),
        |name: Seq<char>|
            if m[name] == from.0 {
                to.0
            } else {
                m[name]
            },
    )
}

/// Every use of a value, by an instruction or a variable, becomes a use of
/// another. Terminators and waiting phis stay.
pub open spec fn replaced(s: State, from: Value, to: Value) -> State {
    State {
        ir: Ir {
            insts: Seq::new(s.ir.insts.len(), |i: int| subst_inst(s.ir.insts[i], from, to)),
            ..s.ir
        },
        defs: Seq::new(s.defs.len(), |b: int| renamed_defs(s.defs[b], from, to)),
        ..s
    }
}

/// `v` is the only operand of the phi but itself.
pub open spec fn is_only(args: Seq<Value>, phi: Value, v: Value) -> bool {
    &&& v != phi
    &&& args.contains(v)
    &&& forall|i: int| #![trigger args[i]] 0 <= i < args.len() ==> args[i] == phi || args[i] == v
}

/// A phi with one operand, apart from itself, is replaced by that operand.
pub open spec fn without_trivial(s: State, phi: Value) -> State {
    let m = s.ir.insts[phi.0 as int];
    if m.op is Phi && exists|v: Value| is_only(m.args, phi, v) {
        replaced(s, phi, choose|v: Value| is_only(m.args, phi, v))
    } else {
        s
    }
}

// ---------------------------------------------------------------------------
// Reading variables

/// The value of a variable at the end of a block, and the function with the
/// phis that finding it took. At most `u` phis are made and `r` blocks with a
/// single predecessor are passed in a row, of `n` blocks.
pub open spec fn read(
    u: nat,
    r: nat,
    n: nat,
    s: State,
    name: Seq<char>,
    block: Block,
    ty: Ty,
) -> (Value, State)
    decreases u, r, 1nat,
{
    if s.defs[block.0 as int].dom().contains(name) {
        (Value(s.defs[block.0 as int][name]), s)
    } else {
        read_through(u, r, n, s, name, block, ty)
    }
}

/// The same where the block does not define the variable itself. A block whose
/// predecessors are not all known gets a phi that waits. One with a single
/// predecessor takes its value. Any other gets a phi, which is its value
/// before the operands are looked for, so that cycles end.
pub open spec fn read_through(
    u: nat,
    r: nat,
    n: nat,
    s: State,
    name: Seq<char>,
    block: Block,
    ty: Ty,
) -> (Value, State)
    decreases u, r, 0nat,
{
    let b = block.0 as int;
    let phi = next_value(s);
    if !s.sealed[b] {
        (phi, written(awaited(with_phi(s, block, ty), name, block, phi), name, block, phi))
    } else if s.ir.blocks[b].preds.len() == 1 {
        if r == 0 {
            (phi, s)
        } else {
            let (v, t) = read(u, (r - 1) as nat, n, s, name, s.ir.blocks[b].preds[0], ty);
            (v, written(t, name, block, v))
        }
    } else if u == 0 {
        (phi, s)
    } else {
        (
            phi,
            filled(
                (u - 1) as nat,
                n,
                written(with_phi(s, block, ty), name, block, phi),
                phi,
                block,
                name,
            ),
        )
    }
}

/// What the variable is at the end of the first `k` predecessors.
pub open spec fn gathered(
    u: nat,
    n: nat,
    s: State,
    preds: Seq<Block>,
    name: Seq<char>,
    ty: Ty,
    k: nat,
) -> (Seq<(Block, Value)>, State)
    decreases u, n + 1, k,
{
    if k == 0 {
        (Seq::empty(), s)
    } else {
        let (edges, t) = gathered(u, n, s, preds, name, ty, (k - 1) as nat);
        let (v, w) = read(u, n, n, t, name, preds[k - 1], ty);
        (edges.push((preds[k - 1], v)), w)
    }
}

/// The operands of a phi are looked for in the predecessors of its block, and
/// the phi goes if they are all the same.
pub open spec fn filled(u: nat, n: nat, s: State, phi: Value, block: Block, name: Seq<char>) -> State
    decreases u, n + 2, 0nat,
{
    let preds = s.ir.blocks[block.0 as int].preds;
    let (edges, t) = gathered(u, n, s, preds, name, s.ir.types[phi.0 as int], preds.len());
    without_trivial(with_operands(t, phi, edges), phi)
}

// ---------------------------------------------------------------------------
// What holds of a function under construction

/// The tables fit each other, and predecessors exist.
pub open spec fn shaped(s: State) -> bool {
    let n = s.ir.blocks.len();
    &&& s.defs.len() == n
    &&& s.sealed.len() == n
    &&& s.pending.len() == n
    &&& n <= u32::MAX
    &&& s.ir.types.len() == s.ir.insts.len()
    &&& s.ir.spans.len() == s.ir.insts.len()
    &&& forall|b: int, k: int|
        #![trigger s.ir.blocks[b].preds[k]]
        0 <= b < n && 0 <= k < s.ir.blocks[b].preds.len() ==> s.ir.blocks[b].preds[k].0 < n
    &&& forall|b: int, name: Seq<char>|
        #![trigger s.pending[b].dom().contains(name)]
        0 <= b < n && s.pending[b].dom().contains(name) ==> s.pending[b][name] < s.ir.insts.len()
}

/// The predecessors of every block.
pub open spec fn preds_of(s: State) -> Seq<Seq<Block>> {
    Seq::new(s.ir.blocks.len(), |b: int| s.ir.blocks[b].preds)
}

/// `rank` falls along every step from a sealed block with a single predecessor
/// to that predecessor.
pub open spec fn is_rank(sealed: Seq<bool>, preds: Seq<Seq<Block>>, rank: Seq<nat>) -> bool {
    &&& rank.len() == preds.len()
    &&& forall|b: int| #![trigger rank[b]] 0 <= b < rank.len() ==> rank[b] < rank.len()
    &&& forall|b: int|
        #![trigger preds[b]]
        0 <= b < preds.len() && sealed[b] && preds[b].len() == 1 ==> rank[preds[b][0].0 as int]
            < rank[b]
}

/// No cycle is made of blocks with a single predecessor alone: looking for a
/// variable there would not end.
pub open spec fn walks_end(s: State) -> bool {
    exists|rank: Seq<nat>| is_rank(s.sealed, preds_of(s), rank)
}

pub open spec fn choose_rank(sealed: Seq<bool>, preds: Seq<Seq<Block>>) -> Seq<nat> {
    choose|rank: Seq<nat>| is_rank(sealed, preds, rank)
}

pub open spec fn a_rank(s: State) -> Seq<nat> {
    choose_rank(s.sealed, preds_of(s))
}

/// The parts that reading a variable does not touch.
pub open spec fn same_shape(s: State, t: State) -> bool {
    &&& s.sealed == t.sealed
    &&& s.ir.entry == t.ir.entry
    &&& s.ir.params == t.ir.params
    &&& s.ir.blocks.len() == t.ir.blocks.len()
    &&& s.ir.insts.len() <= t.ir.insts.len()
    &&& s.ir.types.len() <= t.ir.types.len()
    &&& forall|b: int|
        #![trigger t.ir.blocks[b]]
        #![trigger s.ir.blocks[b]]
        0 <= b < s.ir.blocks.len() ==> t.ir.blocks[b].preds == s.ir.blocks[b].preds
            && t.ir.blocks[b].term == s.ir.blocks[b].term
    &&& forall|i: int|
        #![trigger t.ir.types[i]]
        0 <= i < s.ir.types.len() ==> t.ir.types[i] == s.ir.types[i]
}

/// How many of the first `n` blocks do not define the variable.
pub open spec fn undefined(defs: Seq<Map<Seq<char>, u32>>, name: Seq<char>, n: nat) -> nat
    decreases n,
{
    if n == 0 {
        0
    } else {
        undefined(defs, name, (n - 1) as nat) + if defs[n - 1].dom().contains(name) {
            0nat
        } else {
            1nat
        }
    }
}

/// How many phis looking for the variable can take.
pub open spec fn missing(s: State, name: Seq<char>) -> nat {
    undefined(s.defs, name, s.defs.len())
}

/// Whoever precedes a sealed block is sealed.
pub open spec fn closed_off(s: State) -> bool {
    forall|b: int, k: int|
        #![trigger s.ir.blocks[b].preds[k]]
        0 <= b < s.ir.blocks.len() && s.sealed[b] && 0 <= k < s.ir.blocks[b].preds.len()
            ==> s.sealed[s.ir.blocks[b].preds[k].0 as int]
}

/// Reading in a sealed block, with only sealed blocks before it, lets no phi
/// wait.
pub open spec fn keeps_pending(s: State, block: Block, t: State) -> bool {
    closed_off(s) && s.sealed[block.0 as int] ==> t.pending == s.pending
}

/// The phis that looking for the variable can take still fit the tables.
pub open spec fn has_room(s: State, name: Seq<char>) -> bool {
    s.ir.insts.len() + missing(s, name) <= u32::MAX
}

pub(crate) proof fn lemma_undefined_same(
    a: Seq<Map<Seq<char>, u32>>,
    b: Seq<Map<Seq<char>, u32>>,
    name: Seq<char>,
    n: nat,
)
    requires
        n <= a.len(),
        a.len() == b.len(),
        forall|i: int|
            #![trigger a[i]]
            0 <= i < n ==> a[i].dom().contains(name) == b[i].dom().contains(name),
    ensures
        undefined(a, name, n) == undefined(b, name, n),
    decreases n,
{
    if n > 0 {
        lemma_undefined_same(a, b, name, (n - 1) as nat);
        assert(a[n - 1].dom().contains(name) == b[n - 1].dom().contains(name));
    }
}

/// Defining a variable in a block that did not leaves one block fewer.
pub(crate) proof fn lemma_undefined_less(
    defs: Seq<Map<Seq<char>, u32>>,
    name: Seq<char>,
    b: int,
    v: u32,
    n: nat,
)
    requires
        0 <= b < defs.len(),
        n <= defs.len(),
    ensures
        undefined(defs.update(b, defs[b].insert(name, v)), name, n) == undefined(defs, name, n)
            - if b < n && !defs[b].dom().contains(name) {
            1int
        } else {
            0int
        },
    decreases n,
{
    if n > 0 {
        lemma_undefined_less(defs, name, b, v, (n - 1) as nat);
    }
}

pub proof fn lemma_undefined_bounded(defs: Seq<Map<Seq<char>, u32>>, name: Seq<char>, n: nat)
    ensures
        undefined(defs, name, n) <= n,
    decreases n,
{
    if n > 0 {
        lemma_undefined_bounded(defs, name, (n - 1) as nat);
    }
}

/// What reading a variable keeps and uses up.
pub open spec fn grown(s: State, t: State, name: Seq<char>) -> bool {
    &&& shaped(t)
    &&& same_shape(s, t)
    &&& forall|b: int|
        #![trigger t.defs[b]]
        0 <= b < s.defs.len() && s.defs[b].dom().contains(name) ==> t.defs[b].dom().contains(name)
    &&& missing(t, name) <= missing(s, name)
    &&& t.ir.insts.len() + missing(t, name) <= s.ir.insts.len() + missing(s, name)
}

pub(crate) proof fn lemma_grown_trans(a: State, b: State, c: State, name: Seq<char>)
    requires
        shaped(a),
        grown(a, b, name),
        grown(b, c, name),
    ensures
        grown(a, c, name),
{
    assert forall|i: int|
        #![trigger c.ir.blocks[i]]
        #![trigger a.ir.blocks[i]]
        0 <= i < a.ir.blocks.len() implies c.ir.blocks[i].preds == a.ir.blocks[i].preds
        && c.ir.blocks[i].term == a.ir.blocks[i].term by {
        assert(b.ir.blocks[i].preds == a.ir.blocks[i].preds);
    }
    assert forall|i: int|
        #![trigger c.defs[i]]
        0 <= i < a.defs.len() && a.defs[i].dom().contains(name) implies c.defs[i].dom().contains(
        name,
    ) by {
        assert(b.defs[i].dom().contains(name));
    }
    assert forall|i: int| #![trigger c.ir.types[i]] 0 <= i < a.ir.types.len() implies c.ir.types[i]
        == a.ir.types[i] by {
        assert(b.ir.types[i] == a.ir.types[i]);
    }
}

// ---------------------------------------------------------------------------
// The builder

/// Builds a function block by block.
///
/// A block is created, gets its predecessors, and is sealed. It is sealed only
/// when all its predecessors are known: that is what lets the phis that wait
/// in it get their operands.
pub struct Builder {
    pub f: Function,
    pub(crate) current_def: Vec<NameMap>,
    pub(crate) sealed: Vec<bool>,
    pub(crate) incomplete_phis: Vec<NameMap>,
    /// Where the caller is adding code. No method looks at it.
    pub cur_block: Block,
}

pub open spec fn map_views(maps: Seq<NameMap>) -> Seq<Map<Seq<char>, u32>> {
    Seq::new(maps.len(), |i: int| maps[i]@)
}

impl View for Builder {
    type V = State;

    open(crate) spec fn view(&self) -> State {
        State {
            ir: ir_of(self.f),
            defs: map_views(self.current_def@),
            sealed: self.sealed@,
            pending: map_views(self.incomplete_phis@),
        }
    }
}

pub open spec fn empty_state() -> State {
    State {
        ir: Ir {
            insts: Seq::empty(),
            types: Seq::empty(),
            spans: Seq::empty(),
            blocks: Seq::empty(),
            entry: Block(0),
            params: Seq::empty(),
        },
        defs: Seq::empty(),
        sealed: Seq::empty(),
        pending: Seq::empty(),
    }
}

/// One more block, with nothing in it.
pub open spec fn with_block(s: State) -> State {
    State {
        ir: Ir {
            blocks: s.ir.blocks.push(
                BlockModel { insts: Seq::empty(), preds: Seq::empty(), term: None },
            ),
            ..s.ir
        },
        defs: s.defs.push(Map::empty()),
        sealed: s.sealed.push(false),
        pending: s.pending.push(Map::empty()),
    }
}

pub open spec fn with_pred(s: State, block: Block, pred: Block) -> State {
    let b = block.0 as int;
    State {
        ir: Ir {
            blocks: s.ir.blocks.update(
                b,
                BlockModel { preds: s.ir.blocks[b].preds.push(pred), ..s.ir.blocks[b] },
            ),
            ..s.ir
        },
        ..s
    }
}

pub open spec fn with_term(s: State, block: Block, term: Terminator) -> State {
    let b = block.0 as int;
    State {
        ir: Ir {
            blocks: s.ir.blocks.update(
                b,
                BlockModel { term: Some(term), ..s.ir.blocks[b] },
            ),
            ..s.ir
        },
        ..s
    }
}

pub open spec fn with_param(s: State, name: Seq<char>, ty: Ty) -> State {
    State { ir: Ir { params: s.ir.params.push((name, ty)), ..s.ir }, ..s }
}

pub(crate) proof fn lemma_written_grown(s: State, name: Seq<char>, block: Block, v: Value)
    requires
        shaped(s),
        block.0 < s.ir.blocks.len(),
    ensures
        grown(s, written(s, name, block, v), name),
        missing(written(s, name, block, v), name) == missing(s, name) - if s.defs[block.0 as int].dom().contains(
            name,
        ) {
            0int
        } else {
            1int
        },
{
    lemma_undefined_less(s.defs, name, block.0 as int, v.0, s.defs.len());
    let t = written(s, name, block, v);
    assert(t.defs.len() == s.defs.len());
}

pub(crate) proof fn lemma_phi_shaped(s: State, block: Block, ty: Ty)
    requires
        shaped(s),
        block.0 < s.ir.blocks.len(),
    ensures
        shaped(with_phi(s, block, ty)),
        same_shape(s, with_phi(s, block, ty)),
        with_phi(s, block, ty).defs == s.defs,
        with_phi(s, block, ty).ir.insts.len() == s.ir.insts.len() + 1,
{
    let t = with_phi(s, block, ty);
    assert forall|b: int, k: int|
        #![trigger t.ir.blocks[b].preds[k]]
        0 <= b < t.ir.blocks.len() && 0 <= k < t.ir.blocks[b].preds.len() implies t.ir.blocks[b].preds[k].0
        < t.ir.blocks.len() by {
        assert(t.ir.blocks[b].preds == s.ir.blocks[b].preds);
        assert(s.ir.blocks[b].preds[k].0 < s.ir.blocks.len());
    }
}

pub(crate) proof fn lemma_replaced_grown(s: State, from: Value, to: Value, name: Seq<char>)
    requires
        shaped(s),
    ensures
        grown(s, replaced(s, from, to), name),
        missing(replaced(s, from, to), name) == missing(s, name),
        replaced(s, from, to).ir.insts.len() == s.ir.insts.len(),
        replaced(s, from, to).pending == s.pending,
{
    let t = replaced(s, from, to);
    lemma_undefined_same(s.defs, t.defs, name, s.defs.len());
}

impl Builder {
    /// Where the caller is adding code.
    pub open(crate) spec fn here(&self) -> Block {
        self.cur_block
    }

    /// The tables fit each other.
    pub open spec fn wf(&self) -> bool {
        shaped(self@)
    }

    pub fn new() -> (r: Builder)
        ensures
            r@ == empty_state(),
            r.wf(),
            r.here() == Block(0),
    {
        let r: Builder = Builder {
            f: Function {
                insts: Vec::new(),
                types: Vec::new(),
                spans: Vec::new(),
                blocks: Vec::new(),
                entry: Block(0),
                params: Vec::new(),
            },
            current_def: Vec::new(),
            sealed: Vec::new(),
            incomplete_phis: Vec::new(),
            cur_block: Block(0),
        };
        assert(r@ =~= empty_state());
        r
    }

    /// Makes a block.
    pub fn create_block(&mut self) -> (id: Block)
        requires
            old(self).wf(),
            old(self)@.ir.blocks.len() < u32::MAX,
        ensures
            id.0 == old(self)@.ir.blocks.len(),
            final(self)@ == with_block(old(self)@),
            final(self).wf(),
            final(self).here() == old(self).here(),
    {
        let ghost s = self@;
        let id: Block = Block(self.f.blocks.len() as u32);
        self.f.blocks.push(BlockData::default());
        self.current_def.push(NameMap::new());
        self.sealed.push(false);
        self.incomplete_phis.push(NameMap::new());
        proof {
            let t = self@;
            assert(t.defs =~= s.defs.push(t.defs[s.defs.len() as int]));
            assert(t.defs[s.defs.len() as int] =~= Map::empty());
            assert(t.pending =~= s.pending.push(t.pending[s.pending.len() as int]));
            assert(t.pending[s.pending.len() as int] =~= Map::empty());
            assert(t =~= with_block(s));
            assert forall|b: int, k: int|
                #![trigger t.ir.blocks[b].preds[k]]
                0 <= b < t.ir.blocks.len() && 0 <= k < t.ir.blocks[b].preds.len() implies t.ir.blocks[b].preds[k].0
                < t.ir.blocks.len() by {
                if b < s.ir.blocks.len() {
                    assert(t.ir.blocks[b] == s.ir.blocks[b]);
                    assert(s.ir.blocks[b].preds[k].0 < s.ir.blocks.len());
                }
            }
            assert forall|b: int, name: Seq<char>|
                #![trigger t.pending[b].dom().contains(name)]
                0 <= b < t.ir.blocks.len() && t.pending[b].dom().contains(name) implies t.pending[b][name]
                < t.ir.insts.len() by {
                if b < s.ir.blocks.len() {
                    assert(s.pending[b].dom().contains(name));
                }
            }
        }
        id
    }

    /// Makes `pred` a predecessor of a block that is not sealed yet.
    pub fn add_pred(&mut self, block: Block, pred: Block)
        requires
            old(self).wf(),
            block.0 < old(self)@.ir.blocks.len(),
            pred.0 < old(self)@.ir.blocks.len(),
            !old(self)@.sealed[block.0 as int],
        ensures
            final(self)@ == with_pred(old(self)@, block, pred),
            final(self).wf(),
            final(self).here() == old(self).here(),
    {
        let ghost s = self@;
        let data: &mut BlockData = &mut self.f.blocks[block.0 as usize];
        data.preds.push(pred);
        proof {
            let t = self@;
            assert(t =~= with_pred(s, block, pred));
            assert forall|b: int, k: int|
                #![trigger t.ir.blocks[b].preds[k]]
                0 <= b < t.ir.blocks.len() && 0 <= k < t.ir.blocks[b].preds.len() implies t.ir.blocks[b].preds[k].0
                < t.ir.blocks.len() by {
                if k < s.ir.blocks[b].preds.len() {
                    assert(s.ir.blocks[b].preds[k].0 < s.ir.blocks.len());
                }
            }
        }
    }

    /// Sets the terminator of a block.
    pub fn terminate(&mut self, block: Block, term: Terminator)
        requires
            old(self).wf(),
            block.0 < old(self)@.ir.blocks.len(),
        ensures
            final(self)@ == with_term(old(self)@, block, term),
            final(self).wf(),
            final(self).here() == old(self).here(),
    {
        let ghost s = self@;
        let data: &mut BlockData = &mut self.f.blocks[block.0 as usize];
        data.term = Some(term);
        proof {
            let t = self@;
            assert(t =~= with_term(s, block, term));
            assert forall|b: int, k: int|
                #![trigger t.ir.blocks[b].preds[k]]
                0 <= b < t.ir.blocks.len() && 0 <= k < t.ir.blocks[b].preds.len() implies t.ir.blocks[b].preds[k].0
                < t.ir.blocks.len() by {
                assert(s.ir.blocks[b].preds[k].0 < s.ir.blocks.len());
            }
        }
    }

    /// Adds an instruction to a block.
    pub fn emit(&mut self, block: Block, inst: Inst, ty: Ty, span: Span) -> (v: Value)
        requires
            old(self).wf(),
            block.0 < old(self)@.ir.blocks.len(),
            old(self)@.ir.insts.len() < u32::MAX,
        ensures
            v == next_value(old(self)@),
            final(self)@ == emitted(old(self)@, block, inst@, ty, span),
            final(self).wf(),
            final(self).here() == old(self).here(),
    {
        let ghost s = self@;
        let ghost m = inst@;
        let v: Value = Value(self.f.insts.len() as u32);
        self.f.insts.push(inst);
        self.f.types.push(ty);
        self.f.spans.push(span);
        let data: &mut BlockData = &mut self.f.blocks[block.0 as usize];
        data.insts.push(v);
        proof {
            let t = self@;
            assert(t =~= emitted(s, block, m, ty, span));
            assert forall|b: int, k: int|
                #![trigger t.ir.blocks[b].preds[k]]
                0 <= b < t.ir.blocks.len() && 0 <= k < t.ir.blocks[b].preds.len() implies t.ir.blocks[b].preds[k].0
                < t.ir.blocks.len() by {
                assert(s.ir.blocks[b].preds[k].0 < s.ir.blocks.len());
            }
        }
        v
    }

    fn new_phi(&mut self, block: Block, ty: Ty) -> (v: Value)
        requires
            old(self).wf(),
            block.0 < old(self)@.ir.blocks.len(),
            old(self)@.ir.insts.len() < u32::MAX,
        ensures
            v == next_value(old(self)@),
            final(self)@ == with_phi(old(self)@, block, ty),
            final(self).wf(),
            final(self).here() == old(self).here(),
    {
        let inst: Inst = Inst::Phi { incoming: EdgeList::new() };
        assert(inst@ =~= phi_of(Seq::empty()));
        self.emit(block, inst, ty, Span::new(0, 0))
    }

    /// Makes `value` the value of a variable at the end of a block.
    pub fn write_variable(&mut self, name: &str, block: Block, value: Value)
        requires
            old(self).wf(),
            block.0 < old(self)@.ir.blocks.len(),
        ensures
            final(self)@ == written(old(self)@, name@, block, value),
            final(self).wf(),
            final(self).here() == old(self).here(),
    {
        let ghost s = self@;
        let map: &mut NameMap = &mut self.current_def[block.0 as usize];
        map.insert(name, value.0);
        assert(self@ =~= written(s, name@, block, value));
    }

    fn await_operands(&mut self, name: &str, block: Block, phi: Value)
        requires
            old(self).wf(),
            block.0 < old(self)@.ir.blocks.len(),
            phi.0 < old(self)@.ir.insts.len(),
        ensures
            final(self)@ == awaited(old(self)@, name@, block, phi),
            final(self).wf(),
            final(self).here() == old(self).here(),
    {
        let ghost s = self@;
        let map: &mut NameMap = &mut self.incomplete_phis[block.0 as usize];
        map.insert(name, phi.0);
        proof {
            let t = self@;
            assert(t =~= awaited(s, name@, block, phi));
            assert forall|b: int, k: Seq<char>|
                #![trigger t.pending[b].dom().contains(k)]
                0 <= b < t.ir.blocks.len() && t.pending[b].dom().contains(k) implies t.pending[b][k]
                < t.ir.insts.len() by {
                if b == block.0 && k == name@ {
                } else {
                    assert(s.pending[b].dom().contains(k));
                }
            }
        }
    }

    fn set_operands(&mut self, phi: Value, incoming: EdgeList)
        requires
            old(self).wf(),
            phi.0 < old(self)@.ir.insts.len(),
        ensures
            final(self)@ == with_operands(old(self)@, phi, incoming@),
            final(self).wf(),
            final(self).here() == old(self).here(),
    {
        let ghost s = self@;
        let is_phi: bool = match &self.f.insts[phi.0 as usize] {
            Inst::Phi { .. } => true,
            _ => false,
        };
        if is_phi {
            let inst: Inst = Inst::Phi { incoming };
            assert(inst@ == phi_of(incoming@));
            self.f.insts.set(phi.0 as usize, inst);
        }
        assert(self@ =~= with_operands(s, phi, incoming@));
    }

    fn rename_defs(&mut self, b: usize, from: Value, to: Value)
        requires
            b < old(self)@.defs.len(),
            old(self).wf(),
        ensures
            final(self)@ == (State {
                defs: old(self)@.defs.update(b as int, renamed_defs(old(self)@.defs[b as int], from, to)),
                ..old(self)@
            }),
            final(self).wf(),
            final(self).here() == old(self).here(),
    {
        let ghost s = self@;
        let ghost m = s.defs[b as int];
        let list: Vec<(String, u32)> = self.current_def[b].entries();
        let mut i: usize = 0;
        while i < list.len()
            invariant
                i <= list@.len(),
                b < self.current_def@.len(),
                m == s.defs[b as int],
                b < s.defs.len(),
                shaped(s),
                s == old(self)@,
                lists(list@, m),
                self.cur_block == old(self).cur_block,
                self@ == (State { defs: s.defs.update(b as int, self@.defs[b as int]), ..s }),
                self@.defs[b as int].dom() == m.dom(),
                forall|j: int|
                    #![trigger list@[j]]
                    0 <= j < i ==> self@.defs[b as int][list@[j].0@] == renamed_defs(m, from, to)[list@[j].0@],
                forall|j: int|
                    #![trigger list@[j]]
                    i <= j < list@.len() ==> self@.defs[b as int][list@[j].0@] == m[list@[j].0@],
            decreases list@.len() - i,
        {
            let ghost before = self@;
            let name: &String = &list[i].0;
            if list[i].1 == from.0 {
                let map: &mut NameMap = &mut self.current_def[b];
                map.insert(name.as_str(), to.0);
                assert(self@.defs =~= before.defs.update(b as int, self@.defs[b as int]));
                assert(self@.defs =~= s.defs.update(b as int, self@.defs[b as int]));
                assert(self@.ir =~= before.ir);
                assert(self@.pending =~= before.pending);
                assert(self@ =~= (State { defs: s.defs.update(b as int, self@.defs[b as int]), ..s }));
                assert(self@.defs[b as int] =~= before.defs[b as int].insert(name@, to.0));
                assert(self@.defs[b as int].dom() =~= m.dom());
            }
            proof {
                assert forall|j: int| #![trigger list@[j]] 0 <= j < i + 1 implies self@.defs[b as int][list@[j].0@]
                    == renamed_defs(m, from, to)[list@[j].0@] by {
                    if j < i {
                        assert(list@[j].0@ != list@[i as int].0@);
                    }
                }
                assert forall|j: int| #![trigger list@[j]] i + 1 <= j < list@.len() implies self@.defs[b as int][list@[j].0@]
                    == m[list@[j].0@] by {
                    assert(list@[i as int].0@ != list@[j].0@);
                }
            }
            i += 1;
        }
        proof {
            let now = self@.defs[b as int];
            assert forall|name: Seq<char>| now.dom().contains(name) implies now[name] == renamed_defs(
                m,
                from,
                to,
            )[name] by {
                assert(m.dom().contains(name));
                let k = choose|k: int| #![trigger list@[k]] 0 <= k < list@.len() && list@[k].0@ == name;
                assert(list@[k].0@ == name);
            }
            assert(now =~= renamed_defs(m, from, to));
        }
    }

    /// Turns every use of a value, by an instruction or a variable, into a use
    /// of another.
    pub fn replace_all_uses(&mut self, from: Value, to: Value)
        requires
            old(self).wf(),
        ensures
            final(self)@ == replaced(old(self)@, from, to),
            final(self).wf(),
            final(self).here() == old(self).here(),
    {
        let ghost s = self@;
        let mut i: usize = 0;
        while i < self.f.insts.len()
            invariant
                i <= self.f.insts@.len(),
                s == old(self)@,
                self.f.insts@.len() == old(self).f.insts@.len(),
                self.cur_block == old(self).cur_block,
                self.current_def == old(self).current_def,
                self.sealed == old(self).sealed,
                self.incomplete_phis == old(self).incomplete_phis,
                self.f.types == old(self).f.types,
                self.f.spans == old(self).f.spans,
                self.f.blocks == old(self).f.blocks,
                self.f.entry == old(self).f.entry,
                self.f.params == old(self).f.params,
                forall|j: int|
                    #![trigger self.f.insts@[j]]
                    0 <= j < i ==> self.f.insts@[j]@ == subst_inst(
                        old(self).f.insts@[j]@,
                        from,
                        to,
                    ),
                forall|j: int|
                    #![trigger self.f.insts@[j]]
                    i <= j < self.f.insts@.len() ==> self.f.insts@[j] == old(self).f.insts@[j],
            decreases self.f.insts@.len() - i,
        {
            let r: Inst = renamed_inst(&self.f.insts[i], from, to);
            self.f.insts.set(i, r);
            i += 1;
        }
        let ghost mid = self@;
        proof {
            assert(mid =~= State {
                ir: Ir {
                    insts: Seq::new(
                        s.ir.insts.len(),
                        |i: int| subst_inst(s.ir.insts[i], from, to),
                    ),
                    ..s.ir
                },
                ..s
            });
        }
        let mut b: usize = 0;
        while b < self.current_def.len()
            invariant
                b <= self.current_def@.len(),
                shaped(s),
                self.wf(),
                self.cur_block == old(self).cur_block,
                mid.defs == s.defs,
                mid.defs.len() == self.current_def@.len(),
                self@ == (State { defs: self@.defs, ..mid }),
                self@.defs.len() == s.defs.len(),
                forall|c: int|
                    #![trigger self@.defs[c]]
                    0 <= c < b ==> self@.defs[c] == renamed_defs(s.defs[c], from, to),
                forall|c: int|
                    #![trigger self@.defs[c]]
                    b <= c < s.defs.len() ==> self@.defs[c] == s.defs[c],
            decreases self.current_def@.len() - b,
        {
            self.rename_defs(b, from, to);
            b += 1;
        }
        assert(self@ =~= replaced(s, from, to));
    }

    /// A phi whose operands are all the same, apart from itself, is replaced
    /// by that operand.
    fn try_remove_trivial_phi(&mut self, phi: Value)
        requires
            old(self).wf(),
            phi.0 < old(self)@.ir.insts.len(),
        ensures
            final(self)@ == without_trivial(old(self)@, phi),
            final(self).wf(),
            final(self).here() == old(self).here(),
    {
        let ghost m = self@.ir.insts[phi.0 as int];
        let mut same: Option<Value> = None;
        match &self.f.insts[phi.0 as usize] {
            Inst::Phi { incoming } => {
                let mut i: usize = 0;
                while i < incoming.len()
                    invariant
                        i <= incoming@.len(),
                        self@ == old(self)@,
                        self.wf(),
                        self.cur_block == old(self).cur_block,
                        m == old(self)@.ir.insts[phi.0 as int],
                        m.op is Phi,
                        m.args == edge_values(incoming@),
                        match same {
                            Some(v) => v != phi && m.args.contains(v) && forall|j: int|
                                #![trigger m.args[j]]
                                0 <= j < i ==> m.args[j] == phi || m.args[j] == v,
                            None => forall|j: int| #![trigger m.args[j]] 0 <= j < i ==> m.args[j] == phi,
                        },
                    decreases incoming@.len() - i,
                {
                    let (_, v): (Block, Value) = incoming.get(i);
                    assert(m.args[i as int] == v);
                    if v != phi {
                        match same {
                            Some(w) => {
                                if w != v {
                                    proof {
                                        assert forall|x: Value| !is_only(m.args, phi, x) by {
                                            assert(m.args[i as int] == v);
                                            let k = choose|k: int|
                                                0 <= k < m.args.len() && m.args[k] == w;
                                            assert(m.args[k] == w);
                                        }
                                    }
                                    return ;
                                }
                            },
                            None => {
                                same = Some(v);
                            },
                        }
                    }
                    i += 1;
                }
            },
            _ => return ,
        }
        match same {
            Some(v) => {
                proof {
                    assert(is_only(m.args, phi, v));
                    let w = choose|w: Value| is_only(m.args, phi, w);
                    let k = choose|k: int| 0 <= k < m.args.len() && m.args[k] == w;
                    assert(m.args[k] == w);
                    assert(w == v);
                }
                self.replace_all_uses(phi, v);
            },
            None => {
                proof {
                    assert forall|x: Value| !is_only(m.args, phi, x) by {
                        if is_only(m.args, phi, x) {
                            let k = choose|k: int| 0 <= k < m.args.len() && m.args[k] == x;
                            assert(m.args[k] == x);
                        }
                    }
                }
            },
        }
    }
}

// ---------------------------------------------------------------------------
// Looking for variables

/// Reading `name` in `block` led from `s` to `t` and found `v`, however much
/// the search was allowed beyond what it needs.
pub open spec fn found(
    s: State,
    name: Seq<char>,
    block: Block,
    ty: Ty,
    v: Value,
    t: State,
) -> bool {
    forall|u: nat, r: nat|
        #![trigger read(u, r, s.ir.blocks.len(), s, name, block, ty)]
        u >= missing(s, name) && r >= a_rank(s)[block.0 as int] ==> read(
            u,
            r,
            s.ir.blocks.len(),
            s,
            name,
            block,
            ty,
        ) == (v, t)
}

/// The operands of the phi were filled in between `s` and `t`.
pub open spec fn completed(s: State, name: Seq<char>, block: Block, phi: Value, t: State) -> bool {
    forall|u: nat|
        #![trigger filled(u, s.ir.blocks.len(), s, phi, block, name)]
        u >= missing(s, name) ==> filled(u, s.ir.blocks.len(), s, phi, block, name) == t
}

/// The rank that is chosen stays the same while variables are read.
proof fn lemma_same_rank(s: State, t: State)
    requires
        same_shape(s, t),
        walks_end(s),
    ensures
        walks_end(t),
        a_rank(t) == a_rank(s),
        is_rank(s.sealed, preds_of(s), a_rank(s)),
{
    assert(preds_of(s) =~= preds_of(t));
}

impl Builder {
    /// The value of a variable at the end of a block. Where several values
    /// meet, a phi is made.
    pub fn read_variable(&mut self, name: &str, block: Block, ty: Ty) -> (v: Value)
        requires
            old(self).wf(),
            block.0 < old(self)@.ir.blocks.len(),
            walks_end(old(self)@),
            has_room(old(self)@, name@),
        ensures
            found(old(self)@, name@, block, ty, v, final(self)@),
            grown(old(self)@, final(self)@, name@),
            keeps_pending(old(self)@, block, final(self)@),
            final(self)@.defs[block.0 as int].dom().contains(name@),
            final(self).here() == old(self).here(),
        decreases missing(old(self)@, name@), a_rank(old(self)@)[block.0 as int], 1nat,
    {
        match self.current_def[block.0 as usize].get(name) {
            Some(v) => Value(v),
            None => self.read_variable_recursive(name, block, ty),
        }
    }

    fn read_variable_recursive(&mut self, name: &str, block: Block, ty: Ty) -> (v: Value)
        requires
            old(self).wf(),
            block.0 < old(self)@.ir.blocks.len(),
            walks_end(old(self)@),
            has_room(old(self)@, name@),
            !old(self)@.defs[block.0 as int].dom().contains(name@),
        ensures
            found(old(self)@, name@, block, ty, v, final(self)@),
            grown(old(self)@, final(self)@, name@),
            keeps_pending(old(self)@, block, final(self)@),
            final(self)@.defs[block.0 as int].dom().contains(name@),
            final(self).here() == old(self).here(),
        decreases missing(old(self)@, name@), a_rank(old(self)@)[block.0 as int], 0nat,
    {
        let ghost s = self@;
        let ghost n = s.ir.blocks.len();
        let ghost b = block.0 as int;
        proof {
            lemma_same_rank(s, s);
            lemma_missing_some(s, name@, b);
        }
        if !self.sealed[block.0 as usize] {
            let phi: Value = self.new_phi(block, ty);
            let ghost with = self@;
            self.await_operands(name, block, phi);
            let ghost waits = self@;
            self.write_variable(name, block, phi);
            proof {
                lemma_phi_shaped(s, block, ty);
                lemma_written_grown(waits, name@, block, phi);
                assert(waits.defs == s.defs);
                lemma_blocks_kept(s, waits, self@);
            }
            return phi;
        }
        let single: Option<Block> = if self.f.blocks[block.0 as usize].preds.len() == 1 {
            Some(self.f.blocks[block.0 as usize].preds.get(0))
        } else {
            None
        };
        match single {
            Some(pred) => {
                assert(s.ir.blocks[b].preds.len() == 1 && s.ir.blocks[b].preds[0] == pred);
                assert(preds_of(s)[b][0] == pred);
                let v: Value = self.read_variable(name, pred, ty);
                let ghost t = self@;
                self.write_variable(name, block, v);
                proof {
                    lemma_written_grown(t, name@, block, v);
                    lemma_grown_trans(s, t, self@, name@);
                    assert forall|u: nat, r: nat|
                        #![trigger read(u, r, n, s, name@, block, ty)]
                        u >= missing(s, name@) && r >= a_rank(s)[b] implies read(
                        u,
                        r,
                        n,
                        s,
                        name@,
                        block,
                        ty,
                    ) == (v, self@) by {
                        assert(read(u, (r - 1) as nat, n, s, name@, pred, ty) == (v, t));
                    }
                }
                v
            },
            None => {
                let phi: Value = self.new_phi(block, ty);
                let ghost with = self@;
                self.write_variable(name, block, phi);
                let ghost ready = self@;
                proof {
                    lemma_phi_shaped(s, block, ty);
                    lemma_written_grown(with, name@, block, phi);
                    assert(missing(with, name@) == missing(s, name@));
                    lemma_blocks_kept(s, with, ready);
                    lemma_same_rank(s, ready);
                    if closed_off(s) {
                        lemma_closed_stays(s, ready);
                    }
                }
                self.fill_phi_operands(phi, block, name);
                proof {
                    lemma_grown_trans(s, ready, self@, name@);
                    assert forall|u: nat, r: nat|
                        #![trigger read(u, r, n, s, name@, block, ty)]
                        u >= missing(s, name@) && r >= a_rank(s)[b] implies read(
                        u,
                        r,
                        n,
                        s,
                        name@,
                        block,
                        ty,
                    ) == (phi, self@) by {
                        assert(filled((u - 1) as nat, n, ready, phi, block, name@) == self@);
                    }
                }
                phi
            },
        }
    }

    fn fill_phi_operands(&mut self, phi: Value, block: Block, name: &str)
        requires
            old(self).wf(),
            block.0 < old(self)@.ir.blocks.len(),
            phi.0 < old(self)@.ir.insts.len(),
            walks_end(old(self)@),
            has_room(old(self)@, name@),
        ensures
            completed(old(self)@, name@, block, phi, final(self)@),
            grown(old(self)@, final(self)@, name@),
            keeps_pending(old(self)@, block, final(self)@),
            final(self).here() == old(self).here(),
        decreases missing(old(self)@, name@), old(self)@.ir.blocks.len() + 2, 0nat,
    {
        let ghost s = self@;
        let ghost n = s.ir.blocks.len();
        let ghost list = s.ir.blocks[block.0 as int].preds;
        let ty: Ty = self.f.types[phi.0 as usize];
        let mut incoming: EdgeList = EdgeList::new();
        let count: usize = self.f.blocks[block.0 as usize].preds.len();
        let mut k: usize = 0;
        proof {
            assert(incoming@ =~= Seq::empty());
            lemma_same_rank(s, s);
        }
        while k < count
            invariant
                k <= count,
                s == old(self)@,
                n == s.ir.blocks.len(),
                count == list.len(),
                list == s.ir.blocks[block.0 as int].preds,
                block.0 < n,
                phi.0 < s.ir.insts.len(),
                ty == s.ir.types[phi.0 as int],
                shaped(s),
                walks_end(s),
                has_room(s, name@),
                grown(s, self@, name@),
                keeps_pending(s, block, self@),
                self.cur_block == old(self).cur_block,
                forall|u: nat|
                    #![trigger gathered(u, n, s, list, name@, ty, k as nat)]
                    u >= missing(s, name@) ==> gathered(u, n, s, list, name@, ty, k as nat) == (
                        incoming@,
                        self@,
                    ),
            decreases count - k,
        {
            let ghost t = self@;
            proof {
                lemma_same_rank(s, t);
                if closed_off(s) {
                    lemma_closed_stays(s, t);
                }
                assert(t.ir.blocks[block.0 as int].preds == list);
                assert(s.ir.blocks[block.0 as int].preds[k as int].0 < n);
                assert(a_rank(s)[list[k as int].0 as int] < n);
            }
            let pred: Block = self.f.blocks[block.0 as usize].preds.get(k);
            assert(pred == list[k as int]);
            let v: Value = self.read_variable(name, pred, ty);
            let ghost before = incoming@;
            let ghost next = (k + 1) as nat;
            incoming.push((pred, v));
            proof {
                lemma_grown_trans(s, t, self@, name@);
                assert forall|u: nat|
                    #![trigger gathered(u, n, s, list, name@, ty, next)]
                    u >= missing(s, name@) implies gathered(
                    u,
                    n,
                    s,
                    list,
                    name@,
                    ty,
                    next,
                ) == (incoming@, self@) by {
                    assert(gathered(u, n, s, list, name@, ty, k as nat) == (before, t));
                    assert(read(u, n, n, t, name@, pred, ty) == (v, self@));
                }
            }
            k += 1;
            assert(k as nat == next);
        }
        let ghost t = self@;
        self.set_operands(phi, incoming);
        let ghost w = self@;
        self.try_remove_trivial_phi(phi);
        proof {
            lemma_operands_grown(t, phi, incoming@, name@);
            lemma_grown_trans(s, t, w, name@);
            lemma_trivial_grown(w, phi, name@);
            lemma_grown_trans(s, w, self@, name@);
            assert forall|u: nat|
                #![trigger filled(u, n, s, phi, block, name@)]
                u >= missing(s, name@) implies filled(u, n, s, phi, block, name@) == self@ by {
                assert(gathered(u, n, s, list, name@, ty, list.len()) == (incoming@, t));
            }
        }
    }
}

pub proof fn lemma_closed_stays(s: State, t: State)
    requires
        same_shape(s, t),
        closed_off(s),
    ensures
        closed_off(t),
{
    assert forall|b: int, k: int|
        #![trigger t.ir.blocks[b].preds[k]]
        0 <= b < t.ir.blocks.len() && t.sealed[b] && 0 <= k < t.ir.blocks[b].preds.len() implies t.sealed[t.ir.blocks[b].preds[k].0 as int] by {
        assert(t.ir.blocks[b].preds == s.ir.blocks[b].preds);
        assert(s.sealed[s.ir.blocks[b].preds[k].0 as int]);
    }
}

pub(crate) proof fn lemma_missing_some(s: State, name: Seq<char>, b: int)
    requires
        0 <= b < s.defs.len(),
        !s.defs[b].dom().contains(name),
    ensures
        missing(s, name) > 0,
{
    lemma_undefined_less(s.defs, name, b, 0, s.defs.len());
    let less = s.defs.update(b, s.defs[b].insert(name, 0));
    assert(undefined(less, name, s.defs.len()) >= 0);
}

proof fn lemma_blocks_kept(s: State, t: State, w: State)
    requires
        same_shape(s, t),
        t.ir == w.ir,
        t.sealed == w.sealed,
    ensures
        same_shape(s, w),
{
}

pub(crate) proof fn lemma_operands_grown(s: State, phi: Value, edges: Seq<(Block, Value)>, name: Seq<char>)
    requires
        shaped(s),
        phi.0 < s.ir.insts.len(),
    ensures
        grown(s, with_operands(s, phi, edges), name),
        with_operands(s, phi, edges).defs == s.defs,
{
}

pub(crate) proof fn lemma_trivial_grown(s: State, phi: Value, name: Seq<char>)
    requires
        shaped(s),
    ensures
        grown(s, without_trivial(s, phi), name),
{
    let m = s.ir.insts[phi.0 as int];
    let v = choose|v: Value| is_only(m.args, phi, v);
    lemma_replaced_grown(s, phi, v, name);
}

// ---------------------------------------------------------------------------
// Sealing

/// The names and phis of a map, in some order.
pub open spec fn orders(order: Seq<(Seq<char>, u32)>, map: Map<Seq<char>, u32>) -> bool {
    &&& forall|i: int|
        #![trigger order[i]]
        0 <= i < order.len() ==> map.dom().contains(order[i].0) && map[order[i].0] == order[i].1
    &&& forall|i: int, j: int|
        #![trigger order[i], order[j]]
        0 <= i < j < order.len() ==> order[i].0 != order[j].0
    &&& forall|name: Seq<char>|
        #![trigger map.dom().contains(name)]
        map.dom().contains(name) ==> exists|i: int|
            #![trigger order[i]]
            0 <= i < order.len() && order[i].0 == name
}

/// The block has no waiting phis any more.
pub open spec fn drained(s: State, block: Block) -> State {
    State { pending: s.pending.update(block.0 as int, Map::empty()), ..s }
}

/// The first `k` waiting phis got their operands.
pub open spec fn all_filled(s: State, block: Block, order: Seq<(Seq<char>, u32)>, k: nat) -> State
    decreases k,
{
    if k == 0 {
        s
    } else {
        let n = s.ir.blocks.len();
        filled(
            n,
            n,
            all_filled(s, block, order, (k - 1) as nat),
            Value(order[k - 1].1),
            block,
            order[k - 1].0,
        )
    }
}

pub open spec fn with_seal(s: State, block: Block) -> State {
    State { sealed: s.sealed.update(block.0 as int, true), ..s }
}

/// The block was sealed between `s` and `t`: its waiting phis got their
/// operands in some order, and none waits any more.
pub open spec fn sealed_from(s: State, block: Block, t: State) -> bool {
    exists|order: Seq<(Seq<char>, u32)>|
        #![trigger orders(order, s.pending[block.0 as int])]
        orders(order, s.pending[block.0 as int]) && t == with_seal(
            all_filled(drained(s, block), block, order, order.len()),
            block,
        )
}

/// The phis that the operands of the waiting phis can take still fit the
/// tables.
pub open spec fn room_to_seal(s: State, block: Block) -> bool {
    forall|order: Seq<(Seq<char>, u32)>|
        #![trigger orders(order, s.pending[block.0 as int])]
        orders(order, s.pending[block.0 as int]) ==> s.ir.insts.len() + order.len()
            * s.ir.blocks.len() <= u32::MAX
}

/// A block in which no phi waits is just marked.
pub proof fn lemma_sealed_empty(s: State, block: Block, t: State)
    requires
        shaped(s),
        block.0 < s.ir.blocks.len(),
        s.pending[block.0 as int].dom() == Set::<Seq<char>>::empty(),
        sealed_from(s, block, t),
    ensures
        t == with_seal(s, block),
{
    let order = choose|order: Seq<(Seq<char>, u32)>|
        #![trigger orders(order, s.pending[block.0 as int])]
        orders(order, s.pending[block.0 as int]) && t == with_seal(
            all_filled(drained(s, block), block, order, order.len()),
            block,
        );
    if order.len() > 0 {
        assert(s.pending[block.0 as int].dom().contains(order[0].0));
    }
    assert(s.pending[block.0 as int] =~= Map::empty());
    assert(drained(s, block) =~= s);
}

impl Builder {
    /// Closes a block: all its predecessors are known. The phis that wait in it
    /// get their operands.
    pub fn seal_block(&mut self, block: Block)
        requires
            old(self).wf(),
            block.0 < old(self)@.ir.blocks.len(),
            !old(self)@.sealed[block.0 as int],
            walks_end(old(self)@),
            room_to_seal(old(self)@, block),
        ensures
            sealed_from(old(self)@, block, final(self)@),
            final(self).wf(),
            final(self).here() == old(self).here(),
    {
        let ghost s = self@;
        let ghost n = s.ir.blocks.len();
        let map: &mut NameMap = &mut self.incomplete_phis[block.0 as usize];
        let list: Vec<(String, u32)> = map.drain();
        let ghost order = Seq::new(list@.len(), |i: int| (list@[i].0@, list@[i].1));
        let ghost d = self@;
        proof {
            let waiting = s.pending[block.0 as int];
            assert(lists(list@, waiting));
            assert forall|name: Seq<char>|
                #![trigger waiting.dom().contains(name)]
                waiting.dom().contains(name) implies exists|i: int|
                #![trigger order[i]]
                0 <= i < order.len() && order[i].0 == name by {
                let i = choose|i: int|
                    #![trigger list@[i]]
                    0 <= i < list@.len() && list@[i].0@ == name;
                assert(order[i].0 == name);
            }
            assert forall|i: int, j: int|
                #![trigger order[i], order[j]]
                0 <= i < j < order.len() implies order[i].0 != order[j].0 by {
                assert(list@[i].0@ != list@[j].0@);
            }
            assert forall|i: int| #![trigger order[i]] 0 <= i < order.len() implies waiting.dom().contains(
                order[i].0,
            ) && waiting[order[i].0] == order[i].1 by {
                assert(list@[i].0@ == order[i].0);
            }
            assert(orders(order, waiting));
            assert(d.pending[block.0 as int] =~= Map::empty());
            assert(d =~= drained(s, block));
            assert forall|b: int, name: Seq<char>|
                #![trigger d.pending[b].dom().contains(name)]
                0 <= b < n && d.pending[b].dom().contains(name) implies d.pending[b][name]
                < d.ir.insts.len() by {
                assert(s.pending[b].dom().contains(name));
            }
            lemma_same_rank(s, d);
        }
        let mut i: usize = 0;
        while i < list.len()
            invariant
                i <= list@.len(),
                order == Seq::new(list@.len(), |i: int| (list@[i].0@, list@[i].1)),
                orders(order, s.pending[block.0 as int]),
                shaped(s),
                shaped(d),
                n == s.ir.blocks.len(),
                n == d.ir.blocks.len(),
                d.ir == s.ir,
                block.0 < n,
                walks_end(d),
                s.ir.insts.len() + order.len() * n <= u32::MAX,
                self.wf(),
                self.cur_block == old(self).cur_block,
                same_shape(d, self@),
                self@.ir.insts.len() <= s.ir.insts.len() + i * n,
                self@ == all_filled(d, block, order, i as nat),
            decreases list@.len() - i,
        {
            let ghost t = self@;
            let phi: Value = Value(list[i].1);
            let name: &String = &list[i].0;
            proof {
                assert(order[i as int].0 == name@);
                assert(s.pending[block.0 as int].dom().contains(name@));
                lemma_same_rank(d, t);
                lemma_undefined_bounded(t.defs, name@, t.defs.len());
                assert(s.ir.insts.len() + i * n + n <= s.ir.insts.len() + order.len() * n)
                    by (nonlinear_arith)
                    requires
                        i + 1 <= order.len(),
                ;
                assert((i + 1) * n == i * n + n) by (nonlinear_arith);
            }
            self.fill_phi_operands(phi, block, name.as_str());
            proof {
                assert(filled(n, n, t, phi, block, name@) == self@);
                assert(same_shape(d, self@)) by {
                    lemma_shape_trans(d, t, self@);
                }
            }
            i += 1;
        }
        self.sealed.set(block.0 as usize, true);
        proof {
            let t = all_filled(d, block, order, order.len());
            assert(self@ =~= with_seal(t, block));
            assert forall|b: int, k: int|
                #![trigger self@.ir.blocks[b].preds[k]]
                0 <= b < n && 0 <= k < self@.ir.blocks[b].preds.len() implies self@.ir.blocks[b].preds[k].0
                < n by {
                assert(t.ir.blocks[b].preds[k].0 < n);
            }
        }
    }
}

proof fn lemma_shape_trans(a: State, b: State, c: State)
    requires
        same_shape(a, b),
        same_shape(b, c),
    ensures
        same_shape(a, c),
{
    assert forall|i: int|
        #![trigger c.ir.blocks[i]]
        #![trigger a.ir.blocks[i]]
        0 <= i < a.ir.blocks.len() implies c.ir.blocks[i].preds == a.ir.blocks[i].preds
        && c.ir.blocks[i].term == a.ir.blocks[i].term by {
        assert(b.ir.blocks[i].preds == a.ir.blocks[i].preds);
    }
    assert forall|i: int| #![trigger c.ir.types[i]] 0 <= i < a.ir.types.len() implies c.ir.types[i]
        == a.ir.types[i] by {
        assert(b.ir.types[i] == a.ir.types[i]);
    }
}

impl Default for Builder {
    fn default() -> (r: Builder)
        ensures
            r@ == empty_state(),
    {
        Builder::new()
    }
}

// ---------------------------------------------------------------------------
// What readers of variables can rely on

/// A variable that was just written reads as what was written, and reading it
/// changes nothing.
pub proof fn lemma_read_written(s: State, name: Seq<char>, block: Block, ty: Ty, v: Value)
    requires
        shaped(s),
        block.0 < s.ir.blocks.len(),
    ensures
        found(
            written(s, name, block, v),
            name,
            block,
            ty,
            v,
            written(s, name, block, v),
        ),
{
}

/// In a sealed block with a single predecessor, a variable that the block does
/// not define itself is what it is in the predecessor.
pub proof fn lemma_read_single(
    s: State,
    name: Seq<char>,
    block: Block,
    ty: Ty,
    v: Value,
    t: State,
)
    requires
        shaped(s),
        walks_end(s),
        block.0 < s.ir.blocks.len(),
        s.sealed[block.0 as int],
        s.ir.blocks[block.0 as int].preds.len() == 1,
        !s.defs[block.0 as int].dom().contains(name),
        found(s, name, s.ir.blocks[block.0 as int].preds[0], ty, v, t),
    ensures
        found(s, name, block, ty, v, written(t, name, block, v)),
{
    let b = block.0 as int;
    let n = s.ir.blocks.len();
    let pred = s.ir.blocks[b].preds[0];
    lemma_same_rank(s, s);
    assert(preds_of(s)[b][0] == pred);
    assert forall|u: nat, r: nat|
        #![trigger read(u, r, n, s, name, block, ty)]
        u >= missing(s, name) && r >= a_rank(s)[b] implies read(u, r, n, s, name, block, ty) == (
        v,
        written(t, name, block, v),
    ) by {
        assert(read(u, (r - 1) as nat, n, s, name, pred, ty) == (v, t));
    }
}

} // verus!
