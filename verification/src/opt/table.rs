//! The table of value numbering: the instructions entered so far, in order,
//! with a hash table that finds them by their code.
use crate::collections::{CodeMap, EdgeList};
use crate::ir::{edge_blocks, uses_of, Block, CmpOp, Inst, InstModel, LibFunc, Op, Ty, Value};
use vstd::prelude::*;

verus! {

// ---------------------------------------------------------------------------
// Codes of instructions

/// An operation as numbers: which it is, and what it carries. Of a phi that is
/// how many edges it has.
pub open spec fn head(op: Op) -> (u64, u64, u64) {
    match op {
        Op::ConstF64(bits) => (0, bits, 0),
        Op::ConstI64(n) => (1, n as u64, 0),
        Op::ConstBool(b) => (2, if b {
            1
        } else {
            0
        }, 0),
        Op::Param(i, ty) => (3, i as u64, ty_code(ty)),
        Op::Add => (4, 0, 0),
        Op::Sub => (5, 0, 0),
        Op::Mul => (6, 0, 0),
        Op::Div => (7, 0, 0),
        Op::Rem => (8, 0, 0),
        Op::Neg => (9, 0, 0),
        Op::Fma => (10, 0, 0),
        Op::And => (11, 0, 0),
        Op::Or => (12, 0, 0),
        Op::Xor => (13, 0, 0),
        Op::Not => (14, 0, 0),
        Op::Shl => (15, 0, 0),
        Op::Shr => (16, 0, 0),
        Op::Sar => (17, 0, 0),
        Op::Compare(c) => (18, relation_code(c), 0),
        Op::Sqrt => (19, 0, 0),
        Op::Abs => (20, 0, 0),
        Op::Min => (21, 0, 0),
        Op::Max => (22, 0, 0),
        Op::Floor => (23, 0, 0),
        Op::Ceil => (24, 0, 0),
        Op::Round => (25, 0, 0),
        Op::Trunc => (26, 0, 0),
        Op::Call(func) => (27, func_code(func), 0),
        Op::IToF => (28, 0, 0),
        Op::FToI => (29, 0, 0),
        Op::Phi(froms) => (30, froms.len() as u64, 0),
    }
}

pub open spec fn ty_code(ty: Ty) -> u64 {
    match ty {
        Ty::F64 => 0,
        Ty::I64 => 1,
        Ty::Bool => 2,
    }
}

pub open spec fn relation_code(c: CmpOp) -> u64 {
    match c {
        CmpOp::Eq => 0,
        CmpOp::Ne => 1,
        CmpOp::Lt => 2,
        CmpOp::Le => 3,
        CmpOp::Gt => 4,
        CmpOp::Ge => 5,
    }
}

pub open spec fn func_code(func: LibFunc) -> u64 {
    match func {
        LibFunc::Sin => 0,
        LibFunc::Cos => 1,
        LibFunc::Tan => 2,
        LibFunc::Exp => 3,
        LibFunc::Log => 4,
        LibFunc::Pow => 5,
    }
}

/// The blocks that a phi has edges from.
pub open spec fn froms(op: Op) -> Seq<Block> {
    match op {
        Op::Phi(froms) => froms,
        _ => Seq::empty(),
    }
}

/// What follows the head: the blocks of the edges, then the operands.
pub open spec fn tail(m: InstModel) -> Seq<u64> {
    froms(m.op).map_values(|b: Block| b.0 as u64) + m.args.map_values(|v: Value| v.0 as u64)
}

/// An instruction as numbers.
pub open spec fn code(m: InstModel) -> Seq<u64> {
    seq![head(m.op).0, head(m.op).1, head(m.op).2] + tail(m)
}

/// The number of edges of a phi fits a word.
pub open spec fn codable(m: InstModel) -> bool {
    froms(m.op).len() <= u64::MAX
}

proof fn lemma_words_differ(a: i64, b: i64)
    requires
        a as u64 == b as u64,
    ensures
        a == b,
{
    assert(a == b) by (bit_vector)
        requires
            a as u64 == b as u64,
    ;
}

proof fn lemma_head_tells(a: Op, b: Op)
    requires
        head(a) == head(b),
        froms(a) == froms(b),
    ensures
        a == b,
{
    match a {
        Op::ConstI64(x) => match b {
            Op::ConstI64(y) => lemma_words_differ(x, y),
            _ => {},
        },
        _ => {},
    }
}

/// An instruction can be told from its code.
pub proof fn lemma_code_tells(a: InstModel, b: InstModel)
    requires
        codable(a),
        codable(b),
        code(a) == code(b),
    ensures
        a == b,
{
    let c = code(a);
    let d = code(b);
    assert(c[0] == head(a.op).0 && c[1] == head(a.op).1 && c[2] == head(a.op).2);
    assert(d[0] == head(b.op).0 && d[1] == head(b.op).1 && d[2] == head(b.op).2);
    assert(head(a.op) == head(b.op));
    let n = froms(a.op).len() as int;
    assert(froms(b.op).len() == n);
    assert forall|i: int| 0 <= i < n implies froms(a.op)[i] == froms(b.op)[i] by {
        assert(c[3 + i] == froms(a.op)[i].0 as u64);
        assert(d[3 + i] == froms(b.op)[i].0 as u64);
    }
    assert(froms(a.op) =~= froms(b.op));
    lemma_head_tells(a.op, b.op);
    assert(c.len() == 3 + n + a.args.len());
    assert(d.len() == 3 + n + b.args.len());
    assert forall|i: int| 0 <= i < a.args.len() implies a.args[i] == b.args[i] by {
        assert(c[3 + n + i] == a.args[i].0 as u64);
        assert(d[3 + n + i] == b.args[i].0 as u64);
    }
    assert(a.args =~= b.args);
}

fn code_type(ty: Ty) -> (r: u64)
    ensures
        r == ty_code(ty),
{
    match ty {
        Ty::F64 => 0,
        Ty::I64 => 1,
        Ty::Bool => 2,
    }
}

fn code_relation(c: CmpOp) -> (r: u64)
    ensures
        r == relation_code(c),
{
    match c {
        CmpOp::Eq => 0,
        CmpOp::Ne => 1,
        CmpOp::Lt => 2,
        CmpOp::Le => 3,
        CmpOp::Gt => 4,
        CmpOp::Ge => 5,
    }
}

fn code_func(func: LibFunc) -> (r: u64)
    ensures
        r == func_code(func),
{
    match func {
        LibFunc::Sin => 0,
        LibFunc::Cos => 1,
        LibFunc::Tan => 2,
        LibFunc::Exp => 3,
        LibFunc::Log => 4,
        LibFunc::Pow => 5,
    }
}

fn head_of(inst: &Inst) -> (r: (u64, u64, u64))
    ensures
        r == head(inst@.op),
{
    match inst {
        Inst::ConstF64(bits) => (0, *bits, 0),
        Inst::ConstI64(n) => (1, *n as u64, 0),
        Inst::ConstBool(b) => (2, if *b {
            1
        } else {
            0
        }, 0),
        Inst::Param { index, ty } => (3, *index as u64, code_type(*ty)),
        Inst::Add(_, _) => (4, 0, 0),
        Inst::Sub(_, _) => (5, 0, 0),
        Inst::Mul(_, _) => (6, 0, 0),
        Inst::Div(_, _) => (7, 0, 0),
        Inst::Rem(_, _) => (8, 0, 0),
        Inst::Neg(_) => (9, 0, 0),
        Inst::Fma { .. } => (10, 0, 0),
        Inst::And(_, _) => (11, 0, 0),
        Inst::Or(_, _) => (12, 0, 0),
        Inst::Xor(_, _) => (13, 0, 0),
        Inst::Not(_) => (14, 0, 0),
        Inst::Shl(_, _) => (15, 0, 0),
        Inst::Shr(_, _) => (16, 0, 0),
        Inst::Sar(_, _) => (17, 0, 0),
        Inst::Cmp { op, .. } => (18, code_relation(*op), 0),
        Inst::Sqrt(_) => (19, 0, 0),
        Inst::Abs(_) => (20, 0, 0),
        Inst::Min(_, _) => (21, 0, 0),
        Inst::Max(_, _) => (22, 0, 0),
        Inst::Floor(_) => (23, 0, 0),
        Inst::Ceil(_) => (24, 0, 0),
        Inst::Round(_) => (25, 0, 0),
        Inst::Trunc(_) => (26, 0, 0),
        Inst::Call { func, .. } => (27, code_func(*func), 0),
        Inst::IToF(_) => (28, 0, 0),
        Inst::FToI(_) => (29, 0, 0),
        Inst::Phi { incoming } => (30, incoming.len() as u64, 0),
    }
}

/// Appends the blocks of the edges.
fn push_blocks(edges: &EdgeList, out: &mut Vec<u64>)
    ensures
        final(out)@ == old(out)@ + edge_blocks(edges@).map_values(|b: Block| b.0 as u64),
{
    let ghost start = out@;
    let ghost words = edge_blocks(edges@).map_values(|b: Block| b.0 as u64);
    let mut i: usize = 0;
    assert(out@ =~= start + words.take(0));
    while i < edges.len()
        invariant
            i <= edges@.len(),
            words == edge_blocks(edges@).map_values(|b: Block| b.0 as u64),
            out@ == start + words.take(i as int),
        decreases edges@.len() - i,
    {
        out.push(edges.get(i).0.0 as u64);
        assert(words.take(i + 1) =~= words.take(i as int).push(words[i as int]));
        assert(out@ =~= start + words.take(i + 1));
        i += 1;
    }
    assert(words.take(i as int) =~= words);
}

/// The code of an instruction.
fn code_of(inst: &Inst) -> (r: Vec<u64>)
    ensures
        r@ == code(inst@),
        codable(inst@),
{
    let head: (u64, u64, u64) = head_of(inst);
    let mut r: Vec<u64> = Vec::new();
    r.push(head.0);
    r.push(head.1);
    r.push(head.2);
    let ghost first = r@;
    match inst {
        Inst::Phi { incoming } => {
            push_blocks(incoming, &mut r);
            let n: usize = incoming.len();
            assert(edge_blocks(incoming@).len() == n);
        },
        _ => {
            assert(froms(inst@.op).map_values(|b: Block| b.0 as u64) =~= Seq::empty());
            assert(r@ =~= first + Seq::empty());
        },
    }
    let ghost start = r@;
    assert(start == first + froms(inst@.op).map_values(|b: Block| b.0 as u64));
    let args: Vec<Value> = uses_of(inst);
    let ghost words = args@.map_values(|v: Value| v.0 as u64);
    let mut i: usize = 0;
    assert(r@ =~= start + words.take(0));
    while i < args.len()
        invariant
            i <= args@.len(),
            words == args@.map_values(|v: Value| v.0 as u64),
            r@ == start + words.take(i as int),
        decreases args@.len() - i,
    {
        r.push(args[i].0 as u64);
        assert(words.take(i + 1) =~= words.take(i as int).push(words[i as int]));
        assert(r@ =~= start + words.take(i + 1));
        i += 1;
    }
    assert(words.take(i as int) =~= words);
    assert(r@ =~= code(inst@));
    r
}

// ---------------------------------------------------------------------------
// The table

/// What the table holds: instructions, and the values that compute them.
pub open spec fn entries(table: Seq<(Inst, Value)>) -> Seq<(InstModel, Value)> {
    table.map_values(|e: (Inst, Value)| (e.0@, e.1))
}

/// The table knows `e` to compute `key`.
pub open spec fn knows(table: Seq<(InstModel, Value)>, key: InstModel, e: Value) -> bool {
    exists|i: int| 0 <= i < table.len() && #[trigger] table[i] == (key, e)
}

/// The index finds each of the entries by its code, and nothing else.
spec fn is_index(list: Seq<(Inst, Value)>, index: Map<Seq<u64>, u32>) -> bool {
    &&& forall|i: int|
        #![trigger list[i]]
        0 <= i < list.len() ==> codable(list[i].0@) && index.dom().contains(code(list[i].0@))
            && index[code(list[i].0@)] == list[i].1.0
    &&& forall|i: int, j: int|
        #![trigger list[i], list[j]]
        0 <= i < j < list.len() ==> code(list[i].0@) != code(list[j].0@)
    &&& forall|c: Seq<u64>| #[trigger]
        index.dom().contains(c) ==> exists|i: int|
            #![trigger list[i]]
            0 <= i < list.len() && code(list[i].0@) == c
}

/// Instructions in the order in which they were entered, none of them twice.
pub struct Table {
    list: Vec<(Inst, Value)>,
    index: CodeMap,
}

impl View for Table {
    type V = Seq<(Inst, Value)>;

    closed spec fn view(&self) -> Seq<(Inst, Value)> {
        self.list@
    }
}

impl Table {
    #[verifier::type_invariant]
    spec fn indexed(self) -> bool {
        is_index(self.list@, self.index@)
    }

    pub fn new() -> (r: Table)
        ensures
            r@ == Seq::<(Inst, Value)>::empty(),
    {
        let list: Vec<(Inst, Value)> = Vec::new();
        let index: CodeMap = CodeMap::new();
        assert(is_index(list@, index@));
        Table { list, index }
    }

    pub fn len(&self) -> (r: usize)
        ensures
            r == self@.len(),
    {
        self.list.len()
    }

    /// The value that was entered for an instruction.
    pub fn get(&self, key: &Inst) -> (r: Option<Value>)
        ensures
            match r {
                Some(e) => knows(entries(self@), key@, e),
                None => forall|e: Value| !knows(entries(self@), key@, e),
            },
    {
        proof {
            use_type_invariant(self);
        }
        let word: Vec<u64> = code_of(key);
        match self.index.get(&word) {
            Some(n) => {
                proof {
                    let i = choose|i: int|
                        #![trigger self.list@[i]]
                        0 <= i < self.list@.len() && code(self.list@[i].0@) == word@;
                    lemma_code_tells(self.list@[i].0@, key@);
                    assert(self.list@[i].1 == Value(n));
                    assert(entries(self@)[i] == (key@, Value(n)));
                }
                Some(Value(n))
            },
            None => {
                proof {
                    assert forall|e: Value| !knows(entries(self@), key@, e) by {
                        if knows(entries(self@), key@, e) {
                            let i = choose|i: int|
                                0 <= i < entries(self@).len() && #[trigger] entries(self@)[i] == (
                                    key@,
                                    e,
                                );
                            assert(self.list@[i].0@ == key@);
                        }
                    }
                }
                None
            },
        }
    }

    /// Enters an instruction that is not in the table.
    pub fn enter(&mut self, key: Inst, v: Value)
        requires
            forall|e: Value| !knows(entries(old(self)@), key@, e),
        ensures
            final(self)@ == old(self)@.push((key, v)),
    {
        let mut whole: Table = Table::new();
        std::mem::swap(self, &mut whole);
        proof {
            use_type_invariant(&whole);
        }
        let Table { mut list, mut index } = whole;
        let ghost before = list@;
        let ghost found = index@;
        let word: Vec<u64> = code_of(&key);
        let ghost w = word@;
        proof {
            assert(before == old(self)@);
            assert forall|i: int| #![trigger before[i]] 0 <= i < before.len() implies code(
                before[i].0@,
            ) != w by {
                if code(before[i].0@) == w {
                    lemma_code_tells(before[i].0@, key@);
                    assert(entries(before)[i] == (key@, before[i].1));
                    assert(knows(entries(before), key@, before[i].1));
                }
            }
        }
        index.insert(word, v.0);
        list.push((key, v));
        proof {
            let last = before.len() as int;
            assert(list@[last] == (key, v));
            assert forall|i: int| 0 <= i < last implies list@[i] == before[i] by {}
            assert forall|c: Seq<u64>| #[trigger] index@.dom().contains(c) implies exists|i: int|
                #![trigger list@[i]]
                0 <= i < list@.len() && code(list@[i].0@) == c by {
                if c == w {
                    assert(code(list@[last].0@) == c);
                } else {
                    assert(found.dom().contains(c));
                    let i = choose|i: int|
                        #![trigger before[i]]
                        0 <= i < before.len() && code(before[i].0@) == c;
                    assert(code(list@[i].0@) == c);
                }
            }
            assert(is_index(list@, index@));
        }
        *self = Table { list, index };
    }

    /// Removes the entries from place `n` on.
    pub fn truncate(&mut self, n: usize)
        requires
            n <= old(self)@.len(),
        ensures
            final(self)@ == old(self)@.take(n as int),
    {
        let mut whole: Table = Table::new();
        std::mem::swap(self, &mut whole);
        proof {
            use_type_invariant(&whole);
        }
        let Table { mut list, mut index } = whole;
        let ghost start = list@;
        assert(list@ =~= start.take(start.len() as int));
        while list.len() > n
            invariant
                n <= list@.len() <= start.len(),
                list@ == start.take(list@.len() as int),
                is_index(list@, index@),
            decreases list@.len(),
        {
            let ghost before = list@;
            let ghost found = index@;
            let last: Option<(Inst, Value)> = list.pop();
            match last {
                Some((key, _)) => {
                    let word: Vec<u64> = code_of(&key);
                    index.remove(&word);
                    proof {
                        let w = word@;
                        let k = before.len() - 1;
                        assert(before[k].0 == key);
                        assert forall|i: int| 0 <= i < k implies list@[i] == before[i] by {}
                        assert forall|i: int| #![trigger list@[i]] 0 <= i < k implies code(
                            list@[i].0@,
                        ) != w by {
                            assert(list@[i] == before[i]);
                            assert(code(before[i].0@) != code(before[k].0@));
                        }
                        assert forall|c: Seq<u64>| #[trigger] index@.dom().contains(
                            c,
                        ) implies exists|i: int|
                            #![trigger list@[i]]
                            0 <= i < list@.len() && code(list@[i].0@) == c by {
                            assert(found.dom().contains(c));
                            let i = choose|i: int|
                                #![trigger before[i]]
                                0 <= i < before.len() && code(before[i].0@) == c;
                            assert(i != k);
                            assert(list@[i] == before[i]);
                        }
                        assert(is_index(list@, index@));
                        assert(list@ =~= start.take(list@.len() as int));
                    }
                },
                None => {},
            }
        }
        *self = Table { list, index };
    }
}

} // verus!
