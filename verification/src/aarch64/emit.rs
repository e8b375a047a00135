//! What the emitters share: pieces of code that may fail, types and
//! parameters of the function, frames, and the walk over the blocks.
use crate::aarch64::encode::Condition;
use crate::aarch64::error::EmitError;
use crate::aarch64::link::targets_known;
use crate::aarch64::machine::{all_encodable, encodable, A64};
use crate::collections::EdgeList;
use crate::interp::edge_from;
use crate::ir::{edge_blocks, edge_values, InstModel, Op};
use crate::ir::{CmpOp, Function, Inst, Ty, Value};
use vstd::prelude::*;

verus! {

/// A piece of code, or why there is none.
pub type Code = Result<Seq<A64>, EmitError>;

/// One piece behind another.
pub open spec fn chain(a: Code, b: Code) -> Code {
    match a {
        Err(e) => Err(e),
        Ok(x) => match b {
            Err(e) => Err(e),
            Ok(y) => Ok(x + y),
        },
    }
}

pub open spec fn one(i: A64) -> Code {
    Ok(seq![i])
}

pub open spec fn nothing() -> Code {
    Ok(Seq::empty())
}

/// `after` is `before` with the piece `code` behind it.
pub open spec fn appended(
    r: Result<(), EmitError>,
    before: Seq<A64>,
    after: Seq<A64>,
    code: Code,
) -> bool {
    match r {
        Ok(_) => code is Ok && after == before + code->Ok_0,
        Err(e) => code == Err::<Seq<A64>, EmitError>(e),
    }
}

/// The code can be linked, in a function of `blocks` blocks.
pub open spec fn sound(code: Seq<A64>, blocks: nat) -> bool {
    all_encodable(code) && targets_known(code, blocks)
}

/// An instruction that does not branch and can be encoded.
pub open spec fn plain(i: A64) -> bool {
    encodable(i) && !(i is Jump) && !(i is JumpIf)
}

pub proof fn lemma_sound_add(a: Seq<A64>, b: Seq<A64>, blocks: nat)
    requires
        sound(a, blocks),
        sound(b, blocks),
    ensures
        sound(a + b, blocks),
{
    let c = a + b;
    assert forall|i: int| #![trigger c[i]] 0 <= i < c.len() implies encodable(c[i]) && match c[i] {
        A64::Jump { block } => block < blocks,
        A64::JumpIf { block, .. } => block < blocks,
        _ => true,
    } by {
        if i < a.len() {
            assert(c[i] == a[i]);
        } else {
            assert(c[i] == b[i - a.len()]);
        }
    }
}

/// The type of a value, if it has one.
pub open spec fn type_of(f: Function, v: Value) -> Option<Ty> {
    if v.0 < f.types@.len() {
        Some(f.types@[v.0 as int])
    } else {
        None
    }
}

pub fn type_at(f: &Function, v: Value) -> (r: Option<Ty>)
    ensures
        r == type_of(*f, v),
{
    if (v.0 as usize) < f.types.len() {
        Some(f.types[v.0 as usize])
    } else {
        None
    }
}

/// How many of the first `n` parameters are passed in the bank of `ty`: the
/// doubles in one, integers and bools together in the other.
pub open spec fn count_params(f: Function, ty: Ty, n: nat) -> nat
    decreases n,
{
    if n == 0 {
        0
    } else {
        count_params(f, ty, (n - 1) as nat) + if (f.params@[n - 1].1 == Ty::F64) == (ty == Ty::F64) {
            1nat
        } else {
            0nat
        }
    }
}

/// The register of a parameter is the next one of its bank: as many are taken
/// as there are doubles before a double, or other values before another one.
pub proof fn lemma_next_of_bank(f: Function, n: nat)
    requires
        n <= f.params@.len(),
    ensures
        count_params(f, Ty::F64, n) == f.params@.take(n as int).filter(
            |p: (String, Ty)| p.1 == Ty::F64,
        ).len(),
        count_params(f, Ty::I64, n) == f.params@.take(n as int).filter(
            |p: (String, Ty)| p.1 != Ty::F64,
        ).len(),
        count_params(f, Ty::Bool, n) == count_params(f, Ty::I64, n),
    decreases n,
{
    reveal(Seq::filter);
    if n > 0 {
        lemma_next_of_bank(f, (n - 1) as nat);
        assert(f.params@.take(n as int).drop_last() =~= f.params@.take(n - 1));
    }
}

/// Two parameters of one bank have different places in it.
pub proof fn lemma_own_place(f: Function, i: nat, j: nat)
    requires
        i < j,
        (f.params@[i as int].1 == Ty::F64) == (f.params@[j as int].1 == Ty::F64),
    ensures
        count_params(f, f.params@[i as int].1, i) < count_params(f, f.params@[j as int].1, j),
    decreases j,
{
    let ty = f.params@[j as int].1;
    if i < j - 1 {
        lemma_places_grow(f, ty, i + 1, j);
    }
    lemma_one_bank(f, f.params@[i as int].1, ty, i);
}

proof fn lemma_places_grow(f: Function, ty: Ty, i: nat, j: nat)
    requires
        i <= j,
    ensures
        count_params(f, ty, i) <= count_params(f, ty, j),
    decreases j,
{
    if i < j {
        lemma_places_grow(f, ty, i, (j - 1) as nat);
    }
}

proof fn lemma_one_bank(f: Function, one: Ty, other: Ty, n: nat)
    requires
        (one == Ty::F64) == (other == Ty::F64),
    ensures
        count_params(f, one, n) == count_params(f, other, n),
    decreases n,
{
    if n > 0 {
        lemma_one_bank(f, one, other, (n - 1) as nat);
    }
}

/// The place of a parameter among those that share its register bank.
pub fn ordinal_of(f: &Function, ty: Ty, n: usize) -> (r: usize)
    requires
        n <= f.params@.len(),
    ensures
        r == count_params(*f, ty, n as nat),
        r <= n,
{
    let mut count: usize = 0;
    let mut i: usize = 0;
    while i < n
        invariant
            i <= n <= f.params@.len(),
            count == count_params(*f, ty, i as nat),
            count <= i,
        decreases n - i,
    {
        if (f.params[i].1 == Ty::F64) == (ty == Ty::F64) {
            count += 1;
        }
        i += 1;
    }
    count
}

/// All parameters have type `ty`.
pub open spec fn only_params(f: Function, ty: Ty) -> bool {
    forall|i: int| #![trigger f.params@[i]] 0 <= i < f.params@.len() ==> f.params@[i].1 == ty
}

pub fn has_only_params(f: &Function, ty: Ty) -> (r: bool)
    ensures
        r == only_params(*f, ty),
{
    let mut i: usize = 0;
    while i < f.params.len()
        invariant
            i <= f.params@.len(),
            forall|j: int| #![trigger f.params@[j]] 0 <= j < i ==> f.params@[j].1 == ty,
        decreases f.params@.len() - i,
    {
        if f.params[i].1 != ty {
            return false;
        }
        i += 1;
    }
    true
}

/// The value is a parameter.
pub open spec fn is_param(f: Function, v: Value) -> bool {
    v.0 < f.insts@.len() && f.inst(v.0 as int).op is Param
}

/// How many of the first `k` values of block `b` are no parameters.
pub open spec fn count_listed(f: Function, b: int, k: nat) -> nat
    decreases k,
{
    if k == 0 {
        0
    } else {
        count_listed(f, b, (k - 1) as nat) + if is_param(f, f.listed(b)[k - 1]) {
            0nat
        } else {
            1nat
        }
    }
}

/// How many values of the first `n` blocks are no parameters.
pub open spec fn non_params(f: Function, n: nat) -> nat
    decreases n,
{
    if n == 0 {
        0
    } else {
        non_params(f, (n - 1) as nat) + count_listed(f, n - 1, f.listed(n - 1).len())
    }
}

/// Whether more than `limit` values are no parameters.
pub fn more_values_than(f: &Function, limit: usize) -> (r: bool)
    ensures
        r == (non_params(*f, f.blocks@.len()) > limit),
{
    let mut count: usize = 0;
    let mut b: usize = 0;
    while b < f.blocks.len()
        invariant
            b <= f.blocks@.len(),
            count <= limit,
            count == non_params(*f, b as nat),
        decreases f.blocks@.len() - b,
    {
        let mut k: usize = 0;
        while k < f.blocks[b].insts.len()
            invariant
                b < f.blocks@.len(),
                k <= f.listed(b as int).len(),
                count <= limit,
                count == non_params(*f, b as nat) + count_listed(*f, b as int, k as nat),
            decreases f.listed(b as int).len() - k,
        {
            let v: Value = f.blocks[b].insts[k];
            assert(v == f.listed(b as int)[k as int]);
            let param: bool = (v.0 as usize) < f.insts.len() && match &f.insts[v.0 as usize] {
                Inst::Param { .. } => true,
                _ => false,
            };
            if !param {
                if count == limit {
                    proof {
                        lemma_counts_grow(*f, b as int, (k + 1) as nat);
                        lemma_blocks_grow(*f, (b + 1) as nat, f.blocks@.len());
                    }
                    return true;
                }
                count += 1;
            }
            k += 1;
        }
        b += 1;
    }
    false
}

proof fn lemma_counts_grow(f: Function, b: int, k: nat)
    requires
        k <= f.listed(b).len(),
    ensures
        count_listed(f, b, k) <= count_listed(f, b, f.listed(b).len()),
    decreases f.listed(b).len() - k,
{
    if k < f.listed(b).len() {
        lemma_counts_grow(f, b, k + 1);
    }
}

proof fn lemma_blocks_grow(f: Function, n: nat, m: nat)
    requires
        n <= m,
    ensures
        non_params(f, n) <= non_params(f, m),
    decreases m - n,
{
    if n < m {
        lemma_blocks_grow(f, n, (m - 1) as nat);
    }
}

/// The condition under which a comparison holds, of doubles or of integers.
/// A comparison with a NaN holds only where it asks for difference.
pub open spec fn condition_of(op: CmpOp, float: bool) -> Condition {
    match op {
        CmpOp::Eq => Condition::Eq,
        CmpOp::Ne => Condition::Ne,
        CmpOp::Lt => if float {
            Condition::Mi
        } else {
            Condition::Lt
        },
        CmpOp::Le => if float {
            Condition::Ls
        } else {
            Condition::Le
        },
        CmpOp::Gt => Condition::Gt,
        CmpOp::Ge => Condition::Ge,
    }
}

pub fn condition_for(op: CmpOp, float: bool) -> (r: Condition)
    ensures
        r == condition_of(op, float),
{
    match op {
        CmpOp::Eq => Condition::Eq,
        CmpOp::Ne => Condition::Ne,
        CmpOp::Lt => if float {
            Condition::Mi
        } else {
            Condition::Lt
        },
        CmpOp::Le => if float {
            Condition::Ls
        } else {
            Condition::Le
        },
        CmpOp::Gt => Condition::Gt,
        CmpOp::Ge => Condition::Ge,
    }
}

/// The condition under which the comparison `cond` holds.
pub open spec fn holds_when(f: Function, cond: Value) -> Condition {
    let m = f.inst(cond.0 as int);
    condition_of(m.op->Compare_0, type_of(f, m.args[0]) == Some(Ty::F64))
}

/// The size of a frame of `bytes` bytes of slots: the stack stays aligned to
/// sixteen bytes.
pub open spec fn frame_size(bytes: int) -> int {
    (bytes + 15) / 16 * 16
}

pub fn round_frame(bytes: u32) -> (r: u32)
    requires
        bytes <= 0x1_0000,
    ensures
        r == frame_size(bytes as int),
        r % 16 == 0,
        bytes <= r < bytes + 16,
{
    (bytes + 15) / 16 * 16
}

/// Frames are aligned and hold their slots.
pub proof fn lemma_frame_aligned(bytes: int)
    requires
        0 <= bytes,
    ensures
        frame_size(bytes) % 16 == 0,
        bytes <= frame_size(bytes) < bytes + 16,
{
}

/// The value that a phi takes when control comes from block `from`.
pub open spec fn phi_source(m: InstModel, from: int) -> Option<Value> {
    match m.op {
        Op::Phi(froms) => match edge_from(froms, crate::ir::Block(from as u32), 0) {
            Some(j) => Some(m.args[j]),
            None => None,
        },
        _ => None,
    }
}

/// The value that an edge list brings from a block.
pub fn find_edge(incoming: &EdgeList, from: usize) -> (r: Option<Value>)
    requires
        from <= u32::MAX,
    ensures
        r == match edge_from(edge_blocks(incoming@), crate::ir::Block(from as u32), 0) {
            Some(j) => Some(edge_values(incoming@)[j]),
            None => None,
        },
{
    let mut i: usize = 0;
    let ghost froms = edge_blocks(incoming@);
    let ghost b = crate::ir::Block(from as u32);
    while i < incoming.len()
        invariant
            i <= incoming@.len(),
            from <= u32::MAX,
            froms == edge_blocks(incoming@),
            b == crate::ir::Block(from as u32),
            edge_from(froms, b, 0) == edge_from(froms, b, i as int),
        decreases incoming@.len() - i,
    {
        let edge: (crate::ir::Block, Value) = incoming.get(i);
        assert(froms[i as int] == edge.0);
        if edge.0.0 as usize == from {
            assert(edge.0 == b);
            return Some(edge.1);
        }
        i += 1;
    }
    None
}

} // verus!
