//! Code that keeps every value in a stack slot.
//!
//! This deliberately simple path serves functions with more values than there
//! are registers, and those that call out. Only parameters may stay in their
//! registers; everything else is loaded into scratch registers, computed, and
//! stored.
use crate::aarch64::emit::{
    chain, count_params, frame_size, holds_when, lemma_sound_add, nothing, one, phi_source, sound,
    type_of, Code,
};
use crate::aarch64::decode::{spelled, Source};
use crate::aarch64::emit::{condition_for, find_edge, ordinal_of, round_frame, type_at};
use crate::aarch64::encode::reg;
use crate::aarch64::encode::{xzr, Condition, Gpr};
use crate::aarch64::error::EmitError;
use crate::aarch64::link::link;
use crate::aarch64::link::{linked, same_bytes};
use crate::aarch64::machine::{constant, encodable};
use crate::aarch64::machine::{emit_i64_constant, FloatPairOp, FloatUnaryOp, IntOp, A64};
use crate::aarch64::registers::{float_op, int_op, lemma_constant_sound, move_code};
use crate::aarch64::registers::{float_operands, int_operands};
use crate::collections::EdgeList;
use crate::ir::{Block, Function, Inst, LibFunc, Terminator, Ty, Value};
use crate::ir::{InstModel, Op};
use crate::verify::arity;
use vstd::prelude::*;

verus! {

// ---------------------------------------------------------------------------
// Writing code that may fail

/// Collects code until something fails; what comes after that is dropped.
pub struct Writer {
    code: Vec<A64>,
    failed: Option<EmitError>,
}

impl View for Writer {
    type V = Code;

    closed spec fn view(&self) -> Code {
        match self.failed {
            Some(e) => Err(e),
            None => Ok(self.code@),
        }
    }
}

/// What was written can be linked.
pub open spec fn sound_code(code: Code, blocks: nat) -> bool {
    code matches Ok(c) ==> sound(c, blocks)
}

/// Writing kept the code sound.
pub open spec fn stays_sound(before: Code, after: Code) -> bool {
    forall|blocks: nat| sound_code(before, blocks) ==> #[trigger] sound_code(after, blocks)
}

/// Writing `i` kept the code sound, if `i` can be encoded and the block it
/// names exists.
pub open spec fn keeps_sound(before: Code, after: Code, i: A64) -> bool {
    forall|blocks: nat|
        sound_code(before, blocks) && encodable(i) && match i {
            A64::Jump { block } => block < blocks,
            A64::JumpIf { block, .. } => block < blocks,
            _ => true,
        } ==> #[trigger] sound_code(after, blocks)
}

/// How many instructions there are.
pub open spec fn length(code: Code) -> int {
    match code {
        Ok(c) => c.len() as int,
        Err(_) => 0,
    }
}

/// The piece fails with `e`.
pub open spec fn failure(e: EmitError) -> Code {
    Err(e)
}

impl Writer {
    pub fn new() -> (w: Writer)
        ensures
            w@ == nothing(),
    {
        let w: Writer = Writer { code: Vec::new(), failed: None };
        assert(w.code@ =~= Seq::empty());
        w
    }

    /// How many instructions have been written.
    pub fn len(&self) -> (n: usize)
        ensures
            n == length(self@),
    {
        if self.failed.is_some() {
            0
        } else {
            self.code.len()
        }
    }

    pub fn push(&mut self, i: A64)
        ensures
            final(self)@ == chain(old(self)@, one(i)),
            keeps_sound(old(self)@, final(self)@, i),
    {
        if self.failed.is_none() {
            let ghost before = self.code@;
            self.code.push(i);
            assert(self.code@ =~= before + seq![i]);
        }
    }

    pub fn fail(&mut self, e: EmitError)
        ensures
            final(self)@ == chain(old(self)@, failure(e)),
            stays_sound(old(self)@, final(self)@),
    {
        if self.failed.is_none() {
            self.failed = Some(e);
        }
    }

    pub fn constant(&mut self, dst: Gpr, value: u64)
        ensures
            final(self)@ == chain(old(self)@, Ok(constant(dst, value))),
            stays_sound(old(self)@, final(self)@),
    {
        let ghost start = self@;
        if self.failed.is_none() {
            emit_i64_constant(&mut self.code, dst, value);
        }
        proof {
            assert forall|blocks: nat| sound_code(start, blocks) implies #[trigger] sound_code(
                self@,
                blocks,
            ) by {
                lemma_constant_sound(dst, value, blocks);
                lemma_sound_chain(start, Ok(constant(dst, value)), blocks);
            }
        }
    }

    pub fn move_register(&mut self, float: bool, dst: Gpr, src: Gpr)
        ensures
            final(self)@ == chain(old(self)@, Ok(move_code(float, dst, src))),
            stays_sound(old(self)@, final(self)@),
    {
        if self.failed.is_none() {
            let ghost before = self.code@;
            if dst != src {
                if float {
                    self.code.push(A64::Unary { unary: FloatUnaryOp::Move, dst, src });
                } else {
                    self.code.push(A64::Int { op: IntOp::Or, dst, lhs: xzr(), rhs: src });
                }
            }
            assert(self.code@ =~= before + move_code(float, dst, src));
        }
    }

    /// The code, or why there is none.
    pub fn finish(self) -> (r: Result<Vec<A64>, EmitError>)
        ensures
            match r {
                Ok(code) => self@ == Ok::<Seq<A64>, EmitError>(code@),
                Err(e) => self@ == Err::<Seq<A64>, EmitError>(e),
            },
    {
        match self.failed {
            Some(e) => Err(e),
            None => Ok(self.code),
        }
    }
}

/// Writing nothing.
pub proof fn lemma_chain_nothing(acc: Code)
    ensures
        chain(acc, nothing()) == acc,
{
    if acc is Ok {
        assert(acc->Ok_0 + Seq::empty() =~= acc->Ok_0);
    }
}

/// Sound pieces make sound code.
pub proof fn lemma_sound_chain(acc: Code, piece: Code, blocks: nat)
    requires
        sound_code(acc, blocks),
        sound_code(piece, blocks),
    ensures
        sound_code(chain(acc, piece), blocks),
{
    if acc is Ok && piece is Ok {
        lemma_sound_add(acc->Ok_0, piece->Ok_0, blocks);
    }
}

// ---------------------------------------------------------------------------
// Places

/// Where a value is kept.
#[derive(Clone, Copy, Debug, PartialEq, Eq, Structural)]
pub enum Location {
    Register(Gpr),
    /// A slot at an offset from the stack pointer.
    Stack(u16),
}

/// Which values a function may hold.
#[derive(Clone, Copy, Debug, PartialEq, Eq, Structural)]
pub enum Kind {
    /// Doubles only. A function that calls keeps its parameters on the stack
    /// too, behind the return address.
    Floats { calls: bool },
    /// Doubles, integers and bools; X28..X30 are saved in the first slots.
    Mixed,
    /// Integers only; X28..X30 are saved in the first slots.
    Ints,
}

/// The places handed out so far, and the first free slot.
#[verifier::ext_equal]
pub struct Layout {
    pub locs: Seq<Option<Location>>,
    pub next: int,
}

pub struct Places {
    pub locs: Vec<Option<Location>>,
    pub next: u16,
}

impl View for Places {
    type V = Layout;

    open spec fn view(&self) -> Layout {
        Layout { locs: self.locs@, next: self.next as int }
    }
}

pub open spec fn first_slot(kind: Kind) -> int {
    match kind {
        Kind::Floats { calls } => if calls {
            8
        } else {
            0
        },
        _ => 24,
    }
}

pub open spec fn frame_error(kind: Kind) -> EmitError {
    match kind {
        Kind::Floats { .. } => EmitError::SpillFrameSize,
        Kind::Mixed => EmitError::MixedFrameSize,
        Kind::Ints => EmitError::I64FrameSize,
    }
}

/// Puts `v` in the next free slot.
pub open spec fn in_slot(kind: Kind, v: Value, s: Layout) -> Result<Layout, EmitError> {
    if s.next + 8 > u16::MAX {
        Err(frame_error(kind))
    } else {
        Ok(
            Layout {
                locs: s.locs.update(v.0 as int, Some(Location::Stack(s.next as u16))),
                next: s.next + 8,
            },
        )
    }
}

pub open spec fn in_register(v: Value, n: int, s: Layout) -> Layout {
    Layout { locs: s.locs.update(v.0 as int, Some(Location::Register(reg(n)))), ..s }
}

/// The places after `v` got its own. A comparison has none: it is evaluated
/// again where a branch needs it.
pub open spec fn place(f: Function, kind: Kind, v: Value, s: Layout) -> Result<Layout, EmitError> {
    if v.0 >= f.insts@.len() {
        Err(EmitError::MissingInstruction(v))
    } else {
        match kind {
            Kind::Floats { calls } => place_float(f, calls, v, s),
            Kind::Mixed => place_mixed(f, v, s),
            Kind::Ints => match f.inst(v.0 as int).op {
                Op::Param(index, ty) => if ty != Ty::I64 {
                    Err(EmitError::I64Params)
                } else if index >= f.params@.len() || index >= 8 {
                    Err(EmitError::I64ParamCount)
                } else {
                    Ok(in_register(v, index as int, s))
                },
                _ => in_slot(kind, v, s),
            },
        }
    }
}

pub open spec fn place_float(f: Function, calls: bool, v: Value, s: Layout) -> Result<
    Layout,
    EmitError,
> {
    match f.inst(v.0 as int).op {
        Op::Param(index, ty) => if ty != Ty::F64 {
            Err(EmitError::SpillParamType)
        } else if index >= f.params@.len() {
            Err(EmitError::ParamOutOfRange(index))
        } else if count_params(f, Ty::F64, index as nat) >= 8 {
            Err(EmitError::SpillParamCount)
        } else if calls {
            in_slot(Kind::Floats { calls }, v, s)
        } else {
            Ok(in_register(v, count_params(f, Ty::F64, index as nat) as int, s))
        },
        Op::Compare(_) => if type_of(f, v) != Some(Ty::Bool) {
            Err(EmitError::ComparisonNotBool(v))
        } else {
            Ok(s)
        },
        _ => if type_of(f, v) != Some(Ty::F64) {
            Err(EmitError::SpillValueType(v))
        } else {
            in_slot(Kind::Floats { calls }, v, s)
        },
    }
}

pub open spec fn place_mixed(f: Function, v: Value, s: Layout) -> Result<Layout, EmitError> {
    match f.inst(v.0 as int).op {
        Op::Param(index, ty) => if index >= f.params@.len() {
            Err(EmitError::ParamOutOfRange(index))
        } else if f.params@[index as int].1 != ty || type_of(f, v) != Some(ty) {
            Err(EmitError::ParamType(index))
        } else if count_params(f, ty, index as nat) >= 8 {
            Err(EmitError::MixedParamCount(ty))
        } else {
            Ok(in_register(v, count_params(f, ty, index as nat) as int, s))
        },
        Op::Compare(_) => if type_of(f, v) != Some(Ty::Bool) {
            Err(EmitError::ComparisonNotBool(v))
        } else {
            Ok(s)
        },
        Op::Call(_) => Err(EmitError::MixedCall),
        _ => if type_of(f, v) is None {
            Err(EmitError::Untyped(v))
        } else {
            in_slot(Kind::Mixed, v, s)
        },
    }
}

pub open spec fn place_listed(f: Function, kind: Kind, b: int, k: nat, s: Layout) -> Result<
    Layout,
    EmitError,
>
    decreases k,
{
    if k == 0 {
        Ok(s)
    } else {
        match place_listed(f, kind, b, (k - 1) as nat, s) {
            Ok(t) => place(f, kind, f.listed(b)[k - 1], t),
            Err(e) => Err(e),
        }
    }
}

pub open spec fn no_places(f: Function, kind: Kind) -> Layout {
    Layout { locs: Seq::new(f.insts@.len(), |i: int| None), next: first_slot(kind) }
}

/// The places after the first `n` blocks.
pub open spec fn layout(f: Function, kind: Kind, n: nat) -> Result<Layout, EmitError>
    decreases n,
{
    if n == 0 {
        Ok(no_places(f, kind))
    } else {
        match layout(f, kind, (n - 1) as nat) {
            Ok(s) => place_listed(f, kind, n - 1, f.listed(n - 1).len(), s),
            Err(e) => Err(e),
        }
    }
}

/// Slots are aligned and lie below the first free one.
pub open spec fn layout_ok(f: Function, s: Layout) -> bool {
    &&& s.locs.len() == f.insts@.len()
    &&& 0 <= s.next <= u16::MAX
    &&& s.next % 8 == 0
    &&& forall|i: int|
        #![trigger s.locs[i]]
        0 <= i < s.locs.len() ==> (s.locs[i] matches Some(Location::Stack(o)) ==> o % 8 == 0 && o
            + 8 <= s.next)
}

impl Places {
    fn new(f: &Function, kind: Kind) -> (r: Places)
        ensures
            r@ == no_places(*f, kind),
            layout_ok(*f, r@),
    {
        let n: usize = f.insts.len();
        let mut locs: Vec<Option<Location>> = Vec::new();
        let mut i: usize = 0;
        while i < n
            invariant
                i <= n,
                locs@ == Seq::new(i as nat, |j: int| None::<Location>),
            decreases n - i,
        {
            locs.push(None);
            assert(locs@ =~= Seq::new((i + 1) as nat, |j: int| None::<Location>));
            i += 1;
        }
        let next: u16 = match kind {
            Kind::Floats { calls } => if calls {
                8
            } else {
                0
            },
            _ => 24,
        };
        let r: Places = Places { locs, next };
        assert(r@ =~= no_places(*f, kind));
        r
    }

    fn add_slot(&mut self, f: &Function, kind: Kind, v: Value) -> (r: Result<(), EmitError>)
        requires
            layout_ok(*f, old(self)@),
            v.0 < f.insts@.len(),
        ensures
            layout_ok(*f, final(self)@),
            match r {
                Ok(_) => in_slot(kind, v, old(self)@) == Ok::<Layout, EmitError>(final(self)@),
                Err(e) => in_slot(kind, v, old(self)@) == Err::<Layout, EmitError>(e),
            },
    {
        let ghost start = self@;
        if self.next > u16::MAX - 8 {
            return Err(
                match kind {
                    Kind::Floats { .. } => EmitError::SpillFrameSize,
                    Kind::Mixed => EmitError::MixedFrameSize,
                    Kind::Ints => EmitError::I64FrameSize,
                },
            );
        }
        self.locs.set(v.0 as usize, Some(Location::Stack(self.next)));
        self.next = self.next + 8;
        proof {
            let now = self@;
            assert(now =~= in_slot(kind, v, start)->Ok_0);
            assert forall|i: int| #![trigger now.locs[i]] 0 <= i < now.locs.len() implies (
            now.locs[i] matches Some(Location::Stack(o)) ==> o % 8 == 0 && o + 8 <= now.next) by {
                if i != v.0 {
                    assert(now.locs[i] == start.locs[i]);
                }
            }
        }
        Ok(())
    }

    fn add_register(&mut self, f: &Function, v: Value, n: usize)
        requires
            layout_ok(*f, old(self)@),
            v.0 < f.insts@.len(),
            n < 8,
        ensures
            layout_ok(*f, final(self)@),
            final(self)@ == in_register(v, n as int, old(self)@),
    {
        let ghost start = self@;
        self.locs.set(v.0 as usize, Some(Location::Register(Gpr::new(n as u8))));
        proof {
            let now = self@;
            assert(now =~= in_register(v, n as int, start));
            assert forall|i: int| #![trigger now.locs[i]] 0 <= i < now.locs.len() implies (
            now.locs[i] matches Some(Location::Stack(o)) ==> o % 8 == 0 && o + 8 <= now.next) by {
                if i != v.0 {
                    assert(now.locs[i] == start.locs[i]);
                }
            }
        }
    }

    fn place_float(&mut self, f: &Function, calls: bool, v: Value) -> (r: Result<(), EmitError>)
        requires
            layout_ok(*f, old(self)@),
            v.0 < f.insts@.len(),
        ensures
            layout_ok(*f, final(self)@),
            match r {
                Ok(_) => place_float(*f, calls, v, old(self)@) == Ok::<Layout, EmitError>(
                    final(self)@,
                ),
                Err(e) => place_float(*f, calls, v, old(self)@) == Err::<Layout, EmitError>(e),
            },
    {
        match &f.insts[v.0 as usize] {
            Inst::Param { index, ty } => {
                if *ty != Ty::F64 {
                    return Err(EmitError::SpillParamType);
                }
                if *index as usize >= f.params.len() {
                    return Err(EmitError::ParamOutOfRange(*index));
                }
                let ordinal: usize = ordinal_of(f, Ty::F64, *index as usize);
                if ordinal >= 8 {
                    return Err(EmitError::SpillParamCount);
                }
                if calls {
                    self.add_slot(f, Kind::Floats { calls }, v)
                } else {
                    self.add_register(f, v, ordinal);
                    Ok(())
                }
            },
            Inst::Cmp { .. } => if type_at(f, v) != Some(Ty::Bool) {
                Err(EmitError::ComparisonNotBool(v))
            } else {
                Ok(())
            },
            _ => if type_at(f, v) != Some(Ty::F64) {
                Err(EmitError::SpillValueType(v))
            } else {
                self.add_slot(f, Kind::Floats { calls }, v)
            },
        }
    }

    fn place_mixed(&mut self, f: &Function, v: Value) -> (r: Result<(), EmitError>)
        requires
            layout_ok(*f, old(self)@),
            v.0 < f.insts@.len(),
        ensures
            layout_ok(*f, final(self)@),
            match r {
                Ok(_) => place_mixed(*f, v, old(self)@) == Ok::<Layout, EmitError>(final(self)@),
                Err(e) => place_mixed(*f, v, old(self)@) == Err::<Layout, EmitError>(e),
            },
    {
        match &f.insts[v.0 as usize] {
            Inst::Param { index, ty } => {
                if *index as usize >= f.params.len() {
                    return Err(EmitError::ParamOutOfRange(*index));
                }
                if f.params[*index as usize].1 != *ty || type_at(f, v) != Some(*ty) {
                    return Err(EmitError::ParamType(*index));
                }
                let ordinal: usize = ordinal_of(f, *ty, *index as usize);
                if ordinal >= 8 {
                    return Err(EmitError::MixedParamCount(*ty));
                }
                self.add_register(f, v, ordinal);
                Ok(())
            },
            Inst::Cmp { .. } => if type_at(f, v) != Some(Ty::Bool) {
                Err(EmitError::ComparisonNotBool(v))
            } else {
                Ok(())
            },
            Inst::Call { .. } => Err(EmitError::MixedCall),
            _ => if type_at(f, v).is_none() {
                Err(EmitError::Untyped(v))
            } else {
                self.add_slot(f, Kind::Mixed, v)
            },
        }
    }

    fn place(&mut self, f: &Function, kind: Kind, v: Value) -> (r: Result<(), EmitError>)
        requires
            layout_ok(*f, old(self)@),
        ensures
            layout_ok(*f, final(self)@),
            match r {
                Ok(_) => place(*f, kind, v, old(self)@) == Ok::<Layout, EmitError>(final(self)@),
                Err(e) => place(*f, kind, v, old(self)@) == Err::<Layout, EmitError>(e),
            },
    {
        if v.0 as usize >= f.insts.len() {
            return Err(EmitError::MissingInstruction(v));
        }
        match kind {
            Kind::Floats { calls } => self.place_float(f, calls, v),
            Kind::Mixed => self.place_mixed(f, v),
            Kind::Ints => match &f.insts[v.0 as usize] {
                Inst::Param { index, ty } => {
                    if *ty != Ty::I64 {
                        return Err(EmitError::I64Params);
                    }
                    if *index as usize >= f.params.len() || *index >= 8 {
                        return Err(EmitError::I64ParamCount);
                    }
                    self.add_register(f, v, *index as usize);
                    Ok(())
                },
                _ => self.add_slot(f, kind, v),
            },
        }
    }
}

/// Finds a place for every value.
pub fn lay_out(f: &Function, kind: Kind) -> (r: Result<Places, EmitError>)
    ensures
        match r {
            Ok(p) => layout(*f, kind, f.blocks@.len()) == Ok::<Layout, EmitError>(p@)
                && layout_ok(*f, p@),
            Err(e) => layout(*f, kind, f.blocks@.len()) == Err::<Layout, EmitError>(e),
        },
{
    let mut p: Places = Places::new(f, kind);
    let mut b: usize = 0;
    while b < f.blocks.len()
        invariant
            b <= f.blocks@.len(),
            layout(*f, kind, b as nat) == Ok::<Layout, EmitError>(p@),
            layout_ok(*f, p@),
        decreases f.blocks@.len() - b,
    {
        let ghost start = p@;
        let mut k: usize = 0;
        while k < f.blocks[b].insts.len()
            invariant
                b < f.blocks@.len(),
                k <= f.listed(b as int).len(),
                layout(*f, kind, b as nat) == Ok::<Layout, EmitError>(start),
                place_listed(*f, kind, b as int, k as nat, start) == Ok::<Layout, EmitError>(p@),
                layout_ok(*f, p@),
            decreases f.listed(b as int).len() - k,
        {
            let v: Value = f.blocks[b].insts[k];
            assert(v == f.listed(b as int)[k as int]);
            match p.place(f, kind, v) {
                Ok(_) => {},
                Err(e) => {
                    proof {
                        lemma_listed_error(*f, kind, b as int, (k + 1) as nat, start, e);
                        lemma_layout_error(*f, kind, (b + 1) as nat, e);
                    }
                    return Err(e);
                },
            }
            k += 1;
        }
        b += 1;
    }
    Ok(p)
}

proof fn lemma_listed_error(f: Function, kind: Kind, b: int, k: nat, s: Layout, e: EmitError)
    requires
        k <= f.listed(b).len(),
        place_listed(f, kind, b, k, s) == Err::<Layout, EmitError>(e),
    ensures
        place_listed(f, kind, b, f.listed(b).len(), s) == Err::<Layout, EmitError>(e),
    decreases f.listed(b).len() - k,
{
    if k < f.listed(b).len() {
        lemma_listed_error(f, kind, b, k + 1, s, e);
    }
}

proof fn lemma_layout_error(f: Function, kind: Kind, n: nat, e: EmitError)
    requires
        n <= f.blocks@.len(),
        layout(f, kind, n) == Err::<Layout, EmitError>(e),
    ensures
        layout(f, kind, f.blocks@.len()) == Err::<Layout, EmitError>(e),
    decreases f.blocks@.len() - n,
{
    if n < f.blocks@.len() {
        lemma_layout_error(f, kind, n + 1, e);
    }
}

/// The size of the frame. The offsets of the frame have to fit a 12-bit
/// immediate.
pub open spec fn spill_frame(kind: Kind, next: int) -> Result<int, EmitError> {
    let bytes = frame_size(next);
    if bytes > u16::MAX {
        Err(frame_error(kind))
    } else if bytes >= 4096 {
        Err(
            match kind {
                Kind::Floats { .. } => EmitError::SpillFrameReach,
                Kind::Mixed => EmitError::MixedFrameReach,
                Kind::Ints => EmitError::I64FrameSize,
            },
        )
    } else {
        Ok(bytes)
    }
}

pub fn find_frame(kind: Kind, next: u16) -> (r: Result<u16, EmitError>)
    ensures
        match r {
            Ok(bytes) => spill_frame(kind, next as int) == Ok::<int, EmitError>(bytes as int)
                && bytes < 4096 && next <= bytes,
            Err(e) => spill_frame(kind, next as int) == Err::<int, EmitError>(e),
        },
{
    let bytes: u32 = round_frame(next as u32);
    if bytes > u16::MAX as u32 {
        return Err(
            match kind {
                Kind::Floats { .. } => EmitError::SpillFrameSize,
                Kind::Mixed => EmitError::MixedFrameSize,
                Kind::Ints => EmitError::I64FrameSize,
            },
        );
    }
    if bytes >= 4096 {
        return Err(
            match kind {
                Kind::Floats { .. } => EmitError::SpillFrameReach,
                Kind::Mixed => EmitError::MixedFrameReach,
                Kind::Ints => EmitError::I64FrameSize,
            },
        );
    }
    Ok(bytes as u16)
}

// ---------------------------------------------------------------------------
// Loads and stores

pub open spec fn location_of(locs: Seq<Option<Location>>, v: Value) -> Option<Location> {
    if v.0 < locs.len() {
        locs[v.0 as int]
    } else {
        None
    }
}

fn find_location(locs: &Vec<Option<Location>>, v: Value) -> (r: Option<Location>)
    ensures
        r == location_of(locs@, v),
{
    if (v.0 as usize) < locs.len() {
        locs[v.0 as usize]
    } else {
        None
    }
}

pub open spec fn load_slot(float: bool, dst: Gpr, slot: u16) -> A64 {
    if float {
        A64::LoadFloat { dst, slot }
    } else {
        A64::Load { dst, slot }
    }
}

pub open spec fn store_slot(float: bool, src: Gpr, slot: u16) -> A64 {
    if float {
        A64::StoreFloat { src, slot }
    } else {
        A64::Store { src, slot }
    }
}

/// Brings a value into a register.
pub open spec fn load(
    acc: Code,
    locs: Seq<Option<Location>>,
    float: bool,
    v: Value,
    scratch: Gpr,
) -> Code {
    chain(
        acc,
        match location_of(locs, v) {
            None => failure(EmitError::MissingLocation(v)),
            Some(Location::Register(r)) => Ok(move_code(float, scratch, r)),
            Some(Location::Stack(slot)) => one(load_slot(float, scratch, slot)),
        },
    )
}

/// Takes a value out of a register. Only some functions may keep a computed
/// value in a register.
pub open spec fn store(
    acc: Code,
    locs: Seq<Option<Location>>,
    float: bool,
    slots_only: bool,
    v: Value,
    source: Gpr,
) -> Code {
    chain(
        acc,
        match location_of(locs, v) {
            None => failure(EmitError::MissingLocation(v)),
            Some(Location::Register(r)) => if slots_only {
                failure(EmitError::ValueInRegister(v))
            } else {
                Ok(move_code(float, r, source))
            },
            Some(Location::Stack(slot)) => one(store_slot(float, source, slot)),
        },
    )
}

/// The slots of the places can be addressed.
pub open spec fn addressable(locs: Seq<Option<Location>>) -> bool {
    forall|i: int|
        #![trigger locs[i]]
        0 <= i < locs.len() ==> (locs[i] matches Some(Location::Stack(o)) ==> o % 8 == 0 && o
            < 4096)
}

impl Writer {
    fn load(&mut self, locs: &Vec<Option<Location>>, float: bool, v: Value, scratch: Gpr)
        requires
            addressable(locs@),
        ensures
            final(self)@ == load(old(self)@, locs@, float, v, scratch),
            stays_sound(old(self)@, final(self)@),
    {
        match find_location(locs, v) {
            None => self.fail(EmitError::MissingLocation(v)),
            Some(Location::Register(r)) => self.move_register(float, scratch, r),
            Some(Location::Stack(slot)) => {
                assert(locs@[v.0 as int] == Some(Location::Stack(slot)));
                if float {
                    self.push(A64::LoadFloat { dst: scratch, slot });
                } else {
                    self.push(A64::Load { dst: scratch, slot });
                }
            },
        }
    }

    fn store(
        &mut self,
        locs: &Vec<Option<Location>>,
        float: bool,
        slots_only: bool,
        v: Value,
        source: Gpr,
    )
        requires
            addressable(locs@),
        ensures
            final(self)@ == store(old(self)@, locs@, float, slots_only, v, source),
            stays_sound(old(self)@, final(self)@),
    {
        match find_location(locs, v) {
            None => self.fail(EmitError::MissingLocation(v)),
            Some(Location::Register(r)) => if slots_only {
                self.fail(EmitError::ValueInRegister(v));
            } else {
                self.move_register(float, r, source);
            },
            Some(Location::Stack(slot)) => {
                assert(locs@[v.0 as int] == Some(Location::Stack(slot)));
                if float {
                    self.push(A64::StoreFloat { src: source, slot });
                } else {
                    self.push(A64::Store { src: source, slot });
                }
            },
        }
    }
}

// ---------------------------------------------------------------------------
// Integer functions

/// The code of an instruction of an integer function, behind `acc`.
pub open spec fn int_spill(f: Function, locs: Seq<Option<Location>>, v: Value, acc: Code) -> Code {
    let m = f.inst(v.0 as int);
    let a = m.args[0];
    let b = m.args[1];
    match m.op {
        Op::ConstI64(n) => store(
            chain(acc, Ok(constant(reg(28), n as u64))),
            locs,
            false,
            false,
            v,
            reg(28),
        ),
        Op::Param(_, _) => acc,
        Op::Rem => store(rem_spill(acc, locs, a, b), locs, false, false, v, reg(28)),
        Op::Neg => store(
            chain(
                load(acc, locs, false, a, reg(28)),
                one(A64::Int { op: IntOp::Sub, dst: reg(28), lhs: reg(31), rhs: reg(28) }),
            ),
            locs,
            false,
            false,
            v,
            reg(28),
        ),
        Op::Not => store(not_spill(acc, locs, a), locs, false, false, v, reg(28)),
        op => match int_op(op) {
            Some(i) => store(pair_spill(acc, locs, i, a, b), locs, false, false, v, reg(28)),
            None => chain(acc, failure(EmitError::I64Unsupported(v))),
        },
    }
}

/// An operation on two integers, with X28 and X29 as scratch registers.
pub open spec fn pair_spill(
    acc: Code,
    locs: Seq<Option<Location>>,
    op: IntOp,
    a: Value,
    b: Value,
) -> Code {
    chain(
        load(load(acc, locs, false, a, reg(28)), locs, false, b, reg(29)),
        one(A64::Int { op, dst: reg(28), lhs: reg(28), rhs: reg(29) }),
    )
}

pub open spec fn rem_spill(acc: Code, locs: Seq<Option<Location>>, a: Value, b: Value) -> Code {
    chain(
        chain(
            load(load(acc, locs, false, a, reg(28)), locs, false, b, reg(29)),
            one(A64::Int { op: IntOp::Div, dst: reg(30), lhs: reg(28), rhs: reg(29) }),
        ),
        one(A64::MulSub { dst: reg(28), lhs: reg(30), rhs: reg(29), minuend: reg(28) }),
    )
}

pub open spec fn not_spill(acc: Code, locs: Seq<Option<Location>>, a: Value) -> Code {
    chain(
        chain(load(acc, locs, false, a, reg(28)), Ok(constant(reg(29), u64::MAX))),
        one(A64::Int { op: IntOp::Xor, dst: reg(28), lhs: reg(29), rhs: reg(28) }),
    )
}

impl Writer {
    fn pair(&mut self, locs: &Vec<Option<Location>>, op: IntOp, a: Value, b: Value)
        requires
            addressable(locs@),
        ensures
            final(self)@ == pair_spill(old(self)@, locs@, op, a, b),
            stays_sound(old(self)@, final(self)@),
    {
        let x: Gpr = Gpr::new(28);
        let y: Gpr = Gpr::new(29);
        self.load(locs, false, a, x);
        self.load(locs, false, b, y);
        self.push(A64::Int { op, dst: x, lhs: x, rhs: y });
    }

    fn remainder(&mut self, locs: &Vec<Option<Location>>, a: Value, b: Value)
        requires
            addressable(locs@),
        ensures
            final(self)@ == rem_spill(old(self)@, locs@, a, b),
            stays_sound(old(self)@, final(self)@),
    {
        let x: Gpr = Gpr::new(28);
        let y: Gpr = Gpr::new(29);
        let z: Gpr = Gpr::new(30);
        self.load(locs, false, a, x);
        self.load(locs, false, b, y);
        self.push(A64::Int { op: IntOp::Div, dst: z, lhs: x, rhs: y });
        self.push(A64::MulSub { dst: x, lhs: z, rhs: y, minuend: x });
    }

    fn invert(&mut self, locs: &Vec<Option<Location>>, a: Value)
        requires
            addressable(locs@),
        ensures
            final(self)@ == not_spill(old(self)@, locs@, a),
            stays_sound(old(self)@, final(self)@),
    {
        let x: Gpr = Gpr::new(28);
        let y: Gpr = Gpr::new(29);
        self.load(locs, false, a, x);
        self.constant(y, u64::MAX);
        self.push(A64::Int { op: IntOp::Xor, dst: x, lhs: y, rhs: x });
    }

    fn negate(&mut self, locs: &Vec<Option<Location>>, a: Value)
        requires
            addressable(locs@),
        ensures
            final(self)@ == chain(
                load(old(self)@, locs@, false, a, reg(28)),
                one((A64::Int { op: IntOp::Sub, dst: reg(28), lhs: reg(31), rhs: reg(28) })),
            ),
            stays_sound(old(self)@, final(self)@),
    {
        let x: Gpr = Gpr::new(28);
        self.load(locs, false, a, x);
        self.push(A64::Int { op: IntOp::Sub, dst: x, lhs: xzr(), rhs: x });
    }

    fn int_inst(&mut self, f: &Function, locs: &Vec<Option<Location>>, v: Value)
        requires
            addressable(locs@),
            v.0 < f.insts@.len(),
        ensures
            final(self)@ == int_spill(*f, locs@, v, old(self)@),
            stays_sound(old(self)@, final(self)@),
    {
        let x: Gpr = Gpr::new(28);
        let inst: &Inst = &f.insts[v.0 as usize];
        match inst {
            Inst::ConstI64(n) => self.constant(x, *n as u64),
            Inst::Param { .. } => {
                return ;
            },
            Inst::Rem(a, b) => self.remainder(locs, *a, *b),
            Inst::Neg(a) => self.negate(locs, *a),
            Inst::Not(a) => self.invert(locs, *a),
            _ => match int_operands(inst) {
                Some((op, a, b)) => self.pair(locs, op, a, b),
                None => {
                    self.fail(EmitError::I64Unsupported(v));
                    return ;
                },
            },
        }
        self.store(locs, false, false, v, x);
    }
}

// ---------------------------------------------------------------------------
// Functions of doubles

/// Where the functions of the mathematical library are.
#[derive(Clone, Copy, Debug, PartialEq, Eq, Structural)]
pub struct LibmAddresses {
    pub sin: u64,
    pub cos: u64,
    pub tan: u64,
    pub exp: u64,
    pub log: u64,
    pub pow: u64,
}

impl LibmAddresses {
    pub open spec fn spec_get(self, func: LibFunc) -> u64 {
        match func {
            LibFunc::Sin => self.sin,
            LibFunc::Cos => self.cos,
            LibFunc::Tan => self.tan,
            LibFunc::Exp => self.exp,
            LibFunc::Log => self.log,
            LibFunc::Pow => self.pow,
        }
    }

    pub fn get(&self, func: LibFunc) -> (r: u64)
        ensures
            r == self.spec_get(func),
    {
        match func {
            LibFunc::Sin => self.sin,
            LibFunc::Cos => self.cos,
            LibFunc::Tan => self.tan,
            LibFunc::Exp => self.exp,
            LibFunc::Log => self.log,
            LibFunc::Pow => self.pow,
        }
    }
}

/// An operation on two doubles, with D29 and D30 as scratch registers.
pub open spec fn float_pair_spill(
    acc: Code,
    locs: Seq<Option<Location>>,
    pair: FloatPairOp,
    a: Value,
    b: Value,
) -> Code {
    chain(
        load(load(acc, locs, true, a, reg(29)), locs, true, b, reg(30)),
        one(A64::Float { pair, dst: reg(29), lhs: reg(29), rhs: reg(30) }),
    )
}

pub open spec fn float_unary_spill(
    acc: Code,
    locs: Seq<Option<Location>>,
    unary: FloatUnaryOp,
    a: Value,
) -> Code {
    chain(
        load(acc, locs, true, a, reg(29)),
        one(A64::Unary { unary, dst: reg(29), src: reg(29) }),
    )
}

pub open spec fn fma_spill(
    acc: Code,
    locs: Seq<Option<Location>>,
    a: Value,
    b: Value,
    c: Value,
) -> Code {
    chain(
        load(
            load(load(acc, locs, true, a, reg(29)), locs, true, b, reg(30)),
            locs,
            true,
            c,
            reg(31),
        ),
        one(A64::FusedMulAdd { dst: reg(29), lhs: reg(29), rhs: reg(30), addend: reg(31) }),
    )
}

/// The call has the arguments that the function takes, and all are doubles.
pub open spec fn call_ok(f: Function, m: InstModel, v: Value) -> bool {
    &&& m.op matches Op::Call(func) && m.args.len() == arity(func)
    &&& forall|i: int|
        #![trigger m.args[i]]
        0 <= i < m.args.len() ==> type_of(f, m.args[i]) == Some(Ty::F64)
    &&& type_of(f, v) == Some(Ty::F64)
}

pub open spec fn move_argument(acc: Code, dst: int, src: int) -> Code {
    chain(acc, one(A64::Unary { unary: FloatUnaryOp::Move, dst: reg(dst), src: reg(src) }))
}

/// A call: the arguments in D0 and D1, the address in X16, and the result in
/// D0.
pub open spec fn call_spill(
    acc: Code,
    locs: Seq<Option<Location>>,
    func: LibFunc,
    args: Seq<Value>,
    libm: LibmAddresses,
) -> Code {
    let first = move_argument(load(acc, locs, true, args[0], reg(29)), 0, 29);
    let both = if func == LibFunc::Pow {
        move_argument(load(first, locs, true, args[1], reg(30)), 1, 30)
    } else {
        first
    };
    chain(
        chain(both, Ok(constant(reg(16), libm.spec_get(func)))),
        one(A64::CallRegister { target: reg(16) }),
    )
}

/// The code of an instruction of a function of doubles, behind `acc`.
pub open spec fn float_spill(
    f: Function,
    locs: Seq<Option<Location>>,
    libm: LibmAddresses,
    v: Value,
    acc: Code,
) -> Code {
    let m = f.inst(v.0 as int);
    let a = m.args[0];
    let b = m.args[1];
    match m.op {
        Op::ConstF64(bits) => store(
            chain(acc, one(A64::Literal { dst: reg(29), bits })),
            locs,
            true,
            false,
            v,
            reg(29),
        ),
        Op::Param(_, _) | Op::Compare(_) | Op::Phi(_) => acc,
        Op::Neg => store(
            float_unary_spill(acc, locs, FloatUnaryOp::Neg, a),
            locs,
            true,
            false,
            v,
            reg(29),
        ),
        Op::Abs => store(
            float_unary_spill(acc, locs, FloatUnaryOp::Abs, a),
            locs,
            true,
            false,
            v,
            reg(29),
        ),
        Op::Sqrt => store(
            float_unary_spill(acc, locs, FloatUnaryOp::Sqrt, a),
            locs,
            true,
            false,
            v,
            reg(29),
        ),
        Op::Fma => store(
            fma_spill(acc, locs, a, b, m.args[2]),
            locs,
            true,
            false,
            v,
            reg(29),
        ),
        Op::Call(func) => if !call_ok(f, m, v) {
            chain(acc, failure(EmitError::CallArguments))
        } else {
            store(call_spill(acc, locs, func, m.args, libm), locs, true, false, v, reg(0))
        },
        op => match float_op(op) {
            Some(pair) => store(
                float_pair_spill(acc, locs, pair, a, b),
                locs,
                true,
                false,
                v,
                reg(29),
            ),
            None => chain(acc, failure(EmitError::SpillUnsupported(v))),
        },
    }
}

impl Writer {
    fn float_pair(&mut self, locs: &Vec<Option<Location>>, pair: FloatPairOp, a: Value, b: Value)
        requires
            addressable(locs@),
        ensures
            final(self)@ == float_pair_spill(old(self)@, locs@, pair, a, b),
            stays_sound(old(self)@, final(self)@),
    {
        let x: Gpr = Gpr::new_d(29);
        let y: Gpr = Gpr::new_d(30);
        self.load(locs, true, a, x);
        self.load(locs, true, b, y);
        self.push(A64::Float { pair, dst: x, lhs: x, rhs: y });
    }

    fn float_unary(&mut self, locs: &Vec<Option<Location>>, unary: FloatUnaryOp, a: Value)
        requires
            addressable(locs@),
        ensures
            final(self)@ == float_unary_spill(old(self)@, locs@, unary, a),
            stays_sound(old(self)@, final(self)@),
    {
        let x: Gpr = Gpr::new_d(29);
        self.load(locs, true, a, x);
        self.push(A64::Unary { unary, dst: x, src: x });
    }

    fn fused(&mut self, locs: &Vec<Option<Location>>, a: Value, b: Value, c: Value)
        requires
            addressable(locs@),
        ensures
            final(self)@ == fma_spill(old(self)@, locs@, a, b, c),
            stays_sound(old(self)@, final(self)@),
    {
        let x: Gpr = Gpr::new_d(29);
        let y: Gpr = Gpr::new_d(30);
        let z: Gpr = Gpr::new_d(31);
        self.load(locs, true, a, x);
        self.load(locs, true, b, y);
        self.load(locs, true, c, z);
        self.push(A64::FusedMulAdd { dst: x, lhs: x, rhs: y, addend: z });
    }

    fn call(
        &mut self,
        locs: &Vec<Option<Location>>,
        func: LibFunc,
        args: &Vec<Value>,
        libm: &LibmAddresses,
    )
        requires
            addressable(locs@),
            args@.len() == arity(func),
        ensures
            final(self)@ == call_spill(old(self)@, locs@, func, args@, *libm),
            stays_sound(old(self)@, final(self)@),
    {
        let x: Gpr = Gpr::new_d(29);
        let y: Gpr = Gpr::new_d(30);
        let unary: FloatUnaryOp = FloatUnaryOp::Move;
        self.load(locs, true, args[0], x);
        self.push(A64::Unary { unary, dst: Gpr::new_d(0), src: x });
        if func == LibFunc::Pow {
            self.load(locs, true, args[1], y);
            self.push(A64::Unary { unary, dst: Gpr::new_d(1), src: y });
        }
        self.constant(Gpr::new(16), libm.get(func));
        self.push(A64::CallRegister { target: Gpr::new(16) });
    }

    fn float_inst(
        &mut self,
        f: &Function,
        locs: &Vec<Option<Location>>,
        libm: &LibmAddresses,
        v: Value,
    )
        requires
            addressable(locs@),
            v.0 < f.insts@.len(),
        ensures
            final(self)@ == float_spill(*f, locs@, *libm, v, old(self)@),
            stays_sound(old(self)@, final(self)@),
    {
        let x: Gpr = Gpr::new_d(29);
        let inst: &Inst = &f.insts[v.0 as usize];
        match inst {
            Inst::ConstF64(bits) => self.push(A64::Literal { dst: x, bits: *bits }),
            Inst::Param { .. } | Inst::Cmp { .. } | Inst::Phi { .. } => {
                return ;
            },
            Inst::Neg(a) => self.float_unary(locs, FloatUnaryOp::Neg, *a),
            Inst::Abs(a) => self.float_unary(locs, FloatUnaryOp::Abs, *a),
            Inst::Sqrt(a) => self.float_unary(locs, FloatUnaryOp::Sqrt, *a),
            Inst::Fma { a, b, c } => self.fused(locs, *a, *b, *c),
            Inst::Call { func, args: _ } => {
                let args: Vec<Value> = crate::ir::uses_of(inst);
                if !check_call(f, *func, &args, v) {
                    assert(!call_ok(*f, inst@, v));
                    self.fail(EmitError::CallArguments);
                    return ;
                }
                self.call(locs, *func, &args, libm);
                self.store(locs, true, false, v, Gpr::new_d(0));
                return ;
            },
            _ => match float_operands(inst) {
                Some((pair, a, b)) => self.float_pair(locs, pair, a, b),
                None => {
                    self.fail(EmitError::SpillUnsupported(v));
                    return ;
                },
            },
        }
        self.store(locs, true, false, v, x);
    }
}

fn check_call(f: &Function, func: LibFunc, args: &Vec<Value>, v: Value) -> (r: bool)
    ensures
        r == (args@.len() == arity(func) && (forall|i: int|
            #![trigger args@[i]]
            0 <= i < args@.len() ==> type_of(*f, args@[i]) == Some(Ty::F64)) && type_of(*f, v)
            == Some(Ty::F64)),
{
    let expected: usize = if func == LibFunc::Pow {
        2
    } else {
        1
    };
    if args.len() != expected || type_at(f, v) != Some(Ty::F64) {
        return false;
    }
    let mut i: usize = 0;
    while i < args.len()
        invariant
            i <= args@.len(),
            forall|j: int|
                #![trigger args@[j]]
                0 <= j < i ==> type_of(*f, args@[j]) == Some(Ty::F64),
        decreases args@.len() - i,
    {
        if type_at(f, args[i]) != Some(Ty::F64) {
            return false;
        }
        i += 1;
    }
    true
}

// ---------------------------------------------------------------------------
// Mixed functions

pub open spec fn is_int(ty: Option<Ty>) -> bool {
    ty == Some(Ty::I64) || ty == Some(Ty::Bool)
}

/// Brings a value of the right type into a register.
pub open spec fn load_typed(
    f: Function,
    acc: Code,
    locs: Seq<Option<Location>>,
    float: bool,
    v: Value,
    scratch: Gpr,
) -> Code {
    if float && type_of(f, v) != Some(Ty::F64) {
        chain(acc, failure(EmitError::NotF64(v)))
    } else if !float && !is_int(type_of(f, v)) {
        chain(acc, failure(EmitError::NotInteger(v)))
    } else {
        load(acc, locs, float, v, scratch)
    }
}

/// The first integer scratch register is X28, the first floating-point one
/// D29.
pub open spec fn scratch(float: bool) -> int {
    if float {
        29
    } else {
        28
    }
}

/// Two operands in the scratch registers.
pub open spec fn load_two(
    f: Function,
    acc: Code,
    locs: Seq<Option<Location>>,
    float: bool,
    a: Value,
    b: Value,
) -> Code {
    load_typed(
        f,
        load_typed(f, acc, locs, float, a, reg(scratch(float))),
        locs,
        float,
        b,
        reg(scratch(float) + 1),
    )
}

pub open spec fn mixed_store(
    acc: Code,
    locs: Seq<Option<Location>>,
    float: bool,
    v: Value,
) -> Code {
    store(acc, locs, float, true, v, reg(scratch(float)))
}

pub open spec fn mixed_int_pair(
    f: Function,
    locs: Seq<Option<Location>>,
    v: Value,
    op: IntOp,
    a: Value,
    b: Value,
    acc: Code,
) -> Code {
    mixed_store(
        chain(
            load_two(f, acc, locs, false, a, b),
            one(A64::Int { op, dst: reg(28), lhs: reg(28), rhs: reg(29) }),
        ),
        locs,
        false,
        v,
    )
}

pub open spec fn mixed_arithmetic(
    f: Function,
    locs: Seq<Option<Location>>,
    v: Value,
    acc: Code,
) -> Code {
    let m = f.inst(v.0 as int);
    match type_of(f, v) {
        Some(Ty::F64) => mixed_store(
            chain(
                load_two(f, acc, locs, true, m.args[0], m.args[1]),
                one(
                    A64::Float {
                        pair: float_op(m.op).unwrap(),
                        dst: reg(29),
                        lhs: reg(29),
                        rhs: reg(30),
                    },
                ),
            ),
            locs,
            true,
            v,
        ),
        Some(Ty::I64) => mixed_int_pair(
            f,
            locs,
            v,
            int_op(m.op).unwrap(),
            m.args[0],
            m.args[1],
            acc,
        ),
        _ => chain(acc, failure(EmitError::MixedArithmeticType(v))),
    }
}

pub open spec fn mixed_remainder(
    f: Function,
    locs: Seq<Option<Location>>,
    v: Value,
    acc: Code,
) -> Code {
    let m = f.inst(v.0 as int);
    if type_of(f, v) != Some(Ty::I64) {
        chain(acc, failure(EmitError::MixedRemainderType))
    } else {
        mixed_store(
            chain(
                chain(
                    load_two(f, acc, locs, false, m.args[0], m.args[1]),
                    one(A64::Int { op: IntOp::Div, dst: reg(30), lhs: reg(28), rhs: reg(29) }),
                ),
                one(A64::MulSub { dst: reg(28), lhs: reg(30), rhs: reg(29), minuend: reg(28) }),
            ),
            locs,
            false,
            v,
        )
    }
}

pub open spec fn mixed_negation(
    f: Function,
    locs: Seq<Option<Location>>,
    v: Value,
    acc: Code,
) -> Code {
    let a = f.inst(v.0 as int).args[0];
    match type_of(f, v) {
        Some(Ty::F64) => mixed_store(
            chain(
                load_typed(f, acc, locs, true, a, reg(29)),
                one(A64::Unary { unary: FloatUnaryOp::Neg, dst: reg(29), src: reg(29) }),
            ),
            locs,
            true,
            v,
        ),
        Some(Ty::I64) => mixed_store(
            chain(
                load_typed(f, acc, locs, false, a, reg(28)),
                one(A64::Int { op: IntOp::Sub, dst: reg(28), lhs: reg(31), rhs: reg(28) }),
            ),
            locs,
            false,
            v,
        ),
        _ => chain(acc, failure(EmitError::MixedNegationType(v))),
    }
}

pub open spec fn mixed_not(
    f: Function,
    locs: Seq<Option<Location>>,
    v: Value,
    acc: Code,
) -> Code {
    let a = f.inst(v.0 as int).args[0];
    if !is_int(type_of(f, v)) {
        chain(acc, failure(EmitError::MixedNotType(v)))
    } else {
        mixed_store(
            chain(
                chain(
                    load_typed(f, acc, locs, false, a, reg(28)),
                    Ok(constant(reg(29), u64::MAX)),
                ),
                one(A64::Int { op: IntOp::Xor, dst: reg(28), lhs: reg(29), rhs: reg(28) }),
            ),
            locs,
            false,
            v,
        )
    }
}

pub open spec fn mixed_logical(
    f: Function,
    locs: Seq<Option<Location>>,
    v: Value,
    acc: Code,
) -> Code {
    let m = f.inst(v.0 as int);
    if !is_int(type_of(f, v)) {
        chain(acc, failure(EmitError::MixedLogicalType(v)))
    } else {
        mixed_int_pair(f, locs, v, int_op(m.op).unwrap(), m.args[0], m.args[1], acc)
    }
}

/// The code of an instruction of a mixed function, behind `acc`.
pub open spec fn mixed_spill(
    f: Function,
    locs: Seq<Option<Location>>,
    v: Value,
    acc: Code,
) -> Code {
    let m = f.inst(v.0 as int);
    match m.op {
        Op::ConstF64(bits) => mixed_store(
            chain(acc, one(A64::Literal { dst: reg(29), bits })),
            locs,
            true,
            v,
        ),
        Op::ConstI64(n) => mixed_store(
            chain(acc, Ok(constant(reg(28), n as u64))),
            locs,
            false,
            v,
        ),
        Op::ConstBool(b) => mixed_store(
            chain(
                acc,
                Ok(
                    constant(
                        reg(28),
                        if b {
                            1
                        } else {
                            0
                        },
                    ),
                ),
            ),
            locs,
            false,
            v,
        ),
        Op::Param(_, _) | Op::Compare(_) | Op::Phi(_) => acc,
        Op::Add | Op::Sub | Op::Mul | Op::Div => mixed_arithmetic(f, locs, v, acc),
        Op::Rem => mixed_remainder(f, locs, v, acc),
        Op::Neg => mixed_negation(f, locs, v, acc),
        Op::And | Op::Or | Op::Xor | Op::Shl | Op::Shr | Op::Sar => mixed_logical(f, locs, v, acc),
        Op::Not => mixed_not(f, locs, v, acc),
        Op::IToF => mixed_store(
            chain(
                load_typed(f, acc, locs, false, m.args[0], reg(28)),
                one(A64::FromInt { dst: reg(29), src: reg(28) }),
            ),
            locs,
            true,
            v,
        ),
        Op::FToI => mixed_store(
            chain(
                load_typed(f, acc, locs, true, m.args[0], reg(29)),
                one(A64::ToInt { dst: reg(28), src: reg(29) }),
            ),
            locs,
            false,
            v,
        ),
        _ => chain(acc, failure(EmitError::MixedUnsupported(v))),
    }
}

impl Writer {
    fn load_typed(
        &mut self,
        f: &Function,
        locs: &Vec<Option<Location>>,
        float: bool,
        v: Value,
        scratch: Gpr,
    )
        requires
            addressable(locs@),
        ensures
            final(self)@ == load_typed(*f, old(self)@, locs@, float, v, scratch),
            stays_sound(old(self)@, final(self)@),
    {
        let ty: Option<Ty> = type_at(f, v);
        if float && ty != Some(Ty::F64) {
            self.fail(EmitError::NotF64(v));
        } else if !float && ty != Some(Ty::I64) && ty != Some(Ty::Bool) {
            self.fail(EmitError::NotInteger(v));
        } else {
            self.load(locs, float, v, scratch);
        }
    }

    fn load_two(
        &mut self,
        f: &Function,
        locs: &Vec<Option<Location>>,
        float: bool,
        a: Value,
        b: Value,
    )
        requires
            addressable(locs@),
        ensures
            final(self)@ == load_two(*f, old(self)@, locs@, float, a, b),
            stays_sound(old(self)@, final(self)@),
    {
        let first: u8 = if float {
            29
        } else {
            28
        };
        self.load_typed(f, locs, float, a, Gpr::new_d(first));
        self.load_typed(f, locs, float, b, Gpr::new_d(first + 1));
    }

    fn mixed_store(&mut self, locs: &Vec<Option<Location>>, float: bool, v: Value)
        requires
            addressable(locs@),
        ensures
            final(self)@ == mixed_store(old(self)@, locs@, float, v),
            stays_sound(old(self)@, final(self)@),
    {
        let first: u8 = if float {
            29
        } else {
            28
        };
        self.store(locs, float, true, v, Gpr::new_d(first));
    }

    fn mixed_int_pair(
        &mut self,
        f: &Function,
        locs: &Vec<Option<Location>>,
        v: Value,
        op: IntOp,
        a: Value,
        b: Value,
    )
        requires
            addressable(locs@),
        ensures
            final(self)@ == mixed_int_pair(*f, locs@, v, op, a, b, old(self)@),
            stays_sound(old(self)@, final(self)@),
    {
        self.load_two(f, locs, false, a, b);
        self.push(A64::Int { op, dst: Gpr::new(28), lhs: Gpr::new(28), rhs: Gpr::new(29) });
        self.mixed_store(locs, false, v);
    }

    fn mixed_arithmetic(&mut self, f: &Function, locs: &Vec<Option<Location>>, v: Value)
        requires
            addressable(locs@),
            v.0 < f.insts@.len(),
            float_op(f.inst(v.0 as int).op) is Some,
            int_op(f.inst(v.0 as int).op) is Some,
        ensures
            final(self)@ == mixed_arithmetic(*f, locs@, v, old(self)@),
            stays_sound(old(self)@, final(self)@),
    {
        let inst: &Inst = &f.insts[v.0 as usize];
        match type_at(f, v) {
            Some(Ty::F64) => {
                let (pair, a, b): (FloatPairOp, Value, Value) = float_operands(inst).unwrap();
                self.load_two(f, locs, true, a, b);
                self.push(
                    A64::Float {
                        pair,
                        dst: Gpr::new_d(29),
                        lhs: Gpr::new_d(29),
                        rhs: Gpr::new_d(30),
                    },
                );
                self.mixed_store(locs, true, v);
            },
            Some(Ty::I64) => {
                let (op, a, b): (IntOp, Value, Value) = int_operands(inst).unwrap();
                self.mixed_int_pair(f, locs, v, op, a, b);
            },
            _ => self.fail(EmitError::MixedArithmeticType(v)),
        }
    }

    fn mixed_remainder(
        &mut self,
        f: &Function,
        locs: &Vec<Option<Location>>,
        v: Value,
        a: Value,
        b: Value,
    )
        requires
            addressable(locs@),
            v.0 < f.insts@.len(),
            f.inst(v.0 as int).args[0] == a,
            f.inst(v.0 as int).args[1] == b,
        ensures
            final(self)@ == mixed_remainder(*f, locs@, v, old(self)@),
            stays_sound(old(self)@, final(self)@),
    {
        if type_at(f, v) != Some(Ty::I64) {
            self.fail(EmitError::MixedRemainderType);
            return ;
        }
        let x: Gpr = Gpr::new(28);
        let y: Gpr = Gpr::new(29);
        let z: Gpr = Gpr::new(30);
        self.load_two(f, locs, false, a, b);
        self.push(A64::Int { op: IntOp::Div, dst: z, lhs: x, rhs: y });
        self.push(A64::MulSub { dst: x, lhs: z, rhs: y, minuend: x });
        self.mixed_store(locs, false, v);
    }

    fn mixed_negation(&mut self, f: &Function, locs: &Vec<Option<Location>>, v: Value, a: Value)
        requires
            addressable(locs@),
            v.0 < f.insts@.len(),
            f.inst(v.0 as int).args[0] == a,
        ensures
            final(self)@ == mixed_negation(*f, locs@, v, old(self)@),
            stays_sound(old(self)@, final(self)@),
    {
        match type_at(f, v) {
            Some(Ty::F64) => {
                let x: Gpr = Gpr::new_d(29);
                self.load_typed(f, locs, true, a, x);
                self.push(A64::Unary { unary: FloatUnaryOp::Neg, dst: x, src: x });
                self.mixed_store(locs, true, v);
            },
            Some(Ty::I64) => {
                let x: Gpr = Gpr::new(28);
                self.load_typed(f, locs, false, a, x);
                self.push(A64::Int { op: IntOp::Sub, dst: x, lhs: xzr(), rhs: x });
                self.mixed_store(locs, false, v);
            },
            _ => self.fail(EmitError::MixedNegationType(v)),
        }
    }

    fn mixed_not(&mut self, f: &Function, locs: &Vec<Option<Location>>, v: Value, a: Value)
        requires
            addressable(locs@),
            v.0 < f.insts@.len(),
            f.inst(v.0 as int).args[0] == a,
        ensures
            final(self)@ == mixed_not(*f, locs@, v, old(self)@),
            stays_sound(old(self)@, final(self)@),
    {
        let ty: Option<Ty> = type_at(f, v);
        if ty != Some(Ty::I64) && ty != Some(Ty::Bool) {
            self.fail(EmitError::MixedNotType(v));
            return ;
        }
        let x: Gpr = Gpr::new(28);
        let y: Gpr = Gpr::new(29);
        self.load_typed(f, locs, false, a, x);
        self.constant(y, u64::MAX);
        self.push(A64::Int { op: IntOp::Xor, dst: x, lhs: y, rhs: x });
        self.mixed_store(locs, false, v);
    }

    fn mixed_logical(&mut self, f: &Function, locs: &Vec<Option<Location>>, v: Value)
        requires
            addressable(locs@),
            v.0 < f.insts@.len(),
            int_op(f.inst(v.0 as int).op) is Some,
        ensures
            final(self)@ == mixed_logical(*f, locs@, v, old(self)@),
            stays_sound(old(self)@, final(self)@),
    {
        let ty: Option<Ty> = type_at(f, v);
        if ty != Some(Ty::I64) && ty != Some(Ty::Bool) {
            self.fail(EmitError::MixedLogicalType(v));
            return ;
        }
        let (op, a, b): (IntOp, Value, Value) = int_operands(&f.insts[v.0 as usize]).unwrap();
        self.mixed_int_pair(f, locs, v, op, a, b);
    }

    fn mixed_inst(&mut self, f: &Function, locs: &Vec<Option<Location>>, v: Value)
        requires
            addressable(locs@),
            v.0 < f.insts@.len(),
        ensures
            final(self)@ == mixed_spill(*f, locs@, v, old(self)@),
            stays_sound(old(self)@, final(self)@),
    {
        match &f.insts[v.0 as usize] {
            Inst::ConstF64(bits) => {
                self.push(A64::Literal { dst: Gpr::new_d(29), bits: *bits });
                self.mixed_store(locs, true, v);
            },
            Inst::ConstI64(n) => {
                self.constant(Gpr::new(28), *n as u64);
                self.mixed_store(locs, false, v);
            },
            Inst::ConstBool(b) => {
                let bit: u64 = if *b {
                    1
                } else {
                    0
                };
                self.constant(Gpr::new(28), bit);
                self.mixed_store(locs, false, v);
            },
            Inst::Param { .. } | Inst::Cmp { .. } | Inst::Phi { .. } => {},
            Inst::Add(_, _) | Inst::Sub(_, _) | Inst::Mul(_, _) | Inst::Div(_, _) => {
                self.mixed_arithmetic(f, locs, v)
            },
            Inst::Rem(a, b) => self.mixed_remainder(f, locs, v, *a, *b),
            Inst::Neg(a) => self.mixed_negation(f, locs, v, *a),
            Inst::And(_, _)
            | Inst::Or(_, _)
            | Inst::Xor(_, _)
            | Inst::Shl(_, _)
            | Inst::Shr(_, _)
            | Inst::Sar(_, _) => self.mixed_logical(f, locs, v),
            Inst::Not(a) => self.mixed_not(f, locs, v, *a),
            Inst::IToF(a) => {
                self.load_typed(f, locs, false, *a, Gpr::new(28));
                self.push(A64::FromInt { dst: Gpr::new_d(29), src: Gpr::new(28) });
                self.mixed_store(locs, true, v);
            },
            Inst::FToI(a) => {
                self.load_typed(f, locs, true, *a, Gpr::new_d(29));
                self.push(A64::ToInt { dst: Gpr::new(28), src: Gpr::new_d(29) });
                self.mixed_store(locs, false, v);
            },
            _ => self.fail(EmitError::MixedUnsupported(v)),
        }
    }
}

// ---------------------------------------------------------------------------
// Blocks

/// What the code of a function is made from.
#[verifier::ext_equal]
pub struct Plan {
    pub kind: Kind,
    pub locs: Seq<Option<Location>>,
    pub frame: u16,
    pub libm: LibmAddresses,
}

pub struct Spill {
    pub kind: Kind,
    pub locs: Vec<Option<Location>>,
    pub frame: u16,
    pub libm: LibmAddresses,
}

impl View for Spill {
    type V = Plan;

    open spec fn view(&self) -> Plan {
        Plan { kind: self.kind, locs: self.locs@, frame: self.frame, libm: self.libm }
    }
}

/// The slots and the frame can be addressed.
pub open spec fn plan_ok(p: Plan) -> bool {
    addressable(p.locs) && p.frame < 4096
}

/// The code of a value, behind `acc`.
pub open spec fn spill_value(f: Function, p: Plan, v: Value, acc: Code) -> Code {
    if v.0 >= f.insts@.len() {
        chain(acc, failure(EmitError::MissingInstruction(v)))
    } else {
        match p.kind {
            Kind::Floats { .. } => float_spill(f, p.locs, p.libm, v, acc),
            Kind::Mixed => mixed_spill(f, p.locs, v, acc),
            Kind::Ints => int_spill(f, p.locs, v, acc),
        }
    }
}

/// The code of the first `k` values of block `b`, behind `acc`.
pub open spec fn spill_values(f: Function, p: Plan, b: int, k: nat, acc: Code) -> Code
    decreases k,
{
    if k == 0 {
        acc
    } else {
        spill_value(f, p, f.listed(b)[k - 1], spill_values(f, p, b, (k - 1) as nat, acc))
    }
}

/// Stores what a phi takes from block `from`.
pub open spec fn spill_copy(f: Function, p: Plan, v: Value, from: int, acc: Code) -> Code {
    let ty = type_of(f, v);
    let float = ty == Some(Ty::F64);
    let floats = p.kind is Floats;
    if v.0 >= f.insts@.len() || !(f.inst(v.0 as int).op is Phi) {
        acc
    } else if floats && !float {
        chain(acc, failure(EmitError::SpillPhiType(v)))
    } else if ty is None {
        chain(acc, failure(EmitError::PhiUntyped(v)))
    } else {
        match phi_source(f.inst(v.0 as int), from) {
            None => chain(acc, failure(EmitError::PhiWithoutEdge(v))),
            Some(source) => if !floats && type_of(f, source) is None {
                chain(acc, failure(EmitError::PhiSourceUntyped(source)))
            } else if !floats && type_of(f, source) != ty {
                chain(acc, failure(EmitError::PhiSourceType(v)))
            } else if location_of(p.locs, v) is None {
                chain(acc, failure(EmitError::MissingLocation(v)))
            } else {
                mixed_store(
                    load(acc, p.locs, float, source, reg(scratch(float))),
                    p.locs,
                    float,
                    v,
                )
            },
        }
    }
}

/// The copies for the first `k` values of block `target`.
pub open spec fn spill_copies(
    f: Function,
    p: Plan,
    target: int,
    from: int,
    k: nat,
    acc: Code,
) -> Code
    decreases k,
{
    if k == 0 {
        acc
    } else {
        spill_copy(
            f,
            p,
            f.listed(target)[k - 1],
            from,
            spill_copies(f, p, target, from, (k - 1) as nat, acc),
        )
    }
}

pub open spec fn spill_edge(f: Function, p: Plan, target: Block, from: int, acc: Code) -> Code {
    spill_copies(f, p, target.0 as int, from, f.listed(target.0 as int).len(), acc)
}

/// The two operands of a comparison are loaded and compared.
pub open spec fn compare_loaded(
    acc: Code,
    locs: Seq<Option<Location>>,
    float: bool,
    a: Value,
    b: Value,
) -> Code {
    let x = reg(scratch(float));
    let y = reg(scratch(float) + 1);
    chain(
        load(load(acc, locs, float, a, x), locs, float, b, y),
        one(
            if float {
                A64::CompareFloat { lhs: x, rhs: y }
            } else {
                A64::Compare { lhs: x, rhs: y }
            },
        ),
    )
}

/// The value is a comparison.
pub open spec fn is_comparison(f: Function, v: Value) -> bool {
    v.0 < f.insts@.len() && f.inst(v.0 as int).op is Compare
}

/// Evaluates the comparison that a branch names.
pub open spec fn spill_condition(f: Function, p: Plan, cond: Value, acc: Code) -> Code {
    let a = f.inst(cond.0 as int).args[0];
    let b = f.inst(cond.0 as int).args[1];
    if p.kind is Floats {
        if !is_comparison(f, cond) {
            chain(acc, failure(EmitError::SpillCondition))
        } else if type_of(f, a) != Some(Ty::F64) || type_of(f, b) != Some(Ty::F64) {
            chain(acc, failure(EmitError::SpillComparisonType))
        } else {
            compare_loaded(acc, p.locs, true, a, b)
        }
    } else if !is_comparison(f, cond) {
        chain(acc, failure(EmitError::MixedCondition))
    } else if type_of(f, cond) != Some(Ty::Bool) {
        chain(acc, failure(EmitError::MixedConditionType))
    } else if type_of(f, a) is None {
        chain(acc, failure(EmitError::OperandUntyped(a)))
    } else if type_of(f, b) is None {
        chain(acc, failure(EmitError::OperandUntyped(b)))
    } else if type_of(f, a) != type_of(f, b) {
        chain(acc, failure(EmitError::MixedComparisonTypes))
    } else {
        compare_loaded(acc, p.locs, type_of(f, a) == Some(Ty::F64), a, b)
    }
}

/// The condition under which a branch is taken.
pub open spec fn taken_when(f: Function, cond: Value) -> Condition {
    holds_when(f, cond)
}

/// Saves the registers that the code overwrites.
pub open spec fn saves(kind: Kind) -> Seq<A64> {
    match kind {
        Kind::Floats { calls } => if calls {
            seq![A64::Store { src: reg(30), slot: 0 }]
        } else {
            Seq::empty()
        },
        _ => seq![
            A64::Store { src: reg(28), slot: 0 },
            A64::Store { src: reg(29), slot: 8 },
            A64::Store { src: reg(30), slot: 16 },
        ],
    }
}

/// Restores them, in the opposite order.
pub open spec fn restores(kind: Kind) -> Seq<A64> {
    match kind {
        Kind::Floats { calls } => if calls {
            seq![A64::Load { dst: reg(30), slot: 0 }]
        } else {
            Seq::empty()
        },
        _ => seq![
            A64::Load { dst: reg(30), slot: 16 },
            A64::Load { dst: reg(29), slot: 8 },
            A64::Load { dst: reg(28), slot: 0 },
        ],
    }
}

/// Every saved register is restored from the slot it was saved in.
pub proof fn lemma_saves_restored(kind: Kind, i: int)
    requires
        0 <= i < saves(kind).len(),
    ensures
        saves(kind).len() == restores(kind).len(),
        restores(kind)[saves(kind).len() - 1 - i] == (A64::Load {
            dst: saves(kind)[i]->Store_src,
            slot: saves(kind)[i]->Store_slot,
        }),
{
}

/// Leaves the function with `v` as its result.
pub open spec fn spill_return(f: Function, p: Plan, v: Value, acc: Code) -> Code {
    let float = !(p.kind is Ints);
    if p.kind is Floats && type_of(f, v) is None {
        chain(acc, failure(EmitError::ReturnUntyped(v)))
    } else if p.kind is Floats && type_of(f, v) != Some(Ty::F64) {
        chain(acc, failure(EmitError::SpillResultType))
    } else if p.kind is Mixed && type_of(f, v) != Some(Ty::F64) {
        chain(acc, failure(EmitError::MixedResultType))
    } else {
        chain(
            chain(
                chain(load(acc, p.locs, float, v, reg(0)), Ok(restores(p.kind))),
                one(A64::CloseFrame { bytes: p.frame }),
            ),
            one(A64::Return),
        )
    }
}

/// The code of the terminator of block `b`, behind `acc`.
pub open spec fn spill_term(f: Function, p: Plan, b: int, acc: Code) -> Code {
    match f.term(b) {
        None => chain(acc, failure(EmitError::NoTerminator(b as usize))),
        Some(Terminator::Return(v)) => spill_return(f, p, v, acc),
        Some(Terminator::Jump(t)) => if t.0 >= f.blocks@.len() {
            chain(acc, failure(EmitError::TargetOutOfRange(t.0)))
        } else {
            chain(spill_edge(f, p, t, b, acc), one(A64::Jump { block: t.0 as usize }))
        },
        Some(Terminator::Branch { cond, then_, else_ }) => {
            let compared = spill_condition(f, p, cond, acc);
            if then_.0 >= f.blocks@.len() {
                chain(compared, failure(EmitError::TargetOutOfRange(then_.0)))
            } else if else_.0 >= f.blocks@.len() {
                chain(compared, failure(EmitError::TargetOutOfRange(else_.0)))
            } else {
                let taken = chain(
                    spill_edge(f, p, then_, b, compared),
                    one(
                        A64::JumpIf { condition: taken_when(f, cond), block: then_.0 as usize },
                    ),
                );
                chain(
                    spill_edge(f, p, else_, b, taken),
                    one(A64::Jump { block: else_.0 as usize }),
                )
            }
        },
    }
}

/// The code of the first `n` blocks, behind `acc`.
pub open spec fn spill_blocks(f: Function, p: Plan, n: nat, acc: Code) -> Code
    decreases n,
{
    if n == 0 {
        acc
    } else {
        let before = spill_blocks(f, p, (n - 1) as nat, acc);
        spill_term(f, p, n - 1, spill_values(f, p, n - 1, f.listed(n - 1).len(), before))
    }
}

/// A parameter of a function that calls is stored in its slot.
pub open spec fn store_param(f: Function, p: Plan, v: Value, acc: Code) -> Code {
    if v.0 >= f.insts@.len() {
        acc
    } else {
        match f.inst(v.0 as int).op {
            Op::Param(index, Ty::F64) => if index >= f.params@.len() {
                chain(acc, failure(EmitError::ParamOutOfRange(index)))
            } else if count_params(f, Ty::F64, index as nat) >= 8 {
                chain(acc, failure(EmitError::SpillParamCount))
            } else {
                store(
                    acc,
                    p.locs,
                    true,
                    true,
                    v,
                    reg(count_params(f, Ty::F64, index as nat) as int),
                )
            },
            _ => acc,
        }
    }
}

pub open spec fn store_params_listed(f: Function, p: Plan, b: int, k: nat, acc: Code) -> Code
    decreases k,
{
    if k == 0 {
        acc
    } else {
        store_param(f, p, f.listed(b)[k - 1], store_params_listed(f, p, b, (k - 1) as nat, acc))
    }
}

pub open spec fn store_params(f: Function, p: Plan, n: nat, acc: Code) -> Code
    decreases n,
{
    if n == 0 {
        acc
    } else {
        store_params_listed(
            f,
            p,
            n - 1,
            f.listed(n - 1).len(),
            store_params(f, p, (n - 1) as nat, acc),
        )
    }
}

/// Makes the frame and fills its first slots.
pub open spec fn spill_prologue(f: Function, p: Plan) -> Code {
    let saved = chain(one(A64::OpenFrame { bytes: p.frame }), Ok(saves(p.kind)));
    if p.kind matches Kind::Floats { calls } && calls {
        store_params(f, p, f.blocks@.len(), saved)
    } else {
        saved
    }
}

/// Where the blocks start.
pub open spec fn spill_starts(f: Function, p: Plan) -> Seq<usize> {
    Seq::new(
        f.blocks@.len(),
        |b: int| length(spill_blocks(f, p, b as nat, spill_prologue(f, p))) as usize,
    )
}

/// The code of the whole function, linked.
pub open spec fn spilled(f: Function, kind: Kind, libm: LibmAddresses) -> Result<
    Seq<u8>,
    EmitError,
> {
    match layout(f, kind, f.blocks@.len()) {
        Err(e) => Err(e),
        Ok(s) => match spill_frame(kind, s.next) {
            Err(e) => Err(e),
            Ok(frame) => {
                let p = Plan { kind, locs: s.locs, frame: frame as u16, libm };
                linked(
                    spill_blocks(f, p, f.blocks@.len(), spill_prologue(f, p)),
                    spill_starts(f, p),
                )
            },
        },
    }
}

/// The instructions of the whole function.
pub open spec fn spilled_source(f: Function, kind: Kind, libm: LibmAddresses) -> Result<
    Source,
    EmitError,
> {
    match layout(f, kind, f.blocks@.len()) {
        Err(e) => Err(e),
        Ok(s) => match spill_frame(kind, s.next) {
            Err(e) => Err(e),
            Ok(frame) => {
                let p = Plan { kind, locs: s.locs, frame: frame as u16, libm };
                match spill_blocks(f, p, f.blocks@.len(), spill_prologue(f, p)) {
                    Err(e) => Err(e),
                    Ok(code) => Ok(Source { code, starts: spill_starts(f, p) }),
                }
            },
        },
    }
}

impl Writer {
    fn value(&mut self, f: &Function, p: &Spill, v: Value)
        requires
            plan_ok(p@),
        ensures
            final(self)@ == spill_value(*f, p@, v, old(self)@),
            stays_sound(old(self)@, final(self)@),
    {
        if v.0 as usize >= f.insts.len() {
            self.fail(EmitError::MissingInstruction(v));
            return ;
        }
        match p.kind {
            Kind::Floats { .. } => self.float_inst(f, &p.locs, &p.libm, v),
            Kind::Mixed => self.mixed_inst(f, &p.locs, v),
            Kind::Ints => self.int_inst(f, &p.locs, v),
        }
    }

    fn copy(&mut self, f: &Function, p: &Spill, v: Value, from: usize)
        requires
            plan_ok(p@),
            from <= u32::MAX,
        ensures
            final(self)@ == spill_copy(*f, p@, v, from as int, old(self)@),
            stays_sound(old(self)@, final(self)@),
    {
        if v.0 as usize >= f.insts.len() {
            return ;
        }
        let incoming: &EdgeList = match &f.insts[v.0 as usize] {
            Inst::Phi { incoming } => incoming,
            _ => return ,
        };
        let ty: Option<Ty> = type_at(f, v);
        let float: bool = ty == Some(Ty::F64);
        let floats: bool = match p.kind {
            Kind::Floats { .. } => true,
            _ => false,
        };
        if floats && !float {
            self.fail(EmitError::SpillPhiType(v));
            return ;
        }
        if ty.is_none() {
            self.fail(EmitError::PhiUntyped(v));
            return ;
        }
        let source: Value = match find_edge(incoming, from) {
            Some(source) => source,
            None => {
                self.fail(EmitError::PhiWithoutEdge(v));
                return ;
            },
        };
        let source_ty: Option<Ty> = type_at(f, source);
        if !floats && source_ty.is_none() {
            self.fail(EmitError::PhiSourceUntyped(source));
        } else if !floats && source_ty != ty {
            self.fail(EmitError::PhiSourceType(v));
        } else if find_location(&p.locs, v).is_none() {
            self.fail(EmitError::MissingLocation(v));
        } else {
            let first: u8 = if float {
                29
            } else {
                28
            };
            self.load(&p.locs, float, source, Gpr::new_d(first));
            self.mixed_store(&p.locs, float, v);
        }
    }

    fn edge(&mut self, f: &Function, p: &Spill, target: usize, from: usize)
        requires
            plan_ok(p@),
            target < f.blocks@.len(),
            target <= u32::MAX,
            from <= u32::MAX,
        ensures
            final(self)@ == spill_edge(*f, p@, Block(target as u32), from as int, old(self)@),
            stays_sound(old(self)@, final(self)@),
    {
        let ghost start = self@;
        let mut k: usize = 0;
        while k < f.blocks[target].insts.len()
            invariant
                plan_ok(p@),
                target < f.blocks@.len(),
                from <= u32::MAX,
                k <= f.listed(target as int).len(),
                self@ == spill_copies(*f, p@, target as int, from as int, k as nat, start),
                stays_sound(start, self@),
            decreases f.listed(target as int).len() - k,
        {
            let v: Value = f.blocks[target].insts[k];
            assert(v == f.listed(target as int)[k as int]);
            self.copy(f, p, v, from);
            k += 1;
        }
    }

    fn compare_loaded(&mut self, locs: &Vec<Option<Location>>, float: bool, a: Value, b: Value)
        requires
            addressable(locs@),
        ensures
            final(self)@ == compare_loaded(old(self)@, locs@, float, a, b),
            stays_sound(old(self)@, final(self)@),
    {
        let first: u8 = if float {
            29
        } else {
            28
        };
        let x: Gpr = Gpr::new_d(first);
        let y: Gpr = Gpr::new_d(first + 1);
        self.load(locs, float, a, x);
        self.load(locs, float, b, y);
        if float {
            self.push(A64::CompareFloat { lhs: x, rhs: y });
        } else {
            self.push(A64::Compare { lhs: x, rhs: y });
        }
    }

    /// Evaluates the condition of a branch; the result is when it is taken.
    fn branch_condition(&mut self, f: &Function, p: &Spill, cond: Value) -> (r: Condition)
        requires
            plan_ok(p@),
        ensures
            final(self)@ == spill_condition(*f, p@, cond, old(self)@),
            stays_sound(old(self)@, final(self)@),
            is_comparison(*f, cond) ==> r == taken_when(*f, cond),
            !is_comparison(*f, cond) ==> final(self)@ is Err,
    {
        let floats: bool = match p.kind {
            Kind::Floats { .. } => true,
            _ => false,
        };
        let mut found: Option<(Condition, Value, Value)> = None;
        if (cond.0 as usize) < f.insts.len() {
            match &f.insts[cond.0 as usize] {
                Inst::Cmp { op, lhs, rhs } => {
                    found = Some(
                        (condition_for(*op, type_at(f, *lhs) == Some(Ty::F64)), *lhs, *rhs),
                    );
                },
                _ => {},
            }
        }
        let (condition, a, b): (Condition, Value, Value) = match found {
            Some(found) => found,
            None => {
                if floats {
                    self.fail(EmitError::SpillCondition);
                } else {
                    self.fail(EmitError::MixedCondition);
                }
                return Condition::Eq;
            },
        };
        let left: Option<Ty> = type_at(f, a);
        let right: Option<Ty> = type_at(f, b);
        if floats {
            if left != Some(Ty::F64) || right != Some(Ty::F64) {
                self.fail(EmitError::SpillComparisonType);
            } else {
                self.compare_loaded(&p.locs, true, a, b);
            }
        } else if type_at(f, cond) != Some(Ty::Bool) {
            self.fail(EmitError::MixedConditionType);
        } else if left.is_none() {
            self.fail(EmitError::OperandUntyped(a));
        } else if right.is_none() {
            self.fail(EmitError::OperandUntyped(b));
        } else if left != right {
            self.fail(EmitError::MixedComparisonTypes);
        } else {
            self.compare_loaded(&p.locs, left == Some(Ty::F64), a, b);
        }
        condition
    }

    fn save(&mut self, kind: Kind)
        ensures
            final(self)@ == chain(old(self)@, Ok(saves(kind))),
            stays_sound(old(self)@, final(self)@),
    {
        let ghost start = self@;
        match kind {
            Kind::Floats { calls } => if calls {
                self.push(A64::Store { src: Gpr::new(30), slot: 0 });
            } else {
                proof {
                    lemma_chain_nothing(start);
                }
            },
            _ => {
                self.push(A64::Store { src: Gpr::new(28), slot: 0 });
                self.push(A64::Store { src: Gpr::new(29), slot: 8 });
                self.push(A64::Store { src: Gpr::new(30), slot: 16 });
                proof {
                    if start is Ok {
                        assert(self@->Ok_0 =~= start->Ok_0 + saves(kind));
                    }
                }
            },
        }
    }

    fn restore(&mut self, kind: Kind)
        ensures
            final(self)@ == chain(old(self)@, Ok(restores(kind))),
            stays_sound(old(self)@, final(self)@),
    {
        let ghost start = self@;
        match kind {
            Kind::Floats { calls } => if calls {
                self.push(A64::Load { dst: Gpr::new(30), slot: 0 });
            } else {
                proof {
                    lemma_chain_nothing(start);
                }
            },
            _ => {
                self.push(A64::Load { dst: Gpr::new(30), slot: 16 });
                self.push(A64::Load { dst: Gpr::new(29), slot: 8 });
                self.push(A64::Load { dst: Gpr::new(28), slot: 0 });
                proof {
                    if start is Ok {
                        assert(self@->Ok_0 =~= start->Ok_0 + restores(kind));
                    }
                }
            },
        }
    }

    fn leave(&mut self, f: &Function, p: &Spill, v: Value)
        requires
            plan_ok(p@),
        ensures
            final(self)@ == spill_return(*f, p@, v, old(self)@),
            stays_sound(old(self)@, final(self)@),
    {
        let ty: Option<Ty> = type_at(f, v);
        let mut float: bool = true;
        match p.kind {
            Kind::Floats { .. } => {
                if ty.is_none() {
                    self.fail(EmitError::ReturnUntyped(v));
                    return ;
                }
                if ty != Some(Ty::F64) {
                    self.fail(EmitError::SpillResultType);
                    return ;
                }
            },
            Kind::Mixed => if ty != Some(Ty::F64) {
                self.fail(EmitError::MixedResultType);
                return ;
            },
            Kind::Ints => {
                float = false;
            },
        }
        self.load(&p.locs, float, v, Gpr::new(0));
        self.restore(p.kind);
        self.push(A64::CloseFrame { bytes: p.frame });
        self.push(A64::Return);
    }

    fn term(&mut self, f: &Function, p: &Spill, b: usize)
        requires
            plan_ok(p@),
            b < f.blocks@.len(),
            f.blocks@.len() <= u32::MAX,
            sound_code(old(self)@, f.blocks@.len()),
        ensures
            final(self)@ == spill_term(*f, p@, b as int, old(self)@),
            sound_code(final(self)@, f.blocks@.len()),
    {
        match f.blocks[b].term {
            None => self.fail(EmitError::NoTerminator(b)),
            Some(Terminator::Return(v)) => self.leave(f, p, v),
            Some(Terminator::Jump(t)) => {
                if t.0 as usize >= f.blocks.len() {
                    self.fail(EmitError::TargetOutOfRange(t.0));
                    return ;
                }
                self.edge(f, p, t.0 as usize, b);
                self.push(A64::Jump { block: t.0 as usize });
            },
            Some(Terminator::Branch { cond, then_, else_ }) => {
                let condition: Condition = self.branch_condition(f, p, cond);
                if then_.0 as usize >= f.blocks.len() {
                    self.fail(EmitError::TargetOutOfRange(then_.0));
                    return ;
                }
                if else_.0 as usize >= f.blocks.len() {
                    self.fail(EmitError::TargetOutOfRange(else_.0));
                    return ;
                }
                let ghost compared = self@;
                self.edge(f, p, then_.0 as usize, b);
                proof {
                    lemma_copies_fail(
                        *f,
                        p@,
                        then_.0 as int,
                        b as int,
                        f.listed(then_.0 as int).len(),
                        compared,
                    );
                }
                self.push(A64::JumpIf { condition, block: then_.0 as usize });
                self.edge(f, p, else_.0 as usize, b);
                self.push(A64::Jump { block: else_.0 as usize });
            },
        }
    }

    fn param(&mut self, f: &Function, p: &Spill, v: Value)
        requires
            plan_ok(p@),
        ensures
            final(self)@ == store_param(*f, p@, v, old(self)@),
            stays_sound(old(self)@, final(self)@),
    {
        if v.0 as usize >= f.insts.len() {
            return ;
        }
        match &f.insts[v.0 as usize] {
            Inst::Param { index, ty } => {
                if *ty != Ty::F64 {
                    return ;
                }
                if *index as usize >= f.params.len() {
                    self.fail(EmitError::ParamOutOfRange(*index));
                    return ;
                }
                let ordinal: usize = ordinal_of(f, Ty::F64, *index as usize);
                if ordinal >= 8 {
                    self.fail(EmitError::SpillParamCount);
                    return ;
                }
                self.store(&p.locs, true, true, v, Gpr::new_d(ordinal as u8));
            },
            _ => {},
        }
    }

    fn params(&mut self, f: &Function, p: &Spill)
        requires
            plan_ok(p@),
        ensures
            final(self)@ == store_params(*f, p@, f.blocks@.len(), old(self)@),
            stays_sound(old(self)@, final(self)@),
    {
        let ghost start = self@;
        let mut b: usize = 0;
        while b < f.blocks.len()
            invariant
                plan_ok(p@),
                b <= f.blocks@.len(),
                self@ == store_params(*f, p@, b as nat, start),
                stays_sound(start, self@),
            decreases f.blocks@.len() - b,
        {
            let ghost before = self@;
            let mut k: usize = 0;
            while k < f.blocks[b].insts.len()
                invariant
                    plan_ok(p@),
                    b < f.blocks@.len(),
                    k <= f.listed(b as int).len(),
                    self@ == store_params_listed(*f, p@, b as int, k as nat, before),
                    stays_sound(start, self@),
                decreases f.listed(b as int).len() - k,
            {
                let v: Value = f.blocks[b].insts[k];
                assert(v == f.listed(b as int)[k as int]);
                self.param(f, p, v);
                k += 1;
            }
            b += 1;
        }
    }

    fn prologue(&mut self, f: &Function, p: &Spill)
        requires
            plan_ok(p@),
            old(self)@ == nothing(),
        ensures
            final(self)@ == spill_prologue(*f, p@),
            sound_code(final(self)@, f.blocks@.len()),
    {
        assert(sound_code(self@, f.blocks@.len()));
        self.push(A64::OpenFrame { bytes: p.frame });
        assert(self@->Ok_0 =~= seq![A64::OpenFrame { bytes: p.frame }]);
        self.save(p.kind);
        match p.kind {
            Kind::Floats { calls } => if calls {
                self.params(f, p);
            },
            _ => {},
        }
    }

    fn values(&mut self, f: &Function, p: &Spill, b: usize)
        requires
            plan_ok(p@),
            b < f.blocks@.len(),
        ensures
            final(self)@ == spill_values(
                *f,
                p@,
                b as int,
                f.listed(b as int).len(),
                old(self)@,
            ),
            stays_sound(old(self)@, final(self)@),
    {
        let ghost start = self@;
        let mut k: usize = 0;
        while k < f.blocks[b].insts.len()
            invariant
                plan_ok(p@),
                b < f.blocks@.len(),
                k <= f.listed(b as int).len(),
                self@ == spill_values(*f, p@, b as int, k as nat, start),
                stays_sound(start, self@),
            decreases f.listed(b as int).len() - k,
        {
            let v: Value = f.blocks[b].insts[k];
            assert(v == f.listed(b as int)[k as int]);
            self.value(f, p, v);
            k += 1;
        }
    }
}

/// Copies never undo a failure.
proof fn lemma_copies_fail(f: Function, p: Plan, target: int, from: int, k: nat, acc: Code)
    ensures
        acc is Err ==> spill_copies(f, p, target, from, k, acc) == acc,
    decreases k,
{
    if k > 0 {
        lemma_copies_fail(f, p, target, from, (k - 1) as nat, acc);
    }
}

/// Emits a function with its values in stack slots.
pub fn emit_with_stack_spills(f: &Function, kind: Kind, libm: &LibmAddresses) -> (r: Result<
    Vec<u8>,
    EmitError,
>)
    requires
        f.blocks@.len() <= u32::MAX,
    ensures
        same_bytes(r, spilled(*f, kind, *libm)),
        spelled(r, spilled_source(*f, kind, *libm)),
{
    let places: Places = match lay_out(f, kind) {
        Ok(places) => places,
        Err(e) => return Err(e),
    };
    let frame: u16 = match find_frame(kind, places.next) {
        Ok(frame) => frame,
        Err(e) => return Err(e),
    };
    let ghost s = places@;
    let p: Spill = Spill { kind, locs: places.locs, frame, libm: *libm };
    assert(plan_ok(p@)) by {
        assert forall|i: int| #![trigger p.locs@[i]] 0 <= i < p.locs@.len() implies (
        p.locs@[i] matches Some(Location::Stack(o)) ==> o % 8 == 0 && o < 4096) by {
            assert(s.locs[i] == p.locs@[i]);
        }
    }
    let mut w: Writer = Writer::new();
    w.prologue(f, &p);
    let ghost start = w@;
    let mut starts: Vec<usize> = Vec::new();
    let mut b: usize = 0;
    while b < f.blocks.len()
        invariant
            plan_ok(p@),
            f.blocks@.len() <= u32::MAX,
            b <= f.blocks@.len(),
            start == spill_prologue(*f, p@),
            w@ == spill_blocks(*f, p@, b as nat, start),
            sound_code(w@, f.blocks@.len()),
            starts@.len() == b,
            forall|i: int|
                #![trigger starts@[i]]
                0 <= i < b ==> starts@[i] == length(spill_blocks(*f, p@, i as nat, start)),
        decreases f.blocks@.len() - b,
    {
        starts.push(w.len());
        w.values(f, &p, b);
        w.term(f, &p, b);
        b += 1;
    }
    assert(starts@ =~= spill_starts(*f, p@));
    let code: Vec<A64> = match w.finish() {
        Ok(code) => code,
        Err(e) => return Err(e),
    };
    match link(&code, &starts) {
        Some(bytes) => Ok(bytes),
        None => Err(EmitError::OutOfReach),
    }
}

} // verus!
