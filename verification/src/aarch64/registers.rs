//! Code that keeps every value in a register of its own.
//!
//! Floating parameters arrive in D0..D7 and the others in X0..X7.
//! Temporaries use the caller-saved D16..D31 and X8..X18 first; if those are
//! exhausted, D8..D15 and X19..X28, which are saved in a 16-byte-aligned stack
//! frame.
use crate::aarch64::emit::{
    appended, chain, count_params, frame_size, holds_when, lemma_sound_add, nothing, one,
    phi_source, plain, sound, type_of, Code,
};
use crate::aarch64::emit::{condition_for, find_edge, ordinal_of, round_frame, type_at};
use crate::aarch64::encode::reg;
use crate::aarch64::encode::{xzr, Condition, Gpr};
use crate::aarch64::error::EmitError;
use crate::aarch64::machine::constant;
use crate::aarch64::machine::{emit_i64_constant, FloatPairOp, FloatUnaryOp, IntOp, A64};
use crate::ir::{Block, Function, Inst, Terminator, Ty, Value};
use crate::ir::Op;
use vstd::prelude::*;

verus! {

// ---------------------------------------------------------------------------
// Allocation

/// Which register each value has, and which callee-saved ones are in use.
#[verifier::ext_equal]
pub struct Assignment {
    pub regs: Seq<Option<Gpr>>,
    pub floats: int,
    pub ints: int,
    pub saved_float: Seq<Gpr>,
    pub saved_int: Seq<Gpr>,
}

/// The same for the emitter to work with. `floats` and `ints` count the
/// temporaries handed out so far.
pub struct Registers {
    pub regs: Vec<Option<Gpr>>,
    pub floats: usize,
    pub ints: usize,
    pub saved_float: Vec<Gpr>,
    pub saved_int: Vec<Gpr>,
}

impl View for Registers {
    type V = Assignment;

    open spec fn view(&self) -> Assignment {
        Assignment {
            regs: self.regs@,
            floats: self.floats as int,
            ints: self.ints as int,
            saved_float: self.saved_float@,
            saved_int: self.saved_int@,
        }
    }
}

pub open spec fn no_registers(n: nat) -> Assignment {
    Assignment {
        regs: Seq::new(n, |i: int| None),
        floats: 0,
        ints: 0,
        saved_float: Seq::empty(),
        saved_int: Seq::empty(),
    }
}

/// The register of a new floating-point temporary.
pub open spec fn float_temporary(s: Assignment) -> int {
    if s.floats < 16 {
        16 + s.floats
    } else {
        8 + (s.floats - 16)
    }
}

/// The register of a new integer temporary.
pub open spec fn int_temporary(s: Assignment) -> int {
    if s.ints < 11 {
        8 + s.ints
    } else {
        19 + (s.ints - 11)
    }
}

pub open spec fn with_float(s: Assignment, v: Value) -> Assignment {
    let r = reg(float_temporary(s));
    Assignment {
        regs: s.regs.update(v.0 as int, Some(r)),
        floats: s.floats + 1,
        saved_float: if s.floats < 16 {
            s.saved_float
        } else {
            s.saved_float.push(r)
        },
        ..s
    }
}

pub open spec fn with_int(s: Assignment, v: Value) -> Assignment {
    let r = reg(int_temporary(s));
    Assignment {
        regs: s.regs.update(v.0 as int, Some(r)),
        ints: s.ints + 1,
        saved_int: if s.ints < 11 {
            s.saved_int
        } else {
            s.saved_int.push(r)
        },
        ..s
    }
}

/// The assignment after value `v` got its register. An integer function has
/// integer parameters only, numbered as they come, and takes every other
/// value for an integer.
pub open spec fn assign(f: Function, integer: bool, v: Value, s: Assignment) -> Result<
    Assignment,
    EmitError,
> {
    if v.0 >= f.insts@.len() {
        Err(EmitError::MissingInstruction(v))
    } else {
        match f.inst(v.0 as int).op {
            Op::Param(index, ty) => if integer {
                if ty != Ty::I64 {
                    Err(EmitError::I64Params)
                } else if index >= f.params@.len() || index >= 8 {
                    Err(EmitError::I64ParamCount)
                } else {
                    Ok(
                        Assignment {
                            regs: s.regs.update(v.0 as int, Some(reg(index as int))),
                            ..s
                        },
                    )
                }
            } else if index >= f.params@.len() {
                Err(EmitError::ParamOutOfRange(index))
            } else if f.params@[index as int].1 != ty {
                Err(EmitError::ParamType(index))
            } else if count_params(f, ty, index as nat) >= 8 {
                Err(EmitError::TooManyParams(ty))
            } else {
                Ok(
                    Assignment {
                        regs: s.regs.update(
                            v.0 as int,
                            Some(reg(count_params(f, ty, index as nat) as int)),
                        ),
                        ..s
                    },
                )
            },
            _ => if integer {
                if s.ints < 21 {
                    Ok(with_int(s, v))
                } else {
                    Err(EmitError::I64OutOfRegisters)
                }
            } else {
                match type_of(f, v) {
                    Some(Ty::F64) => if s.floats < 24 {
                        Ok(with_float(s, v))
                    } else {
                        Err(EmitError::OutOfFloatRegisters)
                    },
                    Some(_) => if s.ints < 21 {
                        Ok(with_int(s, v))
                    } else {
                        Err(EmitError::OutOfIntRegisters)
                    },
                    None => Err(EmitError::Untyped(v)),
                }
            },
        }
    }
}

/// The assignment after the first `k` values of block `b`.
pub open spec fn assign_listed(
    f: Function,
    integer: bool,
    b: int,
    k: nat,
    s: Assignment,
) -> Result<Assignment, EmitError>
    decreases k,
{
    if k == 0 {
        Ok(s)
    } else {
        match assign_listed(f, integer, b, (k - 1) as nat, s) {
            Ok(t) => assign(f, integer, f.listed(b)[k - 1], t),
            Err(e) => Err(e),
        }
    }
}

/// The assignment after the first `n` blocks.
pub open spec fn assignment(f: Function, integer: bool, n: nat) -> Result<Assignment, EmitError>
    decreases n,
{
    if n == 0 {
        Ok(no_registers(f.insts@.len()))
    } else {
        match assignment(f, integer, (n - 1) as nat) {
            Ok(s) => assign_listed(f, integer, n - 1, f.listed(n - 1).len(), s),
            Err(e) => Err(e),
        }
    }
}

/// What holds of the registers at all times.
pub open spec fn assignment_ok(f: Function, s: Assignment) -> bool {
    &&& s.regs.len() == f.insts@.len()
    &&& 0 <= s.floats <= 24
    &&& 0 <= s.ints <= 21
    &&& s.saved_float.len() <= 8
    &&& s.saved_float.len() == if s.floats < 16 {
        0
    } else {
        s.floats - 16
    }
    &&& s.saved_int.len() <= 10
    &&& s.saved_int.len() == if s.ints < 11 {
        0
    } else {
        s.ints - 11
    }
}

impl Registers {
    fn new(n: usize) -> (r: Registers)
        ensures
            r@ == no_registers(n as nat),
    {
        let mut regs: Vec<Option<Gpr>> = Vec::new();
        let mut i: usize = 0;
        while i < n
            invariant
                i <= n,
                regs@ == Seq::new(i as nat, |j: int| None::<Gpr>),
            decreases n - i,
        {
            regs.push(None);
            assert(regs@ =~= Seq::new((i + 1) as nat, |j: int| None::<Gpr>));
            i += 1;
        }
        let r: Registers = Registers {
            regs,
            floats: 0,
            ints: 0,
            saved_float: Vec::new(),
            saved_int: Vec::new(),
        };
        assert(r@ =~= no_registers(n as nat));
        r
    }

    fn add_float(&mut self, f: &Function, v: Value)
        requires
            assignment_ok(*f, old(self)@),
            old(self).floats < 24,
            v.0 < f.insts@.len(),
        ensures
            final(self)@ == with_float(old(self)@, v),
            assignment_ok(*f, final(self)@),
    {
        let ghost start = self@;
        if self.floats < 16 {
            let r: Gpr = Gpr::new_d(16 + self.floats as u8);
            self.regs.set(v.0 as usize, Some(r));
        } else {
            let r: Gpr = Gpr::new_d(8 + (self.floats - 16) as u8);
            self.regs.set(v.0 as usize, Some(r));
            self.saved_float.push(r);
        }
        self.floats = self.floats + 1;
        assert(self@ =~= with_float(start, v));
    }

    fn add_int(&mut self, f: &Function, v: Value)
        requires
            assignment_ok(*f, old(self)@),
            old(self).ints < 21,
            v.0 < f.insts@.len(),
        ensures
            final(self)@ == with_int(old(self)@, v),
            assignment_ok(*f, final(self)@),
    {
        let ghost start = self@;
        if self.ints < 11 {
            let r: Gpr = Gpr::new(8 + self.ints as u8);
            self.regs.set(v.0 as usize, Some(r));
        } else {
            let r: Gpr = Gpr::new(19 + (self.ints - 11) as u8);
            self.regs.set(v.0 as usize, Some(r));
            self.saved_int.push(r);
        }
        self.ints = self.ints + 1;
        assert(self@ =~= with_int(start, v));
    }

    fn assign(&mut self, f: &Function, integer: bool, v: Value) -> (r: Result<(), EmitError>)
        requires
            assignment_ok(*f, old(self)@),
        ensures
            assignment_ok(*f, final(self)@),
            match r {
                Ok(_) => assign(*f, integer, v, old(self)@) == Ok::<Assignment, EmitError>(
                    final(self)@,
                ),
                Err(e) => assign(*f, integer, v, old(self)@) == Err::<Assignment, EmitError>(e),
            },
    {
        let ghost start = self@;
        if v.0 as usize >= f.insts.len() {
            return Err(EmitError::MissingInstruction(v));
        }
        match &f.insts[v.0 as usize] {
            Inst::Param { index, ty } => {
                if integer {
                    if *ty != Ty::I64 {
                        return Err(EmitError::I64Params);
                    }
                    if *index as usize >= f.params.len() || *index >= 8 {
                        return Err(EmitError::I64ParamCount);
                    }
                    self.regs.set(v.0 as usize, Some(Gpr::new(*index as u8)));
                } else {
                    if *index as usize >= f.params.len() {
                        return Err(EmitError::ParamOutOfRange(*index));
                    }
                    if f.params[*index as usize].1 != *ty {
                        return Err(EmitError::ParamType(*index));
                    }
                    let ordinal: usize = ordinal_of(f, *ty, *index as usize);
                    if ordinal >= 8 {
                        return Err(EmitError::TooManyParams(*ty));
                    }
                    self.regs.set(v.0 as usize, Some(Gpr::new(ordinal as u8)));
                }
                assert(assign(*f, integer, v, start)->Ok_0 =~= self@);
            },
            _ => {
                if integer {
                    if self.ints >= 21 {
                        return Err(EmitError::I64OutOfRegisters);
                    }
                    self.add_int(f, v);
                } else {
                    match type_at(f, v) {
                        Some(Ty::F64) => {
                            if self.floats >= 24 {
                                return Err(EmitError::OutOfFloatRegisters);
                            }
                            self.add_float(f, v);
                        },
                        Some(_) => {
                            if self.ints >= 21 {
                                return Err(EmitError::OutOfIntRegisters);
                            }
                            self.add_int(f, v);
                        },
                        None => {
                            return Err(EmitError::Untyped(v));
                        },
                    }
                }
            },
        }
        Ok(())
    }
}

/// Gives every value of the function a register.
pub fn allocate(f: &Function, integer: bool) -> (r: Result<Registers, EmitError>)
    ensures
        match r {
            Ok(a) => assignment(*f, integer, f.blocks@.len()) == Ok::<Assignment, EmitError>(a@)
                && assignment_ok(*f, a@),
            Err(e) => assignment(*f, integer, f.blocks@.len()) == Err::<Assignment, EmitError>(e),
        },
{
    let mut a: Registers = Registers::new(f.insts.len());
    let mut b: usize = 0;
    while b < f.blocks.len()
        invariant
            b <= f.blocks@.len(),
            assignment(*f, integer, b as nat) == Ok::<Assignment, EmitError>(a@),
            assignment_ok(*f, a@),
        decreases f.blocks@.len() - b,
    {
        let ghost start = a@;
        let mut k: usize = 0;
        while k < f.blocks[b].insts.len()
            invariant
                b < f.blocks@.len(),
                k <= f.listed(b as int).len(),
                assignment(*f, integer, b as nat) == Ok::<Assignment, EmitError>(start),
                assign_listed(*f, integer, b as int, k as nat, start) == Ok::<
                    Assignment,
                    EmitError,
                >(a@),
                assignment_ok(*f, a@),
            decreases f.listed(b as int).len() - k,
        {
            let v: Value = f.blocks[b].insts[k];
            assert(v == f.listed(b as int)[k as int]);
            match a.assign(f, integer, v) {
                Ok(_) => {},
                Err(e) => {
                    proof {
                        lemma_listed_error(*f, integer, b as int, (k + 1) as nat, start, e);
                        lemma_assignment_error(*f, integer, (b + 1) as nat, e);
                    }
                    return Err(e);
                },
            }
            k += 1;
        }
        b += 1;
    }
    Ok(a)
}

/// An error within a block is the error of the block.
proof fn lemma_listed_error(
    f: Function,
    integer: bool,
    b: int,
    k: nat,
    s: Assignment,
    e: EmitError,
)
    requires
        k <= f.listed(b).len(),
        assign_listed(f, integer, b, k, s) == Err::<Assignment, EmitError>(e),
    ensures
        assign_listed(f, integer, b, f.listed(b).len(), s) == Err::<Assignment, EmitError>(e),
    decreases f.listed(b).len() - k,
{
    if k < f.listed(b).len() {
        lemma_listed_error(f, integer, b, k + 1, s, e);
    }
}

proof fn lemma_assignment_error(f: Function, integer: bool, n: nat, e: EmitError)
    requires
        n <= f.blocks@.len(),
        assignment(f, integer, n) == Err::<Assignment, EmitError>(e),
    ensures
        assignment(f, integer, f.blocks@.len()) == Err::<Assignment, EmitError>(e),
    decreases f.blocks@.len() - n,
{
    if n < f.blocks@.len() {
        lemma_assignment_error(f, integer, n + 1, e);
    }
}

// ---------------------------------------------------------------------------
// Instructions

/// The register of a value.
pub open spec fn register_of(regs: Seq<Option<Gpr>>, v: Value) -> Result<Gpr, EmitError> {
    if v.0 < regs.len() && regs[v.0 as int] is Some {
        Ok(regs[v.0 as int].unwrap())
    } else {
        Err(EmitError::MissingRegister(v))
    }
}

pub fn find_register(regs: &Vec<Option<Gpr>>, v: Value) -> (r: Result<Gpr, EmitError>)
    ensures
        r == register_of(regs@, v),
{
    if (v.0 as usize) < regs.len() {
        match regs[v.0 as usize] {
            Some(r) => Ok(r),
            None => Err(EmitError::MissingRegister(v)),
        }
    } else {
        Err(EmitError::MissingRegister(v))
    }
}

/// Code from the register of one value.
pub open spec fn with1(
    regs: Seq<Option<Gpr>>,
    a: Value,
    code: spec_fn(Gpr) -> Seq<A64>,
) -> Code {
    match register_of(regs, a) {
        Ok(x) => Ok(code(x)),
        Err(e) => Err(e),
    }
}

/// Code from the registers of two values.
pub open spec fn with2(
    regs: Seq<Option<Gpr>>,
    a: Value,
    b: Value,
    code: spec_fn(Gpr, Gpr) -> Seq<A64>,
) -> Code {
    match register_of(regs, a) {
        Ok(x) => match register_of(regs, b) {
            Ok(y) => Ok(code(x, y)),
            Err(e) => Err(e),
        },
        Err(e) => Err(e),
    }
}

fn find_two(regs: &Vec<Option<Gpr>>, a: Value, b: Value) -> (r: Result<(Gpr, Gpr), EmitError>)
    ensures
        match r {
            Ok((x, y)) => register_of(regs@, a) == Ok::<Gpr, EmitError>(x) && register_of(regs@, b)
                == Ok::<Gpr, EmitError>(y),
            Err(e) => forall|code: spec_fn(Gpr, Gpr) -> Seq<A64>|
                #[trigger] with2(regs@, a, b, code) == Err::<Seq<A64>, EmitError>(e),
        },
{
    match find_register(regs, a) {
        Ok(x) => match find_register(regs, b) {
            Ok(y) => Ok((x, y)),
            Err(e) => Err(e),
        },
        Err(e) => Err(e),
    }
}

/// The integer operation of an instruction.
pub open spec fn int_op(op: Op) -> Option<IntOp> {
    match op {
        Op::Add => Some(IntOp::Add),
        Op::Sub => Some(IntOp::Sub),
        Op::Mul => Some(IntOp::Mul),
        Op::Div => Some(IntOp::Div),
        Op::And => Some(IntOp::And),
        Op::Or => Some(IntOp::Or),
        Op::Xor => Some(IntOp::Xor),
        Op::Shl => Some(IntOp::Shl),
        Op::Shr => Some(IntOp::Shr),
        Op::Sar => Some(IntOp::Sar),
        _ => None,
    }
}

/// The floating-point operation of an instruction.
pub open spec fn float_op(op: Op) -> Option<FloatPairOp> {
    match op {
        Op::Add => Some(FloatPairOp::Add),
        Op::Sub => Some(FloatPairOp::Sub),
        Op::Mul => Some(FloatPairOp::Mul),
        Op::Div => Some(FloatPairOp::Div),
        Op::Min => Some(FloatPairOp::Min),
        Op::Max => Some(FloatPairOp::Max),
        _ => None,
    }
}

pub open spec fn int_code(op: IntOp, dst: Gpr) -> spec_fn(Gpr, Gpr) -> Seq<A64> {
    |lhs: Gpr, rhs: Gpr| seq![A64::Int { op, dst, lhs, rhs }]
}

pub open spec fn float_code(pair: FloatPairOp, dst: Gpr) -> spec_fn(Gpr, Gpr) -> Seq<A64> {
    |lhs: Gpr, rhs: Gpr| seq![A64::Float { pair, dst, lhs, rhs }]
}

/// `lhs - (lhs / rhs) * rhs`
pub open spec fn rem_code(dst: Gpr) -> spec_fn(Gpr, Gpr) -> Seq<A64> {
    |lhs: Gpr, rhs: Gpr|
        seq![
            A64::Int { op: IntOp::Div, dst, lhs, rhs },
            A64::MulSub { dst, lhs: dst, rhs, minuend: lhs },
        ]
}

pub open spec fn neg_code(dst: Gpr) -> spec_fn(Gpr) -> Seq<A64> {
    |x: Gpr| seq![A64::Int { op: IntOp::Sub, dst, lhs: reg(31), rhs: x }]
}

/// Flips all bits: exclusive or with all ones.
pub open spec fn not_code(dst: Gpr) -> spec_fn(Gpr) -> Seq<A64> {
    |x: Gpr| constant(dst, u64::MAX).push(A64::Int { op: IntOp::Xor, dst, lhs: dst, rhs: x })
}

pub open spec fn unary_code(unary: FloatUnaryOp, dst: Gpr) -> spec_fn(Gpr) -> Seq<A64> {
    |src: Gpr| seq![A64::Unary { unary, dst, src }]
}

/// An integer operation on two values.
fn int_pair(
    op: IntOp,
    dst: Gpr,
    a: Value,
    b: Value,
    regs: &Vec<Option<Gpr>>,
    code: &mut Vec<A64>,
    Ghost(blocks): Ghost<nat>,
) -> (r: Result<(), EmitError>)
    requires
        sound(old(code)@, blocks),
    ensures
        appended(r, old(code)@, final(code)@, with2(regs@, a, b, int_code(op, dst))),
        sound(final(code)@, blocks),
{
    match find_two(regs, a, b) {
        Err(e) => Err(e),
        Ok((lhs, rhs)) => {
            let ghost start = code@;
            code.push(A64::Int { op, dst, lhs, rhs });
            assert(code@ =~= start + int_code(op, dst)(lhs, rhs));
            Ok(())
        },
    }
}

fn float_pair(
    pair: FloatPairOp,
    dst: Gpr,
    a: Value,
    b: Value,
    regs: &Vec<Option<Gpr>>,
    code: &mut Vec<A64>,
    Ghost(blocks): Ghost<nat>,
) -> (r: Result<(), EmitError>)
    requires
        sound(old(code)@, blocks),
    ensures
        appended(r, old(code)@, final(code)@, with2(regs@, a, b, float_code(pair, dst))),
        sound(final(code)@, blocks),
{
    match find_two(regs, a, b) {
        Err(e) => Err(e),
        Ok((lhs, rhs)) => {
            let ghost start = code@;
            code.push(A64::Float { pair, dst, lhs, rhs });
            assert(code@ =~= start + float_code(pair, dst)(lhs, rhs));
            Ok(())
        },
    }
}

fn remainder(
    dst: Gpr,
    a: Value,
    b: Value,
    regs: &Vec<Option<Gpr>>,
    code: &mut Vec<A64>,
    Ghost(blocks): Ghost<nat>,
) -> (r: Result<(), EmitError>)
    requires
        sound(old(code)@, blocks),
    ensures
        appended(r, old(code)@, final(code)@, with2(regs@, a, b, rem_code(dst))),
        sound(final(code)@, blocks),
{
    match find_two(regs, a, b) {
        Err(e) => Err(e),
        Ok((lhs, rhs)) => {
            let ghost start = code@;
            code.push(A64::Int { op: IntOp::Div, dst, lhs, rhs });
            code.push(A64::MulSub { dst, lhs: dst, rhs, minuend: lhs });
            assert(code@ =~= start + rem_code(dst)(lhs, rhs));
            Ok(())
        },
    }
}

fn negate(
    dst: Gpr,
    a: Value,
    regs: &Vec<Option<Gpr>>,
    code: &mut Vec<A64>,
    Ghost(blocks): Ghost<nat>,
) -> (r: Result<(), EmitError>)
    requires
        sound(old(code)@, blocks),
    ensures
        appended(r, old(code)@, final(code)@, with1(regs@, a, neg_code(dst))),
        sound(final(code)@, blocks),
{
    match find_register(regs, a) {
        Err(e) => Err(e),
        Ok(x) => {
            let ghost start = code@;
            code.push(A64::Int { op: IntOp::Sub, dst, lhs: xzr(), rhs: x });
            assert(code@ =~= start + neg_code(dst)(x));
            Ok(())
        },
    }
}

/// The code of a constant is sound.
pub proof fn lemma_constant_sound(dst: Gpr, value: u64, blocks: nat)
    ensures
        sound(constant(dst, value), blocks),
{
    let c = constant(dst, value);
    assert forall|i: int| #![trigger c[i]] 0 <= i < c.len() implies plain(c[i]) by {
        let a = seq![
            A64::MoveWide { dst, imm: crate::aarch64::machine::half(value, 0), shift: 0 },
        ];
        let b = a + crate::aarch64::machine::keep_half(dst, value, 16);
        let d = b + crate::aarch64::machine::keep_half(dst, value, 32);
        if i == 0 {
            assert(c[i] == a[i]);
        } else if i < b.len() {
            assert(c[i] == b[i]);
        } else if i < d.len() {
            assert(c[i] == d[i]);
        }
    }
}

fn invert(
    dst: Gpr,
    a: Value,
    regs: &Vec<Option<Gpr>>,
    code: &mut Vec<A64>,
    Ghost(blocks): Ghost<nat>,
) -> (r: Result<(), EmitError>)
    requires
        sound(old(code)@, blocks),
    ensures
        appended(r, old(code)@, final(code)@, with1(regs@, a, not_code(dst))),
        sound(final(code)@, blocks),
{
    match find_register(regs, a) {
        Err(e) => Err(e),
        Ok(x) => {
            let ghost start = code@;
            emit_i64_constant(code, dst, u64::MAX);
            proof {
                lemma_constant_sound(dst, u64::MAX, blocks);
                lemma_sound_add(start, constant(dst, u64::MAX), blocks);
            }
            code.push(A64::Int { op: IntOp::Xor, dst, lhs: dst, rhs: x });
            assert(code@ =~= start + not_code(dst)(x));
            Ok(())
        },
    }
}

fn float_unary(
    unary: FloatUnaryOp,
    dst: Gpr,
    a: Value,
    regs: &Vec<Option<Gpr>>,
    code: &mut Vec<A64>,
    Ghost(blocks): Ghost<nat>,
) -> (r: Result<(), EmitError>)
    requires
        sound(old(code)@, blocks),
    ensures
        appended(r, old(code)@, final(code)@, with1(regs@, a, unary_code(unary, dst))),
        sound(final(code)@, blocks),
{
    match find_register(regs, a) {
        Err(e) => Err(e),
        Ok(src) => {
            let ghost start = code@;
            code.push(A64::Unary { unary, dst, src });
            assert(code@ =~= start + unary_code(unary, dst)(src));
            Ok(())
        },
    }
}

fn load_constant(
    dst: Gpr,
    value: u64,
    code: &mut Vec<A64>,
    Ghost(blocks): Ghost<nat>,
)
    requires
        sound(old(code)@, blocks),
    ensures
        final(code)@ == old(code)@ + constant(dst, value),
        sound(final(code)@, blocks),
{
    let ghost start = code@;
    emit_i64_constant(code, dst, value);
    proof {
        lemma_constant_sound(dst, value, blocks);
        lemma_sound_add(start, constant(dst, value), blocks);
    }
}

/// The code of an integer instruction, if it is one that an integer function
/// can hold.
pub open spec fn i64_inst(f: Function, regs: Seq<Option<Gpr>>, v: Value) -> Code {
    let m = f.inst(v.0 as int);
    let dst = regs[v.0 as int].unwrap();
    match m.op {
        Op::ConstI64(n) => Ok(constant(dst, n as u64)),
        Op::Param(_, _) => nothing(),
        Op::Rem => with2(regs, m.args[0], m.args[1], rem_code(dst)),
        Op::Neg => with1(regs, m.args[0], neg_code(dst)),
        Op::Not => with1(regs, m.args[0], not_code(dst)),
        op => match int_op(op) {
            Some(i) => with2(regs, m.args[0], m.args[1], int_code(i, dst)),
            None => Err(EmitError::I64Unsupported(v)),
        },
    }
}

/// The operation and the operands of an instruction on two integers.
pub fn int_operands(inst: &Inst) -> (r: Option<(IntOp, Value, Value)>)
    ensures
        match r {
            Some((op, a, b)) => int_op(inst@.op) == Some(op) && inst@.args.len() == 2
                && inst@.args[0] == a && inst@.args[1] == b,
            None => int_op(inst@.op) is None,
        },
{
    match inst {
        Inst::Add(a, b) => Some((IntOp::Add, *a, *b)),
        Inst::Sub(a, b) => Some((IntOp::Sub, *a, *b)),
        Inst::Mul(a, b) => Some((IntOp::Mul, *a, *b)),
        Inst::Div(a, b) => Some((IntOp::Div, *a, *b)),
        Inst::And(a, b) => Some((IntOp::And, *a, *b)),
        Inst::Or(a, b) => Some((IntOp::Or, *a, *b)),
        Inst::Xor(a, b) => Some((IntOp::Xor, *a, *b)),
        Inst::Shl(a, b) => Some((IntOp::Shl, *a, *b)),
        Inst::Shr(a, b) => Some((IntOp::Shr, *a, *b)),
        Inst::Sar(a, b) => Some((IntOp::Sar, *a, *b)),
        _ => None,
    }
}

/// The operation and the operands of an instruction on two doubles.
pub fn float_operands(inst: &Inst) -> (r: Option<(FloatPairOp, Value, Value)>)
    ensures
        match r {
            Some((op, a, b)) => float_op(inst@.op) == Some(op) && inst@.args.len() == 2
                && inst@.args[0] == a && inst@.args[1] == b,
            None => float_op(inst@.op) is None,
        },
{
    match inst {
        Inst::Add(a, b) => Some((FloatPairOp::Add, *a, *b)),
        Inst::Sub(a, b) => Some((FloatPairOp::Sub, *a, *b)),
        Inst::Mul(a, b) => Some((FloatPairOp::Mul, *a, *b)),
        Inst::Div(a, b) => Some((FloatPairOp::Div, *a, *b)),
        Inst::Min(a, b) => Some((FloatPairOp::Min, *a, *b)),
        Inst::Max(a, b) => Some((FloatPairOp::Max, *a, *b)),
        _ => None,
    }
}

pub fn emit_i64_inst(
    f: &Function,
    regs: &Vec<Option<Gpr>>,
    v: Value,
    code: &mut Vec<A64>,
    Ghost(blocks): Ghost<nat>,
) -> (r: Result<(), EmitError>)
    requires
        v.0 < f.insts@.len(),
        v.0 < regs@.len(),
        regs@[v.0 as int] is Some,
        sound(old(code)@, blocks),
    ensures
        appended(r, old(code)@, final(code)@, i64_inst(*f, regs@, v)),
        sound(final(code)@, blocks),
{
    let dst: Gpr = regs[v.0 as usize].unwrap();
    let inst: &Inst = &f.insts[v.0 as usize];
    match inst {
        Inst::ConstI64(n) => {
            load_constant(dst, *n as u64, code, Ghost(blocks));
            Ok(())
        },
        Inst::Param { .. } => {
            assert(code@ =~= code@ + Seq::empty());
            Ok(())
        },
        Inst::Rem(a, b) => remainder(dst, *a, *b, regs, code, Ghost(blocks)),
        Inst::Neg(a) => negate(dst, *a, regs, code, Ghost(blocks)),
        Inst::Not(a) => invert(dst, *a, regs, code, Ghost(blocks)),
        _ => match int_operands(inst) {
            Some((op, a, b)) => int_pair(op, dst, a, b, regs, code, Ghost(blocks)),
            None => Err(EmitError::I64Unsupported(v)),
        },
    }
}

/// The code of an instruction in a function with a double as its result.
pub open spec fn f64_inst(f: Function, regs: Seq<Option<Gpr>>, v: Value) -> Code {
    let m = f.inst(v.0 as int);
    let dst = regs[v.0 as int].unwrap();
    let ty = type_of(f, v);
    match m.op {
        Op::ConstF64(bits) => one(A64::Literal { dst, bits }),
        Op::Param(_, _) | Op::Phi(_) => nothing(),
        Op::ConstI64(n) => Ok(constant(dst, n as u64)),
        Op::ConstBool(b) => Ok(
            constant(
                dst,
                if b {
                    1
                } else {
                    0
                },
            ),
        ),
        Op::Add | Op::Sub | Op::Mul | Op::Div => if ty == Some(Ty::F64) {
            with2(regs, m.args[0], m.args[1], float_code(float_op(m.op).unwrap(), dst))
        } else {
            with2(regs, m.args[0], m.args[1], int_code(int_op(m.op).unwrap(), dst))
        },
        Op::Rem => if ty != Some(Ty::I64) {
            Err(EmitError::RemainderType)
        } else {
            with2(regs, m.args[0], m.args[1], rem_code(dst))
        },
        Op::Neg => if ty == Some(Ty::F64) {
            with1(regs, m.args[0], unary_code(FloatUnaryOp::Neg, dst))
        } else {
            with1(regs, m.args[0], neg_code(dst))
        },
        Op::Abs => if type_of(f, m.args[0]) != Some(Ty::F64) {
            Err(EmitError::AbsType)
        } else {
            with1(regs, m.args[0], unary_code(FloatUnaryOp::Abs, dst))
        },
        Op::Sqrt => if type_of(f, m.args[0]) != Some(Ty::F64) {
            Err(EmitError::SqrtType)
        } else {
            with1(regs, m.args[0], unary_code(FloatUnaryOp::Sqrt, dst))
        },
        Op::Fma => if ty != Some(Ty::F64) {
            Err(EmitError::FmaType)
        } else {
            fma_code(regs, dst, m.args[0], m.args[1], m.args[2])
        },
        Op::Min => if ty != Some(Ty::F64) {
            Err(EmitError::MinType)
        } else {
            with2(regs, m.args[0], m.args[1], float_code(FloatPairOp::Min, dst))
        },
        Op::Max => if ty != Some(Ty::F64) {
            Err(EmitError::MaxType)
        } else {
            with2(regs, m.args[0], m.args[1], float_code(FloatPairOp::Max, dst))
        },
        Op::And | Op::Or | Op::Xor | Op::Shl | Op::Shr | Op::Sar => with2(
            regs,
            m.args[0],
            m.args[1],
            int_code(int_op(m.op).unwrap(), dst),
        ),
        Op::Not => with1(regs, m.args[0], not_code(dst)),
        Op::Compare(_) => match type_of(f, m.args[0]) {
            Some(Ty::F64) => with2(regs, m.args[0], m.args[1], compare_code(true)),
            Some(_) => with2(regs, m.args[0], m.args[1], compare_code(false)),
            None => Err(EmitError::ComparisonOperand),
        },
        Op::IToF => with1(regs, m.args[0], |src: Gpr| seq![A64::FromInt { dst, src }]),
        Op::FToI => with1(regs, m.args[0], |src: Gpr| seq![A64::ToInt { dst, src }]),
        _ => Err(EmitError::Unsupported(v)),
    }
}

pub open spec fn compare_code(float: bool) -> spec_fn(Gpr, Gpr) -> Seq<A64> {
    |lhs: Gpr, rhs: Gpr|
        seq![
            if float {
                A64::CompareFloat { lhs, rhs }
            } else {
                A64::Compare { lhs, rhs }
            },
        ]
}

pub open spec fn fma_code(
    regs: Seq<Option<Gpr>>,
    dst: Gpr,
    a: Value,
    b: Value,
    c: Value,
) -> Code {
    match register_of(regs, a) {
        Ok(lhs) => match register_of(regs, b) {
            Ok(rhs) => match register_of(regs, c) {
                Ok(addend) => one(A64::FusedMulAdd { dst, lhs, rhs, addend }),
                Err(e) => Err(e),
            },
            Err(e) => Err(e),
        },
        Err(e) => Err(e),
    }
}

fn fused(
    dst: Gpr,
    a: Value,
    b: Value,
    c: Value,
    regs: &Vec<Option<Gpr>>,
    code: &mut Vec<A64>,
    Ghost(blocks): Ghost<nat>,
) -> (r: Result<(), EmitError>)
    requires
        sound(old(code)@, blocks),
    ensures
        appended(r, old(code)@, final(code)@, fma_code(regs@, dst, a, b, c)),
        sound(final(code)@, blocks),
{
    match find_two(regs, a, b) {
        Err(e) => {
            assert(with2(regs@, a, b, compare_code(true)) == Err::<Seq<A64>, EmitError>(e));
            Err(e)
        },
        Ok((lhs, rhs)) => match find_register(regs, c) {
            Err(e) => Err(e),
            Ok(addend) => {
                let ghost start = code@;
                code.push(A64::FusedMulAdd { dst, lhs, rhs, addend });
                assert(code@ =~= start + seq![A64::FusedMulAdd { dst, lhs, rhs, addend }]);
                Ok(())
            },
        },
    }
}

fn comparison(
    float: bool,
    a: Value,
    b: Value,
    regs: &Vec<Option<Gpr>>,
    code: &mut Vec<A64>,
    Ghost(blocks): Ghost<nat>,
) -> (r: Result<(), EmitError>)
    requires
        sound(old(code)@, blocks),
    ensures
        appended(r, old(code)@, final(code)@, with2(regs@, a, b, compare_code(float))),
        sound(final(code)@, blocks),
{
    match find_two(regs, a, b) {
        Err(e) => Err(e),
        Ok((lhs, rhs)) => {
            let ghost start = code@;
            if float {
                code.push(A64::CompareFloat { lhs, rhs });
            } else {
                code.push(A64::Compare { lhs, rhs });
            }
            assert(code@ =~= start + compare_code(float)(lhs, rhs));
            Ok(())
        },
    }
}

fn convert(
    to_int: bool,
    dst: Gpr,
    a: Value,
    regs: &Vec<Option<Gpr>>,
    code: &mut Vec<A64>,
    Ghost(blocks): Ghost<nat>,
) -> (r: Result<(), EmitError>)
    requires
        sound(old(code)@, blocks),
    ensures
        to_int ==> appended(
            r,
            old(code)@,
            final(code)@,
            with1(regs@, a, |src: Gpr| seq![A64::ToInt { dst, src }]),
        ),
        !to_int ==> appended(
            r,
            old(code)@,
            final(code)@,
            with1(regs@, a, |src: Gpr| seq![A64::FromInt { dst, src }]),
        ),
        sound(final(code)@, blocks),
{
    match find_register(regs, a) {
        Err(e) => Err(e),
        Ok(src) => {
            let ghost start = code@;
            let inst: A64 = if to_int {
                A64::ToInt { dst, src }
            } else {
                A64::FromInt { dst, src }
            };
            code.push(inst);
            assert(code@ =~= start + seq![inst]);
            Ok(())
        },
    }
}

#[verifier::rlimit(60)]
pub fn emit_f64_inst(
    f: &Function,
    regs: &Vec<Option<Gpr>>,
    v: Value,
    code: &mut Vec<A64>,
    Ghost(blocks): Ghost<nat>,
) -> (r: Result<(), EmitError>)
    requires
        v.0 < f.insts@.len(),
        v.0 < regs@.len(),
        regs@[v.0 as int] is Some,
        sound(old(code)@, blocks),
    ensures
        appended(r, old(code)@, final(code)@, f64_inst(*f, regs@, v)),
        sound(final(code)@, blocks),
{
    let ghost start = code@;
    let dst: Gpr = regs[v.0 as usize].unwrap();
    let ty: Option<Ty> = type_at(f, v);
    let float: bool = ty == Some(Ty::F64);
    let inst: &Inst = &f.insts[v.0 as usize];
    match inst {
        Inst::ConstF64(bits) => {
            code.push(A64::Literal { dst, bits: *bits });
            assert(code@ =~= start + seq![A64::Literal { dst, bits: *bits }]);
            Ok(())
        },
        Inst::Param { .. } | Inst::Phi { .. } => {
            assert(code@ =~= start + Seq::empty());
            Ok(())
        },
        Inst::ConstI64(n) => {
            load_constant(dst, *n as u64, code, Ghost(blocks));
            Ok(())
        },
        Inst::ConstBool(b) => {
            let bit: u64 = if *b {
                1
            } else {
                0
            };
            load_constant(dst, bit, code, Ghost(blocks));
            Ok(())
        },
        Inst::Rem(a, b) => if ty != Some(Ty::I64) {
            Err(EmitError::RemainderType)
        } else {
            remainder(dst, *a, *b, regs, code, Ghost(blocks))
        },
        Inst::Neg(a) => if float {
            float_unary(FloatUnaryOp::Neg, dst, *a, regs, code, Ghost(blocks))
        } else {
            negate(dst, *a, regs, code, Ghost(blocks))
        },
        Inst::Abs(a) => if type_at(f, *a) != Some(Ty::F64) {
            Err(EmitError::AbsType)
        } else {
            float_unary(FloatUnaryOp::Abs, dst, *a, regs, code, Ghost(blocks))
        },
        Inst::Sqrt(a) => if type_at(f, *a) != Some(Ty::F64) {
            Err(EmitError::SqrtType)
        } else {
            float_unary(FloatUnaryOp::Sqrt, dst, *a, regs, code, Ghost(blocks))
        },
        Inst::Fma { a, b, c } => if !float {
            Err(EmitError::FmaType)
        } else {
            fused(dst, *a, *b, *c, regs, code, Ghost(blocks))
        },
        Inst::Min(a, b) => if !float {
            Err(EmitError::MinType)
        } else {
            float_pair(FloatPairOp::Min, dst, *a, *b, regs, code, Ghost(blocks))
        },
        Inst::Max(a, b) => if !float {
            Err(EmitError::MaxType)
        } else {
            float_pair(FloatPairOp::Max, dst, *a, *b, regs, code, Ghost(blocks))
        },
        Inst::Not(a) => invert(dst, *a, regs, code, Ghost(blocks)),
        Inst::Cmp { lhs, rhs, .. } => match type_at(f, *lhs) {
            Some(Ty::F64) => comparison(true, *lhs, *rhs, regs, code, Ghost(blocks)),
            Some(_) => comparison(false, *lhs, *rhs, regs, code, Ghost(blocks)),
            None => Err(EmitError::ComparisonOperand),
        },
        Inst::IToF(a) => convert(false, dst, *a, regs, code, Ghost(blocks)),
        Inst::FToI(a) => convert(true, dst, *a, regs, code, Ghost(blocks)),
        _ => {
            if float {
                match float_operands(inst) {
                    Some((op, a, b)) => {
                        return float_pair(op, dst, a, b, regs, code, Ghost(blocks));
                    },
                    None => {},
                }
            }
            match int_operands(inst) {
                Some((op, a, b)) => int_pair(op, dst, a, b, regs, code, Ghost(blocks)),
                None => Err(EmitError::Unsupported(v)),
            }
        },
    }
}

// ---------------------------------------------------------------------------
// Control flow

/// Moves one register to another of the same bank.
pub open spec fn move_code(float: bool, dst: Gpr, src: Gpr) -> Seq<A64> {
    if dst == src {
        Seq::empty()
    } else if float {
        seq![A64::Unary { unary: FloatUnaryOp::Move, dst, src }]
    } else {
        seq![A64::Int { op: IntOp::Or, dst, lhs: reg(31), rhs: src }]
    }
}

pub fn emit_move(
    float: bool,
    dst: Gpr,
    src: Gpr,
    code: &mut Vec<A64>,
    Ghost(blocks): Ghost<nat>,
)
    requires
        sound(old(code)@, blocks),
    ensures
        final(code)@ == old(code)@ + move_code(float, dst, src),
        sound(final(code)@, blocks),
{
    let ghost start = code@;
    if dst != src {
        if float {
            code.push(A64::Unary { unary: FloatUnaryOp::Move, dst, src });
        } else {
            code.push(A64::Int { op: IntOp::Or, dst, lhs: xzr(), rhs: src });
        }
    }
    assert(code@ =~= start + move_code(float, dst, src));
}

/// What one value of the target block needs on the edge from block `from`.
pub open spec fn edge_copy(f: Function, regs: Seq<Option<Gpr>>, v: Value, from: int) -> Code {
    if !(f.inst(v.0 as int).op is Phi) {
        nothing()
    } else {
        match phi_source(f.inst(v.0 as int), from) {
            None => Err(EmitError::PhiWithoutEdge(v)),
            Some(source) => match register_of(regs, source) {
                Err(_) => Err(EmitError::MissingPhiSource(source)),
                Ok(src) => Ok(
                    move_code(type_of(f, v) == Some(Ty::F64), regs[v.0 as int].unwrap(), src),
                ),
            },
        }
    }
}

/// The copies for the first `k` values of block `target`.
pub open spec fn edge_copies(
    f: Function,
    regs: Seq<Option<Gpr>>,
    target: int,
    from: int,
    k: nat,
) -> Code
    decreases k,
{
    if k == 0 {
        nothing()
    } else {
        chain(
            edge_copies(f, regs, target, from, (k - 1) as nat),
            edge_copy(f, regs, f.listed(target)[k - 1], from),
        )
    }
}

/// Every value that a block lists has a register.
pub open spec fn covered(f: Function, regs: Seq<Option<Gpr>>) -> bool {
    &&& regs.len() == f.insts@.len()
    &&& forall|b: int, k: int|
        #![trigger f.listed(b)[k]]
        0 <= b < f.blocks@.len() && 0 <= k < f.listed(b).len() ==> f.listed(b)[k].0 < f.insts@.len()
            && regs[f.listed(b)[k].0 as int] is Some
}

fn emit_edge_copy(
    f: &Function,
    regs: &Vec<Option<Gpr>>,
    v: Value,
    from: usize,
    code: &mut Vec<A64>,
    Ghost(blocks): Ghost<nat>,
) -> (r: Result<(), EmitError>)
    requires
        v.0 < f.insts@.len(),
        v.0 < regs@.len(),
        regs@[v.0 as int] is Some,
        from <= u32::MAX,
        sound(old(code)@, blocks),
    ensures
        appended(r, old(code)@, final(code)@, edge_copy(*f, regs@, v, from as int)),
        sound(final(code)@, blocks),
{
    let ghost start = code@;
    match &f.insts[v.0 as usize] {
        Inst::Phi { incoming } => match find_edge(incoming, from) {
            None => Err(EmitError::PhiWithoutEdge(v)),
            Some(source) => match find_register(regs, source) {
                Err(_) => Err(EmitError::MissingPhiSource(source)),
                Ok(src) => {
                    let float: bool = type_at(f, v) == Some(Ty::F64);
                    let dst: Gpr = regs[v.0 as usize].unwrap();
                    emit_move(float, dst, src, code, Ghost(blocks));
                    Ok(())
                },
            },
        },
        _ => {
            assert(code@ =~= start + Seq::empty());
            Ok(())
        },
    }
}

/// Moves the phi operands of an edge into the registers of the phis.
fn emit_phi_edge_copies(
    f: &Function,
    regs: &Vec<Option<Gpr>>,
    target: usize,
    from: usize,
    code: &mut Vec<A64>,
    Ghost(blocks): Ghost<nat>,
) -> (r: Result<(), EmitError>)
    requires
        covered(*f, regs@),
        target < f.blocks@.len(),
        from <= u32::MAX,
        sound(old(code)@, blocks),
    ensures
        appended(
            r,
            old(code)@,
            final(code)@,
            edge_copies(*f, regs@, target as int, from as int, f.listed(target as int).len()),
        ),
        sound(final(code)@, blocks),
{
    let ghost start = code@;
    let mut k: usize = 0;
    assert(code@ =~= start + Seq::empty());
    while k < f.blocks[target].insts.len()
        invariant
            covered(*f, regs@),
            target < f.blocks@.len(),
            from <= u32::MAX,
            k <= f.listed(target as int).len(),
            appended(
                Ok(()),
                start,
                code@,
                edge_copies(*f, regs@, target as int, from as int, k as nat),
            ),
            sound(code@, blocks),
        decreases f.listed(target as int).len() - k,
    {
        let ghost before = code@;
        let v: Value = f.blocks[target].insts[k];
        assert(v == f.listed(target as int)[k as int]);
        match emit_edge_copy(f, regs, v, from, code, Ghost(blocks)) {
            Ok(_) => {
                let ghost a = edge_copies(*f, regs@, target as int, from as int, k as nat)->Ok_0;
                let ghost b = edge_copy(*f, regs@, v, from as int)->Ok_0;
                assert(code@ =~= start + (a + b));
            },
            Err(e) => {
                proof {
                    lemma_copies_error(
                        *f,
                        regs@,
                        target as int,
                        from as int,
                        (k + 1) as nat,
                        e,
                    );
                }
                return Err(e);
            },
        }
        k += 1;
    }
    Ok(())
}

proof fn lemma_copies_error(
    f: Function,
    regs: Seq<Option<Gpr>>,
    target: int,
    from: int,
    k: nat,
    e: EmitError,
)
    requires
        k <= f.listed(target).len(),
        edge_copies(f, regs, target, from, k) == Err::<Seq<A64>, EmitError>(e),
    ensures
        edge_copies(f, regs, target, from, f.listed(target).len()) == Err::<Seq<A64>, EmitError>(e),
    decreases f.listed(target).len() - k,
{
    if k < f.listed(target).len() {
        lemma_copies_error(f, regs, target, from, k + 1, e);
    }
}

// ---------------------------------------------------------------------------
// The frame

/// How many callee-saved registers are in use.
pub open spec fn saved_count(a: Assignment) -> int {
    a.saved_float.len() as int + a.saved_int.len()
}

pub open spec fn frame_bytes(a: Assignment) -> int {
    frame_size(8 * saved_count(a))
}

pub open spec fn float_saves(a: Assignment) -> Seq<A64> {
    Seq::new(
        a.saved_float.len(),
        |i: int| A64::StoreFloat { src: a.saved_float[i], slot: (8 * i) as u16 },
    )
}

pub open spec fn int_saves(a: Assignment) -> Seq<A64> {
    Seq::new(
        a.saved_int.len(),
        |i: int|
            A64::Store { src: a.saved_int[i], slot: (8 * (a.saved_float.len() + i)) as u16 },
    )
}

pub open spec fn float_restores(a: Assignment) -> Seq<A64> {
    let n = a.saved_float.len();
    Seq::new(
        n,
        |i: int|
            A64::LoadFloat { dst: a.saved_float[n - 1 - i], slot: (8 * (n - 1 - i)) as u16 },
    )
}

pub open spec fn int_restores(a: Assignment) -> Seq<A64> {
    let n = a.saved_int.len();
    Seq::new(
        n,
        |i: int|
            A64::Load {
                dst: a.saved_int[n - 1 - i],
                slot: (8 * (a.saved_float.len() + (n - 1 - i))) as u16,
            },
    )
}

/// Opens the frame and saves the registers in use.
pub open spec fn prologue(a: Assignment) -> Seq<A64> {
    if saved_count(a) == 0 {
        Seq::empty()
    } else {
        seq![A64::OpenFrame { bytes: frame_bytes(a) as u16 }] + float_saves(a) + int_saves(a)
    }
}

/// Restores the registers in use, in the opposite order, and closes the
/// frame.
pub open spec fn epilogue(a: Assignment) -> Seq<A64> {
    if saved_count(a) == 0 {
        Seq::empty()
    } else {
        (int_restores(a) + float_restores(a)).push(
            A64::CloseFrame { bytes: frame_bytes(a) as u16 },
        )
    }
}

fn frame_of(f: &Function, a: &Registers) -> (r: u16)
    requires
        assignment_ok(*f, a@),
    ensures
        r == frame_bytes(a@),
        r < 4096,
{
    let count: usize = a.saved_float.len() + a.saved_int.len();
    round_frame(8 * count as u32) as u16
}

pub fn emit_prologue(f: &Function, a: &Registers, code: &mut Vec<A64>, Ghost(blocks): Ghost<nat>)
    requires
        assignment_ok(*f, a@),
        sound(old(code)@, blocks),
    ensures
        final(code)@ == old(code)@ + prologue(a@),
        sound(final(code)@, blocks),
{
    let ghost start = code@;
    let floats: usize = a.saved_float.len();
    let ints: usize = a.saved_int.len();
    if floats == 0 && ints == 0 {
        assert(code@ =~= start + prologue(a@));
        return ;
    }
    code.push(A64::OpenFrame { bytes: frame_of(f, a) });
    let ghost base = code@;
    let mut i: usize = 0;
    assert(base + float_saves(a@).take(0) =~= base);
    while i < floats
        invariant
            assignment_ok(*f, a@),
            floats == a.saved_float@.len(),
            i <= floats,
            code@ == base + float_saves(a@).take(i as int),
            sound(code@, blocks),
        decreases floats - i,
    {
        code.push(A64::StoreFloat { src: a.saved_float[i], slot: 8 * (i as u16) });
        assert(float_saves(a@).take(i + 1) =~= float_saves(a@).take(i as int).push(
            float_saves(a@)[i as int],
        ));
        assert(code@ =~= base + float_saves(a@).take(i + 1));
        i += 1;
    }
    let ghost next = code@;
    assert(float_saves(a@).take(floats as int) =~= float_saves(a@));
    let mut j: usize = 0;
    assert(next + int_saves(a@).take(0) =~= next);
    while j < ints
        invariant
            assignment_ok(*f, a@),
            floats == a.saved_float@.len(),
            ints == a.saved_int@.len(),
            j <= ints,
            code@ == next + int_saves(a@).take(j as int),
            sound(code@, blocks),
        decreases ints - j,
    {
        code.push(A64::Store { src: a.saved_int[j], slot: 8 * ((floats + j) as u16) });
        assert(int_saves(a@).take(j + 1) =~= int_saves(a@).take(j as int).push(
            int_saves(a@)[j as int],
        ));
        assert(code@ =~= next + int_saves(a@).take(j + 1));
        j += 1;
    }
    assert(int_saves(a@).take(ints as int) =~= int_saves(a@));
    assert(code@ =~= start + prologue(a@));
}

pub fn emit_epilogue(f: &Function, a: &Registers, code: &mut Vec<A64>, Ghost(blocks): Ghost<nat>)
    requires
        assignment_ok(*f, a@),
        sound(old(code)@, blocks),
    ensures
        final(code)@ == old(code)@ + epilogue(a@),
        sound(final(code)@, blocks),
{
    let ghost start = code@;
    let floats: usize = a.saved_float.len();
    let ints: usize = a.saved_int.len();
    if floats == 0 && ints == 0 {
        assert(code@ =~= start + epilogue(a@));
        return ;
    }
    let mut j: usize = 0;
    assert(start + int_restores(a@).take(0) =~= start);
    while j < ints
        invariant
            assignment_ok(*f, a@),
            floats == a.saved_float@.len(),
            ints == a.saved_int@.len(),
            j <= ints,
            code@ == start + int_restores(a@).take(j as int),
            sound(code@, blocks),
        decreases ints - j,
    {
        let k: usize = ints - 1 - j;
        code.push(A64::Load { dst: a.saved_int[k], slot: 8 * ((floats + k) as u16) });
        assert(int_restores(a@).take(j + 1) =~= int_restores(a@).take(j as int).push(
            int_restores(a@)[j as int],
        ));
        assert(code@ =~= start + int_restores(a@).take(j + 1));
        j += 1;
    }
    let ghost next = code@;
    assert(int_restores(a@).take(ints as int) =~= int_restores(a@));
    let mut i: usize = 0;
    assert(next + float_restores(a@).take(0) =~= next);
    while i < floats
        invariant
            assignment_ok(*f, a@),
            floats == a.saved_float@.len(),
            i <= floats,
            code@ == next + float_restores(a@).take(i as int),
            sound(code@, blocks),
        decreases floats - i,
    {
        let k: usize = floats - 1 - i;
        code.push(A64::LoadFloat { dst: a.saved_float[k], slot: 8 * (k as u16) });
        assert(float_restores(a@).take(i + 1) =~= float_restores(a@).take(i as int).push(
            float_restores(a@)[i as int],
        ));
        assert(code@ =~= next + float_restores(a@).take(i + 1));
        i += 1;
    }
    assert(float_restores(a@).take(floats as int) =~= float_restores(a@));
    code.push(A64::CloseFrame { bytes: frame_of(f, a) });
    assert(code@ =~= start + epilogue(a@));
}

/// Every slot that the epilogue restores is one that the prologue saved, from
/// the same register.
pub proof fn lemma_frame_restored(a: Assignment, i: int)
    requires
        0 <= i < saved_count(a),
        saved_count(a) <= 18,
    ensures
        i < a.saved_float.len() ==> float_saves(a)[i] == (A64::StoreFloat {
            src: a.saved_float[i],
            slot: (8 * i) as u16,
        }) && float_restores(a)[a.saved_float.len() - 1 - i] == (A64::LoadFloat {
            dst: a.saved_float[i],
            slot: (8 * i) as u16,
        }),
        i >= a.saved_float.len() ==> int_saves(a)[i - a.saved_float.len()] == (A64::Store {
            src: a.saved_int[i - a.saved_float.len()],
            slot: (8 * i) as u16,
        }) && int_restores(a)[saved_count(a) - 1 - i] == (A64::Load {
            dst: a.saved_int[i - a.saved_float.len()],
            slot: (8 * i) as u16,
        }),
{
}

// ---------------------------------------------------------------------------
// Terminators

/// The condition of a branch: the comparison it names directly.
pub open spec fn branch_condition(f: Function, cond: Value) -> Result<Condition, EmitError> {
    if cond.0 >= f.insts@.len() {
        Err(EmitError::MissingCondition(cond))
    } else {
        match f.inst(cond.0 as int).op {
            Op::Compare(op) => Ok(holds_when(f, cond)),
            _ => Err(EmitError::IndirectCondition),
        }
    }
}

fn find_condition(f: &Function, cond: Value) -> (r: Result<Condition, EmitError>)
    ensures
        r == branch_condition(*f, cond),
{
    if cond.0 as usize >= f.insts.len() {
        return Err(EmitError::MissingCondition(cond));
    }
    match &f.insts[cond.0 as usize] {
        Inst::Cmp { op, lhs, .. } => Ok(condition_for(*op, type_at(f, *lhs) == Some(Ty::F64))),
        _ => Err(EmitError::IndirectCondition),
    }
}

/// The place of the last comparison among the first `k` values of block `b`.
pub open spec fn last_comparison(f: Function, b: int, k: int) -> Option<int>
    decreases k,
{
    if k <= 0 {
        None
    } else if f.inst(f.listed(b)[k - 1].0 as int).op is Compare {
        Some(k - 1)
    } else {
        last_comparison(f, b, k - 1)
    }
}

/// The comparison of a branch is made once more where the flags do not hold
/// it: where it is not the last one of the block.
pub open spec fn compared_again(f: Function, regs: Seq<Option<Gpr>>, b: int, cond: Value) -> Code {
    let m = f.inst(cond.0 as int);
    let fresh = match last_comparison(f, b, f.listed(b).len() as int) {
        Some(j) => f.listed(b)[j] == cond,
        None => false,
    };
    if fresh {
        nothing()
    } else {
        match type_of(f, m.args[0]) {
            Some(ty) => with2(regs, m.args[0], m.args[1], compare_code(ty == Ty::F64)),
            None => Err(EmitError::ComparisonOperand),
        }
    }
}

fn find_last_comparison(f: &Function, b: usize) -> (r: Option<Value>)
    requires
        b < f.blocks@.len(),
        forall|k: int|
            #![trigger f.listed(b as int)[k]]
            0 <= k < f.listed(b as int).len() ==> f.listed(b as int)[k].0 < f.insts@.len(),
    ensures
        r == match last_comparison(*f, b as int, f.listed(b as int).len() as int) {
            Some(j) => Some(f.listed(b as int)[j]),
            None => None,
        },
{
    let mut k: usize = f.blocks[b].insts.len();
    while k > 0
        invariant
            b < f.blocks@.len(),
            k <= f.listed(b as int).len(),
            forall|i: int|
                #![trigger f.listed(b as int)[i]]
                0 <= i < f.listed(b as int).len() ==> f.listed(b as int)[i].0 < f.insts@.len(),
            last_comparison(*f, b as int, f.listed(b as int).len() as int) == last_comparison(
                *f,
                b as int,
                k as int,
            ),
        decreases k,
    {
        k -= 1;
        let v: Value = f.blocks[b].insts[k];
        assert(v == f.listed(b as int)[k as int]);
        match &f.insts[v.0 as usize] {
            Inst::Cmp { .. } => return Some(v),
            _ => {},
        }
    }
    None
}

fn compare_again(
    f: &Function,
    regs: &Vec<Option<Gpr>>,
    b: usize,
    cond: Value,
    code: &mut Vec<A64>,
    Ghost(blocks): Ghost<nat>,
) -> (r: Result<(), EmitError>)
    requires
        b < f.blocks@.len(),
        cond.0 < f.insts@.len(),
        forall|k: int|
            #![trigger f.listed(b as int)[k]]
            0 <= k < f.listed(b as int).len() ==> f.listed(b as int)[k].0 < f.insts@.len(),
        f.inst(cond.0 as int).op is Compare,
        sound(old(code)@, blocks),
    ensures
        appended(r, old(code)@, final(code)@, compared_again(*f, regs@, b as int, cond)),
        sound(final(code)@, blocks),
{
    let fresh: bool = match find_last_comparison(f, b) {
        Some(v) => v == cond,
        None => false,
    };
    if fresh {
        assert(code@ =~= code@ + Seq::empty());
        return Ok(());
    }
    match &f.insts[cond.0 as usize] {
        Inst::Cmp { lhs, rhs, .. } => match type_at(f, *lhs) {
            Some(ty) => comparison(ty == Ty::F64, *lhs, *rhs, regs, code, Ghost(blocks)),
            None => Err(EmitError::ComparisonOperand),
        },
        _ => Ok(()),
    }
}

/// Copies for the phis of a block, and a jump to it.
pub open spec fn edge_code(f: Function, regs: Seq<Option<Gpr>>, target: Block, from: int) -> Code {
    edge_copies(f, regs, target.0 as int, from, f.listed(target.0 as int).len())
}

/// The code of a branch.
pub open spec fn f64_branch(
    f: Function,
    a: Assignment,
    b: int,
    cond: Value,
    then_: Block,
    else_: Block,
) -> Code {
    match branch_condition(f, cond) {
        Err(e) => Err(e),
        Ok(condition) => if then_.0 >= f.blocks@.len() {
            Err(EmitError::TargetOutOfRange(then_.0))
        } else if else_.0 >= f.blocks@.len() {
            Err(EmitError::TargetOutOfRange(else_.0))
        } else {
            chain(
                compared_again(f, a.regs, b, cond),
                chain(
                    edge_code(f, a.regs, then_, b),
                    chain(
                        one(A64::JumpIf { condition, block: then_.0 as usize }),
                        chain(
                            edge_code(f, a.regs, else_, b),
                            one(A64::Jump { block: else_.0 as usize }),
                        ),
                    ),
                ),
            )
        },
    }
}

/// The code of a terminator.
pub open spec fn f64_term(f: Function, a: Assignment, b: int) -> Code {
    match f.term(b) {
        None => Err(EmitError::NoTerminator(b as usize)),
        Some(Terminator::Return(v)) => match type_of(f, v) {
            None => Err(EmitError::ReturnUntyped(v)),
            Some(ty) => if ty != Ty::F64 {
                Err(EmitError::ResultType)
            } else {
                match register_of(a.regs, v) {
                    Err(e) => Err(e),
                    Ok(x) => Ok(
                        (move_code(true, reg(0), x) + epilogue(a)).push(A64::Return),
                    ),
                }
            },
        },
        Some(Terminator::Jump(t)) => if t.0 >= f.blocks@.len() {
            Err(EmitError::TargetOutOfRange(t.0))
        } else {
            chain(edge_code(f, a.regs, t, b), one(A64::Jump { block: t.0 as usize }))
        },
        Some(Terminator::Branch { cond, then_, else_ }) => f64_branch(f, a, b, cond, then_, else_),
    }
}

pub fn emit_f64_term(
    f: &Function,
    a: &Registers,
    b: usize,
    code: &mut Vec<A64>,
    Ghost(blocks): Ghost<nat>,
) -> (r: Result<(), EmitError>)
    requires
        b < f.blocks@.len(),
        f.blocks@.len() <= u32::MAX,
        blocks == f.blocks@.len(),
        covered(*f, a.regs@),
        assignment_ok(*f, a@),
        sound(old(code)@, blocks),
    ensures
        appended(r, old(code)@, final(code)@, f64_term(*f, a@, b as int)),
        r is Ok ==> sound(final(code)@, blocks),
{
    let ghost start = code@;
    match f.blocks[b].term {
        None => Err(EmitError::NoTerminator(b)),
        Some(Terminator::Return(v)) => match type_at(f, v) {
            None => Err(EmitError::ReturnUntyped(v)),
            Some(ty) => {
                if ty != Ty::F64 {
                    return Err(EmitError::ResultType);
                }
                match find_register(&a.regs, v) {
                    Err(e) => Err(e),
                    Ok(x) => {
                        let zero: Gpr = Gpr::new(0);
                        emit_move(true, zero, x, code, Ghost(blocks));
                        emit_epilogue(f, a, code, Ghost(blocks));
                        code.push(A64::Return);
                        assert(code@ =~= start + (move_code(true, zero, x) + epilogue(a@)).push(
                            A64::Return,
                        ));
                        Ok(())
                    },
                }
            },
        },
        Some(Terminator::Jump(t)) => {
            if t.0 as usize >= f.blocks.len() {
                return Err(EmitError::TargetOutOfRange(t.0));
            }
            match emit_phi_edge_copies(f, &a.regs, t.0 as usize, b, code, Ghost(blocks)) {
                Err(e) => Err(e),
                Ok(_) => {
                    let ghost copies = edge_code(*f, a.regs@, t, b as int)->Ok_0;
                    code.push(A64::Jump { block: t.0 as usize });
                    assert(code@ =~= start + (copies + seq![A64::Jump { block: t.0 as usize }]));
                    Ok(())
                },
            }
        },
        Some(Terminator::Branch { cond, then_, else_ }) => emit_f64_branch(
            f,
            a,
            b,
            cond,
            then_,
            else_,
            code,
            Ghost(blocks),
        ),
    }
}

#[verifier::rlimit(40)]
fn emit_f64_branch(
    f: &Function,
    a: &Registers,
    b: usize,
    cond: Value,
    then_: Block,
    else_: Block,
    code: &mut Vec<A64>,
    Ghost(blocks): Ghost<nat>,
) -> (r: Result<(), EmitError>)
    requires
        b < f.blocks@.len(),
        f.blocks@.len() <= u32::MAX,
        blocks == f.blocks@.len(),
        covered(*f, a.regs@),
        assignment_ok(*f, a@),
        sound(old(code)@, blocks),
    ensures
        appended(
            r,
            old(code)@,
            final(code)@,
            f64_branch(*f, a@, b as int, cond, then_, else_),
        ),
        r is Ok ==> sound(final(code)@, blocks),
{
    let ghost start = code@;
    let condition: Condition = match find_condition(f, cond) {
        Ok(c) => c,
        Err(e) => return Err(e),
    };
    if then_.0 as usize >= f.blocks.len() {
        return Err(EmitError::TargetOutOfRange(then_.0));
    }
    if else_.0 as usize >= f.blocks.len() {
        return Err(EmitError::TargetOutOfRange(else_.0));
    }
    let to_then: usize = then_.0 as usize;
    let to_else: usize = else_.0 as usize;
    match compare_again(f, &a.regs, b, cond, code, Ghost(blocks)) {
        Ok(_) => {},
        Err(e) => return Err(e),
    }
    let ghost again = compared_again(*f, a.regs@, b as int, cond)->Ok_0;
    assert(code@ =~= start + again);
    match emit_phi_edge_copies(f, &a.regs, to_then, b, code, Ghost(blocks)) {
        Ok(_) => {},
        Err(e) => return Err(e),
    }
    let ghost first = edge_code(*f, a.regs@, then_, b as int)->Ok_0;
    code.push(A64::JumpIf { condition, block: to_then });
    let ghost branch = seq![A64::JumpIf { condition, block: to_then }];
    assert(code@ =~= start + (again + (first + branch)));
    match emit_phi_edge_copies(f, &a.regs, to_else, b, code, Ghost(blocks)) {
        Ok(_) => {},
        Err(e) => return Err(e),
    }
    let ghost second = edge_code(*f, a.regs@, else_, b as int)->Ok_0;
    code.push(A64::Jump { block: to_else });
    let ghost jump = seq![A64::Jump { block: to_else }];
    assert(code@ =~= start + (again + (first + (branch + (second + jump)))));
    Ok(())
}

/// After allocation, every listed value has a register.
pub proof fn lemma_covered(f: Function, integer: bool, n: nat, b: int, k: int)
    requires
        n <= f.blocks@.len(),
        assignment(f, integer, n) is Ok,
        0 <= b < n,
        0 <= k < f.listed(b).len(),
    ensures
        f.listed(b)[k].0 < f.insts@.len(),
        assignment(f, integer, n)->Ok_0.regs.len() == f.insts@.len(),
        assignment(f, integer, n)->Ok_0.regs[f.listed(b)[k].0 as int] is Some,
    decreases n,
{
    let m = (n - 1) as nat;
    let s = assignment(f, integer, m)->Ok_0;
    lemma_regs_len(f, integer, m);
    lemma_listed_covered(f, integer, m as int, f.listed(m as int).len(), s);
    if b < m {
        lemma_covered(f, integer, m, b, k);
    }
}

proof fn lemma_regs_len(f: Function, integer: bool, n: nat)
    requires
        assignment(f, integer, n) is Ok,
    ensures
        assignment(f, integer, n)->Ok_0.regs.len() == f.insts@.len(),
    decreases n,
{
    if n > 0 {
        lemma_regs_len(f, integer, (n - 1) as nat);
        lemma_listed_covered(
            f,
            integer,
            n - 1,
            f.listed(n - 1).len(),
            assignment(f, integer, (n - 1) as nat)->Ok_0,
        );
    }
}

proof fn lemma_listed_covered(f: Function, integer: bool, b: int, k: nat, s: Assignment)
    requires
        s.regs.len() == f.insts@.len(),
        k <= f.listed(b).len(),
        assign_listed(f, integer, b, k, s) is Ok,
    ensures
        assign_listed(f, integer, b, k, s)->Ok_0.regs.len() == f.insts@.len(),
        forall|j: int|
            #![trigger f.listed(b)[j]]
            0 <= j < k ==> f.listed(b)[j].0 < f.insts@.len() && assign_listed(
                f,
                integer,
                b,
                k,
                s,
            )->Ok_0.regs[f.listed(b)[j].0 as int] is Some,
        forall|i: int|
            0 <= i < f.insts@.len() && s.regs[i] is Some ==> #[trigger] assign_listed(
                f,
                integer,
                b,
                k,
                s,
            )->Ok_0.regs[i] is Some,
    decreases k,
{
    if k > 0 {
        lemma_listed_covered(f, integer, b, (k - 1) as nat, s);
    }
}

} // verus!
