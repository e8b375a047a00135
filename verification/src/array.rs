//! Memory and loops for vectorized programs.
//!
//! The expression of an element stays an ordinary scalar function. Around it
//! stands the loop over the rows: the induction value, a load for every use of
//! a column, and the store of the result.
use crate::builder::{ir_of, Ir};
use crate::ir::{Block, Function, Inst, Terminator, Ty, Value};
use crate::ir::{InstModel, Op};
use crate::lower::{
    intrinsic_arity, lowered_function, nodes, small_enough, lowerable,
};
use crate::lower::{lower, BinaryOp, Expr, ExprKind, TypedAst, UnaryOp};
use crate::text::append_number;
use crate::text::digits;
use crate::verify::{defect, first_defect, valid};
use crate::verify::{verify, VerifyError};
use crate::report::spelled;
use crate::report::{spell, Piece};
use vstd::prelude::*;

verus! {

#[derive(Clone, Copy, Debug, PartialEq, Eq, Hash, Structural)]
pub struct ArrayValue(pub u32);

/// How each row of the loop gets a parameter: a column is loaded at the
/// induction index, a scalar is the same in all rows.
#[derive(Clone, Copy, Debug, PartialEq, Eq, Structural)]
pub enum ArrayParamKind {
    Column,
    ScalarBroadcast,
}

#[allow(inconsistent_fields)]
#[derive(Debug)]
pub enum ArrayInst {
    Induction { result: ArrayValue, start: usize, step: usize },
    /// An element of a column, `offset` rows from the induction index.
    Load { result: Value, column: u32, index: ArrayValue, offset: i32 },
    Store { output: String, index: ArrayValue, value: Value },
}

#[derive(Clone, Copy, Debug, PartialEq, Eq, Structural)]
pub enum ArrayTerminator {
    LoopIfLess { index: ArrayValue, bound: ArrayBound, body: Block, exit: Block },
    Jump(Block),
    Return,
}

#[derive(Clone, Copy, Debug, PartialEq, Eq, Structural)]
pub enum ArrayBound {
    InputLength,
}

#[derive(Debug)]
pub struct ArrayBlock {
    pub insts: Vec<ArrayInst>,
    pub term: ArrayTerminator,
}

pub struct ArrayFunction {
    pub element: Function,
    pub params: Vec<(String, Ty)>,
    pub param_kinds: Vec<ArrayParamKind>,
    /// The column that a parameter is loaded from. A column that is used at
    /// several offsets has several parameters.
    pub param_sources: Vec<Option<u32>>,
    pub output: String,
    pub index: String,
    pub blocks: Vec<ArrayBlock>,
    pub entry: Block,
}

/// Why a vectorized program is refused.
#[derive(Debug)]
pub enum ArrayError {
    /// The scalar function is not well-formed.
    Element(VerifyError),
    LoopShape,
    ParamMetadata,
    EntryInduction,
    EntryEdge,
    BackEdge,
    Exit,
    UnknownColumn,
    LoadMismatch,
    StoreMismatch,
    StoreUndefined,
    InductionInBody,
    BodyCoverage,
    Nested,
    DynamicOffsets,
    LoadBase,
    LoadIndex,
    OffsetRange,
    MissingColumn,
    MissingParam { load: usize },
    NoReturn,
}

impl ArrayError {
    /// What the error says.
    pub open spec fn text(self) -> Seq<char> {
        match self {
            ArrayError::Element(e) => e.text(),
            ArrayError::LoopShape => "array loop must contain entry, body, and exit blocks"@,
            ArrayError::ParamMetadata =>
                "array parameter metadata does not match the element function"@,
            ArrayError::EntryInduction =>
                "array entry must define one positive-step induction value"@,
            ArrayError::EntryEdge => "array entry has an invalid bounds-check edge"@,
            ArrayError::BackEdge => "array body must jump back to the loop header"@,
            ArrayError::Exit => "array exit must return"@,
            ArrayError::UnknownColumn => "array load references an unknown column"@,
            ArrayError::LoadMismatch => "array load does not match an element parameter"@,
            ArrayError::StoreMismatch => "array store does not match the loop output"@,
            ArrayError::StoreUndefined => "array store references an undefined element value"@,
            ArrayError::InductionInBody => "array induction must be defined in the loop header"@,
            ArrayError::BodyCoverage =>
                "array body must load every column parameter and store exactly once"@,
            ArrayError::Nested =>
                "nested vectorized declarations require the nested-array evaluation entry point"@,
            ArrayError::DynamicOffsets =>
                "dynamic array offsets require the typed vectorized broadcast entry point"@,
            ArrayError::LoadBase => "vectorized loads must use a column identifier"@,
            ArrayError::LoadIndex =>
                "vectorized loads must use the induction variable plus a constant integer offset"@,
            ArrayError::OffsetRange => "vectorized load offset must fit in i32"@,
            ArrayError::MissingColumn => "missing indexed column parameter"@,
            ArrayError::MissingParam { load } => spelled(
                seq![Piece::Text("missing element parameter for load "), Piece::Number(load)],
            ),
            ArrayError::NoReturn => "array element function has no return"@,
        }
    }

    pub fn message(&self) -> (r: String)
        ensures
            r@ == self.text(),
    {
        let text: &'static str = match self {
            ArrayError::Element(e) => return e.message(),
            ArrayError::LoopShape => "array loop must contain entry, body, and exit blocks",
            ArrayError::ParamMetadata =>
                "array parameter metadata does not match the element function",
            ArrayError::EntryInduction =>
                "array entry must define one positive-step induction value",
            ArrayError::EntryEdge => "array entry has an invalid bounds-check edge",
            ArrayError::BackEdge => "array body must jump back to the loop header",
            ArrayError::Exit => "array exit must return",
            ArrayError::UnknownColumn => "array load references an unknown column",
            ArrayError::LoadMismatch => "array load does not match an element parameter",
            ArrayError::StoreMismatch => "array store does not match the loop output",
            ArrayError::StoreUndefined => "array store references an undefined element value",
            ArrayError::InductionInBody => "array induction must be defined in the loop header",
            ArrayError::BodyCoverage =>
                "array body must load every column parameter and store exactly once",
            ArrayError::Nested =>
                "nested vectorized declarations require the nested-array evaluation entry point",
            ArrayError::DynamicOffsets =>
                "dynamic array offsets require the typed vectorized broadcast entry point",
            ArrayError::LoadBase => "vectorized loads must use a column identifier",
            ArrayError::LoadIndex =>
                "vectorized loads must use the induction variable plus a constant integer offset",
            ArrayError::OffsetRange => "vectorized load offset must fit in i32",
            ArrayError::MissingColumn => "missing indexed column parameter",
            ArrayError::MissingParam { load } => {
                return spell(
                    &vec![Piece::Text("missing element parameter for load "), Piece::Number(*load)],
                );
            },
            ArrayError::NoReturn => "array element function has no return",
        };
        text.to_string()
    }
}

// ---------------------------------------------------------------------------
// Checking the loop

/// How many columns the parameters name: one more than the largest.
pub open spec fn column_count(sources: Seq<Option<u32>>, n: nat) -> int
    decreases n,
{
    if n == 0 {
        0
    } else {
        let before = column_count(sources, (n - 1) as nat);
        match sources[n - 1] {
            Some(c) => if c + 1 > before {
                c + 1
            } else {
                before
            },
            None => before,
        }
    }
}

/// What the body has loaded and stored so far.
#[verifier::ext_equal]
pub struct BodyState {
    pub loaded: Seq<bool>,
    pub loads: int,
    pub stores: int,
}

/// The parameter that a value is, if it is one of a double.
pub open spec fn float_param(f: Function, v: Value) -> Option<u32> {
    if v.0 < f.insts@.len() {
        match f.inst(v.0 as int).op {
            Op::Param(index, Ty::F64) => Some(index),
            _ => None,
        }
    } else {
        None
    }
}

/// A load of column `column` may fill parameter `param`.
pub open spec fn load_fits(f: ArrayFunction, param: u32, column: u32) -> bool {
    &&& param < f.params@.len()
    &&& param < f.param_kinds@.len()
    &&& f.param_kinds@[param as int] == ArrayParamKind::Column
    &&& param < f.param_sources@.len()
    &&& f.param_sources@[param as int] == Some(column)
}

pub open spec fn body_step(
    f: ArrayFunction,
    induction: ArrayValue,
    inst: ArrayInst,
    s: BodyState,
) -> Result<BodyState, ArrayError> {
    match inst {
        ArrayInst::Load { result, column, index, .. } => if column >= column_count(
            f.param_sources@,
            f.param_sources@.len(),
        ) {
            Err(ArrayError::UnknownColumn)
        } else {
            match float_param(f.element, result) {
                None => Err(ArrayError::LoadMismatch),
                Some(param) => if index != induction || !load_fits(f, param, column) {
                    Err(ArrayError::LoadMismatch)
                } else {
                    Ok(
                        BodyState {
                            loaded: s.loaded.update(param as int, true),
                            loads: s.loads + 1,
                            ..s
                        },
                    )
                },
            }
        },
        ArrayInst::Store { output, index, value } => if output@ != f.output@ || index != induction {
            Err(ArrayError::StoreMismatch)
        } else if value.0 >= f.element.insts@.len() {
            Err(ArrayError::StoreUndefined)
        } else {
            Ok(BodyState { stores: s.stores + 1, ..s })
        },
        ArrayInst::Induction { .. } => Err(ArrayError::InductionInBody),
    }
}

pub open spec fn body_walk(f: ArrayFunction, induction: ArrayValue, k: nat) -> Result<
    BodyState,
    ArrayError,
>
    decreases k,
{
    if k == 0 {
        Ok(BodyState { loaded: Seq::new(f.params@.len(), |i: int| false), loads: 0, stores: 0 })
    } else {
        match body_walk(f, induction, (k - 1) as nat) {
            Ok(s) => body_step(f, induction, f.blocks@[1].insts@[k - 1], s),
            Err(e) => Err(e),
        }
    }
}

/// How many of the first `n` are set.
pub open spec fn count_set(flags: Seq<bool>, n: nat) -> int
    decreases n,
{
    if n == 0 {
        0
    } else {
        count_set(flags, (n - 1) as nat) + if flags[n - 1] {
            1int
        } else {
            0int
        }
    }
}

/// Every column parameter is loaded, none twice, and there is one store.
pub open spec fn body_complete(f: ArrayFunction, s: BodyState) -> bool {
    &&& s.loads == count_set(s.loaded, s.loaded.len())
    &&& forall|i: int|
        #![trigger s.loaded[i]]
        0 <= i < s.loaded.len() && f.param_kinds@[i] == ArrayParamKind::Column ==> s.loaded[i]
    &&& s.stores == 1
}

/// The induction value that the entry block defines.
pub open spec fn entry_induction(f: ArrayFunction) -> Option<ArrayValue> {
    let insts = f.blocks@[0].insts@;
    if insts.len() == 1 {
        match insts[0] {
            ArrayInst::Induction { result, start, step } => if start == 0 && step > 0 {
                Some(result)
            } else {
                None
            },
            _ => None,
        }
    } else {
        None
    }
}

/// What is wrong with the loop around the scalar function.
pub open spec fn envelope(f: ArrayFunction) -> Result<(), ArrayError> {
    if f.blocks@.len() != 3 || f.entry != Block(0) {
        Err(ArrayError::LoopShape)
    } else if f.params@.len() != f.element.params@.len() || f.param_kinds@.len() != f.params@.len()
        || f.param_sources@.len() != f.params@.len() {
        Err(ArrayError::ParamMetadata)
    } else {
        match entry_induction(f) {
            None => Err(ArrayError::EntryInduction),
            Some(induction) => if f.blocks@[0].term != (ArrayTerminator::LoopIfLess {
                index: induction,
                bound: ArrayBound::InputLength,
                body: Block(1),
                exit: Block(2),
            }) {
                Err(ArrayError::EntryEdge)
            } else if f.blocks@[1].term != ArrayTerminator::Jump(Block(0)) {
                Err(ArrayError::BackEdge)
            } else if f.blocks@[2].term != ArrayTerminator::Return {
                Err(ArrayError::Exit)
            } else {
                match body_walk(f, induction, f.blocks@[1].insts@.len()) {
                    Err(e) => Err(e),
                    Ok(s) => if body_complete(f, s) {
                        Ok(())
                    } else {
                        Err(ArrayError::BodyCoverage)
                    },
                }
            },
        }
    }
}

/// The result of a check: the scalar function is looked at first.
pub open spec fn checked(f: ArrayFunction, r: Result<(), ArrayError>) -> bool {
    match r {
        Ok(_) => valid(f.element) && envelope(f) is Ok,
        Err(ArrayError::Element(e)) => !valid(f.element) && defect(f.element, e) && first_defect(
            f.element,
        ) == Some(e),
        Err(e) => valid(f.element) && envelope(f) == Err::<(), ArrayError>(e),
    }
}

fn count_columns(sources: &Vec<Option<u32>>) -> (r: u64)
    ensures
        r == column_count(sources@, sources@.len()),
{
    let mut most: u64 = 0;
    let mut i: usize = 0;
    while i < sources.len()
        invariant
            i <= sources@.len(),
            most == column_count(sources@, i as nat),
            most <= 0x1_0000_0000,
        decreases sources@.len() - i,
    {
        match sources[i] {
            Some(c) => {
                if c as u64 + 1 > most {
                    most = c as u64 + 1;
                }
            },
            None => {},
        }
        i += 1;
    }
    most
}

fn find_float_param(f: &Function, v: Value) -> (r: Option<u32>)
    ensures
        r == float_param(*f, v),
{
    if v.0 as usize >= f.insts.len() {
        return None;
    }
    match &f.insts[v.0 as usize] {
        Inst::Param { index, ty } => {
            if *ty == Ty::F64 {
                Some(*index)
            } else {
                None
            }
        },
        _ => None,
    }
}

fn fits_load(f: &ArrayFunction, param: u32, column: u32) -> (r: bool)
    ensures
        r == load_fits(*f, param, column),
{
    let p: usize = param as usize;
    p < f.params.len() && p < f.param_kinds.len() && f.param_kinds[p] == ArrayParamKind::Column
        && p < f.param_sources.len() && f.param_sources[p] == Some(column)
}

fn find_induction(f: &ArrayFunction) -> (r: Option<ArrayValue>)
    requires
        f.blocks@.len() > 0,
    ensures
        r == entry_induction(*f),
{
    let insts: &Vec<ArrayInst> = &f.blocks[0].insts;
    if insts.len() != 1 {
        return None;
    }
    match &insts[0] {
        ArrayInst::Induction { result, start, step } => {
            if *start == 0 && *step > 0 {
                Some(*result)
            } else {
                None
            }
        },
        _ => None,
    }
}

fn count_loaded(flags: &Vec<bool>) -> (r: usize)
    ensures
        r == count_set(flags@, flags@.len()),
{
    let mut count: usize = 0;
    let mut i: usize = 0;
    while i < flags.len()
        invariant
            i <= flags@.len(),
            count <= i,
            count == count_set(flags@, i as nat),
        decreases flags@.len() - i,
    {
        if flags[i] {
            count += 1;
        }
        i += 1;
    }
    count
}

fn loads_all(f: &ArrayFunction, loaded: &Vec<bool>) -> (r: bool)
    requires
        f.param_kinds@.len() == loaded@.len(),
    ensures
        r == (forall|i: int|
            #![trigger loaded@[i]]
            0 <= i < loaded@.len() && f.param_kinds@[i] == ArrayParamKind::Column ==> loaded@[i]),
{
    let mut i: usize = 0;
    while i < loaded.len()
        invariant
            i <= loaded@.len(),
            f.param_kinds@.len() == loaded@.len(),
            forall|j: int|
                #![trigger loaded@[j]]
                0 <= j < i && f.param_kinds@[j] == ArrayParamKind::Column ==> loaded@[j],
        decreases loaded@.len() - i,
    {
        if f.param_kinds[i] == ArrayParamKind::Column && !loaded[i] {
            return false;
        }
        i += 1;
    }
    true
}

proof fn lemma_walk_error(f: ArrayFunction, induction: ArrayValue, k: nat, e: ArrayError)
    requires
        k <= f.blocks@[1].insts@.len(),
        body_walk(f, induction, k) == Err::<BodyState, ArrayError>(e),
    ensures
        body_walk(f, induction, f.blocks@[1].insts@.len()) == Err::<BodyState, ArrayError>(e),
    decreases f.blocks@[1].insts@.len() - k,
{
    if k < f.blocks@[1].insts@.len() {
        lemma_walk_error(f, induction, k + 1, e);
    }
}

/// The errors of the body are not those of the scalar function.
proof fn lemma_walk_plain(f: ArrayFunction, induction: ArrayValue, k: nat)
    ensures
        body_walk(f, induction, k) matches Err(e) ==> !(e is Element),
    decreases k,
{
    if k > 0 {
        lemma_walk_plain(f, induction, (k - 1) as nat);
    }
}

struct Walked {
    loaded: Vec<bool>,
    loads: usize,
    stores: usize,
}

impl View for Walked {
    type V = BodyState;

    closed spec fn view(&self) -> BodyState {
        BodyState {
            loaded: self.loaded@,
            loads: self.loads as int,
            stores: self.stores as int,
        }
    }
}

fn walk_step(
    f: &ArrayFunction,
    columns: u64,
    induction: ArrayValue,
    inst: &ArrayInst,
    s: &mut Walked,
) -> (r: Result<(), ArrayError>)
    requires
        columns == column_count(f.param_sources@, f.param_sources@.len()),
        old(s).loaded@.len() == f.params@.len(),
        old(s).loads < usize::MAX,
        old(s).stores < usize::MAX,
    ensures
        match r {
            Ok(_) => body_step(*f, induction, *inst, old(s)@) == Ok::<BodyState, ArrayError>(
                final(s)@,
            ),
            Err(e) => body_step(*f, induction, *inst, old(s)@) == Err::<BodyState, ArrayError>(e),
        },
        final(s).loaded@.len() == f.params@.len(),
        final(s).loads <= old(s).loads + 1,
        final(s).stores <= old(s).stores + 1,
{
    match inst {
        ArrayInst::Load { result, column, index, .. } => {
            if *column as u64 >= columns {
                return Err(ArrayError::UnknownColumn);
            }
            let param: u32 = match find_float_param(&f.element, *result) {
                Some(param) => param,
                None => return Err(ArrayError::LoadMismatch),
            };
            if *index != induction || !fits_load(f, param, *column) {
                return Err(ArrayError::LoadMismatch);
            }
            s.loaded.set(param as usize, true);
            s.loads = s.loads + 1;
            Ok(())
        },
        ArrayInst::Store { output, index, value } => {
            if *output != f.output || *index != induction {
                return Err(ArrayError::StoreMismatch);
            }
            if value.0 as usize >= f.element.insts.len() {
                return Err(ArrayError::StoreUndefined);
            }
            s.stores = s.stores + 1;
            Ok(())
        },
        ArrayInst::Induction { .. } => Err(ArrayError::InductionInBody),
    }
}

fn walk_body(f: &ArrayFunction, induction: ArrayValue) -> (r: Result<Walked, ArrayError>)
    requires
        f.blocks@.len() == 3,
    ensures
        match r {
            Ok(s) => body_walk(*f, induction, f.blocks@[1].insts@.len()) == Ok::<
                BodyState,
                ArrayError,
            >(s@) && s.loaded@.len() == f.params@.len(),
            Err(e) => body_walk(*f, induction, f.blocks@[1].insts@.len()) == Err::<
                BodyState,
                ArrayError,
            >(e),
        },
{
    let columns: u64 = count_columns(&f.param_sources);
    let mut loaded: Vec<bool> = Vec::new();
    let n: usize = f.params.len();
    let mut i: usize = 0;
    while i < n
        invariant
            i <= n,
            loaded@.len() == i,
            forall|j: int| #![trigger loaded@[j]] 0 <= j < i ==> !loaded@[j],
        decreases n - i,
    {
        loaded.push(false);
        i += 1;
    }
    let mut s: Walked = Walked { loaded, loads: 0, stores: 0 };
    assert(s@ =~= BodyState { loaded: Seq::new(n as nat, |i: int| false), loads: 0, stores: 0 });
    let mut k: usize = 0;
    let count: usize = f.blocks[1].insts.len();
    while k < count
        invariant
            f.blocks@.len() == 3,
            count == f.blocks@[1].insts@.len(),
            k <= count,
            columns == column_count(f.param_sources@, f.param_sources@.len()),
            body_walk(*f, induction, k as nat) == Ok::<BodyState, ArrayError>(s@),
            s.loaded@.len() == f.params@.len(),
            s.loads <= k,
            s.stores <= k,
        decreases count - k,
    {
        match walk_step(f, columns, induction, &f.blocks[1].insts[k], &mut s) {
            Ok(_) => {},
            Err(e) => {
                proof {
                    lemma_walk_error(*f, induction, (k + 1) as nat, e);
                }
                return Err(e);
            },
        }
        k += 1;
    }
    Ok(s)
}

/// Checks the loop and its scalar function: edges that lead elsewhere, loads
/// that are missing or match no parameter, a store to something else, and
/// values that the scalar function does not define.
pub fn verify_array(function: &ArrayFunction) -> (r: Result<(), ArrayError>)
    requires
        function.element.blocks@.len() <= u32::MAX,
    ensures
        checked(*function, r),
{
    match verify(&function.element) {
        Ok(_) => {},
        Err(e) => return Err(ArrayError::Element(e)),
    }
    if function.blocks.len() != 3 || function.entry != Block(0) {
        return Err(ArrayError::LoopShape);
    }
    if function.params.len() != function.element.params.len() || function.param_kinds.len()
        != function.params.len() || function.param_sources.len() != function.params.len() {
        return Err(ArrayError::ParamMetadata);
    }
    let induction: ArrayValue = match find_induction(function) {
        Some(induction) => induction,
        None => return Err(ArrayError::EntryInduction),
    };
    let back: ArrayTerminator = ArrayTerminator::LoopIfLess {
        index: induction,
        bound: ArrayBound::InputLength,
        body: Block(1),
        exit: Block(2),
    };
    if function.blocks[0].term != back {
        return Err(ArrayError::EntryEdge);
    }
    if function.blocks[1].term != ArrayTerminator::Jump(Block(0)) {
        return Err(ArrayError::BackEdge);
    }
    if function.blocks[2].term != ArrayTerminator::Return {
        return Err(ArrayError::Exit);
    }
    proof {
        lemma_walk_plain(*function, induction, function.blocks@[1].insts@.len());
    }
    let s: Walked = match walk_body(function, induction) {
        Ok(s) => s,
        Err(e) => return Err(e),
    };
    if s.loads != count_loaded(&s.loaded) || !loads_all(function, &s.loaded) || s.stores != 1 {
        return Err(ArrayError::BodyCoverage);
    }
    Ok(())
}

// ---------------------------------------------------------------------------
// Vectorized programs

#[derive(Clone, Copy, Debug, PartialEq, Eq, Structural)]
pub enum ArrayTy {
    F64,
    I64,
    Bool,
    ArrayF64,
}

/// `output[index] = root`, for every row.
#[derive(Debug)]
pub struct TypedArray {
    pub root: Expr,
    pub params: Vec<(String, ArrayTy)>,
    pub output: String,
    pub index: String,
    pub indices: Vec<String>,
}

/// Every function that is called is known and gets the arguments it takes.
pub open spec fn well_called(e: Expr) -> bool
    decreases e, 0nat,
{
    match e.kind {
        ExprKind::Unary { operand, .. } => well_called(*operand),
        ExprKind::Binary { lhs, rhs, .. } => well_called(*lhs) && well_called(*rhs),
        ExprKind::Call { callee, args } => intrinsic_arity(callee@) == Some(args@.len())
            && all_called(args@, args@.len()),
        ExprKind::If { cond, then_, else_ } => well_called(*cond) && well_called(*then_)
            && well_called(*else_),
        ExprKind::Let { value, body, .. } => well_called(*value) && well_called(*body),
        _ => true,
    }
}

pub open spec fn all_called(args: Seq<Expr>, k: nat) -> bool
    decreases args, k,
{
    if k == 0 || k > args.len() {
        true
    } else {
        well_called(args[k - 1]) && all_called(args, (k - 1) as nat)
    }
}

/// A constant, which may be negated.
pub open spec fn constant_of(e: Expr) -> Option<i64>
    decreases e,
{
    match e.kind {
        ExprKind::Int(n) => Some(n),
        ExprKind::Unary { op: UnaryOp::Neg, operand } => match constant_of(*operand) {
            Some(n) => negated(n),
            None => None,
        },
        _ => None,
    }
}

pub open spec fn negated(n: i64) -> Option<i64> {
    if n == i64::MIN {
        None
    } else {
        Some((-n) as i64)
    }
}

pub open spec fn is_name(e: Expr, name: Seq<char>) -> bool {
    e.kind matches ExprKind::Ident(n) && n@ == name
}

/// How far an index is from the induction variable, if that is a constant.
pub open spec fn displacement(index: Expr, induction: Seq<char>) -> Option<i64> {
    if is_name(index, induction) {
        Some(0)
    } else {
        match index.kind {
            ExprKind::Binary { op: BinaryOp::Add, lhs, rhs } => if is_name(*lhs, induction) {
                constant_of(*rhs)
            } else if is_name(*rhs, induction) {
                constant_of(*lhs)
            } else {
                None
            },
            ExprKind::Binary { op: BinaryOp::Sub, lhs, rhs } => if is_name(*lhs, induction) {
                match constant_of(*rhs) {
                    Some(n) => negated(n),
                    None => None,
                }
            } else {
                None
            },
            _ => None,
        }
    }
}

/// A use of a column: its name and the offset.
pub open spec fn load_of(base: Expr, index: Expr, induction: Seq<char>) -> Result<
    (Seq<char>, i32),
    ArrayError,
> {
    match base.kind {
        ExprKind::Ident(name) => match displacement(index, induction) {
            Some(n) => if i32::MIN <= n <= i32::MAX {
                Ok((name@, n as i32))
            } else {
                Err(ArrayError::OffsetRange)
            },
            None => Err(ArrayError::LoadIndex),
        },
        _ => Err(ArrayError::LoadBase),
    }
}

/// One list of uses behind another.
pub open spec fn then_loads(
    a: Result<Seq<(Seq<char>, i32)>, ArrayError>,
    b: Result<Seq<(Seq<char>, i32)>, ArrayError>,
) -> Result<Seq<(Seq<char>, i32)>, ArrayError> {
    match a {
        Err(e) => Err(e),
        Ok(x) => match b {
            Err(e) => Err(e),
            Ok(y) => Ok(x + y),
        },
    }
}

/// The uses of columns, in order.
pub open spec fn loads_of(e: Expr, induction: Seq<char>) -> Result<
    Seq<(Seq<char>, i32)>,
    ArrayError,
>
    decreases e, 0nat,
{
    match e.kind {
        ExprKind::Index { base, index } => match load_of(*base, *index, induction) {
            Ok(l) => Ok(seq![l]),
            Err(e) => Err(e),
        },
        ExprKind::Unary { operand, .. } => loads_of(*operand, induction),
        ExprKind::Binary { lhs, rhs, .. } => then_loads(
            loads_of(*lhs, induction),
            loads_of(*rhs, induction),
        ),
        ExprKind::Call { args, .. } => all_loads(args@, induction, args@.len()),
        ExprKind::If { cond, then_, else_ } => then_loads(
            then_loads(loads_of(*cond, induction), loads_of(*then_, induction)),
            loads_of(*else_, induction),
        ),
        ExprKind::Let { value, body, .. } => then_loads(
            loads_of(*value, induction),
            loads_of(*body, induction),
        ),
        _ => Ok(Seq::empty()),
    }
}

pub open spec fn all_loads(args: Seq<Expr>, induction: Seq<char>, k: nat) -> Result<
    Seq<(Seq<char>, i32)>,
    ArrayError,
>
    decreases args, k,
{
    if k == 0 || k > args.len() {
        Ok(Seq::empty())
    } else {
        then_loads(
            all_loads(args, induction, (k - 1) as nat),
            loads_of(args[k - 1], induction),
        )
    }
}

/// The name of the parameter that stands for the `n`-th use of a column.
pub open spec fn synthetic(name: Seq<char>, n: nat) -> Seq<char> {
    name + "%array_load_"@ + digits(n)
}

/// How many columns the expression uses.
pub open spec fn load_count(e: Expr, induction: Seq<char>) -> nat {
    loads_of(e, induction)->Ok_0.len()
}

/// `t` is `e` with its uses of columns, counted from `n`, turned into
/// parameters.
pub open spec fn is_rewrite(e: Expr, t: Expr, induction: Seq<char>, n: nat) -> bool
    decreases e, 0nat,
{
    &&& t.ty == e.ty
    &&& t.span == e.span
    &&& match e.kind {
        ExprKind::Index { base, index } => {
            &&& load_of(*base, *index, induction) matches Ok((name, _))
            &&& t.kind matches ExprKind::Ident(m)
            &&& m@ == synthetic(name, n)
        },
        ExprKind::Unary { op, operand } => {
            &&& t.kind matches ExprKind::Unary { op: o, operand: x }
            &&& o == op
            &&& is_rewrite(*operand, *x, induction, n)
        },
        ExprKind::Binary { op, lhs, rhs } => {
            &&& t.kind matches ExprKind::Binary { op: o, lhs: x, rhs: y }
            &&& o == op
            &&& is_rewrite(*lhs, *x, induction, n)
            &&& is_rewrite(*rhs, *y, induction, n + load_count(*lhs, induction))
        },
        ExprKind::Call { callee, args } => {
            &&& t.kind matches ExprKind::Call { callee: c, args: ts }
            &&& c@ == callee@
            &&& ts@.len() == args@.len()
            &&& all_rewrites(args@, ts@, induction, n, args@.len())
        },
        ExprKind::If { cond, then_, else_ } => {
            let first = n + load_count(*cond, induction);
            let second = first + load_count(*then_, induction);
            &&& t.kind matches ExprKind::If { cond: x, then_: y, else_: z }
            &&& is_rewrite(*cond, *x, induction, n)
            &&& is_rewrite(*then_, *y, induction, first)
            &&& is_rewrite(*else_, *z, induction, second)
        },
        ExprKind::Let { name, value, body } => {
            &&& t.kind matches ExprKind::Let { name: m, value: x, body: y }
            &&& m@ == name@
            &&& is_rewrite(*value, *x, induction, n)
            &&& is_rewrite(*body, *y, induction, n + load_count(*value, induction))
        },
        ExprKind::Float(bits) => t.kind matches ExprKind::Float(b) && b == bits,
        ExprKind::Int(v) => t.kind matches ExprKind::Int(w) && w == v,
        ExprKind::Bool(v) => t.kind matches ExprKind::Bool(w) && w == v,
        ExprKind::Ident(name) => t.kind matches ExprKind::Ident(m) && m@ == name@,
    }
}

pub open spec fn all_rewrites(
    args: Seq<Expr>,
    ts: Seq<Expr>,
    induction: Seq<char>,
    n: nat,
    k: nat,
) -> bool
    decreases args, k,
{
    if k == 0 || k > args.len() {
        true
    } else {
        &&& all_rewrites(args, ts, induction, n, (k - 1) as nat)
        &&& is_rewrite(
            args[k - 1],
            ts[k - 1],
            induction,
            n + all_loads(args, induction, (k - 1) as nat)->Ok_0.len(),
        )
    }
}

// ---------------------------------------------------------------------------
// Rewriting uses of columns

fn negate(n: i64) -> (r: Option<i64>)
    ensures
        r == negated(n),
{
    if n == i64::MIN {
        None
    } else {
        Some(-n)
    }
}

fn constant_i64(e: &Expr) -> (r: Option<i64>)
    ensures
        r == constant_of(*e),
    decreases e,
{
    match &e.kind {
        ExprKind::Int(n) => Some(*n),
        ExprKind::Unary { op, operand } => {
            if *op != UnaryOp::Neg {
                return None;
            }
            match constant_i64(operand) {
                Some(n) => negate(n),
                None => None,
            }
        },
        _ => None,
    }
}

fn names(e: &Expr, name: &String) -> (r: bool)
    ensures
        r == is_name(*e, name@),
{
    match &e.kind {
        ExprKind::Ident(n) => *n == *name,
        _ => false,
    }
}

fn find_displacement(index: &Expr, induction: &String) -> (r: Option<i64>)
    ensures
        r == displacement(*index, induction@),
{
    if names(index, induction) {
        return Some(0);
    }
    match &index.kind {
        ExprKind::Binary { op, lhs, rhs } => {
            if *op == BinaryOp::Add {
                if names(lhs, induction) {
                    constant_i64(rhs)
                } else if names(rhs, induction) {
                    constant_i64(lhs)
                } else {
                    None
                }
            } else if *op == BinaryOp::Sub && names(lhs, induction) {
                match constant_i64(rhs) {
                    Some(n) => negate(n),
                    None => None,
                }
            } else {
                None
            }
        },
        _ => None,
    }
}

/// The offset of an index from the induction variable.
fn parse_index_offset(index: &Expr, induction: &String) -> (r: Result<i32, ArrayError>)
    ensures
        r == match displacement(*index, induction@) {
            Some(n) => if i32::MIN <= n <= i32::MAX {
                Ok::<i32, ArrayError>(n as i32)
            } else {
                Err(ArrayError::OffsetRange)
            },
            None => Err(ArrayError::LoadIndex),
        },
{
    match find_displacement(index, induction) {
        Some(n) => {
            if n >= i32::MIN as i64 && n <= i32::MAX as i64 {
                Ok(n as i32)
            } else {
                Err(ArrayError::OffsetRange)
            }
        },
        None => Err(ArrayError::LoadIndex),
    }
}

fn synthetic_name(name: &String, n: usize) -> (r: String)
    ensures
        r@ == synthetic(name@, n as nat),
{
    let mut r: String = name.clone();
    r.append("%array_load_");
    append_number(&mut r, n);
    r
}

/// `after` is `before` with the uses of columns `loads` behind it.
pub open spec fn extended(
    before: Seq<(String, i32, String)>,
    after: Seq<(String, i32, String)>,
    loads: Seq<(Seq<char>, i32)>,
) -> bool {
    let n = before.len();
    &&& after.len() == n + loads.len()
    &&& forall|i: int| #![trigger after[i]] 0 <= i < n ==> after[i] == before[i]
    &&& forall|i: int|
        #![trigger after[i]]
        n <= i < after.len() ==> after[i].0@ == loads[i - n].0 && after[i].1 == loads[i - n].1
            && after[i].2@ == synthetic(loads[i - n].0, i as nat)
}

proof fn lemma_extended_trans(
    a: Seq<(String, i32, String)>,
    b: Seq<(String, i32, String)>,
    c: Seq<(String, i32, String)>,
    x: Seq<(Seq<char>, i32)>,
    y: Seq<(Seq<char>, i32)>,
)
    requires
        extended(a, b, x),
        extended(b, c, y),
    ensures
        extended(a, c, x + y),
{
    let n = a.len();
    assert forall|i: int| #![trigger c[i]] 0 <= i < n implies c[i] == a[i] by {
        assert(b[i] == a[i]);
    }
    assert forall|i: int| #![trigger c[i]] n <= i < c.len() implies c[i].0@ == (x + y)[i - n].0
        && c[i].1 == (x + y)[i - n].1 && c[i].2@ == synthetic((x + y)[i - n].0, i as nat) by {
        if i < b.len() {
            assert(c[i] == b[i]);
            assert((x + y)[i - n] == x[i - n]);
        } else {
            assert((x + y)[i - n] == y[i - b.len()]);
        }
    }
}

/// Rewriting succeeded with `t`, or failed, and `loads` grew.
pub open spec fn rewritten(
    e: Expr,
    induction: Seq<char>,
    before: Seq<(String, i32, String)>,
    after: Seq<(String, i32, String)>,
    r: Result<Expr, ArrayError>,
) -> bool {
    match r {
        Ok(t) => {
            &&& loads_of(e, induction) matches Ok(loads)
            &&& is_rewrite(e, t, induction, before.len())
            &&& extended(before, after, loads)
        },
        Err(x) => loads_of(e, induction) == Err::<Seq<(Seq<char>, i32)>, ArrayError>(x),
    }
}

fn rewrite_index(
    e: &Expr,
    base: &Expr,
    index: &Expr,
    induction: &String,
    loads: &mut Vec<(String, i32, String)>,
) -> (r: Result<Expr, ArrayError>)
    requires
        e.kind matches ExprKind::Index { base: x, index: y } && *x == *base && *y == *index,
    ensures
        rewritten(*e, induction@, old(loads)@, final(loads)@, r),
{
    let ghost before = loads@;
    match &base.kind {
        ExprKind::Ident(name) => {
            let offset: i32 = match parse_index_offset(index, induction) {
                Ok(offset) => offset,
                Err(x) => return Err(x),
            };
            let made: String = synthetic_name(name, loads.len());
            loads.push((name.clone(), offset, made.clone()));
            let t: Expr = Expr { kind: ExprKind::Ident(made), ty: e.ty, span: e.span };
            assert(extended(before, loads@, seq![(name@, offset)]));
            Ok(t)
        },
        _ => Err(ArrayError::LoadBase),
    }
}

/// Turns every use of a column into a parameter of its own.
fn rewrite_indexed_loads(
    e: &Expr,
    induction: &String,
    loads: &mut Vec<(String, i32, String)>,
) -> (r: Result<Expr, ArrayError>)
    ensures
        rewritten(*e, induction@, old(loads)@, final(loads)@, r),
    decreases *e, 1nat,
{
    let ghost before = loads@;
    let kind: ExprKind = match &e.kind {
        ExprKind::Index { base, index } => {
            return rewrite_index(e, base, index, induction, loads);
        },
        ExprKind::Unary { op, operand } => match rewrite_indexed_loads(operand, induction, loads) {
            Ok(x) => ExprKind::Unary { op: *op, operand: Box::new(x) },
            Err(x) => return Err(x),
        },
        ExprKind::Binary { op, lhs, rhs } => {
            let x: Expr = match rewrite_indexed_loads(lhs, induction, loads) {
                Ok(x) => x,
                Err(x) => return Err(x),
            };
            let ghost mid = loads@;
            let y: Expr = match rewrite_indexed_loads(rhs, induction, loads) {
                Ok(y) => y,
                Err(x) => return Err(x),
            };
            proof {
                lemma_extended_trans(
                    before,
                    mid,
                    loads@,
                    loads_of(**lhs, induction@)->Ok_0,
                    loads_of(**rhs, induction@)->Ok_0,
                );
            }
            ExprKind::Binary { op: *op, lhs: Box::new(x), rhs: Box::new(y) }
        },
        ExprKind::Call { callee, args } => match rewrite_args(e, callee, args, induction, loads) {
            Ok(ts) => ExprKind::Call { callee: callee.clone(), args: ts },
            Err(x) => return Err(x),
        },
        ExprKind::If { cond, then_, else_ } => {
            let x: Expr = match rewrite_indexed_loads(cond, induction, loads) {
                Ok(x) => x,
                Err(x) => return Err(x),
            };
            let ghost first = loads@;
            let y: Expr = match rewrite_indexed_loads(then_, induction, loads) {
                Ok(y) => y,
                Err(x) => return Err(x),
            };
            let ghost second = loads@;
            let z: Expr = match rewrite_indexed_loads(else_, induction, loads) {
                Ok(z) => z,
                Err(x) => return Err(x),
            };
            proof {
                let a = loads_of(**cond, induction@)->Ok_0;
                let b = loads_of(**then_, induction@)->Ok_0;
                lemma_extended_trans(before, first, second, a, b);
                lemma_extended_trans(
                    before,
                    second,
                    loads@,
                    a + b,
                    loads_of(**else_, induction@)->Ok_0,
                );
            }
            ExprKind::If { cond: Box::new(x), then_: Box::new(y), else_: Box::new(z) }
        },
        ExprKind::Let { name, value, body } => {
            let x: Expr = match rewrite_indexed_loads(value, induction, loads) {
                Ok(x) => x,
                Err(x) => return Err(x),
            };
            let ghost mid = loads@;
            let y: Expr = match rewrite_indexed_loads(body, induction, loads) {
                Ok(y) => y,
                Err(x) => return Err(x),
            };
            proof {
                lemma_extended_trans(
                    before,
                    mid,
                    loads@,
                    loads_of(**value, induction@)->Ok_0,
                    loads_of(**body, induction@)->Ok_0,
                );
            }
            ExprKind::Let { name: name.clone(), value: Box::new(x), body: Box::new(y) }
        },
        ExprKind::Float(bits) => ExprKind::Float(*bits),
        ExprKind::Int(n) => ExprKind::Int(*n),
        ExprKind::Bool(v) => ExprKind::Bool(*v),
        ExprKind::Ident(name) => ExprKind::Ident(name.clone()),
    };
    Ok(Expr { kind, ty: e.ty, span: e.span })
}

proof fn lemma_all_loads_error(args: Seq<Expr>, induction: Seq<char>, k: nat, x: ArrayError)
    requires
        k <= args.len(),
        all_loads(args, induction, k) == Err::<Seq<(Seq<char>, i32)>, ArrayError>(x),
    ensures
        all_loads(args, induction, args.len()) == Err::<Seq<(Seq<char>, i32)>, ArrayError>(x),
    decreases args.len() - k,
{
    if k < args.len() {
        lemma_all_loads_error(args, induction, k + 1, x);
    }
}

proof fn lemma_rewrites_push(
    args: Seq<Expr>,
    ts: Seq<Expr>,
    t: Expr,
    induction: Seq<char>,
    n: nat,
    k: nat,
)
    requires
        k <= ts.len(),
        all_rewrites(args, ts, induction, n, k),
    ensures
        all_rewrites(args, ts.push(t), induction, n, k),
    decreases k,
{
    if k > 0 && k <= args.len() {
        lemma_rewrites_push(args, ts, t, induction, n, (k - 1) as nat);
        assert(ts.push(t)[k - 1] == ts[k - 1]);
    }
}

fn rewrite_args(
    e: &Expr,
    callee: &String,
    args: &Vec<Expr>,
    induction: &String,
    loads: &mut Vec<(String, i32, String)>,
) -> (r: Result<Vec<Expr>, ArrayError>)
    requires
        e.kind matches ExprKind::Call { callee: x, args: y } && x == *callee && y == *args,
    ensures
        match r {
            Ok(ts) => {
                &&& all_loads(args@, induction@, args@.len()) matches Ok(found)
                &&& ts@.len() == args@.len()
                &&& all_rewrites(args@, ts@, induction@, old(loads)@.len(), args@.len())
                &&& extended(old(loads)@, final(loads)@, found)
            },
            Err(x) => all_loads(args@, induction@, args@.len()) == Err::<
                Seq<(Seq<char>, i32)>,
                ArrayError,
            >(x),
        },
    decreases *e, 0nat,
{
    let ghost before = loads@;
    let mut ts: Vec<Expr> = Vec::new();
    let mut k: usize = 0;
    while k < args.len()
        invariant
            e.kind matches ExprKind::Call { callee: x, args: y } && x == *callee && y == *args,
            k <= args@.len(),
            before == old(loads)@,
            ts@.len() == k,
            all_loads(args@, induction@, k as nat) is Ok,
            all_rewrites(args@, ts@, induction@, before.len(), k as nat),
            extended(before, loads@, all_loads(args@, induction@, k as nat)->Ok_0),
        decreases args@.len() - k,
    {
        let ghost mid = loads@;
        let ghost sofar = all_loads(args@, induction@, k as nat)->Ok_0;
        let ghost old_ts = ts@;
        match rewrite_arg(e, args, k, induction, loads) {
            Ok(t) => {
                ts.push(t);
                proof {
                    lemma_extended_trans(
                        before,
                        mid,
                        loads@,
                        sofar,
                        loads_of(args@[k as int], induction@)->Ok_0,
                    );
                    lemma_rewrites_push(
                        args@,
                        old_ts,
                        t,
                        induction@,
                        before.len(),
                        k as nat,
                    );
                }
            },
            Err(x) => {
                proof {
                    lemma_all_loads_error(args@, induction@, (k + 1) as nat, x);
                }
                return Err(x);
            },
        }
        k += 1;
    }
    Ok(ts)
}

fn rewrite_arg(
    e: &Expr,
    args: &Vec<Expr>,
    k: usize,
    induction: &String,
    loads: &mut Vec<(String, i32, String)>,
) -> (r: Result<Expr, ArrayError>)
    requires
        e.kind matches ExprKind::Call { callee: x, args: y } && y == *args,
        k < args@.len(),
    ensures
        rewritten(args@[k as int], induction@, old(loads)@, final(loads)@, r),
    decreases args@, 0nat,
{
    rewrite_indexed_loads(&args[k], induction, loads)
}

// ---------------------------------------------------------------------------
// Lowering

/// A parameter of the scalar function, and the column it is loaded from.
pub struct ElementParam {
    pub name: Seq<char>,
    pub ty: Ty,
    pub source: Option<u32>,
}

/// The parameters for the uses, among the first `k`, of the column `name`.
pub open spec fn column_params(
    loads: Seq<(Seq<char>, i32)>,
    name: Seq<char>,
    column: u32,
    k: nat,
) -> Seq<ElementParam>
    decreases k,
{
    if k == 0 {
        Seq::empty()
    } else {
        let before = column_params(loads, name, column, (k - 1) as nat);
        if loads[k - 1].0 == name {
            before.push(
                ElementParam {
                    name: synthetic(name, (k - 1) as nat),
                    ty: Ty::F64,
                    source: Some(column),
                },
            )
        } else {
            before
        }
    }
}

pub open spec fn scalar_type(ty: ArrayTy) -> Ty {
    match ty {
        ArrayTy::I64 => Ty::I64,
        ArrayTy::Bool => Ty::Bool,
        _ => Ty::F64,
    }
}

/// The parameters of the scalar function that the first `n` parameters of the
/// program need: one for every use of a column.
pub open spec fn element_params(
    params: Seq<(String, ArrayTy)>,
    loads: Seq<(Seq<char>, i32)>,
    n: nat,
) -> Seq<ElementParam>
    decreases n,
{
    if n == 0 {
        Seq::empty()
    } else {
        let before = element_params(params, loads, (n - 1) as nat);
        let name = params[n - 1].0@;
        if params[n - 1].1 == ArrayTy::ArrayF64 {
            before + column_params(loads, name, (n - 1) as u32, loads.len())
        } else {
            before.push(
                ElementParam { name, ty: scalar_type(params[n - 1].1), source: None },
            )
        }
    }
}

/// The first parameter from `i` on that is a column of this name.
pub open spec fn first_column(params: Seq<(String, ArrayTy)>, name: Seq<char>, i: nat) -> Option<nat>
    decreases params.len() - i,
{
    if i >= params.len() {
        None
    } else if params[i as int].0@ == name && params[i as int].1 == ArrayTy::ArrayF64 {
        Some(i)
    } else {
        first_column(params, name, i + 1)
    }
}

pub open spec fn first_named(params: Seq<ElementParam>, name: Seq<char>, i: nat) -> Option<nat>
    decreases params.len() - i,
{
    if i >= params.len() {
        None
    } else if params[i as int].name == name {
        Some(i)
    } else {
        first_named(params, name, i + 1)
    }
}

/// The first instruction from `i` on that is this parameter.
pub open spec fn first_param(insts: Seq<InstModel>, param: nat, i: nat) -> Option<nat>
    decreases insts.len() - i,
{
    if i >= insts.len() {
        None
    } else if insts[i as int].op matches Op::Param(index, _) && index == param {
        Some(i)
    } else {
        first_param(insts, param, i + 1)
    }
}

/// What the first block from `i` on that returns does return.
pub open spec fn first_return(f: Ir, i: nat) -> Option<Value>
    decreases f.blocks.len() - i,
{
    if i >= f.blocks.len() {
        None
    } else {
        match f.blocks[i as int].term {
            Some(Terminator::Return(v)) => Some(v),
            _ => first_return(f, i + 1),
        }
    }
}

/// The load for the `j`-th use of a column.
pub open spec fn load_inst(
    params: Seq<(String, ArrayTy)>,
    elements: Seq<ElementParam>,
    loads: Seq<(Seq<char>, i32)>,
    f: Ir,
    j: int,
) -> Result<ArrayInst, ArrayError> {
    match first_column(params, loads[j].0, 0) {
        None => Err(ArrayError::MissingColumn),
        Some(column) => match first_named(elements, synthetic(loads[j].0, j as nat), 0) {
            None => Err(ArrayError::MissingParam { load: j as usize }),
            Some(param) => match first_param(f.insts, param, 0) {
                None => Err(ArrayError::MissingParam { load: j as usize }),
                Some(v) => Ok(
                    ArrayInst::Load {
                        result: Value(v as u32),
                        column: column as u32,
                        index: ArrayValue(0),
                        offset: loads[j].1,
                    },
                ),
            },
        },
    }
}

pub open spec fn load_insts(
    params: Seq<(String, ArrayTy)>,
    elements: Seq<ElementParam>,
    loads: Seq<(Seq<char>, i32)>,
    f: Ir,
    k: nat,
) -> Result<Seq<ArrayInst>, ArrayError>
    decreases k,
{
    if k == 0 {
        Ok(Seq::empty())
    } else {
        match load_insts(params, elements, loads, f, (k - 1) as nat) {
            Err(e) => Err(e),
            Ok(before) => match load_inst(params, elements, loads, f, k - 1) {
                Err(e) => Err(e),
                Ok(inst) => Ok(before.push(inst)),
            },
        }
    }
}

/// The loads of the body, and the value that is stored.
pub open spec fn body_of(
    params: Seq<(String, ArrayTy)>,
    elements: Seq<ElementParam>,
    loads: Seq<(Seq<char>, i32)>,
    f: Ir,
) -> Result<(Seq<ArrayInst>, Value), ArrayError> {
    match load_insts(params, elements, loads, f, loads.len()) {
        Err(e) => Err(e),
        Ok(insts) => match first_return(f, 0) {
            None => Err(ArrayError::NoReturn),
            Some(v) => Ok((insts, v)),
        },
    }
}

/// The scalar program: the expression with its columns turned into parameters.
pub open spec fn is_scalar(
    typed: TypedArray,
    loads: Seq<(Seq<char>, i32)>,
    ast: TypedAst,
) -> bool {
    let elements = element_params(typed.params@, loads, typed.params@.len());
    &&& is_rewrite(typed.root, ast.root, typed.index@, 0)
    &&& ast.params@.len() == elements.len()
    &&& forall|i: int|
        #![trigger ast.params@[i]]
        0 <= i < elements.len() ==> ast.params@[i].0@ == elements[i].name && ast.params@[i].1
            == elements[i].ty
}

/// The entry block of every loop.
pub open spec fn is_header(b: ArrayBlock) -> bool {
    &&& b.insts@ == seq![
        ArrayInst::Induction { result: ArrayValue(0), start: 0usize, step: 1usize },
    ]
    &&& b.term == (ArrayTerminator::LoopIfLess {
        index: ArrayValue(0),
        bound: ArrayBound::InputLength,
        body: Block(1),
        exit: Block(2),
    })
}

/// The loads, and then the store of `value`.
pub open spec fn is_body(b: ArrayBlock, loads: Seq<ArrayInst>, output: Seq<char>, value: Value) -> bool {
    &&& b.insts@.len() == loads.len() + 1
    &&& b.insts@.drop_last() == loads
    &&& b.insts@.last() matches ArrayInst::Store { output: o, index, value: v }
    &&& o@ == output
    &&& index == ArrayValue(0)
    &&& v == value
    &&& b.term == ArrayTerminator::Jump(Block(0))
}

/// The parameters are described one by one.
pub open spec fn describes(a: ArrayFunction, elements: Seq<ElementParam>) -> bool {
    &&& a.params@.len() == elements.len()
    &&& a.param_kinds@.len() == elements.len()
    &&& a.param_sources@.len() == elements.len()
    &&& forall|i: int|
        #![trigger a.params@[i]]
        0 <= i < elements.len() ==> a.params@[i].0@ == elements[i].name && a.params@[i].1 == Ty::F64
    &&& forall|i: int|
        #![trigger a.param_kinds@[i]]
        0 <= i < elements.len() ==> a.param_kinds@[i] == if elements[i].source is Some {
            ArrayParamKind::Column
        } else {
            ArrayParamKind::ScalarBroadcast
        }
    &&& forall|i: int|
        #![trigger a.param_sources@[i]]
        0 <= i < elements.len() ==> a.param_sources@[i] == elements[i].source
}

/// The loop of a program.
pub open spec fn is_loop(
    typed: TypedArray,
    elements: Seq<ElementParam>,
    f: Ir,
    loads: Seq<ArrayInst>,
    value: Value,
    a: ArrayFunction,
) -> bool {
    &&& ir_of(a.element) == f
    &&& describes(a, elements)
    &&& a.output@ == typed.output@
    &&& a.index@ == typed.index@
    &&& a.entry == Block(0)
    &&& a.blocks@.len() == 3
    &&& is_header(a.blocks@[0])
    &&& is_body(a.blocks@[1], loads, typed.output@, value)
    &&& a.blocks@[2].insts@.len() == 0
    &&& a.blocks@[2].term == ArrayTerminator::Return
}

pub open spec fn has_param_of(params: Seq<(String, ArrayTy)>, ty: ArrayTy) -> bool {
    exists|i: int| #![trigger params[i]] 0 <= i < params.len() && params[i].1 == ty
}

/// The loop was built, and checked.
pub open spec fn loop_checked(a: ArrayFunction, r: Result<ArrayFunction, ArrayError>) -> bool {
    match r {
        Ok(x) => x == a && valid(a.element) && envelope(a) is Ok,
        Err(e) => checked(a, Err(e)),
    }
}

/// What becomes of a program once its scalar part is known.
pub open spec fn outcome(
    typed: TypedArray,
    loads: Seq<(Seq<char>, i32)>,
    f: Ir,
    r: Result<ArrayFunction, ArrayError>,
) -> bool {
    let elements = element_params(typed.params@, loads, typed.params@.len());
    match body_of(typed.params@, elements, loads, f) {
        Err(e) => r == Err::<ArrayFunction, ArrayError>(e),
        Ok((insts, value)) => exists|a: ArrayFunction|
            #![trigger loop_checked(a, r)]
            is_loop(typed, elements, f, insts, value, a) && loop_checked(a, r),
    }
}

/// What lowering a program gives. A refusal says what is wrong with the
/// program, with the scalar function, or with the loop.
pub open spec fn lowers_to(typed: TypedArray, r: Result<ArrayFunction, ArrayError>) -> bool {
    if typed.indices@.len() != 1 {
        r matches Err(ArrayError::Nested)
    } else if has_param_of(typed.params@, ArrayTy::I64) {
        r matches Err(ArrayError::DynamicOffsets)
    } else {
        match loads_of(typed.root, typed.index@) {
            Err(e) => r == Err::<ArrayFunction, ArrayError>(e),
            Ok(loads) => exists|ast: TypedAst|
                #![trigger is_scalar(typed, loads, ast)]
                is_scalar(typed, loads, ast) && outcome(typed, loads, lowered_function(ast), r),
        }
    }
}

/// The instructions of the scalar function fit its tables.
pub open spec fn array_fits(typed: TypedArray) -> bool {
    loads_of(typed.root, typed.index@) matches Ok(loads) ==> {
        let limit = 1 + 3 * crate::lower::ifs(typed.root);
        let count = element_params(typed.params@, loads, typed.params@.len()).len();
        &&& limit <= u32::MAX
        &&& typed.params@.len() <= u32::MAX
        &&& count + nodes(typed.root) * (limit + 3) <= u32::MAX
    }
}

/// Rewriting makes no expression larger, and leaves no column.
proof fn lemma_rewrite_small(e: Expr, t: Expr, induction: Seq<char>, n: nat)
    requires
        is_rewrite(e, t, induction, n),
        well_called(e),
    ensures
        lowerable(t),
        nodes(t) <= nodes(e),
        crate::lower::ifs(t) <= crate::lower::ifs(e),
    decreases e, 0nat,
{
    match e.kind {
        ExprKind::Unary { operand, .. } => {
            lemma_rewrite_small(*operand, *t.kind->Unary_operand, induction, n);
        },
        ExprKind::Binary { lhs, rhs, .. } => {
            lemma_rewrite_small(*lhs, *t.kind->Binary_lhs, induction, n);
            lemma_rewrite_small(
                *rhs,
                *t.kind->Binary_rhs,
                induction,
                n + load_count(*lhs, induction),
            );
        },
        ExprKind::Call { args, .. } => {
            lemma_rewrites_small(args@, t.kind->Call_args@, induction, n, args@.len());
        },
        ExprKind::If { cond, then_, else_ } => {
            let first = n + load_count(*cond, induction);
            let second = first + load_count(*then_, induction);
            lemma_rewrite_small(*cond, *t.kind->If_cond, induction, n);
            lemma_rewrite_small(*then_, *t.kind->If_then_, induction, first);
            lemma_rewrite_small(*else_, *t.kind->If_else_, induction, second);
        },
        ExprKind::Let { value, body, .. } => {
            lemma_rewrite_small(*value, *t.kind->Let_value, induction, n);
            lemma_rewrite_small(
                *body,
                *t.kind->Let_body,
                induction,
                n + load_count(*value, induction),
            );
        },
        _ => {},
    }
}

proof fn lemma_rewrites_small(
    args: Seq<Expr>,
    ts: Seq<Expr>,
    induction: Seq<char>,
    n: nat,
    k: nat,
)
    requires
        k <= args.len(),
        args.len() == ts.len(),
        all_rewrites(args, ts, induction, n, k),
        all_called(args, k),
    ensures
        crate::lower::all_lowerable(ts, k),
        crate::lower::all_nodes(ts, k) <= crate::lower::all_nodes(args, k),
        crate::lower::all_ifs(ts, k) <= crate::lower::all_ifs(args, k),
    decreases args, k,
{
    if k > 0 {
        lemma_rewrites_small(args, ts, induction, n, (k - 1) as nat);
        lemma_rewrite_small(
            args[k - 1],
            ts[k - 1],
            induction,
            n + all_loads(args, induction, (k - 1) as nat)->Ok_0.len(),
        );
    }
}

/// The uses of columns, as plain values.
spec fn load_views(list: Seq<(String, i32, String)>) -> Seq<(Seq<char>, i32)> {
    Seq::new(list.len(), |i: int| (list[i].0@, list[i].1))
}

struct Elements {
    params: Vec<(String, Ty)>,
    sources: Vec<Option<u32>>,
}

impl Elements {
    spec fn holds(&self, expected: Seq<ElementParam>) -> bool {
        &&& self.params@.len() == expected.len()
        &&& self.sources@.len() == expected.len()
        &&& forall|i: int|
            #![trigger self.params@[i]]
            0 <= i < expected.len() ==> self.params@[i].0@ == expected[i].name && self.params@[i].1
                == expected[i].ty
        &&& forall|i: int|
            #![trigger self.sources@[i]]
            0 <= i < expected.len() ==> self.sources@[i] == expected[i].source
    }

    fn add(&mut self, name: String, ty: Ty, source: Option<u32>, Ghost(before): Ghost<
        Seq<ElementParam>,
    >)
        requires
            old(self).holds(before),
        ensures
            final(self).holds(before.push(ElementParam { name: name@, ty, source })),
    {
        self.params.push((name, ty));
        self.sources.push(source);
    }
}

fn collect_column(
    out: &mut Elements,
    list: &Vec<(String, i32, String)>,
    name: &String,
    column: u32,
    Ghost(before): Ghost<Seq<ElementParam>>,
)
    requires
        old(out).holds(before),
        forall|i: int|
            #![trigger list@[i]]
            0 <= i < list@.len() ==> list@[i].2@ == synthetic(list@[i].0@, i as nat),
    ensures
        final(out).holds(
            before + column_params(load_views(list@), name@, column, list@.len()),
        ),
{
    let ghost loads = load_views(list@);
    let mut k: usize = 0;
    assert(before + column_params(loads, name@, column, 0) =~= before);
    while k < list.len()
        invariant
            k <= list@.len(),
            loads == load_views(list@),
            forall|i: int|
                #![trigger list@[i]]
                0 <= i < list@.len() ==> list@[i].2@ == synthetic(list@[i].0@, i as nat),
            out.holds(before + column_params(loads, name@, column, k as nat)),
        decreases list@.len() - k,
    {
        let ghost sofar = before + column_params(loads, name@, column, k as nat);
        if list[k].0 == *name {
            let made: String = list[k].2.clone();
            let ghost next = ElementParam { name: made@, ty: Ty::F64, source: Some(column) };
            out.add(made, Ty::F64, Some(column), Ghost(sofar));
            assert(sofar.push(next) =~= before + column_params(
                loads,
                name@,
                column,
                (k + 1) as nat,
            ));
        } else {
            assert(sofar =~= before + column_params(loads, name@, column, (k + 1) as nat));
        }
        k += 1;
    }
}

fn collect_elements(
    params: &Vec<(String, ArrayTy)>,
    list: &Vec<(String, i32, String)>,
) -> (r: Elements)
    requires
        params@.len() <= u32::MAX,
        forall|i: int|
            #![trigger list@[i]]
            0 <= i < list@.len() ==> list@[i].2@ == synthetic(list@[i].0@, i as nat),
    ensures
        r.holds(element_params(params@, load_views(list@), params@.len())),
{
    let ghost loads = load_views(list@);
    let mut out: Elements = Elements { params: Vec::new(), sources: Vec::new() };
    let mut n: usize = 0;
    while n < params.len()
        invariant
            n <= params@.len(),
            params@.len() <= u32::MAX,
            loads == load_views(list@),
            forall|i: int|
                #![trigger list@[i]]
                0 <= i < list@.len() ==> list@[i].2@ == synthetic(list@[i].0@, i as nat),
            out.holds(element_params(params@, loads, n as nat)),
        decreases params@.len() - n,
    {
        let ghost before = element_params(params@, loads, n as nat);
        if params[n].1 == ArrayTy::ArrayF64 {
            collect_column(&mut out, list, &params[n].0, n as u32, Ghost(before));
        } else {
            let ty: Ty = match params[n].1 {
                ArrayTy::I64 => Ty::I64,
                ArrayTy::Bool => Ty::Bool,
                _ => Ty::F64,
            };
            out.add(params[n].0.clone(), ty, None, Ghost(before));
        }
        n += 1;
    }
    out
}

fn has_param(params: &Vec<(String, ArrayTy)>, ty: ArrayTy) -> (r: bool)
    ensures
        r == has_param_of(params@, ty),
{
    let mut i: usize = 0;
    while i < params.len()
        invariant
            i <= params@.len(),
            forall|j: int| #![trigger params@[j]] 0 <= j < i ==> params@[j].1 != ty,
        decreases params@.len() - i,
    {
        if params[i].1 == ty {
            return true;
        }
        i += 1;
    }
    false
}

fn find_column(params: &Vec<(String, ArrayTy)>, name: &String) -> (r: Option<usize>)
    ensures
        match r {
            Some(i) => first_column(params@, name@, 0) == Some(i as nat) && i < params@.len(),
            None => first_column(params@, name@, 0) is None,
        },
{
    let mut i: usize = 0;
    while i < params.len()
        invariant
            i <= params@.len(),
            first_column(params@, name@, 0) == first_column(params@, name@, i as nat),
        decreases params@.len() - i,
    {
        if params[i].0 == *name && params[i].1 == ArrayTy::ArrayF64 {
            return Some(i);
        }
        i += 1;
    }
    None
}

fn find_named(
    params: &Vec<(String, Ty)>,
    name: &String,
    Ghost(expected): Ghost<Seq<ElementParam>>,
) -> (r: Option<usize>)
    requires
        params@.len() == expected.len(),
        forall|i: int|
            #![trigger params@[i]]
            0 <= i < expected.len() ==> params@[i].0@ == expected[i].name,
    ensures
        match r {
            Some(i) => first_named(expected, name@, 0) == Some(i as nat) && i < params@.len(),
            None => first_named(expected, name@, 0) is None,
        },
{
    let mut i: usize = 0;
    while i < params.len()
        invariant
            i <= params@.len(),
            params@.len() == expected.len(),
            forall|j: int|
                #![trigger params@[j]]
                0 <= j < expected.len() ==> params@[j].0@ == expected[j].name,
            first_named(expected, name@, 0) == first_named(expected, name@, i as nat),
        decreases params@.len() - i,
    {
        assert(params@[i as int].0@ == expected[i as int].name);
        if params[i].0 == *name {
            return Some(i);
        }
        i += 1;
    }
    None
}

fn find_param(f: &Function, param: usize) -> (r: Option<usize>)
    ensures
        match r {
            Some(i) => first_param(ir_of(*f).insts, param as nat, 0) == Some(i as nat) && i
                < f.insts@.len(),
            None => first_param(ir_of(*f).insts, param as nat, 0) is None,
        },
{
    let mut i: usize = 0;
    let ghost insts = ir_of(*f).insts;
    while i < f.insts.len()
        invariant
            i <= f.insts@.len(),
            insts == ir_of(*f).insts,
            first_param(insts, param as nat, 0) == first_param(insts, param as nat, i as nat),
        decreases f.insts@.len() - i,
    {
        assert(insts[i as int] == f.insts@[i as int]@);
        match &f.insts[i] {
            Inst::Param { index, .. } => {
                if *index as usize == param {
                    return Some(i);
                }
            },
            _ => {},
        }
        i += 1;
    }
    None
}

fn find_return(f: &Function) -> (r: Option<Value>)
    ensures
        r == first_return(ir_of(*f), 0),
{
    let mut i: usize = 0;
    let ghost ir = ir_of(*f);
    while i < f.blocks.len()
        invariant
            i <= f.blocks@.len(),
            ir == ir_of(*f),
            first_return(ir, 0) == first_return(ir, i as nat),
        decreases f.blocks@.len() - i,
    {
        assert(ir.blocks[i as int].term == f.term(i as int));
        match f.blocks[i].term {
            Some(Terminator::Return(v)) => return Some(v),
            _ => {},
        }
        i += 1;
    }
    None
}

proof fn lemma_loads_error(
    params: Seq<(String, ArrayTy)>,
    elements: Seq<ElementParam>,
    loads: Seq<(Seq<char>, i32)>,
    f: Ir,
    k: nat,
    e: ArrayError,
)
    requires
        k <= loads.len(),
        load_insts(params, elements, loads, f, k) == Err::<Seq<ArrayInst>, ArrayError>(e),
    ensures
        load_insts(params, elements, loads, f, loads.len()) == Err::<Seq<ArrayInst>, ArrayError>(e),
    decreases loads.len() - k,
{
    if k < loads.len() {
        lemma_loads_error(params, elements, loads, f, k + 1, e);
    }
}

fn make_loads(
    params: &Vec<(String, ArrayTy)>,
    elements: &Elements,
    list: &Vec<(String, i32, String)>,
    f: &Function,
    Ghost(expected): Ghost<Seq<ElementParam>>,
) -> (r: Result<Vec<ArrayInst>, ArrayError>)
    requires
        elements.holds(expected),
        f.insts@.len() <= u32::MAX,
        params@.len() <= u32::MAX,
        forall|i: int|
            #![trigger list@[i]]
            0 <= i < list@.len() ==> list@[i].2@ == synthetic(list@[i].0@, i as nat),
    ensures
        match r {
            Ok(insts) => load_insts(
                params@,
                expected,
                load_views(list@),
                ir_of(*f),
                list@.len(),
            ) == Ok::<Seq<ArrayInst>, ArrayError>(insts@),
            Err(e) => load_insts(
                params@,
                expected,
                load_views(list@),
                ir_of(*f),
                list@.len(),
            ) == Err::<Seq<ArrayInst>, ArrayError>(e),
        },
{
    let ghost loads = load_views(list@);
    let ghost ir = ir_of(*f);
    let mut insts: Vec<ArrayInst> = Vec::new();
    assert(insts@ =~= Seq::empty());
    let mut k: usize = 0;
    while k < list.len()
        invariant
            k <= list@.len(),
            elements.holds(expected),
            f.insts@.len() <= u32::MAX,
            params@.len() <= u32::MAX,
            forall|i: int|
                #![trigger list@[i]]
                0 <= i < list@.len() ==> list@[i].2@ == synthetic(list@[i].0@, i as nat),
            loads == load_views(list@),
            ir == ir_of(*f),
            load_insts(params@, expected, loads, ir, k as nat) == Ok::<
                Seq<ArrayInst>,
                ArrayError,
            >(insts@),
        decreases list@.len() - k,
    {
        assert(loads[k as int].0 == list@[k as int].0@);
        let made: Result<ArrayInst, ArrayError> = match find_column(params, &list[k].0) {
            None => Err(ArrayError::MissingColumn),
            Some(column) => match find_named(&elements.params, &list[k].2, Ghost(expected)) {
                None => Err(ArrayError::MissingParam { load: k }),
                Some(param) => match find_param(f, param) {
                    None => Err(ArrayError::MissingParam { load: k }),
                    Some(v) => Ok(
                        ArrayInst::Load {
                            result: Value(v as u32),
                            column: column as u32,
                            index: ArrayValue(0),
                            offset: list[k].1,
                        },
                    ),
                },
            },
        };
        match made {
            Ok(inst) => insts.push(inst),
            Err(e) => {
                proof {
                    lemma_loads_error(params@, expected, loads, ir, (k + 1) as nat, e);
                }
                return Err(e);
            },
        }
        k += 1;
    }
    Ok(insts)
}

/// Builds the loop around the scalar function.
fn make_loop(
    typed: &TypedArray,
    element: Function,
    elements: Elements,
    loads: Vec<ArrayInst>,
    value: Value,
    Ghost(expected): Ghost<Seq<ElementParam>>,
) -> (a: ArrayFunction)
    requires
        elements.holds(expected),
    ensures
        is_loop(*typed, expected, ir_of(element), loads@, value, a),
        a.element == element,
{
    let mut kinds: Vec<ArrayParamKind> = Vec::new();
    let mut params: Vec<(String, Ty)> = Vec::new();
    let mut i: usize = 0;
    while i < elements.sources.len()
        invariant
            i <= elements.sources@.len(),
            elements.holds(expected),
            kinds@.len() == i,
            params@.len() == i,
            forall|j: int|
                #![trigger kinds@[j]]
                0 <= j < i ==> kinds@[j] == if expected[j].source is Some {
                    ArrayParamKind::Column
                } else {
                    ArrayParamKind::ScalarBroadcast
                },
            forall|j: int|
                #![trigger params@[j]]
                0 <= j < i ==> params@[j].0@ == expected[j].name && params@[j].1 == Ty::F64,
        decreases elements.sources@.len() - i,
    {
        assert(elements.sources@[i as int] == expected[i as int].source);
        assert(elements.params@[i as int].0@ == expected[i as int].name);
        kinds.push(
            if elements.sources[i].is_some() {
                ArrayParamKind::Column
            } else {
                ArrayParamKind::ScalarBroadcast
            },
        );
        params.push((elements.params[i].0.clone(), Ty::F64));
        i += 1;
    }
    let induction: ArrayValue = ArrayValue(0);
    let mut header: Vec<ArrayInst> = Vec::new();
    header.push(ArrayInst::Induction { result: induction, start: 0, step: 1 });
    let mut body: Vec<ArrayInst> = loads;
    body.push(ArrayInst::Store { output: typed.output.clone(), index: induction, value });
    assert(body@.drop_last() =~= loads@);
    let first: ArrayBlock = ArrayBlock {
        insts: header,
        term: ArrayTerminator::LoopIfLess {
            index: induction,
            bound: ArrayBound::InputLength,
            body: Block(1),
            exit: Block(2),
        },
    };
    assert(first.insts@ =~= seq![
        ArrayInst::Induction { result: ArrayValue(0), start: 0usize, step: 1usize },
    ]);
    let mut blocks: Vec<ArrayBlock> = Vec::new();
    blocks.push(first);
    blocks.push(ArrayBlock { insts: body, term: ArrayTerminator::Jump(Block(0)) });
    blocks.push(ArrayBlock { insts: Vec::new(), term: ArrayTerminator::Return });
    ArrayFunction {
        element,
        params,
        param_kinds: kinds,
        param_sources: elements.sources,
        output: typed.output.clone(),
        index: typed.index.clone(),
        blocks,
        entry: Block(0),
    }
}

/// Lowers a vectorized program to a scalar function and the loop around it. A
/// column may be used at a constant distance from the induction variable. A
/// double that is not indexed is the same in all rows.
pub fn lower_array(typed: &TypedArray) -> (r: Result<ArrayFunction, ArrayError>)
    requires
        well_called(typed.root),
        array_fits(*typed),
        !has_param_of(typed.params@, ArrayTy::Bool),
    ensures
        lowers_to(*typed, r),
{
    if typed.indices.len() != 1 {
        return Err(ArrayError::Nested);
    }
    if has_param(&typed.params, ArrayTy::I64) {
        return Err(ArrayError::DynamicOffsets);
    }
    let mut list: Vec<(String, i32, String)> = Vec::new();
    let root: Expr = match rewrite_indexed_loads(&typed.root, &typed.index, &mut list) {
        Ok(root) => root,
        Err(e) => return Err(e),
    };
    let ghost loads = loads_of(typed.root, typed.index@)->Ok_0;
    let ghost expected = element_params(typed.params@, loads, typed.params@.len());
    proof {
        assert(load_views(list@) =~= loads);
        lemma_rewrite_small(typed.root, root, typed.index@, 0);
    }
    let elements: Elements = collect_elements(&typed.params, &list);
    let copied: Vec<(String, Ty)> = copy_params(&elements.params);
    let ast: TypedAst = TypedAst { root, params: copied };
    proof {
        assert(is_scalar(*typed, loads, ast));
        let a = crate::lower::ifs(root);
        let b = crate::lower::ifs(typed.root);
        assert(nodes(root) * (1 + 3 * a + 3) <= nodes(typed.root) * (1 + 3 * b + 3))
            by (nonlinear_arith)
            requires
                nodes(root) <= nodes(typed.root),
                a <= b,
        ;
        assert(small_enough(ast));
    }
    let element: Function = lower(&ast);
    let ghost ir = lowered_function(ast);
    let insts: Vec<ArrayInst> = match make_loads(
        &typed.params,
        &elements,
        &list,
        &element,
        Ghost(expected),
    ) {
        Ok(insts) => insts,
        Err(e) => return Err(e),
    };
    let value: Value = match find_return(&element) {
        Some(value) => value,
        None => return Err(ArrayError::NoReturn),
    };
    let a: ArrayFunction = make_loop(typed, element, elements, insts, value, Ghost(expected));
    proof {
        assert(body_of(typed.params@, expected, loads, ir) == Ok::<
            (Seq<ArrayInst>, Value),
            ArrayError,
        >((insts@, value)));
        assert(is_loop(*typed, expected, ir, insts@, value, a));
        assert(is_scalar(*typed, loads, ast));
    }
    let r: Result<ArrayFunction, ArrayError> = match verify_array(&a) {
        Ok(_) => Ok(a),
        Err(e) => Err(e),
    };
    assert(loop_checked(a, r));
    assert(outcome(*typed, loads, ir, r));
    r
}

fn copy_params(params: &Vec<(String, Ty)>) -> (r: Vec<(String, Ty)>)
    ensures
        r@.len() == params@.len(),
        forall|i: int|
            #![trigger r@[i]]
            0 <= i < r@.len() ==> r@[i].0@ == params@[i].0@ && r@[i].1 == params@[i].1,
{
    let mut r: Vec<(String, Ty)> = Vec::new();
    let mut i: usize = 0;
    while i < params.len()
        invariant
            i <= params@.len(),
            r@.len() == i,
            forall|j: int|
                #![trigger r@[j]]
                0 <= j < i ==> r@[j].0@ == params@[j].0@ && r@[j].1 == params@[j].1,
        decreases params@.len() - i,
    {
        r.push((params[i].0.clone(), params[i].1));
        i += 1;
    }
    r
}

} // verus!
