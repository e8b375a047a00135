//! Structural and dominance validation for the SSA IR.
//!
//! The verifier is deliberately defensive because optimized IR can be built
//! by more than the builder. It therefore validates indices, placement, CFG
//! edges, same-block ordering, operand types, and dominance before any helper
//! that assumes a well-formed graph is called.
use crate::collections::{BlockList, EdgeList};
use crate::dominance::{compute_dominators, dominates};
use crate::dominance::{
    cfg_ok, climbs_down, dom, edge, is_dominator_tree, lemma_tree_climbs, lemma_tree_decides,
    preds_match,
};
use crate::ir::{
    uses_of, Block, BlockData, CmpOp, Function, Inst, InstModel, LibFunc, Op, Terminator, Ty, Value,
};
use crate::report::spelled;
use crate::report::{spell, Piece};
use vstd::prelude::*;

verus! {

/// Which type of an instruction is wrong.
#[derive(Clone, Copy, PartialEq, Eq, Debug, Structural)]
pub enum Part {
    Operand,
    Result,
}

/// What is wrong with a function.
#[derive(Clone, Copy, PartialEq, Eq, Debug, Structural)]
pub enum VerifyError {
    NoBlocks,
    EntryOutOfRange { entry: Block },
    TypeTableLength { insts: usize, types: usize },
    SpanTableLength { insts: usize, spans: usize },
    ValueOutsideTable { block: Block, value: Value },
    ListedTwice { value: Value, first: Block, second: Block },
    PredOutsideTable { block: Block, pred: Block },
    NoTerminator { block: Block },
    TargetOutsideTable { block: Block, target: Block },
    PredecessorMismatch { block: Block },
    UndefinedOperand { value: Value, operand: Value },
    WrongType { value: Value, part: Part, actual: Ty, expected: Ty },
    ParamOutsideTable { value: Value, index: u32 },
    ParamTypeMismatch { value: Value, ty: Ty, declared: Ty },
    MismatchedOperands { value: Value, lhs: Ty, rhs: Ty },
    BitwiseOperands { value: Value },
    ArithmeticOperands { value: Value },
    NegationOperand { value: Value },
    NotOperand { value: Value },
    ComparisonOperands { value: Value },
    OrderedBool { value: Value },
    IntrinsicArguments { value: Value },
    UndefinedUse { value: Value },
    PhiOperandNotDominating { value: Value, def_block: Block, pred: Block },
    UseNotDominated { value: Value, def_block: Block, block: Block },
    UsedBeforeDefinition { value: Value, block: Block },
    UndefinedReturn { value: Value },
    ReturnNotDominated { value: Value, block: Block },
    UndefinedCondition { value: Value },
    ConditionNotDominated { value: Value, block: Block },
    PhiArity { value: Value, block: Block, operands: usize, preds: usize },
}

impl VerifyError {
    /// What the error says, piece by piece.
    pub open spec fn pieces(self) -> Seq<Piece> {
        match self {
            VerifyError::NoBlocks => seq![Piece::Text("function has no blocks")],
            VerifyError::EntryOutOfRange { entry } => seq![
                Piece::Text("function entry block "),
                Piece::Block(entry),
                Piece::Text(" is out of range"),
            ],
            VerifyError::TypeTableLength { insts, types } => seq![
                Piece::Text("instruction/type table length mismatch: "),
                Piece::Number(insts),
                Piece::Text(" instruction(s), "),
                Piece::Number(types),
                Piece::Text(" type(s)"),
            ],
            VerifyError::SpanTableLength { insts, spans } => seq![
                Piece::Text("instruction/span table length mismatch: "),
                Piece::Number(insts),
                Piece::Text(" instruction(s), "),
                Piece::Number(spans),
                Piece::Text(" span(s)"),
            ],
            VerifyError::ValueOutsideTable { block, value } => seq![
                Piece::Text("block "),
                Piece::Block(block),
                Piece::Text(" references instruction value "),
                Piece::Value(value),
                Piece::Text(" outside the instruction table"),
            ],
            VerifyError::ListedTwice { value, first, second } => seq![
                Piece::Text("instruction value "),
                Piece::Value(value),
                Piece::Text(" is listed in both "),
                Piece::Block(first),
                Piece::Text(" and "),
                Piece::Block(second),
            ],
            VerifyError::PredOutsideTable { block, pred } => seq![
                Piece::Text("block "),
                Piece::Block(block),
                Piece::Text(" lists predecessor "),
                Piece::Block(pred),
                Piece::Text(" outside the block table"),
            ],
            VerifyError::NoTerminator { block } => seq![
                Piece::Text("block "),
                Piece::Block(block),
                Piece::Text(" has no terminator"),
            ],
            VerifyError::TargetOutsideTable { block, target } => seq![
                Piece::Text("terminator in "),
                Piece::Block(block),
                Piece::Text(" targets block "),
                Piece::Block(target),
                Piece::Text(" outside the block table"),
            ],
            VerifyError::PredecessorMismatch { block } => seq![
                Piece::Text("predecessor list for "),
                Piece::Block(block),
                Piece::Text(" differs from what the terminators provide"),
            ],
            VerifyError::UndefinedOperand { value, operand } => seq![
                Piece::Text("instruction "),
                Piece::Value(value),
                Piece::Text(" uses undefined value "),
                Piece::Value(operand),
            ],
            VerifyError::WrongType { value, part: Part::Operand, actual, expected } => seq![
                Piece::Text("instruction "),
                Piece::Value(value),
                Piece::Text(" has operand type "),
                Piece::Type(actual),
                Piece::Text(", expected "),
                Piece::Type(expected),
            ],
            VerifyError::WrongType { value, part: Part::Result, actual, expected } => seq![
                Piece::Text("instruction "),
                Piece::Value(value),
                Piece::Text(" has result type "),
                Piece::Type(actual),
                Piece::Text(", expected "),
                Piece::Type(expected),
            ],
            VerifyError::ParamOutsideTable { value, index } => seq![
                Piece::Text("instruction "),
                Piece::Value(value),
                Piece::Text(" refers to parameter index "),
                Piece::Number(index as usize),
                Piece::Text(" outside the parameter table"),
            ],
            VerifyError::ParamTypeMismatch { value, ty, declared } => seq![
                Piece::Text("instruction "),
                Piece::Value(value),
                Piece::Text(" declares parameter type "),
                Piece::Type(ty),
                Piece::Text(", but parameter table uses "),
                Piece::Type(declared),
            ],
            VerifyError::MismatchedOperands { value, lhs, rhs } => seq![
                Piece::Text("instruction "),
                Piece::Value(value),
                Piece::Text(" has mismatched operand types "),
                Piece::Type(lhs),
                Piece::Text(" and "),
                Piece::Type(rhs),
            ],
            VerifyError::BitwiseOperands { value } => seq![
                Piece::Text("instruction "),
                Piece::Value(value),
                Piece::Text(" bitwise operands must be bool or i64"),
            ],
            VerifyError::ArithmeticOperands { value } => seq![
                Piece::Text("instruction "),
                Piece::Value(value),
                Piece::Text(" arithmetic operands must be f64 or i64"),
            ],
            VerifyError::NegationOperand { value } => seq![
                Piece::Text("instruction "),
                Piece::Value(value),
                Piece::Text(" negation requires f64 or i64"),
            ],
            VerifyError::NotOperand { value } => seq![
                Piece::Text("instruction "),
                Piece::Value(value),
                Piece::Text(" not requires bool or i64"),
            ],
            VerifyError::ComparisonOperands { value } => seq![
                Piece::Text("instruction "),
                Piece::Value(value),
                Piece::Text(" has invalid comparison operands"),
            ],
            VerifyError::OrderedBool { value } => seq![
                Piece::Text("instruction "),
                Piece::Value(value),
                Piece::Text(" uses an ordered comparison on bool operands"),
            ],
            VerifyError::IntrinsicArguments { value } => seq![
                Piece::Text("instruction "),
                Piece::Value(value),
                Piece::Text(" intrinsic arguments must be f64"),
            ],
            VerifyError::UndefinedUse { value } => seq![
                Piece::Text("value "),
                Piece::Value(value),
                Piece::Text(" used but never defined"),
            ],
            VerifyError::PhiOperandNotDominating { value, def_block, pred } => seq![
                Piece::Text("phi operand "),
                Piece::Value(value),
                Piece::Text(" (defined in "),
                Piece::Block(def_block),
                Piece::Text(") does not dominate predecessor "),
                Piece::Block(pred),
            ],
            VerifyError::UseNotDominated { value, def_block, block } => seq![
                Piece::Text("value "),
                Piece::Value(value),
                Piece::Text(" (defined in "),
                Piece::Block(def_block),
                Piece::Text(") does not dominate its use in "),
                Piece::Block(block),
            ],
            VerifyError::UsedBeforeDefinition { value, block } => seq![
                Piece::Text("value "),
                Piece::Value(value),
                Piece::Text(" is used before its definition in "),
                Piece::Block(block),
            ],
            VerifyError::UndefinedReturn { value } => seq![
                Piece::Text("return of undefined value "),
                Piece::Value(value),
            ],
            VerifyError::ReturnNotDominated { value, block } => seq![
                Piece::Text("returned value "),
                Piece::Value(value),
                Piece::Text(" does not dominate "),
                Piece::Block(block),
            ],
            VerifyError::UndefinedCondition { value } => seq![
                Piece::Text("branch on undefined value "),
                Piece::Value(value),
            ],
            VerifyError::ConditionNotDominated { value, block } => seq![
                Piece::Text("branch condition "),
                Piece::Value(value),
                Piece::Text(" does not dominate "),
                Piece::Block(block),
            ],
            VerifyError::PhiArity { value, block, operands, preds } => seq![
                Piece::Text("phi "),
                Piece::Value(value),
                Piece::Text(" in "),
                Piece::Block(block),
                Piece::Text(" has "),
                Piece::Number(operands),
                Piece::Text(" operand(s) but block has "),
                Piece::Number(preds),
                Piece::Text(" predecessor(s)"),
            ],
        }
    }

    /// What the error says.
    pub open spec fn text(self) -> Seq<char> {
        spelled(self.pieces())
    }

    fn parts(&self) -> (r: Vec<Piece>)
        ensures
            r@ == self.pieces(),
    {
        match *self {
            VerifyError::NoBlocks => vec![Piece::Text("function has no blocks")],
            VerifyError::EntryOutOfRange { entry } => vec![
                Piece::Text("function entry block "),
                Piece::Block(entry),
                Piece::Text(" is out of range"),
            ],
            VerifyError::TypeTableLength { insts, types } => vec![
                Piece::Text("instruction/type table length mismatch: "),
                Piece::Number(insts),
                Piece::Text(" instruction(s), "),
                Piece::Number(types),
                Piece::Text(" type(s)"),
            ],
            VerifyError::SpanTableLength { insts, spans } => vec![
                Piece::Text("instruction/span table length mismatch: "),
                Piece::Number(insts),
                Piece::Text(" instruction(s), "),
                Piece::Number(spans),
                Piece::Text(" span(s)"),
            ],
            VerifyError::ValueOutsideTable { block, value } => vec![
                Piece::Text("block "),
                Piece::Block(block),
                Piece::Text(" references instruction value "),
                Piece::Value(value),
                Piece::Text(" outside the instruction table"),
            ],
            VerifyError::ListedTwice { value, first, second } => vec![
                Piece::Text("instruction value "),
                Piece::Value(value),
                Piece::Text(" is listed in both "),
                Piece::Block(first),
                Piece::Text(" and "),
                Piece::Block(second),
            ],
            VerifyError::PredOutsideTable { block, pred } => vec![
                Piece::Text("block "),
                Piece::Block(block),
                Piece::Text(" lists predecessor "),
                Piece::Block(pred),
                Piece::Text(" outside the block table"),
            ],
            VerifyError::NoTerminator { block } => vec![
                Piece::Text("block "),
                Piece::Block(block),
                Piece::Text(" has no terminator"),
            ],
            VerifyError::TargetOutsideTable { block, target } => vec![
                Piece::Text("terminator in "),
                Piece::Block(block),
                Piece::Text(" targets block "),
                Piece::Block(target),
                Piece::Text(" outside the block table"),
            ],
            VerifyError::PredecessorMismatch { block } => vec![
                Piece::Text("predecessor list for "),
                Piece::Block(block),
                Piece::Text(" differs from what the terminators provide"),
            ],
            VerifyError::UndefinedOperand { value, operand } => vec![
                Piece::Text("instruction "),
                Piece::Value(value),
                Piece::Text(" uses undefined value "),
                Piece::Value(operand),
            ],
            VerifyError::WrongType { value, part: Part::Operand, actual, expected } => vec![
                Piece::Text("instruction "),
                Piece::Value(value),
                Piece::Text(" has operand type "),
                Piece::Type(actual),
                Piece::Text(", expected "),
                Piece::Type(expected),
            ],
            VerifyError::WrongType { value, part: Part::Result, actual, expected } => vec![
                Piece::Text("instruction "),
                Piece::Value(value),
                Piece::Text(" has result type "),
                Piece::Type(actual),
                Piece::Text(", expected "),
                Piece::Type(expected),
            ],
            VerifyError::ParamOutsideTable { value, index } => vec![
                Piece::Text("instruction "),
                Piece::Value(value),
                Piece::Text(" refers to parameter index "),
                Piece::Number(index as usize),
                Piece::Text(" outside the parameter table"),
            ],
            VerifyError::ParamTypeMismatch { value, ty, declared } => vec![
                Piece::Text("instruction "),
                Piece::Value(value),
                Piece::Text(" declares parameter type "),
                Piece::Type(ty),
                Piece::Text(", but parameter table uses "),
                Piece::Type(declared),
            ],
            VerifyError::MismatchedOperands { value, lhs, rhs } => vec![
                Piece::Text("instruction "),
                Piece::Value(value),
                Piece::Text(" has mismatched operand types "),
                Piece::Type(lhs),
                Piece::Text(" and "),
                Piece::Type(rhs),
            ],
            VerifyError::BitwiseOperands { value } => vec![
                Piece::Text("instruction "),
                Piece::Value(value),
                Piece::Text(" bitwise operands must be bool or i64"),
            ],
            VerifyError::ArithmeticOperands { value } => vec![
                Piece::Text("instruction "),
                Piece::Value(value),
                Piece::Text(" arithmetic operands must be f64 or i64"),
            ],
            VerifyError::NegationOperand { value } => vec![
                Piece::Text("instruction "),
                Piece::Value(value),
                Piece::Text(" negation requires f64 or i64"),
            ],
            VerifyError::NotOperand { value } => vec![
                Piece::Text("instruction "),
                Piece::Value(value),
                Piece::Text(" not requires bool or i64"),
            ],
            VerifyError::ComparisonOperands { value } => vec![
                Piece::Text("instruction "),
                Piece::Value(value),
                Piece::Text(" has invalid comparison operands"),
            ],
            VerifyError::OrderedBool { value } => vec![
                Piece::Text("instruction "),
                Piece::Value(value),
                Piece::Text(" uses an ordered comparison on bool operands"),
            ],
            VerifyError::IntrinsicArguments { value } => vec![
                Piece::Text("instruction "),
                Piece::Value(value),
                Piece::Text(" intrinsic arguments must be f64"),
            ],
            VerifyError::UndefinedUse { value } => vec![
                Piece::Text("value "),
                Piece::Value(value),
                Piece::Text(" used but never defined"),
            ],
            VerifyError::PhiOperandNotDominating { value, def_block, pred } => vec![
                Piece::Text("phi operand "),
                Piece::Value(value),
                Piece::Text(" (defined in "),
                Piece::Block(def_block),
                Piece::Text(") does not dominate predecessor "),
                Piece::Block(pred),
            ],
            VerifyError::UseNotDominated { value, def_block, block } => vec![
                Piece::Text("value "),
                Piece::Value(value),
                Piece::Text(" (defined in "),
                Piece::Block(def_block),
                Piece::Text(") does not dominate its use in "),
                Piece::Block(block),
            ],
            VerifyError::UsedBeforeDefinition { value, block } => vec![
                Piece::Text("value "),
                Piece::Value(value),
                Piece::Text(" is used before its definition in "),
                Piece::Block(block),
            ],
            VerifyError::UndefinedReturn { value } => vec![
                Piece::Text("return of undefined value "),
                Piece::Value(value),
            ],
            VerifyError::ReturnNotDominated { value, block } => vec![
                Piece::Text("returned value "),
                Piece::Value(value),
                Piece::Text(" does not dominate "),
                Piece::Block(block),
            ],
            VerifyError::UndefinedCondition { value } => vec![
                Piece::Text("branch on undefined value "),
                Piece::Value(value),
            ],
            VerifyError::ConditionNotDominated { value, block } => vec![
                Piece::Text("branch condition "),
                Piece::Value(value),
                Piece::Text(" does not dominate "),
                Piece::Block(block),
            ],
            VerifyError::PhiArity { value, block, operands, preds } => vec![
                Piece::Text("phi "),
                Piece::Value(value),
                Piece::Text(" in "),
                Piece::Block(block),
                Piece::Text(" has "),
                Piece::Number(operands),
                Piece::Text(" operand(s) but block has "),
                Piece::Number(preds),
                Piece::Text(" predecessor(s)"),
            ],
        }
    }

    /// A one-line message.
    pub fn message(&self) -> (r: String)
        ensures
            r@ == self.text(),
    {
        spell(&self.parts())
    }
}

// ---------------------------------------------------------------------------
// Types

/// An operand that has no type, or a type other than the expected one.
pub open spec fn operand_defect(f: Function, value: Value, operand: Value, expected: Ty) -> Option<
    VerifyError,
> {
    if operand.0 >= f.types@.len() {
        Some(VerifyError::UndefinedOperand { value, operand })
    } else if f.types@[operand.0 as int] != expected {
        Some(
            VerifyError::WrongType {
                value,
                part: Part::Operand,
                actual: f.types@[operand.0 as int],
                expected,
            },
        )
    } else {
        None
    }
}

/// A result type other than the expected one.
pub open spec fn result_defect(f: Function, value: Value, expected: Ty) -> Option<VerifyError> {
    let actual = f.types@[value.0 as int];
    if actual == expected {
        None
    } else {
        Some(VerifyError::WrongType { value, part: Part::Result, actual, expected })
    }
}

pub open spec fn or_else(a: Option<VerifyError>, b: Option<VerifyError>) -> Option<VerifyError> {
    match a {
        Some(e) => Some(e),
        None => b,
    }
}

/// The first operand, from place `i` on, that is not of the expected type.
pub open spec fn operands_defect(
    f: Function,
    value: Value,
    args: Seq<Value>,
    expected: Ty,
    i: int,
) -> Option<VerifyError>
    decreases args.len() - i,
{
    if i < 0 || i >= args.len() {
        None
    } else {
        or_else(
            operand_defect(f, value, args[i], expected),
            operands_defect(f, value, args, expected, i + 1),
        )
    }
}

/// The two operands of an instruction are typed alike.
pub open spec fn pair_defect(f: Function, value: Value, a: Value, b: Value) -> Option<VerifyError> {
    if a.0 >= f.types@.len() {
        Some(VerifyError::UndefinedOperand { value, operand: a })
    } else if b.0 >= f.types@.len() {
        Some(VerifyError::UndefinedOperand { value, operand: b })
    } else if f.types@[a.0 as int] != f.types@[b.0 as int] {
        Some(
            VerifyError::MismatchedOperands {
                value,
                lhs: f.types@[a.0 as int],
                rhs: f.types@[b.0 as int],
            },
        )
    } else {
        None
    }
}

pub open spec fn is_bitwise(op: Op) -> bool {
    op is And || op is Or || op is Xor
}

pub open spec fn is_shift(op: Op) -> bool {
    op is Shl || op is Shr || op is Sar
}

pub open spec fn is_arithmetic(op: Op) -> bool {
    op is Add || op is Sub || op is Mul || op is Div || op is Rem || op is Min || op is Max
}

pub open spec fn is_float_unary(op: Op) -> bool {
    op is Sqrt || op is Abs || op is Floor || op is Ceil || op is Round || op is Trunc
}

pub open spec fn is_ordered(op: CmpOp) -> bool {
    op is Lt || op is Le || op is Gt || op is Ge
}

pub open spec fn arity(func: LibFunc) -> nat {
    match func {
        LibFunc::Pow => 2,
        _ => 1,
    }
}

/// What is wrong with the types of instruction `m`, which computes `value`.
pub open spec fn type_defect(f: Function, value: Value, m: InstModel) -> Option<VerifyError> {
    let result = f.types@[value.0 as int];
    match m.op {
        Op::ConstF64(_) => result_defect(f, value, Ty::F64),
        Op::ConstI64(_) => result_defect(f, value, Ty::I64),
        Op::ConstBool(_) => result_defect(f, value, Ty::Bool),
        Op::Param(index, ty) => if index >= f.params@.len() {
            Some(VerifyError::ParamOutsideTable { value, index })
        } else if f.params@[index as int].1 != ty {
            Some(
                VerifyError::ParamTypeMismatch { value, ty, declared: f.params@[index as int].1 },
            )
        } else {
            result_defect(f, value, ty)
        },
        Op::Neg => if m.args[0].0 >= f.types@.len() {
            Some(VerifyError::UndefinedOperand { value, operand: m.args[0] })
        } else if f.types@[m.args[0].0 as int] == Ty::Bool {
            Some(VerifyError::NegationOperand { value })
        } else {
            result_defect(f, value, f.types@[m.args[0].0 as int])
        },
        Op::Not => if m.args[0].0 >= f.types@.len() {
            Some(VerifyError::UndefinedOperand { value, operand: m.args[0] })
        } else if f.types@[m.args[0].0 as int] == Ty::F64 {
            Some(VerifyError::NotOperand { value })
        } else {
            result_defect(f, value, f.types@[m.args[0].0 as int])
        },
        Op::Fma => or_else(
            operands_defect(f, value, m.args, Ty::F64, 0),
            result_defect(f, value, Ty::F64),
        ),
        Op::Compare(op) => if m.args[0].0 >= f.types@.len() {
            Some(VerifyError::UndefinedOperand { value, operand: m.args[0] })
        } else if m.args[1].0 >= f.types@.len() {
            Some(VerifyError::UndefinedOperand { value, operand: m.args[1] })
        } else if f.types@[m.args[0].0 as int] != f.types@[m.args[1].0 as int] {
            Some(VerifyError::ComparisonOperands { value })
        } else if is_ordered(op) && f.types@[m.args[0].0 as int] == Ty::Bool {
            Some(VerifyError::OrderedBool { value })
        } else {
            result_defect(f, value, Ty::Bool)
        },
        Op::Call(func) => if m.args.len() != arity(func) || operands_defect(
            f,
            value,
            m.args,
            Ty::F64,
            0,
        ) is Some {
            Some(VerifyError::IntrinsicArguments { value })
        } else {
            result_defect(f, value, Ty::F64)
        },
        Op::IToF => or_else(
            operand_defect(f, value, m.args[0], Ty::I64),
            result_defect(f, value, Ty::F64),
        ),
        Op::FToI => or_else(
            operand_defect(f, value, m.args[0], Ty::F64),
            result_defect(f, value, Ty::I64),
        ),
        Op::Phi(_) => operands_defect(f, value, m.args, result, 0),
        op => if is_float_unary(op) {
            or_else(
                operand_defect(f, value, m.args[0], Ty::F64),
                result_defect(f, value, Ty::F64),
            )
        } else {
            // The binary operations.
            let mismatch = pair_defect(f, value, m.args[0], m.args[1]);
            let lhs = f.types@[m.args[0].0 as int];
            if mismatch is Some {
                mismatch
            } else if is_bitwise(op) && lhs == Ty::F64 {
                Some(VerifyError::BitwiseOperands { value })
            } else if is_shift(op) && lhs != Ty::I64 {
                Some(
                    VerifyError::WrongType {
                        value,
                        part: Part::Operand,
                        actual: lhs,
                        expected: Ty::I64,
                    },
                )
            } else if is_arithmetic(op) && lhs == Ty::Bool {
                Some(VerifyError::ArithmeticOperands { value })
            } else {
                result_defect(f, value, lhs)
            }
        },
    }
}

/// An error about the types of one instruction.
pub open spec fn is_type_error(e: VerifyError) -> bool {
    ||| e is UndefinedOperand
    ||| e is WrongType
    ||| e is ParamOutsideTable
    ||| e is ParamTypeMismatch
    ||| e is MismatchedOperands
    ||| e is BitwiseOperands
    ||| e is ArithmeticOperands
    ||| e is NegationOperand
    ||| e is NotOperand
    ||| e is ComparisonOperands
    ||| e is OrderedBool
    ||| e is IntrinsicArguments
}

proof fn lemma_operands_error(f: Function, value: Value, args: Seq<Value>, expected: Ty, i: int)
    ensures
        operands_defect(f, value, args, expected, i) matches Some(e) ==> is_type_error(e),
    decreases args.len() - i,
{
    if 0 <= i < args.len() {
        lemma_operands_error(f, value, args, expected, i + 1);
    }
}

proof fn lemma_type_error(f: Function, value: Value, m: InstModel)
    ensures
        type_defect(f, value, m) matches Some(e) ==> is_type_error(e),
{
    lemma_operands_error(f, value, m.args, Ty::F64, 0);
    lemma_operands_error(f, value, m.args, f.types@[value.0 as int], 0);
}

/// `r` reports exactly `defect`.
pub open spec fn reports(r: Result<(), VerifyError>, defect: Option<VerifyError>) -> bool {
    match r {
        Ok(_) => defect is None,
        Err(e) => defect == Some(e),
    }
}

fn operand_type(f: &Function, value: Value, operand: Value) -> (r: Result<Ty, VerifyError>)
    ensures
        match r {
            Ok(ty) => operand.0 < f.types@.len() && ty == f.types@[operand.0 as int],
            Err(e) => operand.0 >= f.types@.len() && e == (VerifyError::UndefinedOperand {
                value,
                operand,
            }),
        },
{
    if (operand.0 as usize) < f.types.len() {
        Ok(f.types[operand.0 as usize])
    } else {
        Err(VerifyError::UndefinedOperand { value, operand })
    }
}

fn require_operand(f: &Function, value: Value, operand: Value, expected: Ty) -> (r: Result<
    (),
    VerifyError,
>)
    ensures
        reports(r, operand_defect(*f, value, operand, expected)),
{
    let actual: Ty = match operand_type(f, value, operand) {
        Ok(ty) => ty,
        Err(e) => return Err(e),
    };
    if actual == expected {
        Ok(())
    } else {
        Err(VerifyError::WrongType { value, part: Part::Operand, actual, expected })
    }
}

fn require_result(f: &Function, value: Value, expected: Ty) -> (r: Result<(), VerifyError>)
    requires
        value.0 < f.types@.len(),
    ensures
        reports(r, result_defect(*f, value, expected)),
{
    let actual: Ty = f.types[value.0 as usize];
    if actual == expected {
        Ok(())
    } else {
        Err(VerifyError::WrongType { value, part: Part::Result, actual, expected })
    }
}

fn require_operands(f: &Function, value: Value, args: &Vec<Value>, expected: Ty) -> (r: Result<
    (),
    VerifyError,
>)
    ensures
        reports(r, operands_defect(*f, value, args@, expected, 0)),
{
    let mut i: usize = 0;
    while i < args.len()
        invariant
            i <= args@.len(),
            operands_defect(*f, value, args@, expected, 0) == operands_defect(
                *f,
                value,
                args@,
                expected,
                i as int,
            ),
        decreases args@.len() - i,
    {
        match require_operand(f, value, args[i], expected) {
            Ok(_) => {},
            Err(e) => return Err(e),
        }
        i += 1;
    }
    Ok(())
}

/// The operations with two operands of one type, apart from comparisons.
#[derive(Clone, Copy, PartialEq, Eq, Structural)]
enum PairKind {
    Bitwise,
    Shift,
    Arithmetic,
}

fn validate_pair(f: &Function, value: Value, a: Value, b: Value, kind: PairKind, inst: &Inst) -> (r:
    Result<(), VerifyError>)
    requires
        value.0 < f.types@.len(),
        inst@.args == seq![a, b],
        is_bitwise(inst@.op) || is_shift(inst@.op) || is_arithmetic(inst@.op),
        kind == PairKind::Bitwise <==> is_bitwise(inst@.op),
        kind == PairKind::Shift <==> is_shift(inst@.op),
    ensures
        reports(r, type_defect(*f, value, inst@)),
{
    let lhs: Ty = match operand_type(f, value, a) {
        Ok(ty) => ty,
        Err(e) => return Err(e),
    };
    let rhs: Ty = match operand_type(f, value, b) {
        Ok(ty) => ty,
        Err(e) => return Err(e),
    };
    if lhs != rhs {
        return Err(VerifyError::MismatchedOperands { value, lhs, rhs });
    }
    match kind {
        PairKind::Bitwise => if lhs == Ty::F64 {
            return Err(VerifyError::BitwiseOperands { value });
        },
        PairKind::Shift => if lhs != Ty::I64 {
            return Err(
                VerifyError::WrongType {
                    value,
                    part: Part::Operand,
                    actual: lhs,
                    expected: Ty::I64,
                },
            );
        },
        PairKind::Arithmetic => if lhs == Ty::Bool {
            return Err(VerifyError::ArithmeticOperands { value });
        },
    }
    require_result(f, value, lhs)
}

/// Checks the operand and result types of one instruction.
#[verifier::rlimit(60)]
pub fn validate_instruction_type(f: &Function, value: Value, inst: &Inst) -> (r: Result<
    (),
    VerifyError,
>)
    requires
        value.0 < f.types@.len(),
    ensures
        reports(r, type_defect(*f, value, inst@)),
{
    match inst {
        Inst::ConstF64(_) => require_result(f, value, Ty::F64),
        Inst::ConstI64(_) => require_result(f, value, Ty::I64),
        Inst::ConstBool(_) => require_result(f, value, Ty::Bool),
        Inst::Param { index, ty } => {
            if *index as usize >= f.params.len() {
                return Err(VerifyError::ParamOutsideTable { value, index: *index });
            }
            let declared: Ty = f.params[*index as usize].1;
            if declared != *ty {
                return Err(VerifyError::ParamTypeMismatch { value, ty: *ty, declared });
            }
            require_result(f, value, *ty)
        },
        Inst::Add(a, b)
        | Inst::Sub(a, b)
        | Inst::Mul(a, b)
        | Inst::Div(a, b)
        | Inst::Rem(a, b)
        | Inst::Min(a, b)
        | Inst::Max(a, b) => validate_pair(f, value, *a, *b, PairKind::Arithmetic, inst),
        Inst::And(a, b) | Inst::Or(a, b) | Inst::Xor(a, b) => {
            validate_pair(f, value, *a, *b, PairKind::Bitwise, inst)
        },
        Inst::Shl(a, b) | Inst::Shr(a, b) | Inst::Sar(a, b) => {
            validate_pair(f, value, *a, *b, PairKind::Shift, inst)
        },
        Inst::Neg(a) => {
            let ty: Ty = match operand_type(f, value, *a) {
                Ok(ty) => ty,
                Err(e) => return Err(e),
            };
            if ty == Ty::Bool {
                return Err(VerifyError::NegationOperand { value });
            }
            require_result(f, value, ty)
        },
        Inst::Not(a) => {
            let ty: Ty = match operand_type(f, value, *a) {
                Ok(ty) => ty,
                Err(e) => return Err(e),
            };
            if ty == Ty::F64 {
                return Err(VerifyError::NotOperand { value });
            }
            require_result(f, value, ty)
        },
        Inst::Fma { a: _, b: _, c: _ } => {
            let args: Vec<Value> = uses_of(inst);
            match require_operands(f, value, &args, Ty::F64) {
                Ok(_) => require_result(f, value, Ty::F64),
                Err(e) => Err(e),
            }
        },
        Inst::Cmp { op, lhs, rhs } => {
            let lhs_ty: Ty = match operand_type(f, value, *lhs) {
                Ok(ty) => ty,
                Err(e) => return Err(e),
            };
            let rhs_ty: Ty = match operand_type(f, value, *rhs) {
                Ok(ty) => ty,
                Err(e) => return Err(e),
            };
            if lhs_ty != rhs_ty {
                return Err(VerifyError::ComparisonOperands { value });
            }
            let ordered: bool = match op {
                CmpOp::Lt | CmpOp::Le | CmpOp::Gt | CmpOp::Ge => true,
                CmpOp::Eq | CmpOp::Ne => false,
            };
            if ordered && lhs_ty == Ty::Bool {
                return Err(VerifyError::OrderedBool { value });
            }
            require_result(f, value, Ty::Bool)
        },
        Inst::Sqrt(a)
        | Inst::Abs(a)
        | Inst::Floor(a)
        | Inst::Ceil(a)
        | Inst::Round(a)
        | Inst::Trunc(a) => {
            match require_operand(f, value, *a, Ty::F64) {
                Ok(_) => require_result(f, value, Ty::F64),
                Err(e) => Err(e),
            }
        },
        Inst::Call { func, args: _ } => {
            let expected: usize = match func {
                LibFunc::Pow => 2,
                LibFunc::Sin | LibFunc::Cos | LibFunc::Tan | LibFunc::Exp | LibFunc::Log => 1,
            };
            let args: Vec<Value> = uses_of(inst);
            if args.len() != expected || require_operands(f, value, &args, Ty::F64).is_err() {
                return Err(VerifyError::IntrinsicArguments { value });
            }
            require_result(f, value, Ty::F64)
        },
        Inst::IToF(a) => match require_operand(f, value, *a, Ty::I64) {
            Ok(_) => require_result(f, value, Ty::F64),
            Err(e) => Err(e),
        },
        Inst::FToI(a) => match require_operand(f, value, *a, Ty::F64) {
            Ok(_) => require_result(f, value, Ty::I64),
            Err(e) => Err(e),
        },
        Inst::Phi { incoming: _ } => {
            let args: Vec<Value> = uses_of(inst);
            require_operands(f, value, &args, f.types[value.0 as usize])
        },
    }
}

// ---------------------------------------------------------------------------
// Structure

/// Value `v` is computed at place `k` of block `b`.
pub open spec fn def_at(f: Function, v: int, b: int, k: int) -> bool {
    &&& 0 <= b < f.blocks@.len()
    &&& 0 <= k < f.listed(b).len()
    &&& f.listed(b)[k].0 == v
}

/// Some block computes `v`.
pub open spec fn defined(f: Function, v: int) -> bool {
    exists|b: int, k: int| def_at(f, v, b, k)
}

/// How often `p` occurs in `s`.
pub open spec fn occurrences(s: Seq<Block>, p: Block) -> nat
    decreases s.len(),
{
    if s.len() == 0 {
        0
    } else {
        occurrences(s.drop_last(), p) + if s.last() == p {
            1nat
        } else {
            0nat
        }
    }
}

/// How many edges lead from block `p` to block `b`.
pub open spec fn edge_count(f: Function, p: int, b: int) -> nat {
    match f.term(p) {
        Some(Terminator::Jump(t)) => if t.0 == b {
            1
        } else {
            0
        },
        Some(Terminator::Branch { then_, else_, .. }) => (if then_.0 == b {
            1nat
        } else {
            0nat
        }) + (if else_.0 == b {
            1nat
        } else {
            0nat
        }),
        _ => 0,
    }
}

pub open spec fn tables_ok(f: Function) -> bool {
    &&& f.blocks@.len() > 0
    &&& f.entry.0 < f.blocks@.len()
    &&& f.types@.len() == f.insts@.len()
    &&& f.spans@.len() == f.insts@.len()
}

/// Blocks list values of the table, each value at most once, and their
/// predecessors are blocks.
pub open spec fn listing_ok(f: Function) -> bool {
    &&& forall|b: int, k: int|
        #![trigger f.listed(b)[k]]
        0 <= b < f.blocks@.len() && 0 <= k < f.listed(b).len() ==> f.listed(b)[k].0
            < f.insts@.len()
    &&& forall|v: int, b: int, k: int, c: int, l: int|
        #![trigger def_at(f, v, b, k), def_at(f, v, c, l)]
        def_at(f, v, b, k) && def_at(f, v, c, l) ==> b == c && k == l
    &&& forall|b: int, k: int|
        #![trigger f.preds(b)[k]]
        0 <= b < f.blocks@.len() && 0 <= k < f.preds(b).len() ==> f.preds(b)[k].0
            < f.blocks@.len()
}

/// Every block ends in a terminator whose targets are blocks.
pub open spec fn targets_ok(f: Function) -> bool {
    &&& forall|b: int| #![trigger f.term(b)] 0 <= b < f.blocks@.len() ==> f.term(b) is Some
    &&& forall|a: int, b: int| #[trigger] edge(f, a, b) ==> 0 <= b < f.blocks@.len()
}

/// The predecessor lists hold exactly the edges of the terminators.
pub open spec fn preds_ok(f: Function) -> bool {
    forall|b: int, p: int|
        #![trigger edge_count(f, p, b)]
        0 <= b < f.blocks@.len() && 0 <= p < f.blocks@.len() ==> occurrences(
            f.preds(b),
            Block(p as u32),
        ) == edge_count(f, p, b)
}

/// A block occurs in a list if and only if it is counted there.
pub(crate) proof fn lemma_occurs(s: Seq<Block>, p: Block)
    ensures
        s.contains(p) <==> occurrences(s, p) > 0,
    decreases s.len(),
{
    if s.len() > 0 {
        lemma_occurs(s.drop_last(), p);
        if s.contains(p) && s.last() != p {
            let i = s.index_of(p);
            assert(s.drop_last()[i] == p);
        }
        if s.drop_last().contains(p) {
            let i = s.drop_last().index_of(p);
            assert(s[i] == p);
        }
        assert(s[s.len() - 1] == s.last());
    }
}

/// Lists that count every edge list the blocks that the edges come from.
pub proof fn lemma_preds_match(f: Function)
    requires
        preds_ok(f),
        f.blocks@.len() <= u32::MAX,
        listing_ok(f),
    ensures
        preds_match(f),
{
    assert forall|b: int, p: Block|
        #![trigger f.preds(b).contains(p)]
        #![trigger edge(f, p.0 as int, b)]
        0 <= b < f.blocks@.len() implies (f.preds(b).contains(p) <==> edge(f, p.0 as int, b)) by {
        lemma_occurs(f.preds(b), p);
        if f.preds(b).contains(p) {
            let i = f.preds(b).index_of(p);
            assert(f.preds(b)[i] == p);
        }
        if p.0 < f.blocks@.len() {
            assert(Block(p.0 as int as u32) == p);
            assert(occurrences(f.preds(b), p) == edge_count(f, p.0 as int, b));
        }
    }
}

/// `u` may be used at place `k` of block `b`: its block dominates `b`, and in
/// `b` itself it stands earlier.
pub open spec fn use_ok(f: Function, u: int, b: int, k: int) -> bool {
    exists|c: int, l: int| #[trigger] def_at(f, u, c, l) && dom(f, c, b) && (c == b ==> l < k)
}

/// `u` may be used at the end of block `b`.
pub open spec fn end_use_ok(f: Function, u: int, b: int) -> bool {
    exists|c: int, l: int| #[trigger] def_at(f, u, c, l) && dom(f, c, b)
}

/// The operands of the instruction at place `k` of block `b` are defined
/// where it reads them. A phi reads its operands at the ends of the
/// predecessors it names.
pub open spec fn operands_ok(f: Function, b: int, k: int) -> bool {
    let m = f.inst(f.listed(b)[k].0 as int);
    match m.op {
        Op::Phi(froms) => {
            &&& forall|j: int|
                #![trigger m.args[j]]
                0 <= j < m.args.len() ==> end_use_ok(f, m.args[j].0 as int, froms[j].0 as int)
            &&& m.args.len() == f.preds(b).len()
        },
        _ => forall|j: int|
            #![trigger m.args[j]]
            0 <= j < m.args.len() ==> use_ok(f, m.args[j].0 as int, b, k),
    }
}

pub open spec fn inst_ok(f: Function, b: int, k: int) -> bool {
    &&& type_defect(f, f.listed(b)[k], f.inst(f.listed(b)[k].0 as int)) is None
    &&& operands_ok(f, b, k)
}

pub open spec fn term_ok(f: Function, b: int) -> bool {
    match f.term(b) {
        Some(Terminator::Return(v)) => end_use_ok(f, v.0 as int, b),
        Some(Terminator::Branch { cond, .. }) => end_use_ok(f, cond.0 as int, b),
        Some(Terminator::Jump(_)) => true,
        None => false,
    }
}

/// The function is well-formed: its tables agree, its graph is closed, its
/// instructions are typed, and every value is defined before it is used.
pub open spec fn valid(f: Function) -> bool {
    &&& tables_ok(f)
    &&& listing_ok(f)
    &&& targets_ok(f)
    &&& preds_ok(f)
    &&& forall|b: int, k: int|
        #![trigger f.listed(b)[k]]
        0 <= b < f.blocks@.len() && 0 <= k < f.listed(b).len() ==> inst_ok(f, b, k)
    &&& forall|b: int| #![trigger f.term(b)] 0 <= b < f.blocks@.len() ==> term_ok(f, b)
}

/// Block `b` computes `v`.
pub open spec fn defined_in(f: Function, v: Value, b: Block) -> bool {
    exists|k: int| def_at(f, v.0 as int, b.0 as int, k)
}

/// Blocks `first` and `second` list `v` at two places.
pub open spec fn listed_twice(f: Function, v: Value, first: Block, second: Block) -> bool {
    exists|k: int, l: int|
        #![trigger def_at(f, v.0 as int, first.0 as int, k), def_at(f, v.0 as int, second.0 as int, l)]
        def_at(f, v.0 as int, first.0 as int, k) && def_at(f, v.0 as int, second.0 as int, l) && (
        first != second || k < l)
}

/// The predecessor list of `b` has some block too often or too rarely.
pub open spec fn pred_mismatch(f: Function, b: Block) -> bool {
    exists|p: int|
        #![trigger edge_count(f, p, b.0 as int)]
        0 <= p < f.blocks@.len() && occurrences(f.preds(b.0 as int), Block(p as u32))
            != edge_count(f, p, b.0 as int)
}

/// Block `b` computes `v` at or behind a place where it reads `v`.
pub open spec fn used_early(f: Function, v: Value, b: Block) -> bool {
    exists|k: int, l: int|
        #![trigger def_at(f, v.0 as int, b.0 as int, l), f.listed(b.0 as int)[k]]
        def_at(f, v.0 as int, b.0 as int, l) && 0 <= k <= l && f.inst(
            f.listed(b.0 as int)[k].0 as int,
        ).args.contains(v)
}

/// Some instruction of the table has the type defect `e`.
pub open spec fn some_type_defect(f: Function, e: VerifyError) -> bool {
    exists|v: Value|
        #![trigger f.inst(v.0 as int)]
        v.0 < f.insts@.len() && type_defect(f, v, f.inst(v.0 as int)) == Some(e)
}

/// What an error says is true of the function.
pub open spec fn defect(f: Function, e: VerifyError) -> bool {
    match e {
        VerifyError::NoBlocks => f.blocks@.len() == 0,
        VerifyError::EntryOutOfRange { entry } => entry == f.entry && f.entry.0 >= f.blocks@.len(),
        VerifyError::TypeTableLength { insts, types } => insts == f.insts@.len() && types
            == f.types@.len() && insts != types,
        VerifyError::SpanTableLength { insts, spans } => insts == f.insts@.len() && spans
            == f.spans@.len() && insts != spans,
        VerifyError::ValueOutsideTable { block, value } => value.0 >= f.insts@.len() && defined_in(
            f,
            value,
            block,
        ),
        VerifyError::ListedTwice { value, first, second } => listed_twice(f, value, first, second),
        VerifyError::PredOutsideTable { block, pred } => block.0 < f.blocks@.len() && f.preds(
            block.0 as int,
        ).contains(pred) && pred.0 >= f.blocks@.len(),
        VerifyError::NoTerminator { block } => block.0 < f.blocks@.len() && f.term(
            block.0 as int,
        ) is None,
        VerifyError::TargetOutsideTable { block, target } => edge(
            f,
            block.0 as int,
            target.0 as int,
        ) && target.0 >= f.blocks@.len(),
        VerifyError::PredecessorMismatch { block } => block.0 < f.blocks@.len() && pred_mismatch(
            f,
            block,
        ),
        VerifyError::UndefinedUse { value } => !defined(f, value.0 as int),
        VerifyError::PhiOperandNotDominating { value, def_block, pred } => !dom(
            f,
            def_block.0 as int,
            pred.0 as int,
        ) && defined_in(f, value, def_block),
        VerifyError::UseNotDominated { value, def_block, block } => !dom(
            f,
            def_block.0 as int,
            block.0 as int,
        ) && defined_in(f, value, def_block),
        VerifyError::UsedBeforeDefinition { value, block } => used_early(f, value, block),
        VerifyError::UndefinedReturn { value } => !defined(f, value.0 as int),
        VerifyError::ReturnNotDominated { value, block } => f.term(block.0 as int) == Some(
            Terminator::Return(value),
        ) && !end_use_ok(f, value.0 as int, block.0 as int),
        VerifyError::UndefinedCondition { value } => !defined(f, value.0 as int),
        VerifyError::ConditionNotDominated { value, block } => f.term(
            block.0 as int,
        ) matches Some(Terminator::Branch { cond, .. }) && cond == value && !end_use_ok(
            f,
            value.0 as int,
            block.0 as int,
        ),
        VerifyError::PhiArity { value, block, operands, preds } => preds == f.preds(
            block.0 as int,
        ).len() && operands == f.inst(value.0 as int).args.len() && operands != preds,
        _ => some_type_defect(f, e),
    }
}

// ---------------------------------------------------------------------------
// The order of the checks

/// The block that lists `v` before place `k` of block `b`.
pub open spec fn listed_before(f: Function, v: Value, b: int, k: int) -> Option<Block> {
    if exists|c: int, l: int| #[trigger]
        def_at(f, v.0 as int, c, l) && (c < b || (c == b && l < k)) {
        let (c, l) = choose|c: int, l: int| #[trigger]
            def_at(f, v.0 as int, c, l) && (c < b || (c == b && l < k));
        Some(Block(c as u32))
    } else {
        None
    }
}

/// What is wrong with the value at place `k` of block `b`.
pub open spec fn listing_defect(f: Function, b: int, k: int) -> Option<VerifyError> {
    let value = f.listed(b)[k];
    let block = Block(b as u32);
    if value.0 >= f.insts@.len() {
        Some(VerifyError::ValueOutsideTable { block, value })
    } else {
        match listed_before(f, value, b, k) {
            Some(first) => Some(VerifyError::ListedTwice { value, first, second: block }),
            None => None,
        }
    }
}

/// The first defect among the first `n` values that block `b` lists.
pub open spec fn values_defect(f: Function, b: int, n: nat) -> Option<VerifyError>
    decreases n,
{
    if n == 0 {
        None
    } else {
        or_else(values_defect(f, b, (n - 1) as nat), listing_defect(f, b, n - 1))
    }
}

/// The first of the first `n` predecessors of block `b` that is no block.
pub open spec fn pred_range_defect(f: Function, b: int, n: nat) -> Option<VerifyError>
    decreases n,
{
    if n == 0 {
        None
    } else {
        or_else(
            pred_range_defect(f, b, (n - 1) as nat),
            if f.preds(b)[n - 1].0 >= f.blocks@.len() {
                Some(
                    VerifyError::PredOutsideTable {
                        block: Block(b as u32),
                        pred: f.preds(b)[n - 1],
                    },
                )
            } else {
                None
            },
        )
    }
}

/// The first defect in what the first `n` blocks list. The values of a block
/// are looked at before its predecessors.
pub open spec fn listings_defect(f: Function, n: nat) -> Option<VerifyError>
    decreases n,
{
    if n == 0 {
        None
    } else {
        or_else(
            listings_defect(f, (n - 1) as nat),
            or_else(
                values_defect(f, n - 1, f.listed(n - 1).len()),
                pred_range_defect(f, n - 1, f.preds(n - 1).len()),
            ),
        )
    }
}

pub open spec fn target_defect(f: Function, b: int, target: Block) -> Option<VerifyError> {
    if target.0 >= f.blocks@.len() {
        Some(VerifyError::TargetOutsideTable { block: Block(b as u32), target })
    } else {
        None
    }
}

/// The first of the first `n` blocks whose terminator is missing or leads out
/// of the table.
pub open spec fn targets_defect(f: Function, n: nat) -> Option<VerifyError>
    decreases n,
{
    if n == 0 {
        None
    } else {
        or_else(
            targets_defect(f, (n - 1) as nat),
            match f.term(n - 1) {
                Some(Terminator::Jump(t)) => target_defect(f, n - 1, t),
                Some(Terminator::Branch { then_, else_, .. }) => or_else(
                    target_defect(f, n - 1, then_),
                    target_defect(f, n - 1, else_),
                ),
                Some(Terminator::Return(_)) => None,
                None => Some(VerifyError::NoTerminator { block: Block((n - 1) as u32) }),
            },
        )
    }
}

/// The first of the first `n` blocks whose predecessor list is wrong.
pub open spec fn edges_defect(f: Function, n: nat) -> Option<VerifyError>
    decreases n,
{
    if n == 0 {
        None
    } else {
        let block = Block((n - 1) as u32);
        or_else(
            edges_defect(f, (n - 1) as nat),
            if pred_mismatch(f, block) {
                Some(VerifyError::PredecessorMismatch { block })
            } else {
                None
            },
        )
    }
}

/// Where `v` is defined.
pub open spec fn home(f: Function, v: Value) -> (int, int) {
    choose|b: int, k: int| #[trigger] def_at(f, v.0 as int, b, k)
}

/// What is wrong with operand `j` of a phi.
pub open spec fn phi_operand_defect(f: Function, m: InstModel, j: int) -> Option<VerifyError> {
    let value = m.args[j];
    let pred = (m.op->Phi_0)[j];
    let (c, _) = home(f, value);
    if !defined(f, value.0 as int) {
        Some(VerifyError::UndefinedUse { value })
    } else if !dom(f, c, pred.0 as int) {
        Some(VerifyError::PhiOperandNotDominating { value, def_block: Block(c as u32), pred })
    } else {
        None
    }
}

/// What is wrong with reading `value` at place `k` of block `b`.
pub open spec fn use_defect(f: Function, b: int, k: int, value: Value) -> Option<VerifyError> {
    let block = Block(b as u32);
    let (c, l) = home(f, value);
    if !defined(f, value.0 as int) {
        Some(VerifyError::UndefinedUse { value })
    } else if !dom(f, c, b) {
        Some(VerifyError::UseNotDominated { value, def_block: Block(c as u32), block })
    } else if c == b && l >= k {
        Some(VerifyError::UsedBeforeDefinition { value, block })
    } else {
        None
    }
}

/// The first defect among the first `n` operands of an instruction.
pub open spec fn uses_defect(f: Function, b: int, k: int, n: nat) -> Option<VerifyError>
    decreases n,
{
    if n == 0 {
        None
    } else {
        let m = f.inst(f.listed(b)[k].0 as int);
        or_else(
            uses_defect(f, b, k, (n - 1) as nat),
            if m.op is Phi {
                phi_operand_defect(f, m, n - 1)
            } else {
                use_defect(f, b, k, m.args[n - 1])
            },
        )
    }
}

/// What is wrong with an instruction: its types come first, then its operands.
pub open spec fn inst_defect(f: Function, b: int, k: int) -> Option<VerifyError> {
    let v = f.listed(b)[k];
    let m = f.inst(v.0 as int);
    or_else(type_defect(f, v, m), uses_defect(f, b, k, m.args.len()))
}

/// The first defect among the first `n` instructions of block `b`.
pub open spec fn insts_defect(f: Function, b: int, n: nat) -> Option<VerifyError>
    decreases n,
{
    if n == 0 {
        None
    } else {
        or_else(insts_defect(f, b, (n - 1) as nat), inst_defect(f, b, n - 1))
    }
}

/// What is wrong with what the terminator of block `b` reads.
pub open spec fn end_defect(f: Function, b: int) -> Option<VerifyError> {
    let block = Block(b as u32);
    match f.term(b) {
        Some(Terminator::Return(value)) => if end_use_ok(f, value.0 as int, b) {
            None
        } else if defined(f, value.0 as int) {
            Some(VerifyError::ReturnNotDominated { value, block })
        } else {
            Some(VerifyError::UndefinedReturn { value })
        },
        Some(Terminator::Branch { cond, .. }) => if end_use_ok(f, cond.0 as int, b) {
            None
        } else if defined(f, cond.0 as int) {
            Some(VerifyError::ConditionNotDominated { value: cond, block })
        } else {
            Some(VerifyError::UndefinedCondition { value: cond })
        },
        _ => None,
    }
}

/// The first phi among the first `n` instructions of block `b` that has not
/// one operand for each predecessor.
pub open spec fn arity_defect(f: Function, b: int, n: nat) -> Option<VerifyError>
    decreases n,
{
    if n == 0 {
        None
    } else {
        let value = f.listed(b)[n - 1];
        let m = f.inst(value.0 as int);
        or_else(
            arity_defect(f, b, (n - 1) as nat),
            if m.op is Phi && m.args.len() != f.preds(b).len() {
                Some(
                    VerifyError::PhiArity {
                        value,
                        block: Block(b as u32),
                        operands: m.args.len() as usize,
                        preds: f.preds(b).len() as usize,
                    },
                )
            } else {
                None
            },
        )
    }
}

/// The first defect of a block: its instructions, its terminator, and then
/// how many operands its phis have.
pub open spec fn block_defect(f: Function, b: int) -> Option<VerifyError> {
    or_else(
        insts_defect(f, b, f.listed(b).len()),
        or_else(end_defect(f, b), arity_defect(f, b, f.listed(b).len())),
    )
}

/// The first defect of the first `n` blocks.
pub open spec fn blocks_defect(f: Function, n: nat) -> Option<VerifyError>
    decreases n,
{
    if n == 0 {
        None
    } else {
        or_else(blocks_defect(f, (n - 1) as nat), block_defect(f, n - 1))
    }
}

/// What the verifier finds first: the tables, what the blocks list, the
/// targets, the predecessor lists, and then block after block.
pub open spec fn first_defect(f: Function) -> Option<VerifyError> {
    let n = f.blocks@.len();
    if n == 0 {
        Some(VerifyError::NoBlocks)
    } else if f.entry.0 >= n {
        Some(VerifyError::EntryOutOfRange { entry: f.entry })
    } else if f.types@.len() != f.insts@.len() {
        Some(
            VerifyError::TypeTableLength {
                insts: f.insts@.len() as usize,
                types: f.types@.len() as usize,
            },
        )
    } else if f.spans@.len() != f.insts@.len() {
        Some(
            VerifyError::SpanTableLength {
                insts: f.insts@.len() as usize,
                spans: f.spans@.len() as usize,
            },
        )
    } else {
        or_else(
            listings_defect(f, n),
            or_else(targets_defect(f, n), or_else(edges_defect(f, n), blocks_defect(f, n))),
        )
    }
}

/// A defect that was found stays the first.
proof fn lemma_first_stays(f: Function, e: VerifyError, b: int, k: int, m: nat, n: nat)
    requires
        m <= n,
    ensures
        values_defect(f, b, m) == Some(e) ==> values_defect(f, b, n) == Some(e),
        pred_range_defect(f, b, m) == Some(e) ==> pred_range_defect(f, b, n) == Some(e),
        listings_defect(f, m) == Some(e) ==> listings_defect(f, n) == Some(e),
        targets_defect(f, m) == Some(e) ==> targets_defect(f, n) == Some(e),
        edges_defect(f, m) == Some(e) ==> edges_defect(f, n) == Some(e),
        uses_defect(f, b, k, m) == Some(e) ==> uses_defect(f, b, k, n) == Some(e),
        insts_defect(f, b, m) == Some(e) ==> insts_defect(f, b, n) == Some(e),
        arity_defect(f, b, m) == Some(e) ==> arity_defect(f, b, n) == Some(e),
        blocks_defect(f, m) == Some(e) ==> blocks_defect(f, n) == Some(e),
    decreases n - m,
{
    if m < n {
        lemma_first_stays(f, e, b, k, m + 1, n);
    }
}

/// Where each value of the table is defined.
pub struct Definitions {
    pub blocks: Vec<Option<Block>>,
    pub places: Vec<usize>,
}

/// `d` tells, of every value, the first `b` blocks and `k` more values of
/// block `b` that have been gone through.
spec fn definitions_upto(f: Function, d: Definitions, b: int, k: int) -> bool {
    &&& d.blocks@.len() == f.insts@.len()
    &&& d.places@.len() == f.insts@.len()
    &&& forall|v: int|
        #![trigger d.blocks@[v]]
        0 <= v < f.insts@.len() ==> match d.blocks@[v] {
            Some(c) => def_at(f, v, c.0 as int, d.places@[v] as int) && (c.0 < b || (c.0 == b
                && d.places@[v] < k)),
            None => true,
        }
    &&& forall|v: int, c: int, l: int| #[trigger]
        def_at(f, v, c, l) && (c < b || (c == b && l < k)) ==> v < f.insts@.len()
            && d.blocks@[v] == Some(Block(c as u32)) && d.places@[v] == l
}

/// `d` tells where every value of the table is defined.
pub open spec fn is_definitions(f: Function, d: Definitions) -> bool {
    &&& d.blocks@.len() == f.insts@.len()
    &&& d.places@.len() == f.insts@.len()
    &&& forall|v: int|
        #![trigger d.blocks@[v]]
        0 <= v < f.insts@.len() ==> match d.blocks@[v] {
            Some(c) => def_at(f, v, c.0 as int, d.places@[v] as int),
            None => !defined(f, v),
        }
    &&& forall|v: int, c: int, l: int| #[trigger]
        def_at(f, v, c, l) ==> v < f.insts@.len() && d.blocks@[v] == Some(Block(c as u32))
            && d.places@[v] == l
}

fn check_pred_range(f: &Function, b: usize) -> (r: Result<(), VerifyError>)
    requires
        b < f.blocks@.len(),
        f.blocks@.len() <= u32::MAX,
    ensures
        match r {
            Ok(_) => forall|k: int|
                #![trigger f.preds(b as int)[k]]
                0 <= k < f.preds(b as int).len() ==> f.preds(b as int)[k].0 < f.blocks@.len(),
            Err(e) => defect(*f, e) && e is PredOutsideTable,
        },
        reports(r, pred_range_defect(*f, b as int, f.preds(b as int).len())),
{
    let preds: &BlockList = &f.blocks[b].preds;
    let mut k: usize = 0;
    while k < preds.len()
        invariant
            b < f.blocks@.len(),
            f.blocks@.len() <= u32::MAX,
            *preds == f.blocks@[b as int].preds,
            k <= preds@.len(),
            pred_range_defect(*f, b as int, k as nat) is None,
            forall|j: int|
                #![trigger f.preds(b as int)[j]]
                0 <= j < k ==> f.preds(b as int)[j].0 < f.blocks@.len(),
        decreases preds@.len() - k,
    {
        let pred: Block = preds.get(k);
        if pred.0 as usize >= f.blocks.len() {
            assert(f.preds(b as int)[k as int] == pred);
            let e: VerifyError = VerifyError::PredOutsideTable { block: Block(b as u32), pred };
            proof {
                let n = f.preds(b as int).len();
                assert(pred_range_defect(*f, b as int, (k + 1) as nat) == Some(e));
                lemma_first_stays(*f, e, b as int, 0, (k + 1) as nat, n);
            }
            return Err(e);
        }
        k += 1;
    }
    Ok(())
}

fn collect_block(f: &Function, d: &mut Definitions, b: usize) -> (r: Result<(), VerifyError>)
    requires
        b < f.blocks@.len(),
        f.blocks@.len() <= u32::MAX,
        definitions_upto(*f, *old(d), b as int, 0),
    ensures
        match r {
            Ok(_) => definitions_upto(*f, *final(d), b + 1, 0),
            Err(e) => defect(*f, e) && (e is ValueOutsideTable || e is ListedTwice),
        },
        reports(r, values_defect(*f, b as int, f.listed(b as int).len())),
{
    let list: &Vec<Value> = &f.blocks[b].insts;
    let mut k: usize = 0;
    while k < list.len()
        invariant
            b < f.blocks@.len(),
            f.blocks@.len() <= u32::MAX,
            *list == f.blocks@[b as int].insts,
            k <= list@.len(),
            definitions_upto(*f, *d, b as int, k as int),
            values_defect(*f, b as int, k as nat) is None,
        decreases list@.len() - k,
    {
        let v: Value = list[k];
        let index: usize = v.0 as usize;
        let block: Block = Block(b as u32);
        assert(def_at(*f, v.0 as int, b as int, k as int));
        assert(block.0 as int == b as int);
        if index >= f.insts.len() {
            assert(def_at(*f, v.0 as int, block.0 as int, k as int));
            let e: VerifyError = VerifyError::ValueOutsideTable { block, value: v };
            assert(defect(*f, e));
            proof {
                assert(values_defect(*f, b as int, (k + 1) as nat) == Some(e));
                lemma_first_stays(*f, e, b as int, 0, (k + 1) as nat, list@.len());
            }
            return Err(e);
        }
        if let Some(previous) = d.blocks[index] {
            assert(def_at(*f, v.0 as int, previous.0 as int, d.places@[index as int] as int));
            assert(def_at(*f, v.0 as int, block.0 as int, k as int));
            let e: VerifyError = VerifyError::ListedTwice {
                value: v,
                first: previous,
                second: block,
            };
            assert(defect(*f, e));
            proof {
                assert(listed_before(*f, v, b as int, k as int) == Some(previous)) by {
                    let place = d.places@[index as int] as int;
                    assert(def_at(*f, v.0 as int, previous.0 as int, place));
                }
                assert(values_defect(*f, b as int, (k + 1) as nat) == Some(e));
                lemma_first_stays(*f, e, b as int, 0, (k + 1) as nat, list@.len());
            }
            return Err(e);
        }
        assert(listed_before(*f, v, b as int, k as int) is None) by {
            if listed_before(*f, v, b as int, k as int) is Some {
                let (c, l) = choose|c: int, l: int| #[trigger]
                    def_at(*f, v.0 as int, c, l) && (c < b || (c == b && l < k));
                assert(d.blocks@[v.0 as int] == Some(Block(c as u32)));
            }
        }
        let ghost d0 = *d;
        d.blocks.set(index, Some(block));
        d.places.set(index, k);
        assert forall|w: int, c: int, l: int| #[trigger]
            def_at(*f, w, c, l) && (c < b || (c == b && l < k + 1)) implies w < f.insts@.len()
            && d.blocks@[w] == Some(Block(c as u32)) && d.places@[w] == l by {
            if c < b || l < k {
                assert(d0.blocks@[w] == Some(Block(c as u32)));
            }
        }
        k += 1;
    }
    assert forall|w: int, c: int, l: int| #[trigger]
        def_at(*f, w, c, l) && (c < b + 1 || (c == b + 1 && l < 0)) implies w < f.insts@.len()
        && d.blocks@[w] == Some(Block(c as u32)) && d.places@[w] == l by {}
    Ok(())
}

/// Finds the definition of every value.
fn collect_definitions(f: &Function) -> (r: Result<Definitions, VerifyError>)
    requires
        f.blocks@.len() <= u32::MAX,
    ensures
        match r {
            Ok(d) => listing_ok(*f) && is_definitions(*f, d) && listings_defect(
                *f,
                f.blocks@.len(),
            ) is None,
            Err(e) => defect(*f, e) && !listing_ok(*f) && listings_defect(*f, f.blocks@.len())
                == Some(e),
        },
{
    let mut d: Definitions = Definitions { blocks: Vec::new(), places: Vec::new() };
    let mut i: usize = 0;
    while i < f.insts.len()
        invariant
            i <= f.insts@.len(),
            d.blocks@.len() == i,
            d.places@.len() == i,
            forall|v: int| #![trigger d.blocks@[v]] 0 <= v < i ==> d.blocks@[v] is None,
        decreases f.insts@.len() - i,
    {
        d.blocks.push(None);
        d.places.push(0);
        i += 1;
    }
    let mut b: usize = 0;
    while b < f.blocks.len()
        invariant
            b <= f.blocks@.len(),
            f.blocks@.len() <= u32::MAX,
            definitions_upto(*f, d, b as int, 0),
            listings_defect(*f, b as nat) is None,
            forall|c: int, k: int|
                #![trigger f.preds(c)[k]]
                0 <= c < b && 0 <= k < f.preds(c).len() ==> f.preds(c)[k].0 < f.blocks@.len(),
        decreases f.blocks@.len() - b,
    {
        match collect_block(f, &mut d, b) {
            Ok(_) => {},
            Err(e) => {
                proof {
                    lemma_listing_defect(*f, e);
                    assert(listings_defect(*f, (b + 1) as nat) == Some(e));
                    lemma_first_stays(*f, e, 0, 0, (b + 1) as nat, f.blocks@.len());
                }
                return Err(e);
            },
        }
        match check_pred_range(f, b) {
            Ok(_) => {},
            Err(e) => {
                proof {
                    lemma_listing_defect(*f, e);
                    assert(listings_defect(*f, (b + 1) as nat) == Some(e));
                    lemma_first_stays(*f, e, 0, 0, (b + 1) as nat, f.blocks@.len());
                }
                return Err(e);
            },
        }
        b += 1;
    }
    assert forall|v: int|
        #![trigger d.blocks@[v]]
        0 <= v < f.insts@.len() && d.blocks@[v] is None implies !defined(*f, v) by {
        if defined(*f, v) {
            let (c, l) = choose|c: int, l: int| def_at(*f, v, c, l);
            assert(def_at(*f, v, c, l));
        }
    }
    assert forall|c: int, k: int|
        #![trigger f.listed(c)[k]]
        0 <= c < f.blocks@.len() && 0 <= k < f.listed(c).len() implies f.listed(c)[k].0
        < f.insts@.len() by {
        assert(def_at(*f, f.listed(c)[k].0 as int, c, k));
    }
    Ok(d)
}

/// The defects of the listing stage do stand against the listing.
proof fn lemma_listing_defect(f: Function, e: VerifyError)
    requires
        defect(f, e),
        e is ValueOutsideTable || e is ListedTwice || e is PredOutsideTable,
    ensures
        !listing_ok(f),
{
    match e {
        VerifyError::ValueOutsideTable { block, value } => {
            let k = choose|k: int| def_at(f, value.0 as int, block.0 as int, k);
            assert(f.listed(block.0 as int)[k] == value);
        },
        VerifyError::PredOutsideTable { block, pred } => {
            let k = choose|k: int|
                0 <= k < f.preds(block.0 as int).len() && f.preds(block.0 as int)[k] == pred;
            assert(f.preds(block.0 as int)[k] == pred);
        },
        _ => {},
    }
}

fn check_target(f: &Function, b: usize, target: Block) -> (r: Result<(), VerifyError>)
    requires
        b < f.blocks@.len(),
        f.blocks@.len() <= u32::MAX,
        edge(*f, b as int, target.0 as int),
    ensures
        match r {
            Ok(_) => target.0 < f.blocks@.len(),
            Err(e) => defect(*f, e) && !targets_ok(*f),
        },
        reports(r, target_defect(*f, b as int, target)),
{
    if target.0 as usize >= f.blocks.len() {
        Err(VerifyError::TargetOutsideTable { block: Block(b as u32), target })
    } else {
        Ok(())
    }
}

/// Checks that every block ends in a terminator with targets in the table.
fn check_targets(f: &Function) -> (r: Result<(), VerifyError>)
    requires
        f.blocks@.len() <= u32::MAX,
    ensures
        match r {
            Ok(_) => targets_ok(*f),
            Err(e) => defect(*f, e) && !targets_ok(*f),
        },
        reports(r, targets_defect(*f, f.blocks@.len())),
{
    let mut b: usize = 0;
    while b < f.blocks.len()
        invariant
            b <= f.blocks@.len(),
            f.blocks@.len() <= u32::MAX,
            targets_defect(*f, b as nat) is None,
            forall|c: int| #![trigger f.term(c)] 0 <= c < b ==> f.term(c) is Some,
            forall|a: int, c: int| #[trigger]
                edge(*f, a, c) && a < b ==> 0 <= c < f.blocks@.len(),
        decreases f.blocks@.len() - b,
    {
        match f.blocks[b].term {
            Some(Terminator::Jump(t)) => {
                assert(edge(*f, b as int, t.0 as int));
                match check_target(f, b, t) {
                    Ok(_) => {},
                    Err(e) => {
                        proof {
                            assert(targets_defect(*f, (b + 1) as nat) == Some(e));
                            lemma_first_stays(*f, e, 0, 0, (b + 1) as nat, f.blocks@.len());
                        }
                        return Err(e);
                    },
                }
            },
            Some(Terminator::Branch { then_, else_, .. }) => {
                assert(edge(*f, b as int, then_.0 as int));
                assert(edge(*f, b as int, else_.0 as int));
                match check_target(f, b, then_) {
                    Ok(_) => {},
                    Err(e) => {
                        proof {
                            assert(targets_defect(*f, (b + 1) as nat) == Some(e));
                            lemma_first_stays(*f, e, 0, 0, (b + 1) as nat, f.blocks@.len());
                        }
                        return Err(e);
                    },
                }
                match check_target(f, b, else_) {
                    Ok(_) => {},
                    Err(e) => {
                        proof {
                            assert(targets_defect(*f, (b + 1) as nat) == Some(e));
                            lemma_first_stays(*f, e, 0, 0, (b + 1) as nat, f.blocks@.len());
                        }
                        return Err(e);
                    },
                }
            },
            Some(Terminator::Return(_)) => {},
            None => {
                assert(f.term(b as int) is None);
                let e: VerifyError = VerifyError::NoTerminator { block: Block(b as u32) };
                proof {
                    assert(targets_defect(*f, (b + 1) as nat) == Some(e));
                    lemma_first_stays(*f, e, 0, 0, (b + 1) as nat, f.blocks@.len());
                }
                return Err(e);
            },
        }
        b += 1;
    }
    Ok(())
}

fn count_pred(preds: &BlockList, p: Block) -> (r: usize)
    ensures
        r == occurrences(preds@, p),
{
    let mut n: usize = 0;
    let mut k: usize = 0;
    while k < preds.len()
        invariant
            k <= preds@.len(),
            n <= k,
            n == occurrences(preds@.take(k as int), p),
        decreases preds@.len() - k,
    {
        assert(preds@.take(k + 1).drop_last() =~= preds@.take(k as int));
        if preds.get(k) == p {
            n += 1;
        }
        k += 1;
    }
    assert(preds@.take(k as int) =~= preds@);
    n
}

fn count_edges(f: &Function, p: usize, b: usize) -> (r: usize)
    requires
        p < f.blocks@.len(),
    ensures
        r == edge_count(*f, p as int, b as int),
{
    let mut n: usize = 0;
    match f.blocks[p].term {
        Some(Terminator::Jump(t)) => {
            if t.0 as usize == b {
                n = n + 1;
            }
        },
        Some(Terminator::Branch { then_, else_, .. }) => {
            if then_.0 as usize == b {
                n = n + 1;
            }
            if else_.0 as usize == b {
                n = n + 1;
            }
        },
        _ => {},
    }
    n
}

/// Checks that the predecessor lists hold what the terminators provide.
fn check_preds(f: &Function) -> (r: Result<(), VerifyError>)
    requires
        f.blocks@.len() <= u32::MAX,
    ensures
        match r {
            Ok(_) => preds_ok(*f),
            Err(e) => defect(*f, e) && !preds_ok(*f),
        },
        reports(r, edges_defect(*f, f.blocks@.len())),
{
    let mut b: usize = 0;
    while b < f.blocks.len()
        invariant
            b <= f.blocks@.len(),
            f.blocks@.len() <= u32::MAX,
            edges_defect(*f, b as nat) is None,
            forall|c: int, p: int|
                #![trigger edge_count(*f, p, c)]
                0 <= c < b && 0 <= p < f.blocks@.len() ==> occurrences(
                    f.preds(c),
                    Block(p as u32),
                ) == edge_count(*f, p, c),
        decreases f.blocks@.len() - b,
    {
        let mut p: usize = 0;
        while p < f.blocks.len()
            invariant
                b < f.blocks@.len(),
                p <= f.blocks@.len(),
                f.blocks@.len() <= u32::MAX,
                edges_defect(*f, b as nat) is None,
                forall|q: int|
                    #![trigger edge_count(*f, q, b as int)]
                    0 <= q < p ==> occurrences(f.preds(b as int), Block(q as u32)) == edge_count(
                        *f,
                        q,
                        b as int,
                    ),
            decreases f.blocks@.len() - p,
        {
            let listed: usize = count_pred(&f.blocks[b].preds, Block(p as u32));
            let provided: usize = count_edges(f, p, b);
            if listed != provided {
                let block: Block = Block(b as u32);
                assert(occurrences(f.preds(block.0 as int), Block(p as u32)) != edge_count(
                    *f,
                    p as int,
                    block.0 as int,
                ));
                let e: VerifyError = VerifyError::PredecessorMismatch { block };
                proof {
                    assert(pred_mismatch(*f, block));
                    assert(edges_defect(*f, (b + 1) as nat) == Some(e));
                    lemma_first_stays(*f, e, 0, 0, (b + 1) as nat, f.blocks@.len());
                }
                return Err(e);
            }
            p += 1;
        }
        assert(!pred_mismatch(*f, Block(b as u32)));
        b += 1;
    }
    Ok(())
}

/// What the checks of a single block go by: the definitions, and the
/// dominator tree.
struct Facts {
    defs: Definitions,
    idom: Vec<Option<Block>>,
}

spec fn facts_ok(f: Function, facts: Facts) -> bool {
    &&& cfg_ok(f)
    &&& listing_ok(f)
    &&& tables_ok(f)
    &&& targets_ok(f)
    &&& is_definitions(f, facts.defs)
    &&& is_dominator_tree(f, facts.idom@)
    &&& exists|rank: spec_fn(Block) -> nat| climbs_down(facts.idom@, rank)
}

fn dominated(f: &Function, facts: &Facts, a: Block, b: Block) -> (r: bool)
    requires
        facts_ok(*f, *facts),
    ensures
        r == dom(*f, a.0 as int, b.0 as int),
{
    if a == b {
        return true;
    }
    if b.0 as usize >= f.blocks.len() {
        proof {
            if crate::dominance::reachable(*f, b.0 as int) {
                let p = choose|p: Seq<int>| crate::dominance::path_to(*f, p, b.0 as int);
                crate::dominance::lemma_path_range(*f, p, p.len() - 1);
            }
        }
        return false;
    }
    proof {
        lemma_tree_decides(*f, facts.idom@, a, b);
    }
    dominates(facts.idom.as_slice(), a, b)
}

fn definition(f: &Function, facts: &Facts, v: Value) -> (r: Option<(Block, usize)>)
    requires
        facts_ok(*f, *facts),
    ensures
        match r {
            Some((b, k)) => def_at(*f, v.0 as int, b.0 as int, k as int),
            None => !defined(*f, v.0 as int),
        },
{
    let index: usize = v.0 as usize;
    if index >= f.insts.len() {
        proof {
            if defined(*f, v.0 as int) {
                let (c, l) = choose|c: int, l: int| def_at(*f, v.0 as int, c, l);
                assert(def_at(*f, v.0 as int, c, l));
            }
        }
        return None;
    }
    match facts.defs.blocks[index] {
        Some(b) => Some((b, facts.defs.places[index])),
        None => None,
    }
}

/// A value has one definition, so a use is fine exactly when that one is.
proof fn lemma_use_decided(f: Function, u: int, c: int, l: int, b: int, k: int)
    requires
        listing_ok(f),
        def_at(f, u, c, l),
    ensures
        use_ok(f, u, b, k) == (dom(f, c, b) && (c == b ==> l < k)),
        end_use_ok(f, u, b) == dom(f, c, b),
{
}

proof fn lemma_undefined_use(f: Function, u: int, b: int, k: int)
    requires
        !defined(f, u),
    ensures
        !use_ok(f, u, b, k),
        !end_use_ok(f, u, b),
{
}

fn check_phi_operands(f: &Function, facts: &Facts, b: usize, k: usize, incoming: &EdgeList) -> (r:
    Result<(), VerifyError>)
    requires
        facts_ok(*f, *facts),
        b < f.blocks@.len(),
        k < f.listed(b as int).len(),
        f.insts@[f.listed(b as int)[k as int].0 as int] == (Inst::Phi { incoming: *incoming }),
    ensures
        match r {
            Ok(_) => forall|j: int|
                #![trigger incoming@[j]]
                0 <= j < incoming@.len() ==> end_use_ok(
                    *f,
                    incoming@[j].1.0 as int,
                    incoming@[j].0.0 as int,
                ),
            Err(e) => defect(*f, e) && !operands_ok(*f, b as int, k as int),
        },
        reports(r, uses_defect(*f, b as int, k as int, incoming@.len())),
{
    let ghost m = f.inst(f.listed(b as int)[k as int].0 as int);
    let mut j: usize = 0;
    while j < incoming.len()
        invariant
            facts_ok(*f, *facts),
            b < f.blocks@.len(),
            k < f.listed(b as int).len(),
            f.insts@[f.listed(b as int)[k as int].0 as int] == (Inst::Phi { incoming: *incoming }),
            m == f.inst(f.listed(b as int)[k as int].0 as int),
            j <= incoming@.len(),
            uses_defect(*f, b as int, k as int, j as nat) is None,
            forall|i: int|
                #![trigger incoming@[i]]
                0 <= i < j ==> end_use_ok(
                    *f,
                    incoming@[i].1.0 as int,
                    incoming@[i].0.0 as int,
                ),
        decreases incoming@.len() - j,
    {
        let (pred, val): (Block, Value) = incoming.get(j);
        assert(m.args[j as int] == val);
        match definition(f, facts, val) {
            None => {
                proof {
                    lemma_undefined_use(*f, val.0 as int, pred.0 as int, 0);
                    let e = VerifyError::UndefinedUse { value: val };
                    assert(uses_defect(*f, b as int, k as int, (j + 1) as nat) == Some(e));
                    lemma_first_stays(
                        *f,
                        e,
                        b as int,
                        k as int,
                        (j + 1) as nat,
                        incoming@.len(),
                    );
                }
                return Err(VerifyError::UndefinedUse { value: val });
            },
            Some((def_block, place)) => {
                proof {
                    lemma_use_decided(
                        *f,
                        val.0 as int,
                        def_block.0 as int,
                        place as int,
                        pred.0 as int,
                        0,
                    );
                }
                assert(home(*f, val) == (def_block.0 as int, place as int)) by {
                    assert(def_at(*f, val.0 as int, def_block.0 as int, place as int));
                }
                assert((m.op->Phi_0)[j as int] == pred);
                if !dominated(f, facts, def_block, pred) {
                    assert(defined_in(*f, val, def_block));
                    proof {
                        let e = VerifyError::PhiOperandNotDominating { value: val, def_block, pred };
                        assert(uses_defect(*f, b as int, k as int, (j + 1) as nat) == Some(e));
                        lemma_first_stays(
                            *f,
                            e,
                            b as int,
                            k as int,
                            (j + 1) as nat,
                            incoming@.len(),
                        );
                    }
                    return Err(
                        VerifyError::PhiOperandNotDominating { value: val, def_block, pred },
                    );
                }
            },
        }
        j += 1;
    }
    Ok(())
}

fn check_operands(f: &Function, facts: &Facts, b: usize, k: usize) -> (r: Result<(), VerifyError>)
    requires
        facts_ok(*f, *facts),
        f.blocks@.len() <= u32::MAX,
        b < f.blocks@.len(),
        k < f.listed(b as int).len(),
        !(f.inst(f.listed(b as int)[k as int].0 as int).op is Phi),
    ensures
        match r {
            Ok(_) => operands_ok(*f, b as int, k as int),
            Err(e) => defect(*f, e) && !operands_ok(*f, b as int, k as int),
        },
        reports(
            r,
            uses_defect(
                *f,
                b as int,
                k as int,
                f.inst(f.listed(b as int)[k as int].0 as int).args.len(),
            ),
        ),
{
    let v: Value = f.blocks[b].insts[k];
    assert(f.listed(b as int)[k as int] == v);
    let block: Block = Block(b as u32);
    let ghost m = f.inst(v.0 as int);
    let args: Vec<Value> = uses_of(&f.insts[v.0 as usize]);
    let mut j: usize = 0;
    while j < args.len()
        invariant
            facts_ok(*f, *facts),
            f.blocks@.len() <= u32::MAX,
            b < f.blocks@.len(),
            k < f.listed(b as int).len(),
            f.listed(b as int)[k as int] == v,
            block == Block(b as u32),
            m == f.inst(v.0 as int),
            !(m.op is Phi),
            args@ == m.args,
            j <= args@.len(),
            uses_defect(*f, b as int, k as int, j as nat) is None,
            forall|i: int|
                #![trigger m.args[i]]
                0 <= i < j ==> use_ok(*f, m.args[i].0 as int, b as int, k as int),
        decreases args@.len() - j,
    {
        let used: Value = args[j];
        assert(m.args[j as int] == used);
        match definition(f, facts, used) {
            None => {
                proof {
                    lemma_undefined_use(*f, used.0 as int, b as int, k as int);
                    let e = VerifyError::UndefinedUse { value: used };
                    assert(uses_defect(*f, b as int, k as int, (j + 1) as nat) == Some(e));
                    lemma_first_stays(*f, e, b as int, k as int, (j + 1) as nat, args@.len());
                }
                return Err(VerifyError::UndefinedUse { value: used });
            },
            Some((def_block, place)) => {
                proof {
                    lemma_use_decided(
                        *f,
                        used.0 as int,
                        def_block.0 as int,
                        place as int,
                        b as int,
                        k as int,
                    );
                }
                assert(home(*f, used) == (def_block.0 as int, place as int)) by {
                    assert(def_at(*f, used.0 as int, def_block.0 as int, place as int));
                }
                if !dominated(f, facts, def_block, block) {
                    assert(defined_in(*f, used, def_block));
                    proof {
                        let e = VerifyError::UseNotDominated { value: used, def_block, block };
                        assert(uses_defect(*f, b as int, k as int, (j + 1) as nat) == Some(e));
                        lemma_first_stays(*f, e, b as int, k as int, (j + 1) as nat, args@.len());
                    }
                    return Err(VerifyError::UseNotDominated { value: used, def_block, block });
                }
                if def_block == block && place >= k {
                    assert(used_early(*f, used, block)) by {
                        assert(def_at(*f, used.0 as int, block.0 as int, place as int));
                        assert(f.listed(block.0 as int)[k as int] == v);
                        assert(m.args.contains(used));
                    }
                    proof {
                        let e = VerifyError::UsedBeforeDefinition { value: used, block };
                        assert(uses_defect(*f, b as int, k as int, (j + 1) as nat) == Some(e));
                        lemma_first_stays(*f, e, b as int, k as int, (j + 1) as nat, args@.len());
                    }
                    return Err(VerifyError::UsedBeforeDefinition { value: used, block });
                }
            },
        }
        j += 1;
    }
    Ok(())
}

spec fn phi_arity_ok(f: Function, b: int, k: int) -> bool {
    let m = f.inst(f.listed(b)[k].0 as int);
    m.op is Phi ==> m.args.len() == f.preds(b).len()
}

/// Checks one instruction, apart from the number of operands of a phi.
fn check_inst(f: &Function, facts: &Facts, b: usize, k: usize) -> (r: Result<(), VerifyError>)
    requires
        facts_ok(*f, *facts),
        f.blocks@.len() <= u32::MAX,
        b < f.blocks@.len(),
        k < f.listed(b as int).len(),
    ensures
        match r {
            Ok(_) => phi_arity_ok(*f, b as int, k as int) ==> inst_ok(*f, b as int, k as int),
            Err(e) => defect(*f, e) && !inst_ok(*f, b as int, k as int),
        },
        reports(r, inst_defect(*f, b as int, k as int)),
{
    let v: Value = f.blocks[b].insts[k];
    assert(f.listed(b as int)[k as int] == v);
    let inst: &Inst = &f.insts[v.0 as usize];
    match validate_instruction_type(f, v, inst) {
        Ok(_) => {},
        Err(e) => {
            assert(type_defect(*f, v, f.inst(v.0 as int)) == Some(e));
            assert(some_type_defect(*f, e));
            proof {
                lemma_type_error(*f, v, f.inst(v.0 as int));
            }
            return Err(e);
        },
    }
    assert(inst_defect(*f, b as int, k as int) == uses_defect(
        *f,
        b as int,
        k as int,
        f.inst(v.0 as int).args.len(),
    ));
    match inst {
        Inst::Phi { incoming } => match check_phi_operands(f, facts, b, k, incoming) {
            Ok(_) => {
                let ghost m = f.inst(v.0 as int);
                assert forall|j: int|
                    #![trigger m.args[j]]
                    0 <= j < m.args.len() implies end_use_ok(
                    *f,
                    m.args[j].0 as int,
                    (m.op->Phi_0)[j].0 as int,
                ) by {
                    assert(incoming@[j].1 == m.args[j]);
                }
                Ok(())
            },
            Err(e) => Err(e),
        },
        _ => check_operands(f, facts, b, k),
    }
}

fn check_end_use(f: &Function, facts: &Facts, v: Value, block: Block) -> (r: Result<
    (),
    bool,
>)
    requires
        facts_ok(*f, *facts),
    ensures
        match r {
            Ok(_) => end_use_ok(*f, v.0 as int, block.0 as int),
            Err(known) => !end_use_ok(*f, v.0 as int, block.0 as int) && known == defined(
                *f,
                v.0 as int,
            ),
        },
{
    match definition(f, facts, v) {
        None => {
            proof {
                lemma_undefined_use(*f, v.0 as int, block.0 as int, 0);
            }
            Err(false)
        },
        Some((def_block, place)) => {
            proof {
                lemma_use_decided(
                    *f,
                    v.0 as int,
                    def_block.0 as int,
                    place as int,
                    block.0 as int,
                    0,
                );
            }
            if dominated(f, facts, def_block, block) {
                Ok(())
            } else {
                Err(true)
            }
        },
    }
}

fn check_term(f: &Function, facts: &Facts, b: usize) -> (r: Result<(), VerifyError>)
    requires
        facts_ok(*f, *facts),
        f.blocks@.len() <= u32::MAX,
        b < f.blocks@.len(),
    ensures
        match r {
            Ok(_) => term_ok(*f, b as int),
            Err(e) => defect(*f, e) && !term_ok(*f, b as int),
        },
        reports(r, end_defect(*f, b as int)),
{
    let block: Block = Block(b as u32);
    assert(f.term(b as int) is Some);
    match f.blocks[b].term {
        Some(Terminator::Return(value)) => match check_end_use(f, facts, value, block) {
            Ok(_) => Ok(()),
            Err(known) => if known {
                Err(VerifyError::ReturnNotDominated { value, block })
            } else {
                Err(VerifyError::UndefinedReturn { value })
            },
        },
        Some(Terminator::Branch { cond, .. }) => match check_end_use(f, facts, cond, block) {
            Ok(_) => Ok(()),
            Err(known) => if known {
                Err(VerifyError::ConditionNotDominated { value: cond, block })
            } else {
                Err(VerifyError::UndefinedCondition { value: cond })
            },
        },
        _ => Ok(()),
    }
}

fn check_phi_arity(f: &Function, b: usize) -> (r: Result<(), VerifyError>)
    requires
        listing_ok(*f),
        f.blocks@.len() <= u32::MAX,
        b < f.blocks@.len(),
    ensures
        match r {
            Ok(_) => forall|k: int|
                #![trigger f.listed(b as int)[k]]
                0 <= k < f.listed(b as int).len() ==> phi_arity_ok(*f, b as int, k),
            Err(e) => defect(*f, e) && exists|k: int|
                #![trigger f.listed(b as int)[k]]
                0 <= k < f.listed(b as int).len() && !phi_arity_ok(*f, b as int, k),
        },
        reports(r, arity_defect(*f, b as int, f.listed(b as int).len())),
{
    let data: &BlockData = &f.blocks[b];
    let mut k: usize = 0;
    while k < data.insts.len()
        invariant
            listing_ok(*f),
            f.blocks@.len() <= u32::MAX,
            b < f.blocks@.len(),
            *data == f.blocks@[b as int],
            k <= data.insts@.len(),
            arity_defect(*f, b as int, k as nat) is None,
            forall|i: int|
                #![trigger f.listed(b as int)[i]]
                0 <= i < k ==> phi_arity_ok(*f, b as int, i),
        decreases data.insts@.len() - k,
    {
        let v: Value = data.insts[k];
        assert(f.listed(b as int)[k as int] == v);
        if let Inst::Phi { incoming } = &f.insts[v.0 as usize] {
            let operands: usize = incoming.len();
            let preds: usize = data.preds.len();
            assert(f.inst(v.0 as int).args.len() == operands);
            if operands != preds {
                assert(!phi_arity_ok(*f, b as int, k as int));
                let e: VerifyError = VerifyError::PhiArity {
                    value: v,
                    block: Block(b as u32),
                    operands,
                    preds,
                };
                proof {
                    assert(arity_defect(*f, b as int, (k + 1) as nat) == Some(e));
                    lemma_first_stays(*f, e, b as int, 0, (k + 1) as nat, data.insts@.len());
                }
                return Err(e);
            }
        }
        k += 1;
    }
    Ok(())
}

fn check_block(f: &Function, facts: &Facts, b: usize) -> (r: Result<(), VerifyError>)
    requires
        facts_ok(*f, *facts),
        f.blocks@.len() <= u32::MAX,
        b < f.blocks@.len(),
    ensures
        match r {
            Ok(_) => term_ok(*f, b as int) && forall|k: int|
                #![trigger f.listed(b as int)[k]]
                0 <= k < f.listed(b as int).len() ==> inst_ok(*f, b as int, k),
            Err(e) => defect(*f, e) && !valid(*f),
        },
        reports(r, block_defect(*f, b as int)),
{
    let mut k: usize = 0;
    while k < f.blocks[b].insts.len()
        invariant
            facts_ok(*f, *facts),
            f.blocks@.len() <= u32::MAX,
            b < f.blocks@.len(),
            k <= f.listed(b as int).len(),
            insts_defect(*f, b as int, k as nat) is None,
            forall|i: int|
                #![trigger f.listed(b as int)[i]]
                0 <= i < k ==> (phi_arity_ok(*f, b as int, i) ==> inst_ok(*f, b as int, i)),
        decreases f.listed(b as int).len() - k,
    {
        match check_inst(f, facts, b, k) {
            Ok(_) => {},
            Err(e) => {
                assert(f.listed(b as int)[k as int] == f.listed(b as int)[k as int]);
                proof {
                    assert(insts_defect(*f, b as int, (k + 1) as nat) == Some(e));
                    lemma_first_stays(
                        *f,
                        e,
                        b as int,
                        0,
                        (k + 1) as nat,
                        f.listed(b as int).len(),
                    );
                }
                return Err(e);
            },
        }
        k += 1;
    }
    match check_term(f, facts, b) {
        Ok(_) => {},
        Err(e) => {
            assert(f.term(b as int) is Some);
            return Err(e);
        },
    }
    match check_phi_arity(f, b) {
        Ok(_) => Ok(()),
        Err(e) => {
            proof {
                let k = choose|k: int|
                    #![trigger f.listed(b as int)[k]]
                    0 <= k < f.listed(b as int).len() && !phi_arity_ok(*f, b as int, k);
                assert(!inst_ok(*f, b as int, k));
            }
            Err(e)
        },
    }
}

/// Checks that a function is well-formed, and reports what it finds first.
/// Instructions that no block lists are dead and are not looked at.
pub fn verify(f: &Function) -> (r: Result<(), VerifyError>)
    requires
        f.blocks@.len() <= u32::MAX,
    ensures
        r is Ok <==> valid(*f),
        match r {
            Ok(_) => true,
            Err(e) => defect(*f, e),
        },
        reports(r, first_defect(*f)),
{
    if f.blocks.len() == 0 {
        return Err(VerifyError::NoBlocks);
    }
    if f.entry.0 as usize >= f.blocks.len() {
        return Err(VerifyError::EntryOutOfRange { entry: f.entry });
    }
    if f.types.len() != f.insts.len() {
        return Err(
            VerifyError::TypeTableLength { insts: f.insts.len(), types: f.types.len() },
        );
    }
    if f.spans.len() != f.insts.len() {
        return Err(
            VerifyError::SpanTableLength { insts: f.insts.len(), spans: f.spans.len() },
        );
    }
    let defs: Definitions = match collect_definitions(f) {
        Ok(defs) => defs,
        Err(e) => return Err(e),
    };
    match check_targets(f) {
        Ok(_) => {},
        Err(e) => return Err(e),
    }
    match check_preds(f) {
        Ok(_) => {},
        Err(e) => return Err(e),
    }
    proof {
        lemma_preds_match(*f);
    }
    let idom: Vec<Option<Block>> = compute_dominators(f);
    proof {
        lemma_tree_climbs(*f, idom@);
    }
    let facts: Facts = Facts { defs, idom };
    let mut b: usize = 0;
    while b < f.blocks.len()
        invariant
            facts_ok(*f, facts),
            preds_ok(*f),
            f.blocks@.len() <= u32::MAX,
            b <= f.blocks@.len(),
            first_defect(*f) == blocks_defect(*f, f.blocks@.len()),
            blocks_defect(*f, b as nat) is None,
            forall|c: int, k: int|
                #![trigger f.listed(c)[k]]
                0 <= c < b && 0 <= k < f.listed(c).len() ==> inst_ok(*f, c, k),
            forall|c: int| #![trigger f.term(c)] 0 <= c < b ==> term_ok(*f, c),
        decreases f.blocks@.len() - b,
    {
        match check_block(f, &facts, b) {
            Ok(_) => {},
            Err(e) => {
                proof {
                    assert(blocks_defect(*f, (b + 1) as nat) == Some(e));
                    lemma_first_stays(*f, e, 0, 0, (b + 1) as nat, f.blocks@.len());
                }
                return Err(e);
            },
        }
        b += 1;
    }
    Ok(())
}

} // verus!
