//! Why a function cannot be emitted.
use crate::ir::{Ty, Value};
use crate::report::spelled;
use crate::report::{spell, Piece};
use vstd::prelude::*;

verus! {

/// Why a function cannot be emitted as AArch64 code.
#[derive(Clone, Copy, Debug, PartialEq, Eq, Structural)]
pub enum EmitError {
    NoBlocks,
    ResultType,
    MissingInstruction(Value),
    ParamOutOfRange(u32),
    ParamType(u32),
    TooManyParams(Ty),
    OutOfFloatRegisters,
    OutOfIntRegisters,
    Untyped(Value),
    MissingRegister(Value),
    RemainderType,
    AbsType,
    SqrtType,
    FmaType,
    MinType,
    MaxType,
    ComparisonOperand,
    Unsupported(Value),
    ReturnUntyped(Value),
    NoTerminator(usize),
    TargetOutOfRange(u32),
    PhiWithoutEdge(Value),
    MissingPhiSource(Value),
    MissingCondition(Value),
    IndirectCondition,
    OutOfReach,
    SpillParamCount,
    SpillFrameSize,
    SpillFrameReach,
    SpillParamType,
    ComparisonNotBool(Value),
    SpillValueType(Value),
    MissingLocation(Value),
    CallArguments,
    SpillUnsupported(Value),
    SpillResultType,
    SpillPhiType(Value),
    ValueInRegister(Value),
    SpillCondition,
    SpillComparisonType,
    MixedParamCount(Ty),
    MixedFrameSize,
    MixedFrameReach,
    MixedCall,
    NotF64(Value),
    NotInteger(Value),
    MixedArithmeticType(Value),
    MixedRemainderType,
    MixedNegationType(Value),
    MixedLogicalType(Value),
    MixedNotType(Value),
    MixedUnsupported(Value),
    MixedResultType,
    PhiUntyped(Value),
    PhiSourceUntyped(Value),
    PhiSourceType(Value),
    MixedCondition,
    MixedConditionType,
    OperandUntyped(Value),
    MixedComparisonTypes,
    I64Blocks,
    I64Params,
    I64Terminator,
    I64ResultType,
    I64ParamCount,
    I64OutOfRegisters,
    I64Unsupported(Value),
    I64FrameSize,
}

impl EmitError {
    /// What the error says, piece by piece.
    pub open spec fn pieces(self) -> Seq<Piece> {
        match self {
            EmitError::NoBlocks => seq![Piece::Text("AArch64 emitter requires at least one block")],
            EmitError::ResultType => seq![
                Piece::Text("AArch64 mixed scalar emitter requires an f64 result"),
            ],
            EmitError::MissingInstruction(value) => seq![
                Piece::Text("block references missing instruction "),
                Piece::Value(value),
            ],
            EmitError::ParamOutOfRange(index) => seq![
                Piece::Text("parameter index "),
                Piece::Number(index as usize),
                Piece::Text(" is out of range"),
            ],
            EmitError::ParamType(index) => seq![
                Piece::Text("parameter "),
                Piece::Number(index as usize),
                Piece::Text(" has inconsistent IR type"),
            ],
            EmitError::TooManyParams(ty) => seq![
                Piece::Text("AArch64 emitter supports at most 8 "),
                Piece::Type(ty),
                Piece::Text(" parameters"),
            ],
            EmitError::OutOfFloatRegisters => seq![
                Piece::Text("AArch64 emitter ran out of D-register temporaries"),
            ],
            EmitError::OutOfIntRegisters => seq![
                Piece::Text("AArch64 emitter ran out of X-register temporaries"),
            ],
            EmitError::Untyped(value) => seq![
                Piece::Text("value "),
                Piece::Value(value),
                Piece::Text(" has no AArch64 IR type"),
            ],
            EmitError::MissingRegister(value) => seq![
                Piece::Text("missing AArch64 register for value "),
                Piece::Value(value),
            ],
            EmitError::RemainderType => seq![
                Piece::Text("AArch64 remainder requires i64 operands"),
            ],
            EmitError::AbsType => seq![Piece::Text("AArch64 abs requires an f64 operand")],
            EmitError::SqrtType => seq![Piece::Text("AArch64 sqrt requires an f64 operand")],
            EmitError::FmaType => seq![Piece::Text("AArch64 fma requires f64 operands")],
            EmitError::MinType => seq![Piece::Text("AArch64 min requires f64 operands")],
            EmitError::MaxType => seq![Piece::Text("AArch64 max requires f64 operands")],
            EmitError::ComparisonOperand => seq![
                Piece::Text("AArch64 comparison has an invalid operand"),
            ],
            EmitError::Unsupported(value) => seq![
                Piece::Text("AArch64 f64 emitter does not support the instruction of "),
                Piece::Value(value),
            ],
            EmitError::ReturnUntyped(value) => seq![
                Piece::Text("return value "),
                Piece::Value(value),
                Piece::Text(" has no type"),
            ],
            EmitError::NoTerminator(block) => seq![
                Piece::Text("AArch64 block "),
                Piece::Number(block),
                Piece::Text(" has no terminator"),
            ],
            EmitError::TargetOutOfRange(target) => seq![
                Piece::Text("AArch64 branch target block "),
                Piece::Number(target as usize),
                Piece::Text(" is out of range"),
            ],
            EmitError::PhiWithoutEdge(value) => seq![
                Piece::Text("phi "),
                Piece::Value(value),
                Piece::Text(" has no incoming value for a predecessor"),
            ],
            EmitError::MissingPhiSource(value) => seq![
                Piece::Text("missing phi source register for "),
                Piece::Value(value),
            ],
            EmitError::MissingCondition(value) => seq![
                Piece::Text("missing branch condition "),
                Piece::Value(value),
            ],
            EmitError::IndirectCondition => seq![
                Piece::Text("AArch64 branches require a direct scalar comparison"),
            ],
            EmitError::OutOfReach => seq![Piece::Text("AArch64 displacement is out of reach")],
            EmitError::SpillParamCount => seq![
                Piece::Text("AArch64 f64 emitter supports at most 8 parameters"),
            ],
            EmitError::SpillFrameSize => seq![Piece::Text("AArch64 f64 spill frame is too large")],
            EmitError::SpillFrameReach => seq![
                Piece::Text("AArch64 f64 spill frame exceeds immediate offset range"),
            ],
            EmitError::SpillParamType => seq![
                Piece::Text("AArch64 f64 spill emitter requires f64 parameters"),
            ],
            EmitError::ComparisonNotBool(value) => seq![
                Piece::Text("comparison "),
                Piece::Value(value),
                Piece::Text(" does not produce bool"),
            ],
            EmitError::SpillValueType(value) => seq![
                Piece::Text("AArch64 f64 spill emitter does not support non-f64 value "),
                Piece::Value(value),
            ],
            EmitError::MissingLocation(value) => seq![
                Piece::Text("missing AArch64 location for value "),
                Piece::Value(value),
            ],
            EmitError::CallArguments => seq![
                Piece::Text("AArch64 libm calls require f64 arguments and result"),
            ],
            EmitError::SpillUnsupported(value) => seq![
                Piece::Text("AArch64 f64 spill emitter does not support the instruction of "),
                Piece::Value(value),
            ],
            EmitError::SpillResultType => seq![
                Piece::Text("AArch64 f64 spill emitter requires an f64 result"),
            ],
            EmitError::SpillPhiType(value) => seq![
                Piece::Text("AArch64 f64 spill emitter requires f64 phi "),
                Piece::Value(value),
            ],
            EmitError::ValueInRegister(value) => seq![
                Piece::Text("value "),
                Piece::Value(value),
                Piece::Text(" unexpectedly uses a register"),
            ],
            EmitError::SpillCondition => seq![
                Piece::Text("AArch64 f64 spill branches require a direct scalar comparison"),
            ],
            EmitError::SpillComparisonType => seq![
                Piece::Text("AArch64 f64 spill branches require f64 comparison operands"),
            ],
            EmitError::MixedParamCount(ty) => seq![
                Piece::Text("AArch64 mixed spill emitter supports at most 8 "),
                Piece::Type(ty),
                Piece::Text(" parameters"),
            ],
            EmitError::MixedFrameSize => seq![
                Piece::Text("AArch64 mixed spill frame is too large"),
            ],
            EmitError::MixedFrameReach => seq![
                Piece::Text("AArch64 mixed spill frame exceeds immediate offset range"),
            ],
            EmitError::MixedCall => seq![
                Piece::Text("AArch64 mixed spill emitter does not support calls or libm"),
            ],
            EmitError::NotF64(value) => seq![
                Piece::Text("value "),
                Piece::Value(value),
                Piece::Text(" is not f64"),
            ],
            EmitError::NotInteger(value) => seq![
                Piece::Text("value "),
                Piece::Value(value),
                Piece::Text(" is not an integer or bool"),
            ],
            EmitError::MixedArithmeticType(value) => seq![
                Piece::Text("mixed spill arithmetic has invalid type for "),
                Piece::Value(value),
            ],
            EmitError::MixedRemainderType => seq![
                Piece::Text("AArch64 mixed remainder requires an i64 result"),
            ],
            EmitError::MixedNegationType(value) => seq![
                Piece::Text("mixed spill negation has invalid type for "),
                Piece::Value(value),
            ],
            EmitError::MixedLogicalType(value) => seq![
                Piece::Text("mixed spill logical op has invalid type for "),
                Piece::Value(value),
            ],
            EmitError::MixedNotType(value) => seq![
                Piece::Text("mixed spill not has invalid type for "),
                Piece::Value(value),
            ],
            EmitError::MixedUnsupported(value) => seq![
                Piece::Text("AArch64 mixed spill emitter does not support the instruction of "),
                Piece::Value(value),
            ],
            EmitError::MixedResultType => seq![
                Piece::Text("AArch64 mixed spill emitter requires an f64 result"),
            ],
            EmitError::PhiUntyped(value) => seq![
                Piece::Text("phi "),
                Piece::Value(value),
                Piece::Text(" has no AArch64 IR type"),
            ],
            EmitError::PhiSourceUntyped(value) => seq![
                Piece::Text("phi source "),
                Piece::Value(value),
                Piece::Text(" has no AArch64 IR type"),
            ],
            EmitError::PhiSourceType(value) => seq![
                Piece::Text("phi "),
                Piece::Value(value),
                Piece::Text(" has mismatched source type"),
            ],
            EmitError::MixedCondition => seq![
                Piece::Text("AArch64 mixed spill branches require a direct scalar comparison"),
            ],
            EmitError::MixedConditionType => seq![
                Piece::Text("AArch64 mixed spill branch comparison must produce bool"),
            ],
            EmitError::OperandUntyped(value) => seq![
                Piece::Text("comparison operand "),
                Piece::Value(value),
                Piece::Text(" has no AArch64 IR type"),
            ],
            EmitError::MixedComparisonTypes => seq![
                Piece::Text("AArch64 mixed spill comparisons require matching operand types"),
            ],
            EmitError::I64Blocks => seq![
                Piece::Text("AArch64 i64 emitter currently requires one straight-line block"),
            ],
            EmitError::I64Params => seq![
                Piece::Text("AArch64 i64 emitter requires i64 parameters only"),
            ],
            EmitError::I64Terminator => seq![
                Piece::Text("AArch64 i64 emitter requires a return terminator"),
            ],
            EmitError::I64ResultType => seq![
                Piece::Text("AArch64 i64 emitter requires an i64 result"),
            ],
            EmitError::I64ParamCount => seq![
                Piece::Text("AArch64 i64 emitter supports at most 8 parameters"),
            ],
            EmitError::I64OutOfRegisters => seq![
                Piece::Text("AArch64 i64 emitter ran out of X-register temporaries"),
            ],
            EmitError::I64Unsupported(value) => seq![
                Piece::Text("AArch64 i64 emitter does not support the instruction of "),
                Piece::Value(value),
            ],
            EmitError::I64FrameSize => seq![Piece::Text("AArch64 i64 spill frame is too large")],
        }
    }

    /// What the error says.
    pub open spec fn text(self) -> Seq<char> {
        spelled(self.pieces())
    }

    fn parts(&self) -> (r: Vec<Piece>)
        ensures
            r@ == self.pieces(),
    {
        match *self {
            EmitError::NoBlocks => vec![Piece::Text("AArch64 emitter requires at least one block")],
            EmitError::ResultType => vec![
                Piece::Text("AArch64 mixed scalar emitter requires an f64 result"),
            ],
            EmitError::MissingInstruction(value) => vec![
                Piece::Text("block references missing instruction "),
                Piece::Value(value),
            ],
            EmitError::ParamOutOfRange(index) => vec![
                Piece::Text("parameter index "),
                Piece::Number(index as usize),
                Piece::Text(" is out of range"),
            ],
            EmitError::ParamType(index) => vec![
                Piece::Text("parameter "),
                Piece::Number(index as usize),
                Piece::Text(" has inconsistent IR type"),
            ],
            EmitError::TooManyParams(ty) => vec![
                Piece::Text("AArch64 emitter supports at most 8 "),
                Piece::Type(ty),
                Piece::Text(" parameters"),
            ],
            EmitError::OutOfFloatRegisters => vec![
                Piece::Text("AArch64 emitter ran out of D-register temporaries"),
            ],
            EmitError::OutOfIntRegisters => vec![
                Piece::Text("AArch64 emitter ran out of X-register temporaries"),
            ],
            EmitError::Untyped(value) => vec![
                Piece::Text("value "),
                Piece::Value(value),
                Piece::Text(" has no AArch64 IR type"),
            ],
            EmitError::MissingRegister(value) => vec![
                Piece::Text("missing AArch64 register for value "),
                Piece::Value(value),
            ],
            EmitError::RemainderType => vec![
                Piece::Text("AArch64 remainder requires i64 operands"),
            ],
            EmitError::AbsType => vec![Piece::Text("AArch64 abs requires an f64 operand")],
            EmitError::SqrtType => vec![Piece::Text("AArch64 sqrt requires an f64 operand")],
            EmitError::FmaType => vec![Piece::Text("AArch64 fma requires f64 operands")],
            EmitError::MinType => vec![Piece::Text("AArch64 min requires f64 operands")],
            EmitError::MaxType => vec![Piece::Text("AArch64 max requires f64 operands")],
            EmitError::ComparisonOperand => vec![
                Piece::Text("AArch64 comparison has an invalid operand"),
            ],
            EmitError::Unsupported(value) => vec![
                Piece::Text("AArch64 f64 emitter does not support the instruction of "),
                Piece::Value(value),
            ],
            EmitError::ReturnUntyped(value) => vec![
                Piece::Text("return value "),
                Piece::Value(value),
                Piece::Text(" has no type"),
            ],
            EmitError::NoTerminator(block) => vec![
                Piece::Text("AArch64 block "),
                Piece::Number(block),
                Piece::Text(" has no terminator"),
            ],
            EmitError::TargetOutOfRange(target) => vec![
                Piece::Text("AArch64 branch target block "),
                Piece::Number(target as usize),
                Piece::Text(" is out of range"),
            ],
            EmitError::PhiWithoutEdge(value) => vec![
                Piece::Text("phi "),
                Piece::Value(value),
                Piece::Text(" has no incoming value for a predecessor"),
            ],
            EmitError::MissingPhiSource(value) => vec![
                Piece::Text("missing phi source register for "),
                Piece::Value(value),
            ],
            EmitError::MissingCondition(value) => vec![
                Piece::Text("missing branch condition "),
                Piece::Value(value),
            ],
            EmitError::IndirectCondition => vec![
                Piece::Text("AArch64 branches require a direct scalar comparison"),
            ],
            EmitError::OutOfReach => vec![Piece::Text("AArch64 displacement is out of reach")],
            EmitError::SpillParamCount => vec![
                Piece::Text("AArch64 f64 emitter supports at most 8 parameters"),
            ],
            EmitError::SpillFrameSize => vec![Piece::Text("AArch64 f64 spill frame is too large")],
            EmitError::SpillFrameReach => vec![
                Piece::Text("AArch64 f64 spill frame exceeds immediate offset range"),
            ],
            EmitError::SpillParamType => vec![
                Piece::Text("AArch64 f64 spill emitter requires f64 parameters"),
            ],
            EmitError::ComparisonNotBool(value) => vec![
                Piece::Text("comparison "),
                Piece::Value(value),
                Piece::Text(" does not produce bool"),
            ],
            EmitError::SpillValueType(value) => vec![
                Piece::Text("AArch64 f64 spill emitter does not support non-f64 value "),
                Piece::Value(value),
            ],
            EmitError::MissingLocation(value) => vec![
                Piece::Text("missing AArch64 location for value "),
                Piece::Value(value),
            ],
            EmitError::CallArguments => vec![
                Piece::Text("AArch64 libm calls require f64 arguments and result"),
            ],
            EmitError::SpillUnsupported(value) => vec![
                Piece::Text("AArch64 f64 spill emitter does not support the instruction of "),
                Piece::Value(value),
            ],
            EmitError::SpillResultType => vec![
                Piece::Text("AArch64 f64 spill emitter requires an f64 result"),
            ],
            EmitError::SpillPhiType(value) => vec![
                Piece::Text("AArch64 f64 spill emitter requires f64 phi "),
                Piece::Value(value),
            ],
            EmitError::ValueInRegister(value) => vec![
                Piece::Text("value "),
                Piece::Value(value),
                Piece::Text(" unexpectedly uses a register"),
            ],
            EmitError::SpillCondition => vec![
                Piece::Text("AArch64 f64 spill branches require a direct scalar comparison"),
            ],
            EmitError::SpillComparisonType => vec![
                Piece::Text("AArch64 f64 spill branches require f64 comparison operands"),
            ],
            EmitError::MixedParamCount(ty) => vec![
                Piece::Text("AArch64 mixed spill emitter supports at most 8 "),
                Piece::Type(ty),
                Piece::Text(" parameters"),
            ],
            EmitError::MixedFrameSize => vec![
                Piece::Text("AArch64 mixed spill frame is too large"),
            ],
            EmitError::MixedFrameReach => vec![
                Piece::Text("AArch64 mixed spill frame exceeds immediate offset range"),
            ],
            EmitError::MixedCall => vec![
                Piece::Text("AArch64 mixed spill emitter does not support calls or libm"),
            ],
            EmitError::NotF64(value) => vec![
                Piece::Text("value "),
                Piece::Value(value),
                Piece::Text(" is not f64"),
            ],
            EmitError::NotInteger(value) => vec![
                Piece::Text("value "),
                Piece::Value(value),
                Piece::Text(" is not an integer or bool"),
            ],
            EmitError::MixedArithmeticType(value) => vec![
                Piece::Text("mixed spill arithmetic has invalid type for "),
                Piece::Value(value),
            ],
            EmitError::MixedRemainderType => vec![
                Piece::Text("AArch64 mixed remainder requires an i64 result"),
            ],
            EmitError::MixedNegationType(value) => vec![
                Piece::Text("mixed spill negation has invalid type for "),
                Piece::Value(value),
            ],
            EmitError::MixedLogicalType(value) => vec![
                Piece::Text("mixed spill logical op has invalid type for "),
                Piece::Value(value),
            ],
            EmitError::MixedNotType(value) => vec![
                Piece::Text("mixed spill not has invalid type for "),
                Piece::Value(value),
            ],
            EmitError::MixedUnsupported(value) => vec![
                Piece::Text("AArch64 mixed spill emitter does not support the instruction of "),
                Piece::Value(value),
            ],
            EmitError::MixedResultType => vec![
                Piece::Text("AArch64 mixed spill emitter requires an f64 result"),
            ],
            EmitError::PhiUntyped(value) => vec![
                Piece::Text("phi "),
                Piece::Value(value),
                Piece::Text(" has no AArch64 IR type"),
            ],
            EmitError::PhiSourceUntyped(value) => vec![
                Piece::Text("phi source "),
                Piece::Value(value),
                Piece::Text(" has no AArch64 IR type"),
            ],
            EmitError::PhiSourceType(value) => vec![
                Piece::Text("phi "),
                Piece::Value(value),
                Piece::Text(" has mismatched source type"),
            ],
            EmitError::MixedCondition => vec![
                Piece::Text("AArch64 mixed spill branches require a direct scalar comparison"),
            ],
            EmitError::MixedConditionType => vec![
                Piece::Text("AArch64 mixed spill branch comparison must produce bool"),
            ],
            EmitError::OperandUntyped(value) => vec![
                Piece::Text("comparison operand "),
                Piece::Value(value),
                Piece::Text(" has no AArch64 IR type"),
            ],
            EmitError::MixedComparisonTypes => vec![
                Piece::Text("AArch64 mixed spill comparisons require matching operand types"),
            ],
            EmitError::I64Blocks => vec![
                Piece::Text("AArch64 i64 emitter currently requires one straight-line block"),
            ],
            EmitError::I64Params => vec![
                Piece::Text("AArch64 i64 emitter requires i64 parameters only"),
            ],
            EmitError::I64Terminator => vec![
                Piece::Text("AArch64 i64 emitter requires a return terminator"),
            ],
            EmitError::I64ResultType => vec![
                Piece::Text("AArch64 i64 emitter requires an i64 result"),
            ],
            EmitError::I64ParamCount => vec![
                Piece::Text("AArch64 i64 emitter supports at most 8 parameters"),
            ],
            EmitError::I64OutOfRegisters => vec![
                Piece::Text("AArch64 i64 emitter ran out of X-register temporaries"),
            ],
            EmitError::I64Unsupported(value) => vec![
                Piece::Text("AArch64 i64 emitter does not support the instruction of "),
                Piece::Value(value),
            ],
            EmitError::I64FrameSize => vec![Piece::Text("AArch64 i64 spill frame is too large")],
        }
    }

    /// A one-line message.
    pub fn message(&self) -> (r: String)
        ensures
            r@ == self.text(),
    {
        spell(&self.parts())
    }
}

} // verus!
