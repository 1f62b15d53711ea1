//! The compiled form of a program: instructions, constants, value shapes
//! and the map back to source spans.
use vstd::prelude::*;

use crate::lexical::SourceSpan;
use crate::semantic::{FunctionId, SignatureSymbol};

verus! {

// --- identities ---
#[derive(Debug, Clone, Copy, PartialEq, Eq, Structural)]
pub struct ConstantId(pub usize);
#[derive(Debug, Clone, Copy, PartialEq, Eq, Structural)]
pub struct ExternalSymbolId(pub usize);
#[derive(Debug, Clone, Copy, PartialEq, Eq, Structural)]
pub struct CompiledValueShapeId(pub usize);

#[derive(Debug, Clone, Copy, PartialEq, Eq, Structural)]
pub struct ParameterSlot(pub usize);
#[derive(Debug, Clone, Copy, PartialEq, Eq, Structural)]
pub struct LocalSlot(pub usize);
#[derive(Debug, Clone, Copy, PartialEq, Eq, Structural)]
pub struct InstructionIndex(pub usize);
#[derive(Debug, Clone, Copy, PartialEq, Eq, Structural)]
pub struct FieldIndex(pub usize);
#[derive(Debug, Clone, Copy, PartialEq, Eq, Structural)]
pub struct VariantDiscriminant(pub usize);

#[derive(Debug, Clone, Copy, PartialEq, Eq, Structural)]
pub enum NumericKind {
    Int8,
    Int16,
    Int32,
    Int64,
    Int128,

    Uint8,
    Uint16,
    Uint32,
    Uint64,
    Uint128,

    Float32,
    Float64,
}

// --- boundary ---
pub enum CompiledValueShape {
    Boolean,

    Int8,
    Int16,
    Int32,
    Int64,
    Int128,

    Uint8,
    Uint16,
    Uint32,
    Uint64,
    Uint128,

    Float32,
    Float64,

    String,
    Dynamic,

    Struct {
        fields: Vec<CompiledValueShapeId>,
    },

    Enum {
        variants: Vec<CompiledEnumValueShape>,
    },
}

pub enum CompiledEnumValueShape {
    Simple,
    Associated(CompiledValueShapeId),
    Structured { fields: Vec<CompiledValueShapeId> },
}

// --- equality ---
pub enum EqualityRule {
    Numeric(NumericKind),
    Boolean,
    String,
    Composite(CompositeEqualityPlan),
}

pub enum CompositeEqualityPlan {
    Struct {
        fields: Vec<EqualityRule>,
    },
    Enum {
        variants: Vec<EnumEqualityPayloadPlan>,
    },
}

pub enum EnumEqualityPayloadPlan {
    Simple,
    Associated(EqualityRule),
    Structured { fields: Vec<EqualityRule> },
}

// --- instructions ---

pub enum Instruction {
    // Core data movement
    LoadConstant(ConstantId),
    LoadParameter(ParameterSlot),
    LoadLocal(LocalSlot),
    StoreLocal(LocalSlot),

    // Calls
    Call(FunctionId),
    CallExternal(ExternalSymbolId),

    // Fixed numeric
    Negate(NumericKind),
    Add(NumericKind),
    Subtract(NumericKind),
    Multiply(NumericKind),
    Divide(NumericKind),
    Remainder(NumericKind),

    EqualNumeric(NumericKind),
    NotEqualNumeric(NumericKind),
    LessNumeric(NumericKind),
    LessEqualNumeric(NumericKind),
    GreaterNumeric(NumericKind),
    GreaterEqualNumeric(NumericKind),

    // Dynamic numeric
    LiftDynamic(NumericKind),
    DynamicNegate,
    DynamicAdd,
    DynamicSubtract,
    DynamicMultiply,
    DynamicDivide,
    DynamicRemainder,

    // Control flow
    Jump(InstructionIndex),
    JumpIfFalse(InstructionIndex),
    Discard,
    Return,

    // Explicit conversions
    ConvertNumeric {
        source: NumericKind,
        target: NumericKind,
    },
    ConvertDynamic(NumericKind),
    NumericToString(NumericKind),
    DynamicToString,

    // Scalar bool / string
    NotBoolean,
    EqualBoolean,
    NotEqualBoolean,
    EqualString,
    NotEqualString,

    // Composite mechanics
    ConstructStruct {
        field_order: Vec<FieldIndex>,
    },

    GetField(FieldIndex),

    ConstructEnumSimple(VariantDiscriminant),

    ConstructEnumAssociated(VariantDiscriminant),

    ConstructEnumStructured {
        variant: VariantDiscriminant,
        field_order: Vec<FieldIndex>,
    },

    TestVariant(VariantDiscriminant),

    ExtractEnumAssociated,

    ExtractEnumStructured {
        fields: Vec<FieldIndex>,
    },

    // Structural equality
    EqualComposite(CompositeEqualityPlan),

    NotEqualComposite(CompositeEqualityPlan),
}

// --- storage ---
pub struct ExternalSymbol {
    pub symbol: SignatureSymbol,
    pub parameter_count: usize,
    pub result_shape: CompiledValueShapeId,
}

pub enum Constant {
    Boolean(bool),
    String(String),

    Int8(i8),
    Int16(i16),
    Int32(i32),
    Int64(i64),
    Int128(i128),

    Uint8(u8),
    Uint16(u16),
    Uint32(u32),
    Uint64(u64),
    Uint128(u128),

    /// IEEE-754 binary32 bit pattern.
    Float32(u32),
    /// IEEE-754 binary64 bit pattern.
    Float64(u64),

    Dynamic(DynamicConstant),
}

pub enum DynamicConstant {
    Integer { negative: bool, magnitude: Vec<u8> },
    /// IEEE-754 binary32 bit pattern.
    Float32(u32),
    /// IEEE-754 binary64 bit pattern.
    Float64(u64),
}

// --- source map ---
pub struct SourceMap {
    pub functions: Vec<Vec<SourceSpan>>,
}

// --- program ---
pub struct CompiledProgram {
    pub functions: Vec<CompiledFunction>,
    pub entry_point: FunctionId,
    pub entry_parameter_shapes: Vec<CompiledValueShapeId>,
    pub constants: Vec<Constant>,
    pub external_symbols: Vec<ExternalSymbol>,
    pub value_shapes: Vec<CompiledValueShape>,
    pub source_map: SourceMap,
}

pub struct CompiledFunction {
    pub parameter_count: usize,
    pub local_count: usize,
    pub max_operand_depth: usize,
    pub instructions: Vec<Instruction>,
}

} // verus!
