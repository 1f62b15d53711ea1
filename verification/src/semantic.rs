//! The analysed program: resolved types, signatures, functions and typed
//! expressions, every reference an index into the program's own tables.
use vstd::prelude::*;

use crate::ast::{BinaryOperator, UnaryOperator};
use crate::lexical::SourceSpan;

verus! {

/// `Module::Name` of a signature that the application provides.
#[derive(Debug, PartialEq, Eq, Hash)]
pub struct SignatureSymbol {
    pub module: String,
    pub name: String,
}

// --- Identities ---

#[derive(Debug, Clone, Copy, PartialEq, Eq, Structural)]
pub struct TypeId(pub usize);

#[derive(Debug, Clone, Copy, PartialEq, Eq, Structural)]
pub struct FunctionId(pub usize);

#[derive(Debug, Clone, Copy, PartialEq, Eq, Structural)]
pub struct BindingId(pub usize);

#[derive(Debug, Clone, Copy, PartialEq, Eq, Structural)]
pub struct FieldId(pub usize);

#[derive(Debug, Clone, Copy, PartialEq, Eq, Structural)]
pub struct VariantId(pub usize);

#[derive(Debug, Clone, Copy, PartialEq, Eq, Structural)]
pub struct SignatureId(pub usize);

#[derive(Debug, Clone, Copy, PartialEq, Eq, Structural)]
pub struct SignatureBindingId(pub usize);

// --- Structure ---

#[derive(Debug, Clone, Copy, PartialEq, Eq, Structural)]
pub enum NativeType {
    Int,
    Float,
    Bool,
    String,
    Dynamic,
    Int8,
    Int16,
    Int32,
    Int64,
    Int128,
    Uint8,
    Uint16,
    Uint32,
    Uint64,
    Uint128,
    Float32,
    Float64,
}

pub enum SemanticType {
    Native(NativeType),
    Struct { fields: Vec<SemanticField> },
    Enum { variants: Vec<SemanticVariant> },
}

pub struct SemanticField {
    pub type_id: TypeId,
}

pub enum SemanticVariant {
    Simple,
    Associated { type_id: TypeId },
    Structured { fields: Vec<SemanticField> },
}

pub struct SemanticBinding {
    pub type_id: TypeId,
}

pub struct SemanticSignatureBinding {
    pub signature: SignatureId,
}

pub enum SemanticParameter {
    Value(BindingId),
    SignatureDependency(SignatureBindingId),
}

pub enum SemanticSignatureParameter {
    Value(TypeId),
    SignatureDependency(SignatureId),
}

pub struct SemanticSignature {
    pub symbol: SignatureSymbol,
    pub parameters: Vec<SemanticSignatureParameter>,
    pub result_type: TypeId,
}

pub struct SemanticFunction {
    pub parameters: Vec<SemanticParameter>,
    pub bindings: Vec<SemanticBinding>,
    pub signature_bindings: Vec<SemanticSignatureBinding>,
    pub result_type: TypeId,
    pub satisfaction: Option<SignatureId>,
    pub body: SemanticFunctionBody,
}

pub struct SemanticProgram {
    pub types: Vec<SemanticType>,
    pub signatures: Vec<SemanticSignature>,
    pub functions: Vec<SemanticFunction>,
    pub entry_function: FunctionId,
}

// --- Expressions ---

pub struct SemanticFunctionBody {
    pub statements: Vec<SemanticStatement>,
    pub result: SemanticExpression,
}

pub enum SemanticStatement {
    Bind { binding: BindingId, value: SemanticExpression },
    Operation(SemanticExpression),
}

pub struct SemanticExpression {
    pub type_id: TypeId,
    pub kind: SemanticExpressionKind,
    pub span: SourceSpan,
}

pub enum SemanticExpressionKind {
    Literal(SemanticLiteral),
    Binding(BindingId),
    Unary { operator: UnaryOperator, operand: Box<SemanticExpression> },
    Binary { left: Box<SemanticExpression>, operator: BinaryOperator, right: Box<SemanticExpression> },
    Conversion { operand: Box<SemanticExpression> },
    FieldAccess { receiver: Box<SemanticExpression>, field: FieldId },
    Call(SemanticCall),
    StructConstruction { fields: Vec<SemanticFieldValue> },
    EnumConstruction { variant: VariantId, payload: SemanticEnumPayload },
    When(SemanticWhen),
}

/// A literal's value. A floating literal is kept as the decimal text it was
/// written with; its binary value is a matter for the code generator.
pub enum SemanticLiteral {
    Integer(String),
    Floating(String),
    Boolean(bool),
    String(String),
}

pub enum SemanticCallTarget {
    Internal(FunctionId),
    DirectSignature(SignatureId),
    SignatureDependency(SignatureBindingId),
}

pub enum SemanticArgument {
    Value(SemanticExpression),
    SignatureDependency(SignatureBindingId),
}

pub struct SemanticCall {
    pub target: SemanticCallTarget,
    pub arguments: Vec<SemanticArgument>,
}

pub struct SemanticFieldValue {
    pub field: FieldId,
    pub value: SemanticExpression,
}

pub enum SemanticEnumPayload {
    Simple,
    Associated { value: Box<SemanticExpression> },
    Structured { fields: Vec<SemanticFieldValue> },
}

pub struct SemanticWhen {
    pub subject: Box<SemanticExpression>,
    pub branches: Vec<SemanticWhenBranch>,
}

pub struct SemanticWhenBranch {
    pub variant: VariantId,
    pub extraction: SemanticVariantExtraction,
    pub result: SemanticExpression,
}

pub enum SemanticVariantExtraction {
    Simple,
    Associated { binding: BindingId },
    Structured { fields: Vec<SemanticFieldBinding> },
}

pub struct SemanticFieldBinding {
    pub field: FieldId,
    pub binding: BindingId,
}

} // verus!
