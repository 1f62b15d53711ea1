//! Everything that can go wrong: while reading the source, while analysing
//! it, and while running the compiled program.
use vstd::prelude::*;

use crate::ast::{BinaryOperator, UnaryOperator};
use crate::catalog::TypeSymbol;
use crate::compiled::CompiledProgram;
use crate::lexical::SourceSpan;
use crate::semantic::{NativeType, SignatureSymbol};

verus! {
#[derive(Debug, Clone, Copy, PartialEq, Eq, Structural)]
pub enum LexicalFailure {
    UnrecognizedCharacter(char),
    InvalidIdentifier,
    MalformedNumericLiteral,
    UnterminatedStringLiteral,
    InvalidStringEscape(char),
    PhysicalNewlineInStringLiteral,
}

#[derive(Debug, Clone, Copy, PartialEq, Eq, Structural)]
pub enum SyntaxFailure {
    MalformedDeclaration,
    MalformedExpression,
    InvalidImportPlacement,
    MissingFinalReturn,
    InvalidReturnPlacement,
    MissingPublicFunction,
    MultiplePublicFunctions,
    EmptyEnum,
    InvalidOperationStatement,
    InvalidThisUsage,
}

pub enum SemanticFailure {
    Resolution(ResolutionFailure),
    Declaration(DeclarationFailure),
    TypeChecking(TypeCheckingFailure),
    Call(CallFailure),
    Composite(CompositeFailure),
    When(WhenFailure),
    SignatureMismatch {
        signature: SignatureSymbol,
        mismatch: SignatureMismatchKind,
    },
}

pub enum ResolutionFailure {
    ImportedSymbolNotFound { module: String, name: String },
    UnknownType { name: String },
    UnknownValueSymbol { name: String },
    UnknownSignature(SignatureSymbol),
}

pub enum DeclarationFailure {
    TypeNameCollision { name: String },
    DuplicateFunction { name: String },
    DuplicateField { name: String },
    DuplicateVariant { name: String },
    BindingNameCollision { name: String },
    InvalidNamingConvention { role: SemanticNameRole },
    RecursiveTypeCycle,
}

pub enum SemanticNameRole {
    Type,
    Variant,
    Field,
    Function,
    Binding,
    SignatureAlias,
    SignatureDependency,
}

pub enum SemanticTypeDescriptor {
    Native(NativeType),
    Local(String),
    Shared(TypeSymbol),
}

pub enum TypeCheckingFailure {
    BindingInitialization {
        expected: SemanticTypeDescriptor,
        actual: SemanticTypeDescriptor,
    },
    FunctionResult {
        expected: SemanticTypeDescriptor,
        actual: SemanticTypeDescriptor,
    },
    NumericLiteralNotRepresentable {
        expected: SemanticTypeDescriptor,
    },
    UnaryOperator {
        operator: UnaryOperator,
        operand: SemanticTypeDescriptor,
    },
    ArithmeticOperator {
        operator: BinaryOperator,
        left: SemanticTypeDescriptor,
        right: SemanticTypeDescriptor,
    },
    LogicalOperator {
        operator: BinaryOperator,
        left: SemanticTypeDescriptor,
        right: SemanticTypeDescriptor,
    },
    Comparison {
        operator: BinaryOperator,
        left: SemanticTypeDescriptor,
        right: SemanticTypeDescriptor,
    },
    InvalidConversion {
        source: SemanticTypeDescriptor,
        target: SemanticTypeDescriptor,
    },
}

pub enum SemanticArgumentKind {
    Value,
    SignatureDependency,
}

pub enum CallFailure {
    FunctionNotFound {
        name: String,
    },
    AmbiguousTarget {
        name: String,
    },
    ArityMismatch {
        expected: usize,
        actual: usize,
    },
    ArgumentKindMismatch {
        position: usize,
        expected: SemanticArgumentKind,
        actual: SemanticArgumentKind,
    },
    ArgumentTypeMismatch {
        position: usize,
        expected: SemanticTypeDescriptor,
        actual: SemanticTypeDescriptor,
    },
    SignatureDependencyMismatch {
        position: usize,
        expected: SignatureSymbol,
        actual: SignatureSymbol,
    },
    FunctionCallCycle,
}

pub enum EnumPayloadShape {
    Simple,
    Associated,
    Structured,
}

pub enum CompositeFailure {
    ExpectedStruct {
        actual: SemanticTypeDescriptor,
    },
    ExpectedEnum {
        actual: SemanticTypeDescriptor,
    },
    FieldAccessType {
        actual: SemanticTypeDescriptor,
    },
    FieldNotFound {
        field: String,
    },
    MissingField {
        field: String,
    },
    DuplicateFieldInitializer {
        field: String,
    },
    FieldTypeMismatch {
        field: String,
        expected: SemanticTypeDescriptor,
        actual: SemanticTypeDescriptor,
    },
    VariantNotFound {
        variant: String,
    },
    VariantPayloadShapeMismatch {
        expected: EnumPayloadShape,
        actual: EnumPayloadShape,
    },
    AssociatedPayloadTypeMismatch {
        expected: SemanticTypeDescriptor,
        actual: SemanticTypeDescriptor,
    },
}

pub enum WhenFailure {
    SubjectNotEnum {
        actual: SemanticTypeDescriptor,
    },
    PatternEnumMismatch {
        expected: SemanticTypeDescriptor,
        actual: SemanticTypeDescriptor,
    },
    VariantNotFound {
        variant: String,
    },
    DuplicateVariantCorrespondence {
        variant: String,
    },
    NonExhaustive {
        missing: Vec<String>,
    },
    PayloadShapeMismatch {
        expected: EnumPayloadShape,
        actual: EnumPayloadShape,
    },
    FieldNotFound {
        field: String,
    },
    DuplicateField {
        field: String,
    },
    MissingField {
        field: String,
    },
    ExtractionTypeMismatch {
        expected: SemanticTypeDescriptor,
        actual: SemanticTypeDescriptor,
    },
    BranchResultTypeMismatch {
        expected: SemanticTypeDescriptor,
        actual: SemanticTypeDescriptor,
    },
}

pub enum SignatureMismatchKind {
    FunctionName,
    ParameterCount {
        expected: usize,
        actual: usize,
    },
    ParameterKind {
        position: usize,
        expected: SemanticArgumentKind,
        actual: SemanticArgumentKind,
    },
    ValueParameterType {
        position: usize,
        expected: SemanticTypeDescriptor,
        actual: SemanticTypeDescriptor,
    },
    SignatureDependency {
        position: usize,
        expected: SignatureSymbol,
        actual: SignatureSymbol,
    },
    ResultType {
        expected: SemanticTypeDescriptor,
        actual: SemanticTypeDescriptor,
    },
}

pub struct ExternalCapabilityFailure {
    pub code: String,
}

pub type CompileOutcome = Result<CompiledProgram, CompileFailure>;

pub struct CompileFailure {
    pub kind: CompileFailureKind,
    pub source_span: SourceSpan,
}

pub enum CompileFailureKind {
    Lexical(LexicalFailure),
    Syntax(SyntaxFailure),
    Semantic(SemanticFailure),
}

pub struct ExecutionFailure {
    pub kind: ExecutionFailureKind,
    pub source_span: Option<SourceSpan>,
}

pub enum ExecutionFailureKind {
    Compilation(CompileFailureKind),
    Invocation(InvocationFailure),
    Evaluation(EvaluationFailure),
    External(ExternalExecutionFailure),
}

pub enum InvocationFailure {
    ArityMismatch { expected: usize, actual: usize },
    ArgumentShapeMismatch { position: usize },
}

pub enum EvaluationFailure {
    Overflow,
    DivisionByZero,
    Conversion,
    DynamicNumericType,
}

pub enum ExternalExecutionFailure {
    MissingBinding {
        signature: SignatureSymbol,
    },
    CapabilityFailure {
        signature: SignatureSymbol,
        failure: ExternalCapabilityFailure,
    },
    ResultContractMismatch {
        signature: SignatureSymbol,
    },
}

} // verus!
