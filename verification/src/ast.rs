//! The syntax tree that the parser hands to semantic analysis. Every name
//! borrows its lexeme from the source text.
use vstd::prelude::*;

use crate::lexical::SourceSpan;

verus! {

// --- Foundational pieces ---

/// A name as written in the source, with where it was written.
pub struct Identifier<'source> {
    pub lexeme: &'source str,
    pub span: SourceSpan,
}

/// `Qualifier::Name`.
pub struct QualifiedName<'source> {
    pub qualifier: Identifier<'source>,
    pub name: Identifier<'source>,
}

pub enum Visibility {
    Public,
    Private,
}

/// `type_ident name`.
pub struct TypedBinding<'source> {
    pub type_ident: Identifier<'source>,
    pub name: Identifier<'source>,
}

/// `import Module::Symbol [as Alias];`
pub struct ImportDeclaration<'source> {
    pub symbol: QualifiedName<'source>,
    pub alias: Option<Identifier<'source>>,
}

// --- Expressions ---

pub struct Expression<'source> {
    pub kind: ExpressionKind<'source>,
    pub span: SourceSpan,
}

pub enum ExpressionKind<'source> {
    Literal { kind: LiteralKind, lexeme: &'source str },
    Identifier(Identifier<'source>),
    Unary { operator: UnaryOperator, operand: Box<Expression<'source>> },
    Binary {
        left: Box<Expression<'source>>,
        operator: BinaryOperator,
        right: Box<Expression<'source>>,
    },
    FieldAccess { receiver: Box<Expression<'source>>, field: Identifier<'source> },
    FunctionCall(FunctionCall<'source>),
    StructConstruction { type_ident: Identifier<'source>, fields: Vec<FieldInitializer<'source>> },
    EnumConstruction(EnumConstruction<'source>),
    Pipeline(Pipeline<'source>),
    When(WhenExpression<'source>),
}

#[derive(Clone, Copy, PartialEq, Eq, Structural)]
pub enum LiteralKind {
    Integer,
    Floating,
    String,
    Boolean,
}

#[derive(Clone, Copy, PartialEq, Eq, Structural)]
pub enum UnaryOperator {
    Not,
    Negate,
}

#[derive(Clone, Copy, PartialEq, Eq, Structural)]
pub enum BinaryOperator {
    Multiply,
    Divide,
    Remainder,
    Add,
    Subtract,
    Less,
    LessEqual,
    Greater,
    GreaterEqual,
    Equal,
    NotEqual,
    And,
    Or,
}

pub struct FunctionCall<'source> {
    pub callee: Identifier<'source>,
    pub arguments: Vec<Expression<'source>>,
}

pub struct FieldInitializer<'source> {
    pub name: Identifier<'source>,
    pub value: Expression<'source>,
}

pub enum EnumConstruction<'source> {
    Simple { variant: QualifiedName<'source> },
    Associated { variant: QualifiedName<'source>, value: Box<Expression<'source>> },
    Structured { variant: QualifiedName<'source>, fields: Vec<FieldInitializer<'source>> },
}

pub struct Pipeline<'source> {
    pub source: Box<Expression<'source>>,
    pub stages: Vec<PipelineStage<'source>>,
}

pub struct PipelineStage<'source> {
    pub callee: Identifier<'source>,
    pub additional_arguments: Vec<Expression<'source>>,
}

// --- `when` ---

pub struct WhenExpression<'source> {
    pub subject: Box<Expression<'source>>,
    pub correspondences: Vec<WhenCorrespondence<'source>>,
}

pub struct WhenCorrespondence<'source> {
    pub pattern: WhenPattern<'source>,
    pub result: Expression<'source>,
}

pub enum WhenPattern<'source> {
    Simple { variant: QualifiedName<'source> },
    Associated { variant: QualifiedName<'source>, binding: TypedBinding<'source> },
    Structured { variant: QualifiedName<'source>, fields: Vec<PatternField<'source>> },
}

pub struct PatternField<'source> {
    pub field: Identifier<'source>,
    pub binding: TypedBinding<'source>,
}

// --- Functions ---

pub struct FunctionDefinition<'source> {
    pub visibility: Visibility,
    pub name: Identifier<'source>,
    pub parameters: Vec<Parameter<'source>>,
    pub result_type: Identifier<'source>,
    pub satisfaction: Option<QualifiedName<'source>>,
    pub body: FunctionBody<'source>,
}

pub enum Parameter<'source> {
    Value(TypedBinding<'source>),
    SignatureDependency { signature: QualifiedName<'source>, name: Identifier<'source> },
}

pub struct FunctionBody<'source> {
    pub statements: Vec<BodyStatement<'source>>,
    pub result: Expression<'source>,
}

pub enum BodyStatement<'source> {
    Let(LetBinding<'source>),
    Operation(OperationStatement<'source>),
}

pub struct LetBinding<'source> {
    pub binding: TypedBinding<'source>,
    pub value: Expression<'source>,
}

pub enum OperationStatement<'source> {
    FunctionCall(FunctionCall<'source>),
    Pipeline(Pipeline<'source>),
}

// --- Local types ---

pub struct StructDefinition<'source> {
    pub name: Identifier<'source>,
    pub fields: Vec<FieldDefinition<'source>>,
}

pub struct FieldDefinition<'source> {
    pub type_ident: Identifier<'source>,
    pub name: Identifier<'source>,
}

pub struct EnumDefinition<'source> {
    pub name: Identifier<'source>,
    pub variants: Vec<EnumVariant<'source>>,
}

pub enum EnumVariant<'source> {
    Simple { name: Identifier<'source> },
    Associated { name: Identifier<'source>, type_ident: Identifier<'source> },
    Structured { name: Identifier<'source>, fields: Vec<FieldDefinition<'source>> },
}

impl<'source> EnumVariant<'source> {
    /// The variant's own name, whatever its payload.
    pub fn name(&self) -> (r: &Identifier<'source>)
        ensures
            r == self.spec_name(),
    {
        match self {
            EnumVariant::Simple { name } => name,
            EnumVariant::Associated { name, .. } => name,
            EnumVariant::Structured { name, .. } => name,
        }
    }

    pub open spec fn spec_name(&self) -> &Identifier<'source> {
        match self {
            EnumVariant::Simple { name } => name,
            EnumVariant::Associated { name, .. } => name,
            EnumVariant::Structured { name, .. } => name,
        }
    }
}

// --- Program ---

pub struct Program<'source> {
    pub imports: Vec<ImportDeclaration<'source>>,
    pub declarations: Vec<Declaration<'source>>,
}

pub enum Declaration<'source> {
    Struct(StructDefinition<'source>),
    Enum(EnumDefinition<'source>),
    Function(FunctionDefinition<'source>),
}

} // verus!
