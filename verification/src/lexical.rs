//! Tokens and the spans that locate them in the source text.
use vstd::prelude::*;

verus! {

/// A half-open byte range `[start, end)` into the source text.
#[derive(Debug, Clone, Copy, PartialEq, Eq, Structural)]
pub struct SourceSpan {
    pub start: usize,
    pub end: usize,
}

impl SourceSpan {
    /// The span that starts where `self` starts and ends where `last` ends.
    pub fn through(&self, last: &SourceSpan) -> (r: SourceSpan)
        ensures
            r.start == self.start,
            r.end == last.end,
    {
        SourceSpan { start: self.start, end: last.end }
    }
}

#[derive(Debug, Clone, Copy, PartialEq, Eq, Structural)]
pub enum TokenKind {
    // Variable textual
    Identifier,
    // Literals
    IntegerLiteral,
    FloatingLiteral,
    StringLiteral,
    BooleanLiteral,
    // Structural keywords
    Artifact,
    Let,
    Struct,
    Enum,
    Fn,
    Public,
    Private,
    Return,
    When,
    Esig,
    Import,
    As,
    Module,
    Publish,
    Bind,
    To,
    Entry,
    This,
    // Operators
    FieldAccess,
    Not,
    Minus,
    Multiply,
    Divide,
    Remainder,
    Plus,
    Less,
    LessEqual,
    Greater,
    GreaterEqual,
    Equal,
    NotEqual,
    And,
    Or,
    Pipeline,
    // Structural symbols
    Association,
    Colon,
    Qualification,
    ReturnType,
    Correspondence,
    LeftParenthesis,
    RightParenthesis,
    LeftBrace,
    RightBrace,
    Comma,
    Semicolon,
}

/// A token: its kind, the text it was read from, and where that text lies.
#[derive(Debug, Clone, Copy, PartialEq, Eq)]
pub struct Token<'source> {
    pub kind: TokenKind,
    pub lexeme: &'source str,
    pub span: SourceSpan,
}

/// The tokens of one source text, in order.
pub type TokenSequence<'source> = Vec<Token<'source>>;

} // verus!
