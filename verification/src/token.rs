//! Tokens, and where they stand in the source.

use vstd::prelude::*;

verus! {

/// A place in a source: line and column, both counted from 1.
#[derive(Clone, Copy, Debug, PartialEq, Eq, Structural)]
pub struct Position {
    pub line: u32,
    pub column: u32,
}

/// The stretch of source between two positions.
#[derive(Clone, Copy, Debug, PartialEq, Eq, Structural)]
pub struct Span {
    pub start: Position,
    pub end: Position,
}

/// The first position of every source.
pub open spec fn first_position() -> Position {
    Position { line: 1, column: 1 }
}

/// The empty span at the start of every source.
pub open spec fn first_span() -> Span {
    Span { start: first_position(), end: first_position() }
}

impl Default for Span {
    fn default() -> (span: Self)
        ensures
            span == first_span(),
    {
        Span { start: Position { line: 1, column: 1 }, end: Position { line: 1, column: 1 } }
    }
}

/// The kinds of token that a script is made of.
#[derive(Clone, Copy, Debug, PartialEq, Eq, Structural)]
pub enum Token {
    Error,
    Whitespace,
    NewLine,
    NewLineIndented,
    /// A line break that the script asks to be ignored.
    NewLineSkipped,
    CommentSingle,
    CommentMulti,
    Number,
    Str,
    Id,
    // Symbols
    Colon,
    Separator,
    Dot,
    Ellipsis,
    ParenOpen,
    ParenClose,
    Function,
    ListStart,
    ListEnd,
    MapStart,
    MapEnd,
    Placeholder,
    Range,
    RangeInclusive,
    // Operators
    Add,
    Subtract,
    Multiply,
    Divide,
    Modulo,
    Assign,
    AssignAdd,
    AssignSubtract,
    AssignMultiply,
    AssignDivide,
    AssignModulo,
    Equal,
    NotEqual,
    Greater,
    GreaterOrEqual,
    Less,
    LessOrEqual,
    // Keywords
    And,
    Break,
    Catch,
    Continue,
    Copy,
    Debug,
    Else,
    ElseIf,
    Export,
    False,
    Finally,
    For,
    From,
    If,
    Import,
    In,
    Loop,
    Match,
    Not,
    Num2,
    Num4,
    Or,
    Return,
    Then,
    True,
    Try,
    Until,
    While,
    Yield,
}

/// A token as it stands in a source.
#[derive(Clone, Debug, PartialEq)]
pub struct Lexeme {
    pub token: Token,
    /// The source text of the token.
    pub text: String,
    pub span: Span,
    /// The indentation that the last new line token, up to this one, was followed by.
    pub indent: usize,
    /// The value of a number literal, as the bits of a double precision number. `None` for every
    /// other token, and for a literal that has no value.
    pub number: Option<u64>,
}

/// What a [`Lexeme`] holds.
pub struct LexemeView {
    pub token: Token,
    pub text: Seq<char>,
    pub span: Span,
    pub indent: usize,
    pub number: Option<u64>,
}

impl View for Lexeme {
    type V = LexemeView;

    open spec fn view(&self) -> LexemeView {
        LexemeView {
            token: self.token,
            text: self.text@,
            span: self.span,
            indent: self.indent,
            number: self.number,
        }
    }
}

} // verus!
