//! The tokens of a source.
//!
//! The `koto_lexer` crate cuts a source into tokens. Its lexer is opaque here; what it gives out
//! is named by the functions below, over the source and the number of tokens taken before.
//!
//! A backslash at the end of a line asks for the line break to be skipped. For the lexer that is an
//! error; here it is a token of its own, behind which the rest of the source is cut anew.

use crate::text;
use crate::token::{Lexeme, LexemeView, Position, Span, Token};
use koto_lexer::{Lexer, Token as SourceToken};
use vstd::prelude::*;
use vstd::string::*;
use vstd::utf8::{decode_utf8, encode_utf8, encode_utf8_decode_utf8};

verus! {

/// The lexer of the `koto_lexer` crate: a source, and how far it has been read.
#[verifier::external_type_specification]
#[verifier::external_body]
pub struct ExLexer<'a>(koto_lexer::Lexer<'a>);

/// The kinds of token that the `koto_lexer` crate tells apart.
#[verifier::external_type_specification]
pub struct ExSourceToken(SourceToken);

/// The source that a lexer reads.
pub uninterp spec fn lexer_source(lexer: Lexer<'_>) -> Seq<char>;

/// The number of tokens that have been taken from a lexer.
pub uninterp spec fn lexer_taken(lexer: Lexer<'_>) -> nat;

/// What `Lexer::next` gives when `taken` tokens of the source have been taken.
pub uninterp spec fn next_token(source: Seq<char>, taken: nat) -> Option<SourceToken>;

/// The number of bytes that the first `taken` tokens of the source cover, as
/// `Lexer::source_position` gives it.
pub uninterp spec fn end_position(source: Seq<char>, taken: nat) -> nat;

/// What `Lexer::span` gives when `taken` tokens of the source have been taken.
pub uninterp spec fn last_span(source: Seq<char>, taken: nat) -> Span;

/// What `Lexer::current_indent` gives when `taken` tokens of the source have been taken.
pub uninterp spec fn last_indent(source: Seq<char>, taken: nat) -> usize;

/// `Lexer::new`: a lexer at the start of a source.
///
/// The lexer counts lines and columns in 32 bits, so a source must be shorter than that.
#[verifier::external_body]
fn new_lexer<'a>(source: &'a str) -> (lexer: Lexer<'a>)
    requires
        encode_utf8(source@).len() < u32::MAX,
    ensures
        lexer_source(lexer) == source@,
        lexer_taken(lexer) == 0,
        end_position(lexer_source(lexer), lexer_taken(lexer)) == 0,
{
    Lexer::new(source)
}

/// `Lexer::next`: takes the next token, if there is one. The lexer only moves forwards in the
/// source. A token that is not an error covers at least a byte of it, and where there is no token
/// the source has been covered. Behind an error the lexer may not move on.
#[verifier::external_body]
fn take_token<'a>(lexer: &mut Lexer<'a>) -> (token: Option<SourceToken>)
    requires
        encode_utf8(lexer_source(*old(lexer))).len() < u32::MAX,
    ensures
        token == next_token(lexer_source(*old(lexer)), lexer_taken(*old(lexer))),
        lexer_source(*final(lexer)) == lexer_source(*old(lexer)),
        lexer_taken(*final(lexer)) == lexer_taken(*old(lexer)) + (if token is Some {
            1int
        } else {
            0int
        }),
        token is Some ==> end_position(lexer_source(*old(lexer)), lexer_taken(*old(lexer)))
            <= end_position(lexer_source(*old(lexer)), lexer_taken(*old(lexer)) + 1)
            <= encode_utf8(lexer_source(*old(lexer))).len(),
        token is Some && token != Some(SourceToken::Error) ==> end_position(
            lexer_source(*old(lexer)),
            lexer_taken(*old(lexer)),
        ) < end_position(lexer_source(*old(lexer)), lexer_taken(*old(lexer)) + 1),
        token is None ==> end_position(lexer_source(*old(lexer)), lexer_taken(*old(lexer)))
            == encode_utf8(lexer_source(*old(lexer))).len(),
{
    lexer.next()
}

/// `Lexer::source_position`: the number of bytes that the tokens which were taken cover.
#[verifier::external_body]
fn taken_end<'a>(lexer: &Lexer<'a>) -> (position: usize)
    ensures
        position == end_position(lexer_source(*lexer), lexer_taken(*lexer)),
{
    lexer.source_position()
}

/// `Lexer::span`: where the last token that was taken stands. Each line up to its end, but for the
/// first, takes a byte of the source that has been covered.
#[verifier::external_body]
fn taken_span<'a>(lexer: &Lexer<'a>) -> (span: Span)
    ensures
        span == last_span(lexer_source(*lexer), lexer_taken(*lexer)),
        span.start.line <= span.end.line <= end_position(
            lexer_source(*lexer),
            lexer_taken(*lexer),
        ) + 1,
{
    let span = lexer.span();
    Span {
        start: Position { line: span.start.line, column: span.start.column },
        end: Position { line: span.end.line, column: span.end.column },
    }
}

/// `Lexer::current_indent`: the indentation behind the last line break that was taken, or 0.
#[verifier::external_body]
fn taken_indent<'a>(lexer: &Lexer<'a>) -> (indent: usize)
    ensures
        indent == last_indent(lexer_source(*lexer), lexer_taken(*lexer)),
{
    lexer.current_indent()
}

/// `Lexer::slice`: the text of the last token that was taken, unless it is an error. It is the
/// part of the source that the token covers; that of a string literal has its quotes.
#[verifier::external_body]
fn taken_text<'a>(lexer: &Lexer<'a>) -> (text: &'a str)
    requires
        lexer_taken(*lexer) > 0,
        next_token(lexer_source(*lexer), (lexer_taken(*lexer) - 1) as nat) is Some,
        next_token(lexer_source(*lexer), (lexer_taken(*lexer) - 1) as nat) != Some(
            SourceToken::Error,
        ),
    ensures
        encode_utf8(text@) == encode_utf8(lexer_source(*lexer)).subrange(
            end_position(lexer_source(*lexer), (lexer_taken(*lexer) - 1) as nat) as int,
            end_position(lexer_source(*lexer), lexer_taken(*lexer)) as int,
        ),
        next_token(lexer_source(*lexer), (lexer_taken(*lexer) - 1) as nat) == Some(
            SourceToken::String,
        ) ==> text::is_quoted(text@),
{
    lexer.slice()
}

/// The token of the grammar that a token of the lexer stands for.
pub open spec fn token_kind(token: SourceToken) -> Token {
    match token {
        SourceToken::Error => Token::Error,
        SourceToken::Whitespace => Token::Whitespace,
        SourceToken::NewLine => Token::NewLine,
        SourceToken::NewLineIndented => Token::NewLineIndented,
        SourceToken::CommentSingle => Token::CommentSingle,
        SourceToken::CommentMulti => Token::CommentMulti,
        SourceToken::Number => Token::Number,
        SourceToken::String => Token::Str,
        SourceToken::Id => Token::Id,
        SourceToken::Colon => Token::Colon,
        SourceToken::Comma => Token::Separator,
        SourceToken::Dot => Token::Dot,
        SourceToken::Ellipsis => Token::Ellipsis,
        SourceToken::ParenOpen => Token::ParenOpen,
        SourceToken::ParenClose => Token::ParenClose,
        SourceToken::Function => Token::Function,
        SourceToken::ListStart => Token::ListStart,
        SourceToken::ListEnd => Token::ListEnd,
        SourceToken::MapStart => Token::MapStart,
        SourceToken::MapEnd => Token::MapEnd,
        SourceToken::Wildcard => Token::Placeholder,
        SourceToken::Range => Token::Range,
        SourceToken::RangeInclusive => Token::RangeInclusive,
        SourceToken::Add => Token::Add,
        SourceToken::Subtract => Token::Subtract,
        SourceToken::Multiply => Token::Multiply,
        SourceToken::Divide => Token::Divide,
        SourceToken::Modulo => Token::Modulo,
        SourceToken::Assign => Token::Assign,
        SourceToken::AssignAdd => Token::AssignAdd,
        SourceToken::AssignSubtract => Token::AssignSubtract,
        SourceToken::AssignMultiply => Token::AssignMultiply,
        SourceToken::AssignDivide => Token::AssignDivide,
        SourceToken::AssignModulo => Token::AssignModulo,
        SourceToken::Equal => Token::Equal,
        SourceToken::NotEqual => Token::NotEqual,
        SourceToken::Greater => Token::Greater,
        SourceToken::GreaterOrEqual => Token::GreaterOrEqual,
        SourceToken::Less => Token::Less,
        SourceToken::LessOrEqual => Token::LessOrEqual,
        SourceToken::And => Token::And,
        SourceToken::Break => Token::Break,
        SourceToken::Catch => Token::Catch,
        SourceToken::Continue => Token::Continue,
        SourceToken::Copy => Token::Copy,
        SourceToken::Debug => Token::Debug,
        SourceToken::Else => Token::Else,
        SourceToken::ElseIf => Token::ElseIf,
        SourceToken::Export => Token::Export,
        SourceToken::False => Token::False,
        SourceToken::Finally => Token::Finally,
        SourceToken::For => Token::For,
        SourceToken::From => Token::From,
        SourceToken::If => Token::If,
        SourceToken::Import => Token::Import,
        SourceToken::In => Token::In,
        SourceToken::Loop => Token::Loop,
        SourceToken::Match => Token::Match,
        SourceToken::Not => Token::Not,
        SourceToken::Num2 => Token::Num2,
        SourceToken::Num4 => Token::Num4,
        SourceToken::Or => Token::Or,
        SourceToken::Return => Token::Return,
        SourceToken::Then => Token::Then,
        SourceToken::True => Token::True,
        SourceToken::Try => Token::Try,
        SourceToken::Until => Token::Until,
        SourceToken::While => Token::While,
        SourceToken::Yield => Token::Yield,
    }
}

/// The token of the grammar that a token of the lexer stands for.
fn convert_token(token: SourceToken) -> (r: Token)
    ensures
        r == token_kind(token),
{
    match token {
        SourceToken::Error => Token::Error,
        SourceToken::Whitespace => Token::Whitespace,
        SourceToken::NewLine => Token::NewLine,
        SourceToken::NewLineIndented => Token::NewLineIndented,
        SourceToken::CommentSingle => Token::CommentSingle,
        SourceToken::CommentMulti => Token::CommentMulti,
        SourceToken::Number => Token::Number,
        SourceToken::String => Token::Str,
        SourceToken::Id => Token::Id,
        SourceToken::Colon => Token::Colon,
        SourceToken::Comma => Token::Separator,
        SourceToken::Dot => Token::Dot,
        SourceToken::Ellipsis => Token::Ellipsis,
        SourceToken::ParenOpen => Token::ParenOpen,
        SourceToken::ParenClose => Token::ParenClose,
        SourceToken::Function => Token::Function,
        SourceToken::ListStart => Token::ListStart,
        SourceToken::ListEnd => Token::ListEnd,
        SourceToken::MapStart => Token::MapStart,
        SourceToken::MapEnd => Token::MapEnd,
        SourceToken::Wildcard => Token::Placeholder,
        SourceToken::Range => Token::Range,
        SourceToken::RangeInclusive => Token::RangeInclusive,
        SourceToken::Add => Token::Add,
        SourceToken::Subtract => Token::Subtract,
        SourceToken::Multiply => Token::Multiply,
        SourceToken::Divide => Token::Divide,
        SourceToken::Modulo => Token::Modulo,
        SourceToken::Assign => Token::Assign,
        SourceToken::AssignAdd => Token::AssignAdd,
        SourceToken::AssignSubtract => Token::AssignSubtract,
        SourceToken::AssignMultiply => Token::AssignMultiply,
        SourceToken::AssignDivide => Token::AssignDivide,
        SourceToken::AssignModulo => Token::AssignModulo,
        SourceToken::Equal => Token::Equal,
        SourceToken::NotEqual => Token::NotEqual,
        SourceToken::Greater => Token::Greater,
        SourceToken::GreaterOrEqual => Token::GreaterOrEqual,
        SourceToken::Less => Token::Less,
        SourceToken::LessOrEqual => Token::LessOrEqual,
        SourceToken::And => Token::And,
        SourceToken::Break => Token::Break,
        SourceToken::Catch => Token::Catch,
        SourceToken::Continue => Token::Continue,
        SourceToken::Copy => Token::Copy,
        SourceToken::Debug => Token::Debug,
        SourceToken::Else => Token::Else,
        SourceToken::ElseIf => Token::ElseIf,
        SourceToken::Export => Token::Export,
        SourceToken::False => Token::False,
        SourceToken::Finally => Token::Finally,
        SourceToken::For => Token::For,
        SourceToken::From => Token::From,
        SourceToken::If => Token::If,
        SourceToken::Import => Token::Import,
        SourceToken::In => Token::In,
        SourceToken::Loop => Token::Loop,
        SourceToken::Match => Token::Match,
        SourceToken::Not => Token::Not,
        SourceToken::Num2 => Token::Num2,
        SourceToken::Num4 => Token::Num4,
        SourceToken::Or => Token::Or,
        SourceToken::Return => Token::Return,
        SourceToken::Then => Token::Then,
        SourceToken::True => Token::True,
        SourceToken::Try => Token::Try,
        SourceToken::Until => Token::Until,
        SourceToken::While => Token::While,
        SourceToken::Yield => Token::Yield,
    }
}

/// A place in a source: behind `taken` tokens of `source`, which is what follows the last line
/// break that was skipped.
pub struct Place {
    pub source: Seq<char>,
    pub taken: nat,
    /// The number of bytes before `source`.
    pub start: nat,
    /// The number of lines before `source`.
    pub lines: nat,
    /// The indentation of the line that goes on in `source`, for as long as it does.
    pub indent: Option<usize>,
}

impl Place {
    /// The token of the lexer at the place.
    pub open spec fn token(self) -> Option<SourceToken> {
        next_token(self.source, self.taken)
    }

    /// The number of bytes of `source` before the place.
    pub open spec fn end(self) -> nat {
        end_position(self.source, self.taken)
    }

    /// The number of bytes before the place.
    pub open spec fn position(self) -> nat {
        self.start + self.end()
    }

    /// Whether a backslash and a line break stand at the place.
    pub open spec fn skips_line(self) -> bool {
        let bytes = encode_utf8(self.source);
        &&& self.token() == Some(SourceToken::Error)
        &&& self.end() + 2 <= bytes.len()
        &&& bytes[self.end() as int] == 92
        &&& bytes[self.end() as int + 1] == 10
    }

    /// The token of the grammar at the place.
    pub open spec fn kind(self) -> Option<Token> {
        match self.token() {
            None => None,
            Some(token) => Some(
                if self.skips_line() {
                    Token::NewLineSkipped
                } else {
                    token_kind(token)
                },
            ),
        }
    }

    /// A span of `source`, as one of the whole source.
    pub open spec fn shifted(self, span: Span) -> Span {
        Span {
            start: Position { line: (span.start.line + self.lines) as u32, ..span.start },
            end: Position { line: (span.end.line + self.lines) as u32, ..span.end },
        }
    }

    /// The indentation at the last token before the place.
    pub open spec fn last_indent(self) -> usize {
        match self.indent {
            Some(indent) => indent,
            None => last_indent(self.source, self.taken),
        }
    }

    /// The place behind the token.
    pub open spec fn next(self) -> Place {
        if self.skips_line() {
            let bytes = encode_utf8(self.source);
            Place {
                source: decode_utf8(bytes.subrange(self.end() as int + 2, bytes.len() as int)),
                taken: 0,
                start: self.position() + 2,
                lines: self.lines + last_span(self.source, self.taken).end.line as nat,
                indent: Some(self.last_indent()),
            }
        } else {
            Place {
                taken: self.taken + 1,
                indent: if self.kind() == Some(Token::NewLine) || self.kind() == Some(
                    Token::NewLineIndented,
                ) {
                    None
                } else {
                    self.indent
                },
                ..self
            }
        }
    }

    /// Where the token stands.
    pub open spec fn span(self) -> Span {
        if self.skips_line() {
            let start = self.shifted(last_span(self.source, self.taken)).end;
            Span { start, end: Position { line: (start.line + 1) as u32, column: 1 } }
        } else {
            self.shifted(last_span(self.source, self.taken + 1))
        }
    }

    /// Whether some text is that of the token: the part of the source that it covers. An error has
    /// no text.
    pub open spec fn has_text(self, text: Seq<char>) -> bool {
        if self.kind() == Some(Token::Error) {
            text == Seq::<char>::empty()
        } else if self.skips_line() {
            text == seq!['\\', '\n']
        } else {
            &&& self.end() < self.next().end() <= encode_utf8(self.source).len()
            &&& encode_utf8(text) == encode_utf8(self.source).subrange(
                self.end() as int,
                self.next().end() as int,
            )
        }
    }
}

/// The start of a source.
pub open spec fn first_place(source: Seq<char>) -> Place {
    Place { source, taken: 0, start: 0, lines: 0, indent: None }
}

/// The place in a source behind its first `count` tokens.
pub open spec fn place_at(source: Seq<char>, count: nat) -> Place
    decreases count,
{
    if count == 0 {
        first_place(source)
    } else {
        place_at(source, (count - 1) as nat).next()
    }
}

/// Whether a lexeme is the token at a place, with the value of a number literal as `read_number`
/// gives it.
pub open spec fn is_lexeme<F: Fn(&str) -> Option<u64>>(
    place: Place,
    read_number: F,
    lexeme: LexemeView,
) -> bool {
    &&& place.kind() == Some(lexeme.token)
    &&& place.has_text(lexeme.text)
    &&& lexeme.span == place.span()
    &&& lexeme.indent == place.next().last_indent()
    &&& if lexeme.token == Token::Number {
        exists|literal: &str|
            literal@ == lexeme.text && #[trigger] call_ensures(
                read_number,
                (literal,),
                lexeme.number,
            )
    } else {
        lexeme.number is None
    }
}

/// Whether the lexemes are the tokens of the source, up to its end or to the first error. The first
/// one starts where the source does; without an error the last one ends where the source does.
pub open spec fn are_lexemes<F: Fn(&str) -> Option<u64>>(
    source: Seq<char>,
    read_number: F,
    lexemes: Seq<LexemeView>,
) -> bool {
    &&& forall|i: int|
        0 <= i < lexemes.len() ==> is_lexeme(
            place_at(source, i as nat),
            read_number,
            #[trigger] lexemes[i],
        )
    &&& forall|i: int| 0 <= i < lexemes.len() - 1 ==> (#[trigger] lexemes[i]).token != Token::Error
    &&& place_at(source, 0).position() == 0
    &&& forall|i: int|
        0 <= i < lexemes.len() && (#[trigger] lexemes[i]).token == Token::NewLineSkipped
            ==> place_at(source, (i + 1) as nat).end() == 0
    &&& (lexemes.len() > 0 && lexemes.last().token == Token::Error) || (place_at(
        source,
        lexemes.len(),
    ).kind() is None && place_at(source, lexemes.len()).position() == encode_utf8(source).len())
}

/// What lexemes hold.
pub open spec fn lexeme_views(lexemes: Seq<Lexeme>) -> Seq<LexemeView> {
    lexemes.map_values(|lexeme: Lexeme| lexeme@)
}

/// Whether every string literal among the lexemes has its quotes.
pub open spec fn strings_are_quoted(lexemes: Seq<LexemeView>) -> bool {
    forall|i: int|
        0 <= i < lexemes.len() && (#[trigger] lexemes[i]).token == Token::Str ==> text::is_quoted(
            lexemes[i].text,
        )
}

/// Cuts a source into its tokens, up to its end or to the first error. `read_number` gives the
/// bits of the double precision number that a literal stands for.
pub fn lex<F: Fn(&str) -> Option<u64>>(source: &str, read_number: F) -> (lexemes: Vec<Lexeme>)
    requires
        encode_utf8(source@).len() < u32::MAX,
        forall|literal: &str| call_requires(read_number, (literal,)),
    ensures
        are_lexemes(source@, read_number, lexeme_views(lexemes@)),
        strings_are_quoted(lexeme_views(lexemes@)),
        lexemes@.len() <= u32::MAX,
{
    let mut rest: &str = source;
    let mut lexer = new_lexer(rest);
    let mut lines: u32 = 0;
    let mut line_indent: Option<usize> = None;
    let mut lexemes: Vec<Lexeme> = Vec::new();
    let ghost total = encode_utf8(source@).len();
    loop
        invariant
            total == encode_utf8(source@).len(),
            total < u32::MAX,
            forall|literal: &str| call_requires(read_number, (literal,)),
            ({
                let place = place_at(source@, lexemes@.len());
                &&& place.source == rest@
                &&& place.source == lexer_source(lexer)
                &&& place.taken == lexer_taken(lexer)
                &&& place.lines == lines
                &&& place.indent == line_indent
                &&& place.start + encode_utf8(rest@).len() == total
                &&& place.end() <= encode_utf8(rest@).len()
                &&& place.lines <= place.start
                &&& lexemes@.len() <= place.position()
            }),
            place_at(source@, 0).position() == 0,
            strings_are_quoted(lexeme_views(lexemes@)),
            forall|i: int|
                0 <= i < lexemes@.len() ==> is_lexeme(
                    place_at(source@, i as nat),
                    read_number,
                    #[trigger] lexeme_views(lexemes@)[i],
                ),
            forall|i: int|
                0 <= i < lexemes@.len() ==> (#[trigger] lexeme_views(lexemes@)[i]).token
                    != Token::Error,
            forall|i: int|
                0 <= i < lexemes@.len() && (#[trigger] lexeme_views(lexemes@)[i]).token
                    == Token::NewLineSkipped ==> place_at(source@, (i + 1) as nat).end() == 0,
        decreases total - lexemes@.len(),
    {
        let ghost before = lexemes@;
        let ghost place = place_at(source@, lexemes@.len());
        let end = taken_end(&lexer);
        let last_span = taken_span(&lexer);
        let last_indent = match line_indent {
            Some(indent) => indent,
            None => taken_indent(&lexer),
        };
        let token = match take_token(&mut lexer) {
            Some(token) => token,
            None => {
                return lexemes;
            },
        };
        let kind = convert_token(token);
        if matches!(kind, Token::Error) {
            if let Some(tail) = text::after_skipped_line(rest, end) {
                let start = Position {
                    line: last_span.end.line + lines,
                    column: last_span.end.column,
                };
                let span = Span { start, end: Position { line: start.line + 1, column: 1 } };
                lexemes.push(
                    Lexeme {
                        token: Token::NewLineSkipped,
                        text: "\\\n".to_owned(),
                        span,
                        indent: last_indent,
                        number: None,
                    },
                );
                proof {
                    reveal_strlit("\\\n");
                    encode_utf8_decode_utf8(tail@);
                    assert(lexemes@.last()@.text =~= seq!['\\', '\n']);
                    assert(lexeme_views(lexemes@) =~= lexeme_views(before).push(lexemes@.last()@));
                    assert(place_at(source@, lexemes@.len()) == place.next());
                }
                rest = tail;
                lexer = new_lexer(rest);
                lines = start.line;
                line_indent = Some(last_indent);
                continue ;
            }
        }
        let span = taken_span(&lexer);
        let span = Span {
            start: Position { line: span.start.line + lines, column: span.start.column },
            end: Position { line: span.end.line + lines, column: span.end.column },
        };
        if matches!(kind, Token::NewLine | Token::NewLineIndented) {
            line_indent = None;
        }
        let indent = match line_indent {
            Some(indent) => indent,
            None => taken_indent(&lexer),
        };
        assert(place_at(source@, (before.len() + 1) as nat) == place.next());
        if matches!(kind, Token::Error) {
            lexemes.push(Lexeme { token: kind, text: String::new(), span, indent, number: None });
            assert(lexeme_views(lexemes@) =~= lexeme_views(before).push(lexemes@.last()@));
            return lexemes;
        }
        let slice = taken_text(&lexer);
        let number = if matches!(kind, Token::Number) {
            read_number(slice)
        } else {
            None
        };
        lexemes.push(Lexeme { token: kind, text: slice.to_owned(), span, indent, number });
        assert(lexeme_views(lexemes@) =~= lexeme_views(before).push(lexemes@.last()@));
    }
}

/// A line break that is skipped keeps the indentation of its line and takes the two bytes of the
/// backslash and the line break; what follows is cut as a source of its own, on the next line. Any
/// other token leaves the source as it is.
pub proof fn law_skipped_line(place: Place)
    requires
        place.kind() is Some,
    ensures
        place.kind() == Some(Token::NewLineSkipped) <==> place.skips_line(),
        place.skips_line() ==> {
            &&& place.next().position() == place.position() + 2 + place.next().end()
            &&& place.next().last_indent() == place.last_indent()
            &&& place.next().lines == place.lines + last_span(
                place.source,
                place.taken,
            ).end.line
            &&& place.span().end.line == (place.span().start.line + 1) as u32
            &&& place.span().end.column == 1
            &&& place.has_text(seq!['\\', '\n'])
        },
        !place.skips_line() ==> {
            &&& place.next().source == place.source
            &&& place.next().start == place.start
            &&& place.next().lines == place.lines
            &&& place.next().taken == place.taken + 1
        },
        place.indent is None && !place.skips_line() ==> place.next().last_indent() == last_indent(
            place.source,
            place.taken + 1,
        ),
{
    if let Some(token) = place.token() {
        assert(token_kind(token) != Token::NewLineSkipped);
    }
}

} // verus!
