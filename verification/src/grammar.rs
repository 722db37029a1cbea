//! What a script is read as.
//!
//! Each function here says how one form of the language is read from a place in a script: which
//! nodes and constants it adds, what it does to the scopes, where it ends, or with which error it
//! is refused. A form that may be absent gives `None`; the place may have moved on nevertheless,
//! past what had to be looked at.
//!
//! Throughout, `e` is the script and `s` the state that a form is read from; `s1`, `s2` and so on
//! are the states that follow.

use crate::constant_pool::ConstantView;
use crate::error::{InternalError, ParserError, SyntaxError};
use crate::frame;
use crate::node::{
    AssignOp, AssignTarget, AstForView, AstIfView, AstIndex, AstOp, ConstantIndex, FunctionView,
    LookupNodeView, NodeView, Scope,
};
use crate::number;
use crate::script::{Outcome, Script, State};
use crate::text;
use crate::token::{self, Span, Token};
use vstd::multiset::Multiset;
use vstd::prelude::*;

verus! {

broadcast use crate::script::group_places;

// Operators

/// The binding power of a binary operator to its left and to its right. Of two operators around an
/// operand, the one with the greater power on that side takes it.
pub open spec fn precedence(op: Token) -> Option<(u8, u8)> {
    match op {
        Token::Or => Some((1, 2)),
        Token::And => Some((3, 4)),
        // Comparisons can be chained, so they bind to the right first.
        Token::Equal | Token::NotEqual => Some((6, 5)),
        Token::Greater | Token::GreaterOrEqual | Token::Less | Token::LessOrEqual => Some((8, 7)),
        Token::Add | Token::Subtract => Some((9, 10)),
        Token::Multiply | Token::Divide | Token::Modulo => Some((11, 12)),
        _ => None,
    }
}

/// The binding power of a binary operator to its left.
pub open spec fn left_precedence(op: Token) -> u8 {
    match precedence(op) {
        Some((left, _)) => left,
        None => 0,
    }
}

/// The binding power of a binary operator to its right.
pub open spec fn right_precedence(op: Token) -> u8 {
    match precedence(op) {
        Some((_, right)) => right,
        None => 0,
    }
}

/// Whether a token is a binary operator.
pub open spec fn is_operator(token: Option<Token>) -> bool {
    token matches Some(op) && precedence(op) is Some
}

/// The operation of a binary operator.
pub open spec fn binary_op(op: Token) -> AstOp {
    match op {
        Token::Add => AstOp::Add,
        Token::Subtract => AstOp::Subtract,
        Token::Multiply => AstOp::Multiply,
        Token::Divide => AstOp::Divide,
        Token::Modulo => AstOp::Modulo,
        Token::Equal => AstOp::Equal,
        Token::NotEqual => AstOp::NotEqual,
        Token::Greater => AstOp::Greater,
        Token::GreaterOrEqual => AstOp::GreaterOrEqual,
        Token::Less => AstOp::Less,
        Token::LessOrEqual => AstOp::LessOrEqual,
        Token::And => AstOp::And,
        _ => AstOp::Or,
    }
}

/// The operation of an assignment.
pub open spec fn assign_op(token: Token) -> Option<AssignOp> {
    match token {
        Token::Assign => Some(AssignOp::Equal),
        Token::AssignAdd => Some(AssignOp::Add),
        Token::AssignSubtract => Some(AssignOp::Subtract),
        Token::AssignMultiply => Some(AssignOp::Multiply),
        Token::AssignDivide => Some(AssignOp::Divide),
        Token::AssignModulo => Some(AssignOp::Modulo),
        _ => None,
    }
}

/// The tokens that make an operator before them a binary one.
pub open spec fn is_whitespace(token: Token) -> bool {
    token == Token::Whitespace || token == Token::NewLine || token == Token::NewLineIndented
}

/// Whether whitespace stands behind the next token.
pub open spec fn is_followed_by_whitespace(e: Script, s: State) -> bool {
    e.token_at(s.at + 1) matches Some(token) && is_whitespace(token)
}

/// An outcome for a form that is present.
pub open spec fn present(outcome: Outcome<AstIndex>) -> Outcome<Option<AstIndex>> {
    match outcome {
        Ok((s, node)) => Ok((s, Some(node))),
        Err(x) => Err(x),
    }
}

// Terms

/// A number literal. The numbers 0 and 1 have nodes of their own, any other is a constant.
#[verifier::opaque]
pub open spec fn number(e: Script, s: State) -> Outcome<AstIndex> {
    let s1 = e.taken(s);
    match e.tokens[s.at].number {
        None => e.failed(s1, InternalError::NumberParseFailure),
        Some(bits) => if number::is_near_zero(bits) {
            e.add_node(s1, NodeView::Number0)
        } else if number::is_near_one(bits) {
            e.add_node(s1, NodeView::Number1)
        } else {
            let (s2, constant) = s1.add_constant(ConstantView::Number(bits));
            e.add_node(s2, NodeView::Number(constant))
        },
    }
}

/// A string literal, without its quotes.
#[verifier::opaque]
pub open spec fn string(e: Script, s: State) -> Outcome<AstIndex> {
    let s1 = e.taken(s);
    let (s2, constant) = s1.add_constant(ConstantView::Str(text::unquoted(e.text(s1))));
    e.add_node(s2, NodeView::Str(constant))
}

/// A term: a literal, an id with what follows it, or a form that starts with a symbol or keyword
/// of its own.
#[verifier::opaque]
pub open spec fn term(e: Script, s: State, primary: bool) -> Outcome<Option<AstIndex>>
    decreases e.left(s), 3nat,
{
    let s1 = e.spaced(s);
    match e.next(s1) {
        None => Ok((s1, None)),
        Some(token) => match token {
            Token::True => present(e.add_node(e.taken(s1), NodeView::BoolTrue)),
            Token::False => present(e.add_node(e.taken(s1), NodeView::BoolFalse)),
            Token::Number => present(number(e, s1)),
            Token::Str => present(string(e, s1)),
            Token::ParenOpen => nested_expression(e, s1),
            Token::Id => id_expression(e, s1, primary),
            Token::ListStart => list(e, s1),
            Token::MapStart => inline_map(e, s1),
            Token::Num2 => num(e, s1, 2, SyntaxError::TooManyNum2Terms),
            Token::Num4 => num(e, s1, 4, SyntaxError::TooManyNum4Terms),
            Token::If => if_expression(e, s1),
            Token::Function => function(e, s1),
            Token::Copy => operand(e, s1, true),
            Token::Not => operand(e, s1, false),
            Token::Import => import(e, s1),
            Token::NewLineIndented => map_block(e, s1, e.indent(s), None),
            Token::Error => e.refused(s1, SyntaxError::LexerError),
            _ => Ok((s1, None)),
        },
    }
}

/// `copy` or `not`, and the expression behind it.
#[verifier::opaque]
pub open spec fn operand(e: Script, s: State, copy: bool) -> Outcome<Option<AstIndex>>
    decreases e.left(s), 2nat,
        when e.next(s) is Some
{
    let s1 = e.taken(s);
    match expression(e, s1, Seq::empty(), 0) {
        Err(x) => Err(x),
        Ok((s2, None)) => e.refused(s2, SyntaxError::ExpectedExpression),
        Ok((s2, Some(node))) => present(
            e.add_node(
                s2,
                if copy {
                    NodeView::CopyExpression(node)
                } else {
                    NodeView::Negate(node)
                },
            ),
        ),
    }
}

/// An expression in parentheses, or the empty value.
#[verifier::opaque]
pub open spec fn nested_expression(e: Script, s: State) -> Outcome<Option<AstIndex>>
    decreases e.left(s), 2nat,
{
    let s1 = e.spaced(s);
    if e.next(s1) != Some(Token::ParenOpen) {
        Ok((s1, None))
    } else {
        match expression(e, e.taken(s1), Seq::empty(), 0) {
            Err(x) => Err(x),
            Ok((s2, Some(node))) => close_paren(e, s2, node),
            Ok((s2, None)) => match e.add_node(s2, NodeView::Empty) {
                Err(x) => Err(x),
                Ok((s3, node)) => close_paren(e, s3, node),
            },
        }
    }
}

/// The end of an expression in parentheses.
pub open spec fn close_paren(e: Script, s: State, node: AstIndex) -> Outcome<Option<AstIndex>> {
    if e.next(s) == Some(Token::ParenClose) {
        Ok((e.taken(s), Some(node)))
    } else {
        e.refused(s, SyntaxError::ExpectedCloseParen)
    }
}

/// The terms of a `num2` or a `num4`, with or without parentheses: at least one, and at most
/// `limit` of them.
#[verifier::opaque]
pub open spec fn num(e: Script, s: State, limit: nat, too_many: SyntaxError) -> Outcome<
    Option<AstIndex>,
>
    decreases e.left(s), 2nat,
        when e.next(s) is Some
{
    let s1 = e.taken(s);
    match num_terms(e, s1) {
        Err(x) => Err(x),
        Ok((s2, terms)) => if terms.len() == 0 {
            e.refused(s2, SyntaxError::ExpectedExpression)
        } else if terms.len() > limit {
            e.refused(s2, too_many)
        } else {
            present(
                e.add_node(
                    s2,
                    if limit == 2 {
                        NodeView::Num2(terms)
                    } else {
                        NodeView::Num4(terms)
                    },
                ),
            )
        },
    }
}

/// Arguments in parentheses, or terms one after the other.
#[verifier::opaque]
pub open spec fn num_terms(e: Script, s: State) -> Outcome<Seq<AstIndex>>
    decreases e.left(s), 5nat,
{
    if e.next(s) == Some(Token::ParenOpen) {
        parenthesized_args(e, s)
    } else {
        terms_from(e, s, Seq::empty())
    }
}

/// Terms one after the other, behind those that have been read.
#[verifier::opaque]
pub open spec fn terms_from(e: Script, s: State, terms: Seq<AstIndex>) -> Outcome<Seq<AstIndex>>
    decreases e.left(s), 4nat,
{
    match e.forward(s, term(e, s, false)) {
        Err(x) => Err(x),
        Ok((s1, None)) => Ok((s1, terms)),
        Ok((s1, Some(node))) => terms_from(e, s1, terms.push(node)),
    }
}

// Lists and maps

/// A list in brackets.
#[verifier::opaque]
pub open spec fn list(e: Script, s: State) -> Outcome<Option<AstIndex>>
    decreases e.left(s), 2nat,
        when e.next(s) is Some
{
    let s1 = e.taken(s);
    match list_from(e, s1, Seq::empty()) {
        Err(x) => Err(x),
        Ok((s2, entries)) => {
            let s3 = e.filled(s2);
            let s4 = e.taken(s3);
            if e.next(s3) == Some(Token::ListEnd) {
                present(e.add_node(s4, NodeView::List(entries)))
            } else {
                e.refused(s4, SyntaxError::ExpectedListEnd)
            }
        },
    }
}

/// The entries of a list, behind those that have been read: ranges and terms, or a loop that has
/// the entries before it as its body and is then the only entry.
#[verifier::opaque]
pub open spec fn list_from(e: Script, s: State, entries: Seq<AstIndex>) -> Outcome<Seq<AstIndex>>
    decreases e.left(s), 4nat,
{
    let s1 = e.filled(s);
    if e.next(s1) == Some(Token::ListEnd) {
        Ok((s1, entries))
    } else if is_range(e.next(s1)) {
        match e.past(s1, range(e, s1, None)) {
            Err(x) => Err(x),
            Ok((s2, node)) => list_from(e, s2, entries.push(node)),
        }
    } else if entries.len() > 0 && is_loop(e.next(s1)) {
        match loop_form(e, s1, Some(entries), false) {
            Err(x) => Err(x),
            Ok((s2, node)) => Ok((s2, seq![node])),
        }
    } else {
        match e.forward(s1, term(e, s1, false)) {
            Err(x) => Err(x),
            Ok((s2, None)) => Ok((s2, entries)),
            Ok((s2, Some(node))) => if is_range(e.next(s2)) {
                match e.onward(s2, range(e, s2, Some(node))) {
                    Err(x) => Err(x),
                    Ok((s3, node)) => list_from(e, s3, entries.push(node)),
                }
            } else {
                list_from(e, s2, entries.push(node))
            },
        }
    }
}

/// A map in braces.
#[verifier::opaque]
pub open spec fn inline_map(e: Script, s: State) -> Outcome<Option<AstIndex>>
    decreases e.left(s), 2nat,
        when e.next(s) is Some
{
    let s1 = e.taken(s);
    match inline_map_from(e, s1, Seq::empty()) {
        Err(x) => Err(x),
        Ok((s2, entries)) => {
            let s3 = e.spaced(s2);
            let s4 = e.taken(s3);
            if e.next(s3) == Some(Token::MapEnd) {
                present(e.add_node(s4, NodeView::MapLiteral(entries)))
            } else {
                e.refused(s4, SyntaxError::ExpectedMapEnd)
            }
        },
    }
}

/// The entries of a map in braces, behind those that have been read.
#[verifier::opaque]
pub open spec fn inline_map_from(
    e: Script,
    s: State,
    entries: Seq<(ConstantIndex, AstIndex)>,
) -> Outcome<Seq<(ConstantIndex, AstIndex)>>
    decreases e.left(s), 5nat,
{
    match e.id(e.filled(s), false) {
        (s1, None) => Ok((s1, entries)),
        (s1, Some(key)) => {
            let s2 = e.taken(s1);
            if e.next(s1) != Some(Token::Colon) {
                e.refused(s2, SyntaxError::ExpectedMapSeparator)
            } else {
                let s3 = e.filled(s2);
                match e.onward(s3, expression(e, s3, Seq::empty(), 0)) {
                    Err(x) => Err(x),
                    Ok((s4, None)) => e.refused(s4, SyntaxError::ExpectedMapValue),
                    Ok((s4, Some(value))) => {
                        let s5 = e.spaced(s4);
                        if e.next(s5) == Some(Token::Separator) {
                            inline_map_from(e, e.taken(s5), entries.push((key, value)))
                        } else {
                            Ok((s5, entries.push((key, value))))
                        }
                    },
                }
            }
        },
    }
}

/// A map over several lines, one entry to a line. `block_indent` is the indentation of its
/// entries; where it is not given, the map starts on the next line, indented further than
/// `current_indent`.
#[verifier::opaque]
pub open spec fn map_block(
    e: Script,
    s: State,
    current_indent: usize,
    block_indent: Option<usize>,
) -> Outcome<Option<AstIndex>>
    decreases e.left(s), 2nat,
{
    match block_indent {
        Some(block_indent) => map_block_at(e, e.filled(s), block_indent),
        None => {
            let s1 = e.spaced(s);
            if e.next(s1) != Some(Token::NewLineIndented) || e.next_indent(s1) <= current_indent {
                Ok((s1, None))
            } else {
                map_block_at(e, e.filled(e.taken(s1)), e.next_indent(s1))
            }
        },
    }
}

/// A map over several lines, at its first entry.
#[verifier::opaque]
pub open spec fn map_block_at(e: Script, s: State, block_indent: usize) -> Outcome<
    Option<AstIndex>,
>
    decreases e.left(s), 1nat,
{
    if e.next(s) != Some(Token::Id) || e.token_at(s.at + 1) != Some(Token::Colon) {
        Ok((s, None))
    } else {
        match map_block_from(e, s, block_indent, Seq::empty()) {
            Err(x) => Err(x),
            Ok((s1, entries)) => present(
                s1.add_spanned_node(NodeView::MapLiteral(entries), token::first_span()),
            ),
        }
    }
}

/// The entries of a map over several lines, behind those that have been read.
#[verifier::opaque]
pub open spec fn map_block_from(
    e: Script,
    s: State,
    block_indent: usize,
    entries: Seq<(ConstantIndex, AstIndex)>,
) -> Outcome<Seq<(ConstantIndex, AstIndex)>>
    decreases e.left(s), 0nat,
{
    match e.id(s, false) {
        (s1, None) => Ok((s1, entries)),
        (s1, Some(key)) => {
            let s2 = e.spaced(s1);
            let s3 = e.taken(s2);
            if e.next(s2) != Some(Token::Colon) {
                e.refused(s3, SyntaxError::ExpectedMapSeparator)
            } else {
                match e.onward(s3, map_block_value(e, s3)) {
                    Err(x) => Err(x),
                    Ok((s4, value)) => {
                        let s5 = e.filled(s4);
                        if e.next_indent(s5) < block_indent {
                            Ok((s5, entries.push((key, value))))
                        } else if e.next_indent(s5) > block_indent {
                            e.refused(s5, SyntaxError::UnexpectedIndentation)
                        } else {
                            map_block_from(e, s5, block_indent, entries.push((key, value)))
                        }
                    },
                }
            }
        },
    }
}

/// The value of an entry of a map over several lines, on the line of its key or behind it.
#[verifier::opaque]
pub open spec fn map_block_value(e: Script, s: State) -> Outcome<AstIndex>
    decreases e.left(s), 6nat,
{
    match e.onward(s, expression(e, s, Seq::empty(), 0)) {
        Err(x) => Err(x),
        Ok((s1, Some(value))) => Ok((s1, value)),
        Ok((s1, None)) => match expression(e, e.filled(s1), Seq::empty(), 0) {
            Err(x) => Err(x),
            Ok((s2, Some(value))) => Ok((s2, value)),
            Ok((s2, None)) => e.refused(s2, SyntaxError::ExpectedMapValue),
        },
    }
}

// Ids, calls and lookups

/// An id, with the lookup or the call that it starts. Calls without parentheses are only made in a
/// primary position.
#[verifier::opaque]
pub open spec fn id_expression(e: Script, s: State, primary: bool) -> Outcome<Option<AstIndex>>
    decreases e.left(s), 2nat,
{
    match e.id(s, primary) {
        (s1, None) => Ok((s1, None)),
        (s1, Some(constant)) => {
            let s2 = s1.with_top(s1.top().with_access(constant));
            match e.next(s2) {
                Some(Token::Whitespace) if primary => match e.add_node(
                    e.taken(s2),
                    NodeView::Id(constant),
                ) {
                    Err(x) => Err(x),
                    Ok((s3, function)) => match open_args(e, s3) {
                        Err(x) => Err(x),
                        Ok((s4, None)) => Ok((s4, Some(function))),
                        Ok((s4, Some(args))) => present(
                            s4.add_spanned_node(
                                NodeView::Call { function, args },
                                Span { start: e.span(s2).start, end: e.span(s4).end },
                            ),
                        ),
                    },
                },
                Some(Token::ParenOpen) | Some(Token::ListStart) | Some(Token::Dot) => present(
                    lookup_from(e, s2, primary, seq![LookupNodeView::Id(constant)]),
                ),
                _ => present(e.add_node(s2, NodeView::Id(constant))),
            }
        },
    }
}

/// The arguments of a call without parentheses, if there are any.
#[verifier::opaque]
pub open spec fn open_args(e: Script, s: State) -> Outcome<Option<Seq<AstIndex>>>
    decreases e.left(s), 7nat,
{
    match e.forward(s, expression(e, s, Seq::empty(), 1)) {
        Err(x) => Err(x),
        Ok((s1, None)) => Ok((s1, None)),
        Ok((s1, Some(arg))) => match open_args_from(e, s1, e.line(s1), seq![arg]) {
            Err(x) => Err(x),
            Ok((s2, args)) => Ok((s2, Some(args))),
        },
    }
}

/// Expressions behind those that have been read. The first one that ends on another line is the
/// last.
#[verifier::opaque]
pub open spec fn open_args_from(e: Script, s: State, line: u32, args: Seq<AstIndex>) -> Outcome<
    Seq<AstIndex>,
>
    decreases e.left(s), 6nat,
{
    match e.forward(s, expression(e, s, Seq::empty(), 1)) {
        Err(x) => Err(x),
        Ok((s1, None)) => Ok((s1, args)),
        Ok((s1, Some(arg))) => if e.line(s1) != line {
            Ok((s1, args.push(arg)))
        } else {
            open_args_from(e, s1, line, args.push(arg))
        },
    }
}

/// A lookup, behind the steps that have been read.
#[verifier::opaque]
pub open spec fn lookup_from(
    e: Script,
    s: State,
    primary: bool,
    lookup: Seq<LookupNodeView>,
) -> Outcome<AstIndex>
    decreases e.left(s), 7nat,
{
    match e.next(s) {
        Some(Token::ParenOpen) => match e.past(s, parenthesized_args(e, s)) {
            Err(x) => Err(x),
            Ok((s1, args)) => lookup_from(
                e,
                s1,
                primary,
                lookup.push(LookupNodeView::Call(args)),
            ),
        },
        Some(Token::ListStart) => match e.past(s, index(e, s)) {
            Err(x) => Err(x),
            Ok((s1, index)) => lookup_from(
                e,
                s1,
                primary,
                lookup.push(LookupNodeView::Index(index)),
            ),
        },
        Some(Token::Dot) => match e.id(e.taken(s), false) {
            (s1, None) => e.refused(s1, SyntaxError::ExpectedMapKey),
            (s1, Some(key)) => lookup_from(e, s1, primary, lookup.push(LookupNodeView::Id(key))),
        },
        Some(Token::Whitespace) if primary => match open_args(e, e.taken(s)) {
            Err(x) => Err(x),
            Ok((s1, None)) => e.add_node(s1, NodeView::Lookup(lookup)),
            Ok((s1, Some(args))) => e.add_node(
                s1,
                NodeView::Lookup(lookup.push(LookupNodeView::Call(args))),
            ),
        },
        _ => e.add_node(s, NodeView::Lookup(lookup)),
    }
}

/// An index in brackets: an expression, or a range that may be open at either end.
#[verifier::opaque]
pub open spec fn index(e: Script, s: State) -> Outcome<AstIndex>
    decreases e.left(s), 6nat,
        when e.next(s) is Some
{
    let s1 = e.taken(s);
    match e.onward(s1, expression(e, s1, Seq::empty(), 1)) {
        Err(x) => Err(x),
        Ok((s2, Some(start))) => if is_range(e.next(s2)) {
            match index_range(e, s2, Some(start)) {
                Err(x) => Err(x),
                Ok((s3, range)) => index_end(e, s3, range),
            }
        } else {
            index_end(e, s2, start)
        },
        Ok((s2, None)) => {
            let s3 = e.spaced(s2);
            if is_range(e.next(s3)) {
                match index_range(e, s3, None) {
                    Err(x) => Err(x),
                    Ok((s4, range)) => index_end(e, s4, range),
                }
            } else {
                e.refused(s3, SyntaxError::ExpectedIndexExpression)
            }
        },
    }
}

/// The end of an index.
pub open spec fn index_end(e: Script, s: State, index: AstIndex) -> Outcome<AstIndex> {
    let s1 = e.spaced(s);
    if e.next(s1) == Some(Token::ListEnd) {
        Ok((e.taken(s1), index))
    } else {
        e.refused(s1, SyntaxError::ExpectedIndexEnd)
    }
}

/// A range symbol in an index, and the expression behind it, if there is one.
#[verifier::opaque]
pub open spec fn index_range(e: Script, s: State, start: Option<AstIndex>) -> Outcome<AstIndex>
    decreases e.left(s), 6nat,
        when e.next(s) is Some
{
    let s1 = e.taken(s);
    match expression(e, s1, Seq::empty(), 1) {
        Err(x) => Err(x),
        Ok((s2, end)) => e.add_node(
            s2,
            range_node(start, end, e.next(s) == Some(Token::RangeInclusive)),
        ),
    }
}

/// The arguments of a call in parentheses.
#[verifier::opaque]
pub open spec fn parenthesized_args(e: Script, s: State) -> Outcome<Seq<AstIndex>>
    decreases e.left(s), 2nat,
{
    let s1 = e.spaced(s);
    if e.next(s1) != Some(Token::ParenOpen) {
        e.failed(s1, InternalError::ArgumentsParseFailure)
    } else {
        match parenthesized_args_from(e, e.taken(s1), Seq::empty()) {
            Err(x) => Err(x),
            Ok((s2, args)) => {
                let s3 = e.filled(s2);
                let s4 = e.taken(s3);
                if e.next(s3) == Some(Token::ParenClose) {
                    Ok((s4, args))
                } else {
                    e.refused(s4, SyntaxError::ExpectedArgsEnd)
                }
            },
        }
    }
}

/// Expressions over any number of lines, behind those that have been read.
#[verifier::opaque]
pub open spec fn parenthesized_args_from(
    e: Script,
    s: State,
    args: Seq<AstIndex>,
) -> Outcome<Seq<AstIndex>>
    decreases e.left(s), 6nat,
{
    let s1 = e.filled(s);
    match e.forward(s1, expression(e, s1, Seq::empty(), 1)) {
        Err(x) => Err(x),
        Ok((s2, Some(arg))) => parenthesized_args_from(e, s2, args.push(arg)),
        Ok((s2, None)) => Ok((s2, args)),
    }
}

// Ranges

/// Whether a token is one of the two range symbols.
pub open spec fn is_range(token: Option<Token>) -> bool {
    token == Some(Token::Range) || token == Some(Token::RangeInclusive)
}

/// The range between two ends, each of which may be absent.
pub open spec fn range_node(
    start: Option<AstIndex>,
    end: Option<AstIndex>,
    inclusive: bool,
) -> NodeView {
    match (start, end) {
        (Some(start), Some(end)) => NodeView::Range { start, end, inclusive },
        (Some(start), None) => NodeView::RangeFrom { start },
        (None, Some(end)) => NodeView::RangeTo { end, inclusive },
        (None, None) => NodeView::RangeFull,
    }
}

/// A range symbol, and the term behind it, if there is one.
#[verifier::opaque]
pub open spec fn range(e: Script, s: State, start: Option<AstIndex>) -> Outcome<AstIndex>
    decreases e.left(s), 2nat,
        when e.next(s) is Some
{
    let s1 = e.taken(s);
    match term(e, s1, false) {
        Err(x) => Err(x),
        Ok((s2, end)) => e.add_node(
            s2,
            range_node(start, end, e.next(s) == Some(Token::RangeInclusive)),
        ),
    }
}

/// A range, if a range symbol is next.
pub open spec fn optional_range(e: Script, s: State, start: Option<AstIndex>) -> Outcome<
    Option<AstIndex>,
> {
    if is_range(e.next(s)) {
        present(range(e, s, start))
    } else {
        Ok((s, None))
    }
}

// Expressions

/// An expression: an operand, and the operators behind it that bind at least as strongly as
/// `min_precedence`. An assignment or a loop behind the operand is about the expressions in `lhs`
/// too.
#[verifier::opaque]
pub open spec fn expression(e: Script, s: State, lhs: Seq<AstIndex>, min_precedence: u8) -> Outcome<
    Option<AstIndex>,
>
    decreases e.left(s), 5nat,
{
    match e.forward(s, first_operand(e, s, min_precedence == 0)) {
        Err(x) => Err(x),
        Ok((s1, start)) => if is_range(e.next(s1)) {
            present(range(e, s1, start))
        } else {
            match start {
                None => Ok((s1, None)),
                Some(start) => if e.line(s) == e.line(s1) {
                    continued(e, s1, lhs.push(start), min_precedence)
                } else {
                    Ok((s1, Some(start)))
                },
            }
        },
    }
}

/// The operand that an expression starts with.
#[verifier::opaque]
pub open spec fn first_operand(e: Script, s: State, primary: bool) -> Outcome<Option<AstIndex>>
    decreases e.left(s), 4nat,
{
    match e.onward(s, negated(e, s)) {
        Err(x) => Err(x),
        Ok((s1, Some(node))) => Ok((s1, Some(node))),
        Ok((s1, None)) => match e.onward(s1, id_expression(e, s1, primary)) {
            Err(x) => Err(x),
            Ok((s2, Some(node))) => Ok((s2, Some(node))),
            Ok((s2, None)) => term(e, s2, primary),
        },
    }
}

/// A minus sign directly before an id or an expression in parentheses.
#[verifier::opaque]
pub open spec fn negated(e: Script, s: State) -> Outcome<Option<AstIndex>>
    decreases e.left(s), 2nat,
{
    let s1 = e.spaced(s);
    if e.next(s1) != Some(Token::Subtract) || e.token_at(s1.at + 1) == Some(Token::Whitespace) {
        Ok((s1, None))
    } else {
        let s2 = e.taken(s1);
        match negatable(e, s2) {
            Err(x) => Err(x),
            Ok((s3, None)) => e.refused(s3, SyntaxError::ExpectedNegatableExpression),
            Ok((s3, Some(node))) => present(e.add_node(s3, NodeView::Negate(node))),
        }
    }
}

/// What can stand behind a minus sign.
#[verifier::opaque]
pub open spec fn negatable(e: Script, s: State) -> Outcome<Option<AstIndex>>
    decreases e.left(s), 3nat,
{
    match e.next(s) {
        Some(Token::Id) => id_expression(e, s, false),
        Some(Token::ParenOpen) => nested_expression(e, s),
        _ => Ok((s, None)),
    }
}

/// What follows the operands `lhs`: a loop or an assignment that is about all of them, or binary
/// operators that take the last of them as their left side.
#[verifier::opaque]
pub open spec fn continued(e: Script, s: State, lhs: Seq<AstIndex>, min_precedence: u8) -> Outcome<
    Option<AstIndex>,
>
    decreases e.left(s), 4nat,
{
    if lhs.len() == 0 {
        e.failed(s, InternalError::MissingContinuedExpressionLhs)
    } else {
        let s1 = e.spaced(s);
        match e.next(s1) {
            None => Ok((s1, Some(lhs.last()))),
            Some(next) => if next == Token::NewLine || next == Token::NewLineIndented {
                if is_operator(e.token_at(e.skip_fillers(s1.at))) {
                    continued(e, e.filled(s1), lhs, min_precedence)
                } else {
                    Ok((s1, Some(lhs.last())))
                }
            } else if is_loop(Some(next)) {
                present(loop_form(e, s1, Some(lhs), min_precedence == 0))
            } else if assign_op(next) is Some {
                assignment(e, s1, lhs, assign_op(next)->0)
            } else if is_operator(Some(next)) && left_precedence(next) >= min_precedence
                && is_followed_by_whitespace(e, s1) {
                match e.past(s1, operation(e, s1, lhs.last())) {
                    Err(x) => Err(x),
                    Ok((s2, node)) => continued(e, s2, seq![node], min_precedence),
                }
            } else {
                Ok((s1, Some(lhs.last())))
            },
        }
    }
}

/// A binary operator and its right side.
#[verifier::opaque]
pub open spec fn operation(e: Script, s: State, lhs: AstIndex) -> Outcome<AstIndex>
    decreases e.left(s), 2nat,
        when e.next(s) is Some
{
    let s1 = e.taken(s);
    let op = e.tokens[s.at].token;
    match e.onward(s1, map_block(e, s1, e.indent(s1), None)) {
        Err(x) => Err(x),
        Ok((s2, Some(rhs))) => e.add_node(
            s2,
            NodeView::BinaryOp { op: binary_op(op), lhs, rhs },
        ),
        Ok((s2, None)) => match expression(e, s2, Seq::empty(), right_precedence(op)) {
            Err(x) => Err(x),
            Ok((s3, None)) => e.refused(s3, SyntaxError::ExpectedRhsExpression),
            Ok((s3, Some(rhs))) => e.add_node(
                s3,
                NodeView::BinaryOp { op: binary_op(op), lhs, rhs },
            ),
        },
    }
}

// Assignments

/// Whether a node has taken in the expressions before it, so that they are no longer part of the
/// list that it ends.
pub open spec fn takes_expressions(node: NodeView) -> bool {
    ||| node is Assign
    ||| node is MultiAssign
    ||| node is For
    ||| node is While
    ||| node is Until
}

/// Where the targets of an assignment can be seen from.
pub open spec fn assignment_scope(e: Script, s: State) -> Scope {
    if e.export_all_top_level && s.top().top_level {
        Scope::Global
    } else {
        Scope::Local
    }
}

/// A target of an assignment. An id that is given a value has not been read, and belongs to the
/// scope unless it is exported.
pub open spec fn target(
    e: Script,
    s: State,
    index: AstIndex,
    op: AssignOp,
    scope: Scope,
) -> Result<State, ParserError> {
    match s.nodes[index as int].node {
        NodeView::Id(id) => if op != AssignOp::Equal {
            Ok(s)
        } else if s.top().access_count(id) == 0 {
            Err(e.failed::<()>(s, InternalError::UnexpectedIdInExpression)->Err_0)
        } else {
            let frame = s.top().without_access(id);
            Ok(
                s.with_top(
                    if scope == Scope::Local {
                        frame.with_target(id)
                    } else {
                        frame
                    },
                ),
            )
        },
        NodeView::Lookup(_) => Ok(s),
        _ => Err(e.refused::<()>(s, SyntaxError::ExpectedAssignmentTarget)->Err_0),
    }
}

/// The targets of an assignment from the `k`th on.
#[verifier::opaque]
pub open spec fn targets_from(
    e: Script,
    s: State,
    lhs: Seq<AstIndex>,
    k: int,
    op: AssignOp,
    scope: Scope,
) -> Result<State, ParserError>
    decreases lhs.len() - k,
{
    if k >= lhs.len() {
        Ok(s)
    } else {
        match target(e, s, lhs[k], op, scope) {
            Err(x) => Err(x),
            Ok(s1) => targets_from(e, s1, lhs, k + 1, op, scope),
        }
    }
}

/// The targets of an assignment take no tokens.
pub proof fn lemma_targets_stay(
    e: Script,
    s: State,
    lhs: Seq<AstIndex>,
    k: int,
    op: AssignOp,
    scope: Scope,
)
    ensures
        targets_from(e, s, lhs, k, op, scope) matches Ok(s1) ==> s1.at == s.at,
    decreases lhs.len() - k,
{
    reveal(targets_from);
    if k < lhs.len() {
        if let Ok(s1) = target(e, s, lhs[k], op, scope) {
            lemma_targets_stay(e, s1, lhs, k + 1, op, scope);
        }
    }
}

/// The scope when the assignment to the `k`th target is complete, and to those behind it.
#[verifier::opaque]
pub open spec fn complete_from(s: State, lhs: Seq<AstIndex>, k: int) -> State
    decreases lhs.len() - k,
{
    if k >= lhs.len() {
        s
    } else {
        match s.nodes[lhs[k] as int].node {
            NodeView::Id(id) => complete_from(
                s.with_top(s.top().with_complete(id)),
                lhs,
                k + 1,
            ),
            _ => complete_from(s, lhs, k + 1),
        }
    }
}

/// The targets for the given nodes.
pub open spec fn assign_targets(lhs: Seq<AstIndex>, scope: Scope) -> Seq<AssignTarget> {
    lhs.map_values(|target_index: AstIndex| AssignTarget { target_index, scope })
}

/// An assignment symbol, and the value that is assigned to the targets before it.
#[verifier::opaque]
pub open spec fn assignment(e: Script, s: State, lhs: Seq<AstIndex>, op: AssignOp) -> Outcome<
    Option<AstIndex>,
>
    decreases e.left(s), 2nat,
        when e.next(s) is Some
{
    let s1 = e.taken(s);
    let scope = assignment_scope(e, s1);
    proof {
        lemma_targets_stay(e, s1, lhs, 0, op, scope);
    }
    match targets_from(e, s1, lhs, 0, op, scope) {
        Err(x) => Err(x),
        Ok(s2) => if lhs.len() == 0 {
            e.failed(s2, InternalError::MissingAssignmentTarget)
        } else {
            match expressions(e, s2, true) {
                Err(x) => Err(x),
                Ok((s3, None)) => e.refused(s3, SyntaxError::ExpectedRhsExpression),
                Ok((s3, Some(rhs))) => {
                    let s4 = if op == AssignOp::Equal && scope == Scope::Local {
                        complete_from(s3, lhs, 0)
                    } else {
                        s3
                    };
                    let targets = assign_targets(lhs, scope);
                    present(
                        e.add_node(
                            s4,
                            if targets.len() == 1 {
                                NodeView::Assign { target: targets[0], op, expression: rhs }
                            } else {
                                NodeView::MultiAssign { targets, expressions: rhs }
                            },
                        ),
                    )
                },
            }
        },
    }
}

/// Expressions with separators between them. Where they may start on the next line, that line is
/// indented further than the current one, and may start a map.
#[verifier::opaque]
pub open spec fn expressions(e: Script, s: State, allow_initial_indentation: bool) -> Outcome<
    Option<AstIndex>,
>
    decreases e.left(s), 7nat,
{
    let s1 = if allow_initial_indentation {
        e.spaced(s)
    } else {
        s
    };
    if allow_initial_indentation && e.next(s1) == Some(Token::NewLineIndented) {
        let s2 = e.filled(s1);
        let indent = e.indent(s2);
        if indent <= e.indent(s) {
            Ok((s2, None))
        } else {
            match e.onward(s2, map_block(e, s2, e.indent(s), Some(indent))) {
                Err(x) => Err(x),
                Ok((s3, Some(node))) => Ok((s3, Some(node))),
                Ok((s3, None)) => expressions_at(e, s3, e.indent(s), Some(indent)),
            }
        }
    } else {
        expressions_at(e, s1, e.indent(s), None)
    }
}

/// Expressions at the first of them.
#[verifier::opaque]
pub open spec fn expressions_at(
    e: Script,
    s: State,
    current_indent: usize,
    expected_indent: Option<usize>,
) -> Outcome<Option<AstIndex>>
    decreases e.left(s), 6nat,
{
    match e.forward(s, expression(e, s, Seq::empty(), 0)) {
        Err(x) => Err(x),
        Ok((s1, None)) => Ok((s1, None)),
        Ok((s1, Some(first))) => present(
            expressions_from(e, s1, current_indent, expected_indent, seq![first]),
        ),
    }
}

/// Expressions behind those that have been read. Where a line ends behind a separator, the next
/// one is indented as expected: further than the first line, and as far as the lines before.
#[verifier::opaque]
pub open spec fn expressions_from(
    e: Script,
    s: State,
    current_indent: usize,
    expected_indent: Option<usize>,
    list: Seq<AstIndex>,
) -> Outcome<AstIndex>
    decreases e.left(s), 0nat,
{
    let s1 = e.spaced(s);
    if e.next(s1) != Some(Token::Separator) {
        expressions_end(e, s1, list)
    } else {
        let s2 = e.spaced(e.taken(s1));
        if e.next(s2) == Some(Token::NewLineIndented) {
            let s3 = e.filled(s2);
            let indent = e.next_indent(s3);
            match expected_indent {
                Some(expected) => if indent < expected {
                    expressions_end(e, s3, list)
                } else if indent > expected {
                    e.refused(s3, SyntaxError::UnexpectedIndentation)
                } else {
                    next_expression(e, s3, current_indent, expected_indent, list)
                },
                None => if indent <= current_indent {
                    expressions_end(e, s3, list)
                } else {
                    next_expression(e, s3, current_indent, Some(indent), list)
                },
            }
        } else {
            next_expression(e, s2, current_indent, expected_indent, list)
        }
    }
}

/// One more expression behind a separator, and those that follow.
#[verifier::opaque]
pub open spec fn next_expression(
    e: Script,
    s: State,
    current_indent: usize,
    expected_indent: Option<usize>,
    list: Seq<AstIndex>,
) -> Outcome<AstIndex>
    decreases e.left(s), 6nat,
{
    match e.onward(s, expression(e, s, list, 0)) {
        Err(x) => Err(x),
        Ok((s1, Some(node))) => if takes_expressions(s1.nodes[node as int].node) {
            Ok((s1, node))
        } else {
            expressions_from(e, s1, current_indent, expected_indent, list.push(node))
        },
        Ok((s1, None)) => expressions_from(e, s1, current_indent, expected_indent, list),
    }
}

/// The expressions that have been read: one by itself, or a list of them.
pub open spec fn expressions_end(e: Script, s: State, list: Seq<AstIndex>) -> Outcome<AstIndex> {
    if list.len() == 1 {
        Ok((s, list[0]))
    } else {
        e.add_node(s, NodeView::Expressions(list))
    }
}

// Loops

/// Whether a token starts a loop.
pub open spec fn is_loop(token: Option<Token>) -> bool {
    token == Some(Token::For) || token == Some(Token::While) || token == Some(Token::Until)
}

/// A loop, at its keyword. The body is either given, as expressions before the loop, or a block
/// behind it.
#[verifier::opaque]
pub open spec fn loop_form(
    e: Script,
    s: State,
    inline_body: Option<Seq<AstIndex>>,
    primary: bool,
) -> Outcome<AstIndex>
    decreases e.left(s), 3nat,
{
    match e.next(s) {
        Some(Token::For) => for_loop(e, s, inline_body, primary),
        Some(Token::While) => while_loop(e, s, inline_body, primary),
        _ => until_loop(e, s, inline_body, primary),
    }
}

/// A loop with the given keyword, if there is one.
pub open spec fn optional_loop(
    e: Script,
    s: State,
    keyword: Token,
    inline_body: Option<Seq<AstIndex>>,
    primary: bool,
) -> Outcome<Option<AstIndex>> {
    let s1 = e.spaced(s);
    if e.next(s1) == Some(keyword) {
        present(loop_form(e, s1, inline_body, primary))
    } else {
        Ok((s1, None))
    }
}

/// A `for` loop.
#[verifier::opaque]
pub open spec fn for_loop(
    e: Script,
    s: State,
    inline_body: Option<Seq<AstIndex>>,
    primary: bool,
) -> Outcome<AstIndex>
    decreases e.left(s), 2nat,
        when e.next(s) is Some
{
    let s1 = e.taken(s);
    let (s2, args) = for_args(e, s1, Seq::empty());
    proof {
        lemma_for_args(e, s1, Seq::empty());
    }
    let s3 = e.spaced(s2);
    let s4 = e.taken(s3);
    if args.len() == 0 {
        e.refused(s2, SyntaxError::ExpectedForArgs)
    } else if e.next(s3) != Some(Token::In) {
        e.refused(s4, SyntaxError::ExpectedForInKeyword)
    } else {
        match e.onward(s4, for_ranges(e, s4, Seq::empty())) {
            Err(x) => Err(x),
            Ok((s5, ranges)) => if ranges.len() == 0 {
                e.refused(s5, SyntaxError::ExpectedForRanges)
            } else {
                match e.onward(s5, for_condition(e, s5)) {
                    Err(x) => Err(x),
                    Ok((s6, condition)) => match loop_body(
                        e,
                        s6,
                        inline_body,
                        primary,
                        e.indent(s),
                        SyntaxError::ExpectedForBody,
                    ) {
                        Err(x) => Err(x),
                        Ok((s7, body)) => e.add_node(
                            s7,
                            NodeView::For(AstForView { args, ranges, condition, body }),
                        ),
                    },
                }
            },
        }
    }
}

/// The ids that a `for` loop gives values to, behind those that have been read. They are assigned
/// in the scope of the loop.
#[verifier::opaque]
pub open spec fn for_args(e: Script, s: State, args: Seq<ConstantIndex>) -> (
    State,
    Seq<ConstantIndex>,
)
    decreases e.left(s),
{
    match e.id(s, true) {
        (s1, None) => (s1, args),
        (s1, Some(arg)) => {
            let s2 = e.spaced(s1.with_top(s1.top().with_assigned(arg)));
            if e.next(s2) == Some(Token::Separator) {
                for_args(e, e.taken(s2), args.push(arg))
            } else {
                for_args(e, s2, args.push(arg))
            }
        },
    }
}

/// The ids of a `for` loop lead forwards.
pub proof fn lemma_for_args(e: Script, s: State, args: Seq<ConstantIndex>)
    ensures
        e.left(for_args(e, s, args).0) <= e.left(s),
    decreases e.left(s),
{
    reveal(for_args);
    if let (s1, Some(arg)) = e.id(s, true) {
        let s2 = e.spaced(s1.with_top(s1.top().with_assigned(arg)));
        lemma_for_args(e, s2, args.push(arg));
        if e.next(s2) == Some(Token::Separator) {
            lemma_for_args(e, e.taken(s2), args.push(arg));
        }
    }
}

/// What a `for` loop runs over, behind the ranges that have been read.
#[verifier::opaque]
pub open spec fn for_ranges(e: Script, s: State, ranges: Seq<AstIndex>) -> Outcome<Seq<AstIndex>>
    decreases e.left(s), 6nat,
{
    match e.forward(s, expression(e, s, Seq::empty(), 1)) {
        Err(x) => Err(x),
        Ok((s1, None)) => Ok((s1, ranges)),
        Ok((s1, Some(range))) => {
            let s2 = e.spaced(s1);
            if e.next(s2) == Some(Token::Separator) {
                for_ranges(e, e.taken(s2), ranges.push(range))
            } else {
                Ok((s2, ranges.push(range)))
            }
        },
    }
}

/// The condition of a `for` loop, if it has one.
#[verifier::opaque]
pub open spec fn for_condition(e: Script, s: State) -> Outcome<Option<AstIndex>>
    decreases e.left(s), 2nat,
{
    let s1 = e.spaced(s);
    if e.next(s1) != Some(Token::If) {
        Ok((s1, None))
    } else {
        match expression(e, e.taken(s1), Seq::empty(), 0) {
            Err(x) => Err(x),
            Ok((s2, Some(condition))) => Ok((s2, Some(condition))),
            Ok((s2, None)) => e.refused(s2, SyntaxError::ExpectedForCondition),
        }
    }
}

/// A `while` loop.
#[verifier::opaque]
pub open spec fn while_loop(
    e: Script,
    s: State,
    inline_body: Option<Seq<AstIndex>>,
    primary: bool,
) -> Outcome<AstIndex>
    decreases e.left(s), 2nat,
        when e.next(s) is Some
{
    let s1 = e.taken(s);
    match e.onward(s1, expression(e, s1, Seq::empty(), 0)) {
        Err(x) => Err(x),
        Ok((s2, None)) => e.refused(s2, SyntaxError::ExpectedWhileCondition),
        Ok((s2, Some(condition))) => match loop_body(
            e,
            s2,
            inline_body,
            primary,
            e.indent(s),
            SyntaxError::ExpectedWhileBody,
        ) {
            Err(x) => Err(x),
            Ok((s3, body)) => e.add_node(s3, NodeView::While { condition, body }),
        },
    }
}

/// An `until` loop.
#[verifier::opaque]
pub open spec fn until_loop(
    e: Script,
    s: State,
    inline_body: Option<Seq<AstIndex>>,
    primary: bool,
) -> Outcome<AstIndex>
    decreases e.left(s), 2nat,
        when e.next(s) is Some
{
    let s1 = e.taken(s);
    match e.onward(s1, expression(e, s1, Seq::empty(), 0)) {
        Err(x) => Err(x),
        Ok((s2, None)) => e.refused(s2, SyntaxError::ExpectedUntilCondition),
        Ok((s2, Some(condition))) => match loop_body(
            e,
            s2,
            inline_body,
            primary,
            e.indent(s),
            SyntaxError::ExpectedUntilBody,
        ) {
            Err(x) => Err(x),
            Ok((s3, body)) => e.add_node(s3, NodeView::Until { condition, body }),
        },
    }
}

/// The body of a loop. Of several expressions before it, the first is a function and the others
/// its arguments, except in a primary position.
#[verifier::opaque]
pub open spec fn loop_body(
    e: Script,
    s: State,
    inline_body: Option<Seq<AstIndex>>,
    primary: bool,
    current_indent: usize,
    absent: SyntaxError,
) -> Outcome<AstIndex>
    decreases e.left(s), 13nat,
{
    match inline_body {
        Some(body) => if body.len() == 0 {
            e.failed(s, InternalError::ForParseFailure)
        } else if body.len() == 1 {
            Ok((s, body[0]))
        } else if primary {
            e.add_node(s, NodeView::Expressions(body))
        } else {
            e.add_node(s, NodeView::Call { function: body[0], args: body.skip(1) })
        },
        None => match indented_block(e, s, current_indent, None) {
            Err(x) => Err(x),
            Ok((s1, Some(body))) => Ok((s1, body)),
            Ok((s1, None)) => e.refused(s1, absent),
        },
    }
}

// Conditions

/// An `if` expression, on one line with `then` or with blocks.
#[verifier::opaque]
pub open spec fn if_expression(e: Script, s: State) -> Outcome<Option<AstIndex>>
    decreases e.left(s), 2nat,
{
    let s1 = e.taken(s);
    if e.next(s) != Some(Token::If) {
        Ok((s, None))
    } else {
        match e.onward(s1, expression(e, s1, Seq::empty(), 0)) {
            Err(x) => Err(x),
            Ok((s2, None)) => e.refused(s2, SyntaxError::ExpectedIfCondition),
            Ok((s2, Some(condition))) => {
                let s3 = e.spaced(s2);
                present(
                    if e.next(s3) == Some(Token::Then) {
                        if_then(e, s3, condition)
                    } else {
                        if_block(e, s3, condition, e.indent(s))
                    },
                )
            },
        }
    }
}

/// An `if` expression from `then` on.
#[verifier::opaque]
pub open spec fn if_then(e: Script, s: State, condition: AstIndex) -> Outcome<AstIndex>
    decreases e.left(s), 2nat,
        when e.next(s) is Some
{
    let s1 = e.taken(s);
    match e.onward(s1, expressions(e, s1, false)) {
        Err(x) => Err(x),
        Ok((s2, None)) => e.refused(s2, SyntaxError::ExpectedThenExpression),
        Ok((s2, Some(then_node))) => {
            let s3 = e.spaced(s2);
            if e.next(s3) != Some(Token::Else) {
                if_end(e, s3, condition, then_node, Seq::empty(), None)
            } else {
                match expressions(e, e.taken(s3), false) {
                    Err(x) => Err(x),
                    Ok((s4, None)) => e.refused(s4, SyntaxError::ExpectedElseExpression),
                    Ok((s4, Some(else_node))) => if_end(
                        e,
                        s4,
                        condition,
                        then_node,
                        Seq::empty(),
                        Some(else_node),
                    ),
                }
            }
        },
    }
}

/// An `if` expression from its first block on.
#[verifier::opaque]
pub open spec fn if_block(
    e: Script,
    s: State,
    condition: AstIndex,
    current_indent: usize,
) -> Outcome<AstIndex>
    decreases e.left(s), 13nat,
{
    match e.onward(s, map_or_block(e, s, current_indent)) {
        Err(x) => Err(x),
        Ok((s1, None)) => e.refused(s1, SyntaxError::ExpectedThenKeywordOrBlock),
        Ok((s1, Some(then_node))) => match e.onward(
            s1,
            else_if_blocks_from(e, s1, current_indent, Seq::empty()),
        ) {
            Err(x) => Err(x),
            Ok((s2, else_if_blocks)) => match else_block(e, s2, current_indent) {
                Err(x) => Err(x),
                Ok((s3, else_node)) => if_end(
                    e,
                    s3,
                    condition,
                    then_node,
                    else_if_blocks,
                    else_node,
                ),
            },
        },
    }
}

/// The `else if` blocks of an `if` expression, behind those that have been read. They are indented
/// as the expression is.
#[verifier::opaque]
pub open spec fn else_if_blocks_from(
    e: Script,
    s: State,
    current_indent: usize,
    blocks: Seq<(AstIndex, AstIndex)>,
) -> Outcome<Seq<(AstIndex, AstIndex)>>
    decreases e.left(s), 2nat,
{
    let s1 = e.spaced(s);
    if e.indent(s) != current_indent {
        Ok((s, blocks))
    } else if e.next(s1) != Some(Token::ElseIf) {
        Ok((s1, blocks))
    } else {
        let s2 = e.taken(s1);
        match e.onward(s2, expression(e, s2, Seq::empty(), 0)) {
            Err(x) => Err(x),
            Ok((s3, None)) => e.refused(s3, SyntaxError::ExpectedElseIfCondition),
            Ok((s3, Some(condition))) => match e.onward(
                s3,
                map_or_block(e, s3, current_indent),
            ) {
                Err(x) => Err(x),
                Ok((s4, None)) => e.refused(s4, SyntaxError::ExpectedElseIfBlock),
                Ok((s4, Some(block))) => else_if_blocks_from(
                    e,
                    s4,
                    current_indent,
                    blocks.push((condition, block)),
                ),
            },
        }
    }
}

/// The `else` block of an `if` expression, if it has one.
#[verifier::opaque]
pub open spec fn else_block(e: Script, s: State, current_indent: usize) -> Outcome<Option<AstIndex>>
    decreases e.left(s), 2nat,
{
    let s1 = e.spaced(s);
    if e.indent(s) != current_indent {
        Ok((s, None))
    } else if e.next(s1) != Some(Token::Else) {
        Ok((s1, None))
    } else {
        match map_or_block(e, e.taken(s1), current_indent) {
            Err(x) => Err(x),
            Ok((s2, None)) => e.refused(s2, SyntaxError::ExpectedElseBlock),
            Ok((s2, Some(block))) => Ok((s2, Some(block))),
        }
    }
}

/// An `if` expression that has been read.
pub open spec fn if_end(
    e: Script,
    s: State,
    condition: AstIndex,
    then_node: AstIndex,
    else_if_blocks: Seq<(AstIndex, AstIndex)>,
    else_node: Option<AstIndex>,
) -> Outcome<AstIndex> {
    e.add_node(s, NodeView::If(AstIfView { condition, then_node, else_if_blocks, else_node }))
}

// Functions

/// A function: arguments between bars, and a body that is a line or a block. What the body assigns
/// is local to the function; what it reads from outside is read by the scope around it too.
#[verifier::opaque]
pub open spec fn function(e: Script, s: State) -> Outcome<Option<AstIndex>>
    decreases e.left(s), 2nat,
{
    let s1 = e.spaced(s);
    let s2 = e.taken(s1);
    let (s3, args) = function_args(e, s2, Seq::empty());
    proof {
        lemma_function_args(e, s2, Seq::empty());
    }
    let s4 = e.spaced(s3);
    let s5 = e.taken(s4);
    if e.next(s1) != Some(Token::Function) {
        e.failed(s1, InternalError::FunctionParseFailure)
    } else if e.next(s4) != Some(Token::Function) {
        e.refused(s5, SyntaxError::ExpectedFunctionArgsEnd)
    } else {
        let s6 = State {
            frames: s5.frames.push(frame::new_frame(false, args.to_set())),
            ..s5
        };
        match function_body(e, s6, e.indent(s1)) {
            Err(x) => Err(x),
            Ok((s7, body)) => {
                let inner = s7.top();
                let outer = State { frames: s7.frames.drop_last(), ..s7 };
                present(
                    outer.with_top(outer.top().with_nested(inner)).add_spanned_node(
                        NodeView::Function(
                            FunctionView {
                                args,
                                local_count: inner.locals().len() as usize,
                                accessed_non_locals: Multiset::from_set(inner.non_locals),
                                body,
                                is_instance_function: args.len() > 0
                                    && s5.constants[args[0] as int] == ConstantView::Str(
                                    "self"@,
                                ),
                            },
                        ),
                        Span { start: e.span(s2).start, end: e.span(s7).end },
                    ),
                )
            },
        }
    }
}

/// The arguments of a function, behind those that have been read.
#[verifier::opaque]
pub open spec fn function_args(e: Script, s: State, args: Seq<ConstantIndex>) -> (
    State,
    Seq<ConstantIndex>,
)
    decreases e.left(s),
{
    match e.id(e.filled(s), true) {
        (s1, Some(arg)) => function_args(e, s1, args.push(arg)),
        (s1, None) => (s1, args),
    }
}

/// The arguments of a function lead forwards.
pub proof fn lemma_function_args(e: Script, s: State, args: Seq<ConstantIndex>)
    ensures
        e.left(function_args(e, s, args).0) <= e.left(s),
    decreases e.left(s),
{
    reveal(function_args);
    if let (s1, Some(arg)) = e.id(e.filled(s), true) {
        lemma_function_args(e, s1, args.push(arg));
    }
}

/// The body of a function.
#[verifier::opaque]
pub open spec fn function_body(e: Script, s: State, current_indent: usize) -> Outcome<AstIndex>
    decreases e.left(s), 13nat,
{
    let s1 = e.spaced(s);
    if e.next(s1) == Some(Token::NewLineIndented) && e.next_indent(s1) > current_indent {
        match map_or_block(e, s1, current_indent) {
            Err(x) => Err(x),
            Ok((s2, Some(body))) => Ok((s2, body)),
            Ok((s2, None)) => e.failed(s2, InternalError::FunctionParseFailure),
        }
    } else {
        match line(e, s1) {
            Err(x) => Err(x),
            Ok((s2, Some(body))) => Ok((s2, body)),
            Ok((s2, None)) => e.refused(s2, SyntaxError::ExpectedFunctionBody),
        }
    }
}

// Imports, exports and debugging

/// An `import`. The module, or the items that are taken from it, are assigned in the scope.
#[verifier::opaque]
pub open spec fn import(e: Script, s: State) -> Outcome<Option<AstIndex>> {
    if e.next(s) != Some(Token::Import) {
        Ok((s, None))
    } else {
        match import_items(e, e.spaced(e.taken(s))) {
            Err(x) => Err(x),
            Ok((s1, items)) => match import_module(e, s1) {
                Err(x) => Err(x),
                Ok((s2, module)) => present(
                    e.add_node(
                        s2.with_top(s2.top().with_assigned(module.last())),
                        NodeView::Import { module, items },
                    ),
                ),
            },
        }
    }
}

/// The items of an `import`, if it has a list of them.
#[verifier::opaque]
pub open spec fn import_items(e: Script, s: State) -> Outcome<Seq<ConstantIndex>> {
    if e.next(s) != Some(Token::ListStart) {
        Ok((s, Seq::empty()))
    } else {
        match e.id(e.taken(s), false) {
            (s1, None) => e.refused(s1, SyntaxError::ExpectedIdInImportItemList),
            (s1, Some(first)) => match import_items_from(e, s1, seq![first]) {
                Err(x) => Err(x),
                Ok((s2, items)) => {
                    let s3 = e.spaced(e.taken(s2));
                    let s4 = e.taken(s3);
                    if e.next(s2) != Some(Token::ListEnd) {
                        e.refused(e.taken(s2), SyntaxError::ExpectedListEndInImportItemList)
                    } else if e.next(s3) != Some(Token::From) {
                        e.refused(s4, SyntaxError::ExpectedFromAfterImportItemList)
                    } else {
                        Ok((s4.with_top(s4.top().with_all_assigned(items)), items))
                    }
                },
            },
        }
    }
}

/// The items of an `import`, behind those that have been read.
#[verifier::opaque]
pub open spec fn import_items_from(e: Script, s: State, items: Seq<ConstantIndex>) -> Outcome<
    Seq<ConstantIndex>,
>
    decreases e.left(s),
{
    let s1 = e.spaced(s);
    if e.next(s1) == Some(Token::ListEnd) {
        Ok((s1, items))
    } else {
        match e.id(s1, false) {
            (s2, None) => e.refused(s2, SyntaxError::ExpectedIdInImportItemList),
            (s2, Some(item)) => import_items_from(e, s2, items.push(item)),
        }
    }
}

/// The module of an `import`: ids with dots between them.
#[verifier::opaque]
pub open spec fn import_module(e: Script, s: State) -> Outcome<Seq<ConstantIndex>> {
    match e.id(s, false) {
        (s1, None) => e.refused(s1, SyntaxError::ExpectedImportModuleId),
        (s1, Some(first)) => import_module_from(e, s1, seq![first]),
    }
}

/// The module of an `import`, behind the ids that have been read.
#[verifier::opaque]
pub open spec fn import_module_from(e: Script, s: State, module: Seq<ConstantIndex>) -> Outcome<
    Seq<ConstantIndex>,
>
    decreases e.left(s),
{
    if e.next(s) != Some(Token::Dot) {
        Ok((s, module))
    } else {
        match e.id(e.taken(s), false) {
            (s1, None) => e.refused(s1, SyntaxError::ExpectedImportModuleId),
            (s1, Some(child)) => import_module_from(e, s1, module.push(child)),
        }
    }
}

/// An `export` of an id, with or without a value.
#[verifier::opaque]
pub open spec fn export(e: Script, s: State) -> Outcome<Option<AstIndex>>
    decreases e.left(s), 2nat,
{
    let s1 = e.spaced(s);
    if e.next(s1) != Some(Token::Export) {
        Ok((s1, None))
    } else {
        match e.id(e.taken(s1), false) {
            (s2, None) => e.refused(s2, SyntaxError::ExpectedExportExpression),
            (s2, Some(id)) => match e.add_node(s2, NodeView::Id(id)) {
                Err(x) => Err(x),
                Ok((s3, node)) => {
                    let s4 = e.spaced(s3);
                    match e.next(s4) {
                        Some(Token::Assign) => exported_value(e, e.taken(s4), node),
                        Some(Token::NewLine) | Some(Token::NewLineIndented) => Ok(
                            (s4, Some(node)),
                        ),
                        _ => e.refused(s4, SyntaxError::UnexpectedTokenAfterExportId),
                    }
                },
            },
        }
    }
}

/// The value of an id that is exported.
#[verifier::opaque]
pub open spec fn exported_value(e: Script, s: State, id: AstIndex) -> Outcome<Option<AstIndex>>
    decreases e.left(s), 8nat,
{
    match expressions(e, s, true) {
        Err(x) => Err(x),
        Ok((s1, None)) => e.refused(s1, SyntaxError::ExpectedRhsExpression),
        Ok((s1, Some(rhs))) => present(
            e.add_node(
                s1,
                NodeView::Assign {
                    target: AssignTarget { target_index: id, scope: Scope::Global },
                    op: AssignOp::Equal,
                    expression: rhs,
                },
            ),
        ),
    }
}

/// A `debug` expression, with the source of the expression behind it.
#[verifier::opaque]
pub open spec fn debug_expression(e: Script, s: State) -> Outcome<Option<AstIndex>>
    decreases e.left(s), 2nat,
{
    let s1 = e.taken(s);
    let s2 = e.spaced(s1);
    if e.next(s) != Some(Token::Debug) {
        Ok((s, None))
    } else {
        match expressions(e, s2, true) {
            Err(x) => Err(x),
            Ok((s3, None)) => e.refused(s3, SyntaxError::ExpectedExpression),
            Ok((s3, Some(expression))) => {
                let (s4, expression_string) = s3.add_constant(
                    ConstantView::Str(e.text_between(s2.at, s3.at)),
                );
                present(
                    s4.add_spanned_node(
                        NodeView::Debug { expression_string, expression },
                        Span { start: e.span(s1).start, end: e.span(s4).end },
                    ),
                )
            },
        }
    }
}

// Lines and blocks

/// A line: a loop, an export, a `debug` expression, a jump, or expressions. When it is complete,
/// what it reads and does not assign is known.
#[verifier::opaque]
pub open spec fn line(e: Script, s: State) -> Outcome<Option<AstIndex>>
    decreases e.left(s), 9nat,
{
    match line_form(e, e.spaced(s)) {
        Err(x) => Err(x),
        Ok((s1, None)) => Ok((s1, None)),
        Ok((s1, Some(node))) => Ok((s1.with_top(s1.top().finished()), Some(node))),
    }
}

/// What a line holds.
#[verifier::opaque]
pub open spec fn line_form(e: Script, s: State) -> Outcome<Option<AstIndex>>
    decreases e.left(s), 8nat,
{
    match e.next(s) {
        Some(Token::For) | Some(Token::While) | Some(Token::Until) => present(
            loop_form(e, s, None, true),
        ),
        Some(Token::Export) => export(e, s),
        Some(Token::Debug) => debug_expression(e, s),
        Some(Token::Error) => e.refused(s, SyntaxError::UnexpectedToken),
        Some(Token::Break) => present(e.add_node(e.taken(s), NodeView::Break)),
        Some(Token::Continue) => present(e.add_node(e.taken(s), NodeView::Continue)),
        Some(Token::Return) => match expressions(e, e.taken(s), true) {
            Err(x) => Err(x),
            Ok((s1, None)) => present(e.add_node(s1, NodeView::Return)),
            Ok((s1, Some(expression))) => present(
                e.add_node(s1, NodeView::ReturnExpression(expression)),
            ),
        },
        _ => expressions(e, s, false),
    }
}

/// A map over several lines, or a block.
#[verifier::opaque]
pub open spec fn map_or_block(e: Script, s: State, current_indent: usize) -> Outcome<
    Option<AstIndex>,
>
    decreases e.left(s), 12nat,
{
    let s1 = e.filled(s);
    let indent = e.next_indent(s1);
    match e.onward(s1, map_block(e, s1, current_indent, Some(indent))) {
        Err(x) => Err(x),
        Ok((s2, Some(node))) => Ok((s2, Some(node))),
        Ok((s2, None)) => indented_block(e, s2, current_indent, Some(indent)),
    }
}

/// A block: lines that are indented alike, and further than `current_indent`. `block_indent` is
/// their indentation; where it is not given, the block starts on the next line.
#[verifier::opaque]
pub open spec fn indented_block(
    e: Script,
    s: State,
    current_indent: usize,
    block_indent: Option<usize>,
) -> Outcome<Option<AstIndex>>
    decreases e.left(s), 11nat,
{
    match block_indent {
        Some(indent) => if indent <= current_indent {
            Ok((s, None))
        } else {
            present(block_from(e, e.filled(s), indent, Seq::empty()))
        },
        None => {
            let s1 = e.spaced(s);
            let indent = e.next_indent(s1);
            if e.next(s1) != Some(Token::NewLineIndented) || indent <= current_indent {
                Ok((s1, None))
            } else {
                present(block_from(e, e.filled(e.taken(s1)), indent, Seq::empty()))
            }
        },
    }
}

/// The lines of a block, behind those that have been read.
#[verifier::opaque]
pub open spec fn block_from(e: Script, s: State, indent: usize, body: Seq<AstIndex>) -> Outcome<
    AstIndex,
>
    decreases e.left(s), 10nat,
{
    match e.forward(s, line(e, s)) {
        Err(x) => Err(x),
        Ok((s1, None)) => block_end(s1, body),
        Ok((s1, Some(node))) => {
            let s2 = e.filled(s1);
            if e.indent(s2) < indent {
                block_end(s2, body.push(node))
            } else if e.indent(s2) > indent {
                e.refused(s2, SyntaxError::UnexpectedIndentation)
            } else {
                block_from(e, s2, indent, body.push(node))
            }
        },
    }
}

/// The lines that have been read: one by itself, or a block of them.
pub open spec fn block_end(s: State, body: Seq<AstIndex>) -> Outcome<AstIndex> {
    if body.len() == 1 {
        Ok((s, body[0]))
    } else {
        s.add_spanned_node(NodeView::Block(body), token::first_span())
    }
}

/// The lines of a script, behind those that have been read, up to its end.
#[verifier::opaque]
pub open spec fn main_block_from(e: Script, s: State, body: Seq<AstIndex>) -> Outcome<AstIndex>
    decreases e.left(s),
{
    let s1 = e.filled(s);
    if e.next(s1) is None {
        s1.add_spanned_node(
            NodeView::MainBlock { body, local_count: s1.top().locals().len() as usize },
            token::first_span(),
        )
    } else {
        match e.forward(s1, line(e, s1)) {
            Err(x) => Err(x),
            Ok((s2, None)) => e.refused(s2, SyntaxError::ExpectedExpressionInMainBlock),
            Ok((s2, Some(node))) => main_block_from(e, s2, body.push(node)),
        }
    }
}

/// What there is before anything has been read: no nodes, no constants, and the main scope.
pub open spec fn initial_state() -> State {
    State {
        at: 0,
        nodes: Seq::empty(),
        constants: Seq::empty(),
        frames: seq![frame::new_frame(true, Set::empty())],
    }
}

/// A script as a whole: its main block.
pub open spec fn main_block(e: Script) -> Outcome<AstIndex> {
    main_block_from(e, initial_state(), Seq::empty())
}

} // verus!
