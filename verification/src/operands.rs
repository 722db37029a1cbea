//! Reading what an operator can be applied to.

use crate::error::{ParserError, SyntaxError};
use crate::grammar;
use crate::node::{AstIndex, Node};
use crate::parser::Parser;
use crate::token::Token;
use vstd::prelude::*;

verus! {

broadcast use {crate::script::group_places, crate::script::group_extends};

impl<'source> Parser<'source> {
    /// Reads `copy` or `not`, and the expression behind it.
    pub(crate) fn parse_operand(&mut self, copy: bool) -> (r: Result<Option<AstIndex>, ParserError>)
        requires
            old(self).wf(),
            old(self).script().next(old(self).state()) == Some(
                if copy {
                    Token::Copy
                } else {
                    Token::Not
                },
            ),
        ensures
            old(self).reads_form(
                final(self),
                r,
                grammar::operand(old(self).script(), old(self).state(), copy),
            ),
        decreases old(self).left(), 20nat,
    {
        reveal(grammar::operand);
        self.consume_token();
        match self.parse_primary_expression()? {
            Some(expression) => {
                let node = if copy {
                    Node::CopyExpression(expression)
                } else {
                    Node::Negate(expression)
                };
                Ok(Some(self.push_node(node)?))
            },
            None => Err(self.syntax_error(SyntaxError::ExpectedExpression)),
        }
    }

    /// Reads an expression in parentheses.
    pub(crate) fn parse_nested_expression(&mut self) -> (r: Result<Option<AstIndex>, ParserError>)
        requires
            old(self).wf(),
        ensures
            old(self).reads_form(
                final(self),
                r,
                grammar::nested_expression(old(self).script(), old(self).state()),
            ),
        decreases old(self).left(), 20nat,
    {
        reveal(grammar::nested_expression);
        if self.skip_whitespace_and_peek() != Some(Token::ParenOpen) {
            return Ok(None);
        }
        self.consume_token();
        let expression = if let Some(expression) = self.parse_primary_expression()? {
            expression
        } else {
            self.push_node(Node::Empty)?
        };
        if let Some(Token::ParenClose) = self.peek_token() {
            self.consume_token();
            Ok(Some(expression))
        } else {
            Err(self.syntax_error(SyntaxError::ExpectedCloseParen))
        }
    }

    /// Reads a minus sign and what it negates.
    pub(crate) fn parse_negatable_expression(&mut self) -> (r: Result<
        Option<AstIndex>,
        ParserError,
    >)
        requires
            old(self).wf(),
        ensures
            old(self).reads_form(
                final(self),
                r,
                grammar::negated(old(self).script(), old(self).state()),
            ),
        decreases old(self).left(), 20nat,
    {
        reveal(grammar::negated);
        reveal(grammar::negatable);
        reveal(grammar::nested_expression);
        if self.skip_whitespace_and_peek() != Some(Token::Subtract) {
            return Ok(None);
        }
        if self.peek_token_n(1) == Some(Token::Whitespace) {
            return Ok(None);
        }
        self.consume_token();
        let node = match self.peek_token() {
            Some(Token::Id) => self.parse_id_expression(false)?,
            Some(Token::ParenOpen) => self.parse_nested_expression()?,
            _ => None,
        };
        match node {
            Some(node) => Ok(Some(self.push_node(Node::Negate(node))?)),
            None => Err(self.syntax_error(SyntaxError::ExpectedNegatableExpression)),
        }
    }

    /// Reads a range, if a range symbol is next.
    pub(crate) fn parse_range(&mut self, lhs: Option<AstIndex>) -> (r: Result<
        Option<AstIndex>,
        ParserError,
    >)
        requires
            old(self).wf(),
            lhs matches Some(start) ==> start < old(self).state().nodes.len(),
        ensures
            old(self).reads_form(
                final(self),
                r,
                grammar::optional_range(old(self).script(), old(self).state(), lhs),
            ),
        decreases old(self).left(), 20nat,
    {
        reveal(grammar::range);
        let inclusive = match self.peek_token() {
            Some(Token::Range) => false,
            Some(Token::RangeInclusive) => true,
            _ => {
                return Ok(None);
            },
        };
        self.consume_token();
        let rhs = self.parse_term(false)?;
        let node = Parser::range_node(lhs, rhs, inclusive);
        Ok(Some(self.push_node(node)?))
    }

    /// The range between two ends, each of which may be absent.
    pub(crate) fn range_node(
        start: Option<AstIndex>,
        end: Option<AstIndex>,
        inclusive: bool,
    ) -> (node: Node)
        ensures
            node@ == grammar::range_node(start, end, inclusive),
    {
        match (start, end) {
            (Some(start), Some(end)) => Node::Range { start, end, inclusive },
            (Some(start), None) => Node::RangeFrom { start },
            (None, Some(end)) => Node::RangeTo { end, inclusive },
            (None, None) => Node::RangeFull,
        }
    }
}

} // verus!
