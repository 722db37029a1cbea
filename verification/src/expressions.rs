//! Reading expressions.

use crate::error::ParserError;
use crate::grammar;
use crate::node::AstIndex;
use crate::parser::Parser;
use crate::token::Token;
use vstd::prelude::*;

verus! {

broadcast use {crate::script::group_places, crate::script::group_extends};

impl<'source> Parser<'source> {
    /// Reads an expression that is not in a primary position.
    pub(crate) fn parse_non_primary_expression(&mut self) -> (r: Result<
        Option<AstIndex>,
        ParserError,
    >)
        requires
            old(self).wf(),
        ensures
            old(self).reads_form(
                final(self),
                r,
                grammar::expression(old(self).script(), old(self).state(), Seq::empty(), 1),
            ),
        decreases old(self).left(), 50nat,
    {
        self.parse_expression_start(&Vec::new(), 1)
    }

    /// Reads an expression in a primary position.
    pub(crate) fn parse_primary_expression(&mut self) -> (r: Result<Option<AstIndex>, ParserError>)
        requires
            old(self).wf(),
        ensures
            old(self).reads_form(
                final(self),
                r,
                grammar::expression(old(self).script(), old(self).state(), Seq::empty(), 0),
            ),
        decreases old(self).left(), 50nat,
    {
        self.parse_expression_start(&Vec::new(), 0)
    }

    /// Reads an expression in a primary position, behind other expressions.
    pub(crate) fn parse_primary_expression_with_lhs(&mut self, lhs: &Vec<AstIndex>) -> (r: Result<
        Option<AstIndex>,
        ParserError,
    >)
        requires
            old(self).wf(),
            old(self).has_nodes(lhs@),
        ensures
            old(self).reads_form(
                final(self),
                r,
                grammar::expression(old(self).script(), old(self).state(), lhs@, 0),
            ),
        decreases old(self).left(), 50nat,
    {
        self.parse_expression_start(lhs, 0)
    }

    /// Reads an expression, behind other expressions.
    pub(crate) fn parse_expression_start(&mut self, lhs: &Vec<AstIndex>, min_precedence: u8) -> (r:
        Result<Option<AstIndex>, ParserError>)
        requires
            old(self).wf(),
            old(self).has_nodes(lhs@),
        ensures
            old(self).reads_form(
                final(self),
                r,
                grammar::expression(old(self).script(), old(self).state(), lhs@, min_precedence),
            ),
        decreases old(self).left(), 40nat,
    {
        reveal(grammar::expression);
        reveal(grammar::first_operand);
        let primary_expression = min_precedence == 0;
        let start_line = self.line_number();
        let start = if let Some(node) = self.parse_negatable_expression()? {
            Some(node)
        } else if let Some(node) = self.parse_id_expression(primary_expression)? {
            Some(node)
        } else {
            self.parse_term(primary_expression)?
        };
        match self.peek_token() {
            Some(Token::Range) | Some(Token::RangeInclusive) => {
                return self.parse_range(start);
            },
            _ => {},
        }
        let start = match start {
            Some(start) => start,
            None => {
                return Ok(None);
            },
        };
        if start_line == self.line_number() {
            let mut lhs_with_start = lhs.clone();
            assert(lhs_with_start@ =~= lhs@);
            lhs_with_start.push(start);
            self.parse_expression_continued(&lhs_with_start, min_precedence)
        } else {
            Ok(Some(start))
        }
    }
}

} // verus!
