//! Reading `if` expressions.

use crate::error::{ParserError, SyntaxError};
use crate::grammar;
use crate::node::{AstIf, AstIndex, Node};
use crate::parser::Parser;
use crate::token::Token;
use crate::tree;
use vstd::prelude::*;

verus! {

broadcast use {crate::script::group_places, crate::script::group_extends};

impl<'source> Parser<'source> {
    /// Reads an `if` expression.
    pub(crate) fn parse_if_expression(&mut self) -> (r: Result<Option<AstIndex>, ParserError>)
        requires
            old(self).wf(),
        ensures
            old(self).reads_form(
                final(self),
                r,
                grammar::if_expression(old(self).script(), old(self).state()),
            ),
        decreases old(self).left(), 20nat,
    {
        reveal(grammar::if_expression);
        reveal(grammar::if_then);
        reveal(grammar::if_block);
        if self.peek_token() != Some(Token::If) {
            return Ok(None);
        }
        let current_indent = self.current_indent();
        self.consume_token();
        let condition = match self.parse_primary_expression()? {
            Some(condition) => condition,
            None => {
                return Err(self.syntax_error(SyntaxError::ExpectedIfCondition));
            },
        };
        let node = if self.skip_whitespace_and_peek() == Some(Token::Then) {
            self.parse_if_then(condition)?
        } else {
            self.parse_if_block(condition, current_indent)?
        };
        Ok(Some(node))
    }

    /// Reads an `if` expression from `then` on.
    fn parse_if_then(&mut self, condition: AstIndex) -> (r: Result<AstIndex, ParserError>)
        requires
            old(self).wf(),
            condition < old(self).state().nodes.len(),
            old(self).script().next(old(self).state()) == Some(Token::Then),
        ensures
            old(self).reads_node(
                final(self),
                r,
                grammar::if_then(old(self).script(), old(self).state(), condition),
            ),
        decreases old(self).left(), 20nat,
    {
        reveal(grammar::if_then);
        self.consume_token();
        let then_node = match self.parse_primary_expressions(false)? {
            Some(then_node) => then_node,
            None => {
                return Err(self.syntax_error(SyntaxError::ExpectedThenExpression));
            },
        };
        let else_node = if self.skip_whitespace_and_peek() == Some(Token::Else) {
            self.consume_token();
            match self.parse_primary_expressions(false)? {
                Some(else_node) => Some(else_node),
                None => {
                    return Err(self.syntax_error(SyntaxError::ExpectedElseExpression));
                },
            }
        } else {
            None
        };
        let else_if_blocks: Vec<(AstIndex, AstIndex)> = Vec::new();
        assert(else_if_blocks@ =~= Seq::<(AstIndex, AstIndex)>::empty());
        self.push_node(Node::If(AstIf { condition, then_node, else_if_blocks, else_node }))
    }

    /// Reads an `if` expression from its first block on.
    fn parse_if_block(&mut self, condition: AstIndex, current_indent: usize) -> (r: Result<
        AstIndex,
        ParserError,
    >)
        requires
            old(self).wf(),
            condition < old(self).state().nodes.len(),
        ensures
            old(self).reads_node(
                final(self),
                r,
                grammar::if_block(
                    old(self).script(),
                    old(self).state(),
                    condition,
                    current_indent,
                ),
            ),
        decreases old(self).left(), 100nat,
    {
        reveal(grammar::if_block);
        reveal(grammar::else_if_blocks_from);
        reveal(grammar::else_block);
        let then_node = match self.parse_indented_map_or_block(current_indent)? {
            Some(then_node) => then_node,
            None => {
                return Err(self.syntax_error(SyntaxError::ExpectedThenKeywordOrBlock));
            },
        };
        let else_if_blocks = self.parse_else_if_blocks(current_indent)?;
        let else_node = self.parse_else_block(current_indent)?;
        self.push_node(Node::If(AstIf { condition, then_node, else_if_blocks, else_node }))
    }

    /// Reads the `else if` blocks of an `if` expression.
    #[verifier::loop_isolation(false)]
    fn parse_else_if_blocks(&mut self, current_indent: usize) -> (r: Result<
        Vec<(AstIndex, AstIndex)>,
        ParserError,
    >)
        requires
            old(self).wf(),
        ensures
            old(self).reads_list(
                final(self),
                r,
                grammar::else_if_blocks_from(
                    old(self).script(),
                    old(self).state(),
                    current_indent,
                    Seq::empty(),
                ),
            ),
            r matches Ok(blocks) ==> tree::are_pairs(
                final(self).state().nodes.len() as int,
                blocks@,
            ),
        decreases old(self).left(), 20nat,
    {
        let mut blocks: Vec<(AstIndex, AstIndex)> = Vec::new();
        assert(blocks@ =~= Seq::<(AstIndex, AstIndex)>::empty());
        let ghost e = self.script();
        let ghost from_here = grammar::else_if_blocks_from(
            e,
            self.state(),
            current_indent,
            blocks@,
        );
        while self.current_indent() == current_indent
            invariant
                self.script() == e,
                old(self).leads_to(self),
                tree::are_pairs(self.state().nodes.len() as int, blocks@),
                grammar::else_if_blocks_from(e, self.state(), current_indent, blocks@)
                    == from_here,
            decreases self.left(),
        {
            reveal(grammar::else_if_blocks_from);
            if self.skip_whitespace_and_peek() != Some(Token::ElseIf) {
                return Ok(blocks);
            }
            self.consume_token();
            let condition = match self.parse_primary_expression()? {
                Some(condition) => condition,
                None => {
                    return Err(self.syntax_error(SyntaxError::ExpectedElseIfCondition));
                },
            };
            match self.parse_indented_map_or_block(current_indent)? {
                Some(block) => blocks.push((condition, block)),
                None => {
                    return Err(self.syntax_error(SyntaxError::ExpectedElseIfBlock));
                },
            }
        }
        reveal(grammar::else_if_blocks_from);
        Ok(blocks)
    }

    /// Reads the `else` block of an `if` expression, if it has one.
    fn parse_else_block(&mut self, current_indent: usize) -> (r: Result<
        Option<AstIndex>,
        ParserError,
    >)
        requires
            old(self).wf(),
        ensures
            old(self).reads_form(
                final(self),
                r,
                grammar::else_block(old(self).script(), old(self).state(), current_indent),
            ),
        decreases old(self).left(), 20nat,
    {
        reveal(grammar::else_block);
        if self.current_indent() != current_indent {
            return Ok(None);
        }
        if self.skip_whitespace_and_peek() != Some(Token::Else) {
            return Ok(None);
        }
        self.consume_token();
        match self.parse_indented_map_or_block(current_indent)? {
            Some(block) => Ok(Some(block)),
            None => Err(self.syntax_error(SyntaxError::ExpectedElseBlock)),
        }
    }
}

} // verus!
