//! Reading binary operators.

use crate::error::{InternalError, ParserError, SyntaxError};
use crate::grammar;
use crate::node::{AssignOp, AstIndex, AstOp, Node};
use crate::parser::Parser;
use crate::token::Token;
use vstd::prelude::*;

verus! {

broadcast use {crate::script::group_places, crate::script::group_extends};

impl<'source> Parser<'source> {
    /// Reads what follows the operands of an expression.
    pub(crate) fn parse_expression_continued(
        &mut self,
        lhs: &Vec<AstIndex>,
        min_precedence: u8,
    ) -> (r: Result<Option<AstIndex>, ParserError>)
        requires
            old(self).wf(),
            old(self).has_nodes(lhs@),
        ensures
            old(self).attempts(
                final(self),
                r,
                grammar::continued(old(self).script(), old(self).state(), lhs@, min_precedence),
                lhs@.len() > 0,
            ),
            r is Ok ==> r->Ok_0 is Some && r->Ok_0->0 < final(self).state().nodes.len(),
        decreases old(self).left(), 30nat,
    {
        reveal(grammar::continued);
        reveal(grammar::operation);
        let primary_expression = min_precedence == 0;
        if lhs.len() == 0 {
            return Err(self.internal_error(InternalError::MissingContinuedExpressionLhs));
        }
        let last_lhs = lhs[lhs.len() - 1];
        let next = match self.skip_whitespace_and_peek() {
            Some(next) => next,
            None => {
                return Ok(Some(last_lhs));
            },
        };
        match next {
            Token::NewLine | Token::NewLineIndented => {
                if let Some(maybe_operator) = self.peek_until_next_token() {
                    if operator_precedence(maybe_operator).is_some() {
                        self.consume_until_next_token();
                        return self.parse_expression_continued(lhs, min_precedence);
                    }
                }
            },
            Token::For => {
                return self.parse_for_loop(Some(lhs), primary_expression);
            },
            Token::While => {
                return self.parse_while_loop(Some(lhs), primary_expression);
            },
            Token::Until => {
                return self.parse_until_loop(Some(lhs), primary_expression);
            },
            Token::Assign => {
                return self.parse_assign_expression(lhs, AssignOp::Equal);
            },
            Token::AssignAdd => {
                return self.parse_assign_expression(lhs, AssignOp::Add);
            },
            Token::AssignSubtract => {
                return self.parse_assign_expression(lhs, AssignOp::Subtract);
            },
            Token::AssignMultiply => {
                return self.parse_assign_expression(lhs, AssignOp::Multiply);
            },
            Token::AssignDivide => {
                return self.parse_assign_expression(lhs, AssignOp::Divide);
            },
            Token::AssignModulo => {
                return self.parse_assign_expression(lhs, AssignOp::Modulo);
            },
            _ => {
                if let Some((left_priority, _)) = operator_precedence(next) {
                    if let Some(token_after_op) = self.peek_token_n(1) {
                        if token_is_whitespace(token_after_op) && left_priority >= min_precedence {
                            let node = self.parse_operation(last_lhs)?;
                            let mut lhs: Vec<AstIndex> = Vec::new();
                            lhs.push(node);
                            assert(lhs@ =~= seq![node]);
                            return self.parse_expression_continued(&lhs, min_precedence);
                        }
                    }
                }
            },
        }
        Ok(Some(last_lhs))
    }

    /// Reads a binary operator and its right side.
    pub(crate) fn parse_operation(&mut self, lhs: AstIndex) -> (r: Result<AstIndex, ParserError>)
        requires
            old(self).wf(),
            lhs < old(self).state().nodes.len(),
            grammar::is_operator(old(self).script().next(old(self).state())),
        ensures
            old(self).reads_node(
                final(self),
                r,
                grammar::operation(old(self).script(), old(self).state(), lhs),
            ),
            r is Ok ==> final(self).left() < old(self).left(),
        decreases old(self).left(), 20nat,
    {
        reveal(grammar::operation);
        let op = match self.consume_token() {
            Some(op) => op,
            None => Token::Or,
        };
        let right_priority: u8 = match operator_precedence(op) {
            Some((_, right_priority)) => right_priority,
            None => 0,
        };
        let current_indent = self.current_indent();
        let rhs = if let Some(map_block) = self.parse_map_block(current_indent, None)? {
            map_block
        } else if let Some(rhs) = self.parse_expression_start(&Vec::new(), right_priority)? {
            rhs
        } else {
            return Err(self.syntax_error(SyntaxError::ExpectedRhsExpression));
        };
        self.push_ast_op(op, lhs, rhs)
    }

    /// Adds the node of a binary operator.
    pub(crate) fn push_ast_op(&mut self, op: Token, lhs: AstIndex, rhs: AstIndex) -> (r: Result<
        AstIndex,
        ParserError,
    >)
        requires
            old(self).wf(),
            grammar::precedence(op) is Some,
            lhs < old(self).state().nodes.len(),
            rhs < old(self).state().nodes.len(),
        ensures
            old(self).reads_node(
                final(self),
                r,
                old(self).script().add_node(
                    old(self).state(),
                    crate::node::NodeView::BinaryOp { op: grammar::binary_op(op), lhs, rhs },
                ),
            ),
    {
        let ast_op = match op {
            Token::Add => AstOp::Add,
            Token::Subtract => AstOp::Subtract,
            Token::Multiply => AstOp::Multiply,
            Token::Divide => AstOp::Divide,
            Token::Modulo => AstOp::Modulo,
            Token::Equal => AstOp::Equal,
            Token::NotEqual => AstOp::NotEqual,
            Token::Greater => AstOp::Greater,
            Token::GreaterOrEqual => AstOp::GreaterOrEqual,
            Token::Less => AstOp::Less,
            Token::LessOrEqual => AstOp::LessOrEqual,
            Token::And => AstOp::And,
            _ => AstOp::Or,
        };
        self.push_node(Node::BinaryOp { op: ast_op, lhs, rhs })
    }
}

/// The binding power of a binary operator to its left and to its right.
pub fn operator_precedence(op: Token) -> (r: Option<(u8, u8)>)
    ensures
        r == grammar::precedence(op),
{
    match op {
        Token::Or => Some((1, 2)),
        Token::And => Some((3, 4)),
        // Comparisons can be chained, so they bind to the right first.
        Token::Equal | Token::NotEqual => Some((6, 5)),
        Token::Greater | Token::GreaterOrEqual | Token::Less | Token::LessOrEqual => Some((8, 7)),
        Token::Add | Token::Subtract => Some((9, 10)),
        Token::Multiply | Token::Divide | Token::Modulo => Some((11, 12)),
        _ => None,
    }
}

/// Whether a token makes an operator before it a binary one.
pub fn token_is_whitespace(op: Token) -> (r: bool)
    ensures
        r == grammar::is_whitespace(op),
{
    matches!(op, Token::Whitespace | Token::NewLine | Token::NewLineIndented)
}

} // verus!
