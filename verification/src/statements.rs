//! Reading lines.

use crate::error::{ParserError, SyntaxError};
use crate::grammar;
use crate::node::{AssignOp, AssignTarget, AstIndex, ConstantIndex, Node, Scope};
use crate::parser::Parser;
use crate::scopes::laws;
use crate::token::Token;
use vstd::prelude::*;

verus! {

broadcast use {crate::script::group_places, crate::script::group_extends};

impl<'source> Parser<'source> {
    /// Reads an `export`, if there is one.
    pub(crate) fn parse_export_id(&mut self) -> (r: Result<Option<AstIndex>, ParserError>)
        requires
            old(self).wf(),
        ensures
            old(self).reads_form(
                final(self),
                r,
                grammar::export(old(self).script(), old(self).state()),
            ),
        decreases old(self).left(), 20nat,
    {
        reveal(grammar::export);
        reveal(grammar::exported_value);
        if self.skip_whitespace_and_peek() != Some(Token::Export) {
            return Ok(None);
        }
        self.consume_token();
        let id = match self.parse_id(false) {
            Some(id) => id,
            None => {
                return Err(self.syntax_error(SyntaxError::ExpectedExportExpression));
            },
        };
        let export_id = self.push_node(Node::Id(id))?;
        match self.skip_whitespace_and_peek() {
            Some(Token::Assign) => {
                self.consume_token();
                match self.parse_primary_expressions(true)? {
                    Some(rhs) => {
                        let node = Node::Assign {
                            target: AssignTarget {
                                target_index: export_id,
                                scope: Scope::Global,
                            },
                            op: AssignOp::Equal,
                            expression: rhs,
                        };
                        Ok(Some(self.push_node(node)?))
                    },
                    None => Err(self.syntax_error(SyntaxError::ExpectedRhsExpression)),
                }
            },
            Some(Token::NewLine) | Some(Token::NewLineIndented) => Ok(Some(export_id)),
            _ => Err(self.syntax_error(SyntaxError::UnexpectedTokenAfterExportId)),
        }
    }

    /// Reads a `debug` expression, if there is one.
    pub(crate) fn parse_debug_expression(&mut self) -> (r: Result<Option<AstIndex>, ParserError>)
        requires
            old(self).wf(),
        ensures
            old(self).reads_form(
                final(self),
                r,
                grammar::debug_expression(old(self).script(), old(self).state()),
            ),
        decreases old(self).left(), 20nat,
    {
        reveal(grammar::debug_expression);
        if self.peek_token() != Some(Token::Debug) {
            return Ok(None);
        }
        proof {
            self.lemma_reached();
        }
        self.consume_token();
        let start_span = self.span();
        self.skip_whitespace_and_peek();
        let expression_start = self.position();
        let expression = match self.parse_primary_expressions(true)? {
            Some(expression) => expression,
            None => {
                return Err(self.syntax_error(SyntaxError::ExpectedExpression));
            },
        };
        let source = self.text_since(expression_start);
        let expression_string = self.add_string(source.as_str());
        let node = Node::Debug { expression_string, expression };
        Ok(Some(self.push_node_with_start_span(node, start_span)?))
    }

    /// Reads a line.
    pub(crate) fn parse_line(&mut self) -> (r: Result<Option<AstIndex>, ParserError>)
        requires
            old(self).wf(),
        ensures
            old(self).reads_form(
                final(self),
                r,
                grammar::line(old(self).script(), old(self).state()),
            ),
            r matches Ok(Some(_)) ==> {
                &&& final(self).state().frames.len() == old(self).state().frames.len()
                &&& final(self).state().frames.drop_last() == old(self).state().frames.drop_last()
                &&& final(self).state().top().accesses == Map::<ConstantIndex, usize>::empty()
            },
        decreases old(self).left(), 70nat,
    {
        proof {
            self.lemma_reached();
            laws::law_line_leaves_scopes(self.script(), self.state());
        }
        reveal(grammar::line);
        reveal(grammar::line_form);
        reveal(grammar::export);
        reveal(grammar::debug_expression);
        let node = if let Some(for_loop) = self.parse_for_loop(None, true)? {
            for_loop
        } else if let Some(while_loop) = self.parse_while_loop(None, true)? {
            while_loop
        } else if let Some(until_loop) = self.parse_until_loop(None, true)? {
            until_loop
        } else if let Some(export_id) = self.parse_export_id()? {
            export_id
        } else if let Some(debug_expression) = self.parse_debug_expression()? {
            debug_expression
        } else {
            match self.peek_token() {
                Some(Token::Error) => {
                    return Err(self.syntax_error(SyntaxError::UnexpectedToken));
                },
                Some(Token::Break) => {
                    self.consume_token();
                    self.push_node(Node::Break)?
                },
                Some(Token::Continue) => {
                    self.consume_token();
                    self.push_node(Node::Continue)?
                },
                Some(Token::Return) => {
                    self.consume_token();
                    if let Some(expression) = self.parse_primary_expressions(true)? {
                        self.push_node(Node::ReturnExpression(expression))?
                    } else {
                        self.push_node(Node::Return)?
                    }
                },
                _ => {
                    match self.parse_primary_expressions(false)? {
                        Some(expressions) => expressions,
                        None => {
                            return Ok(None);
                        },
                    }
                },
            }
        };
        self.finish_expressions()?;
        Ok(Some(node))
    }
}

} // verus!
