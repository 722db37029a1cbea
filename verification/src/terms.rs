//! Reading terms.

use crate::error::{InternalError, ParserError, SyntaxError};
use crate::grammar;
use crate::node::{AstIndex, Node};
use crate::number;
use crate::parser::Parser;
use crate::text;
use crate::token::Token;
use vstd::prelude::*;

verus! {

broadcast use {crate::script::group_places, crate::script::group_extends};

impl<'source> Parser<'source> {
    /// Reads a term.
    pub(crate) fn parse_term(&mut self, primary_expression: bool) -> (r: Result<
        Option<AstIndex>,
        ParserError,
    >)
        requires
            old(self).wf(),
        ensures
            old(self).reads_form(
                final(self),
                r,
                grammar::term(old(self).script(), old(self).state(), primary_expression),
            ),
        decreases old(self).left(), 30nat,
    {
        reveal(grammar::term);
        let current_indent = self.current_indent();
        let token = match self.skip_whitespace_and_peek() {
            Some(token) => token,
            None => {
                return Ok(None);
            },
        };
        let node = match token {
            Token::True => {
                self.consume_token();
                self.push_node(Node::BoolTrue)?
            },
            Token::False => {
                self.consume_token();
                self.push_node(Node::BoolFalse)?
            },
            Token::ParenOpen => {
                return self.parse_nested_expression();
            },
            Token::Number => self.parse_number()?,
            Token::Str => self.parse_string()?,
            Token::Id => {
                return self.parse_id_expression(primary_expression);
            },
            Token::ListStart => {
                return self.parse_list();
            },
            Token::MapStart => {
                return self.parse_inline_map();
            },
            Token::Num2 => {
                return self.parse_num(2, SyntaxError::TooManyNum2Terms);
            },
            Token::Num4 => {
                return self.parse_num(4, SyntaxError::TooManyNum4Terms);
            },
            Token::If => {
                return self.parse_if_expression();
            },
            Token::Function => {
                return self.parse_function();
            },
            Token::Copy => {
                return self.parse_operand(true);
            },
            Token::Not => {
                return self.parse_operand(false);
            },
            Token::Import => {
                return self.parse_import_expression();
            },
            Token::NewLineIndented => {
                return self.parse_map_block(current_indent, None);
            },
            Token::Error => {
                return Err(self.syntax_error(SyntaxError::LexerError));
            },
            _ => {
                return Ok(None);
            },
        };
        Ok(Some(node))
    }

    /// Reads a number literal.
    pub(crate) fn parse_number(&mut self) -> (r: Result<AstIndex, ParserError>)
        requires
            old(self).wf(),
            old(self).script().next(old(self).state()) == Some(Token::Number),
        ensures
            old(self).reads_node(
                final(self),
                r,
                grammar::number(old(self).script(), old(self).state()),
            ),
            r is Ok ==> final(self).left() < old(self).left(),
    {
        reveal(grammar::number);
        proof {
            self.lemma_reached();
        }
        self.consume_token();
        match self.number() {
            Some(bits) => {
                if number::number_is_zero(bits) {
                    self.push_node(Node::Number0)
                } else if number::number_is_one(bits) {
                    self.push_node(Node::Number1)
                } else {
                    let constant = self.add_number(bits);
                    self.push_node(Node::Number(constant))
                }
            },
            None => Err(self.internal_error(InternalError::NumberParseFailure)),
        }
    }

    /// Reads a string literal.
    pub(crate) fn parse_string(&mut self) -> (r: Result<AstIndex, ParserError>)
        requires
            old(self).wf(),
            old(self).script().next(old(self).state()) == Some(Token::Str),
        ensures
            old(self).reads_node(
                final(self),
                r,
                grammar::string(old(self).script(), old(self).state()),
            ),
            r is Ok ==> final(self).left() < old(self).left(),
    {
        reveal(grammar::string);
        proof {
            self.lemma_reached();
        }
        self.consume_token();
        let literal = self.slice();
        let constant = self.add_string(text::unquote(literal));
        self.push_node(Node::Str(constant))
    }
}

} // verus!
