//! Reading ids, and the arguments of calls.

use crate::error::{self, InternalError, ParserError, SyntaxError};
use crate::grammar;
use crate::node::{AstIndex, Node};
use crate::parser::Parser;
use crate::token::Token;
use vstd::prelude::*;

verus! {

broadcast use {crate::script::group_places, crate::script::group_extends};

impl<'source> Parser<'source> {
    /// Reads an id, with the lookup or the call that it starts.
    pub(crate) fn parse_id_expression(&mut self, primary_expression: bool) -> (r: Result<
        Option<AstIndex>,
        ParserError,
    >)
        requires
            old(self).wf(),
        ensures
            old(self).reads_form(
                final(self),
                r,
                grammar::id_expression(
                    old(self).script(),
                    old(self).state(),
                    primary_expression,
                ),
            ),
        decreases old(self).left(), 20nat,
    {
        reveal(grammar::id_expression);
        reveal(grammar::open_args);
        let constant = match self.parse_id(primary_expression) {
            Some(constant) => constant,
            None => {
                return Ok(None);
            },
        };
        proof {
            old(self).lemma_frames(constant);
        }
        self.read_id(constant)?;
        let node = match self.peek_token() {
            Some(Token::Whitespace) if primary_expression => {
                let start_span = self.span();
                self.consume_token();
                let function = self.push_node(Node::Id(constant))?;
                match self.parse_open_args()? {
                    Some(args) => self.push_node_with_start_span(
                        Node::Call { function, args },
                        start_span,
                    )?,
                    None => function,
                }
            },
            Some(Token::ParenOpen) | Some(Token::ListStart) | Some(Token::Dot) => {
                self.parse_lookup(constant, primary_expression)?
            },
            _ => self.push_node(Node::Id(constant))?,
        };
        Ok(Some(node))
    }

    /// Reads the arguments of a call without parentheses, if there are any.
    #[verifier::loop_isolation(false)]
    pub(crate) fn parse_open_args(&mut self) -> (r: Result<Option<Vec<AstIndex>>, ParserError>)
        requires
            old(self).wf(),
        ensures
            grammar::open_args(old(self).script(), old(self).state()) == (match r {
                Ok(Some(args)) => Ok((final(self).state(), Some(args@))),
                Ok(None) => Ok((final(self).state(), None)),
                Err(error) => Err(error),
            }),
            r is Ok ==> old(self).leads_to(final(self)),
            r matches Err(error) ==> error::is_possible(error),
            r matches Ok(Some(args)) ==> args@.len() > 0 && final(self).has_nodes(args@),
        decreases old(self).left(), 60nat,
    {
        reveal(grammar::open_args);
        let mut args: Vec<AstIndex> = Vec::new();
        match self.parse_non_primary_expression()? {
            Some(arg) => args.push(arg),
            None => {
                return Ok(None);
            },
        }
        let line = self.line_number();
        let ghost e = self.script();
        let ghost from_here = grammar::open_args_from(e, self.state(), line, args@);
        assert(args@ =~= seq![args@[0]]);
        loop
            invariant
                self.script() == e,
                old(self).leads_to(self),
                self.left() < old(self).left(),
                args@.len() > 0,
                self.has_nodes(args@),
                grammar::open_args_from(e, self.state(), line, args@) == from_here,
            decreases self.left(),
        {
            reveal(grammar::open_args_from);
            match self.parse_non_primary_expression()? {
                Some(arg) => args.push(arg),
                None => {
                    return Ok(Some(args));
                },
            }
            if self.line_number() != line {
                return Ok(Some(args));
            }
        }
    }

    /// Reads the arguments of a call in parentheses.
    #[verifier::loop_isolation(false)]
    pub(crate) fn parse_parenthesized_args(&mut self) -> (r: Result<Vec<AstIndex>, ParserError>)
        requires
            old(self).wf(),
        ensures
            old(self).attempts_list(
                final(self),
                r,
                grammar::parenthesized_args(old(self).script(), old(self).state()),
                old(self).script().next(old(self).state()) == Some(Token::ParenOpen),
            ),
            r matches Ok(args) ==> final(self).has_nodes(args@),
            r is Ok ==> final(self).left() < old(self).left(),
        decreases old(self).left(), 20nat,
    {
        reveal(grammar::parenthesized_args);
        if self.skip_whitespace_and_peek() != Some(Token::ParenOpen) {
            return Err(self.internal_error(InternalError::ArgumentsParseFailure));
        }
        self.consume_token();
        let mut args: Vec<AstIndex> = Vec::new();
        let ghost e = self.script();
        let ghost from_here = grammar::parenthesized_args_from(e, self.state(), args@);
        assert(args@ =~= Seq::<AstIndex>::empty());
        loop
            invariant
                self.script() == e,
                old(self).leads_to(self),
                self.left() < old(self).left(),
                self.has_nodes(args@),
                grammar::parenthesized_args_from(e, self.state(), args@) == from_here,
            decreases self.left(),
        {
            reveal(grammar::parenthesized_args_from);
            self.consume_until_next_token();
            match self.parse_non_primary_expression()? {
                Some(arg) => args.push(arg),
                None => {
                    break;
                },
            }
        }
        self.consume_until_next_token();
        if self.consume_token() == Some(Token::ParenClose) {
            Ok(args)
        } else {
            Err(self.syntax_error(SyntaxError::ExpectedArgsEnd))
        }
    }
}

} // verus!
