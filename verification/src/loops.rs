//! Reading loops.

use crate::error::{InternalError, ParserError, SyntaxError};
use crate::grammar;
use crate::node::{AstFor, AstIndex, ConstantIndex, Node};
use crate::parser::Parser;
use crate::token::Token;
use crate::tree;
use vstd::prelude::*;

verus! {

broadcast use {crate::script::group_places, crate::script::group_extends};

/// The expressions that stand for the body of a loop.
pub open spec fn body_view(body: Option<&Vec<AstIndex>>) -> Option<Seq<AstIndex>> {
    match body {
        Some(body) => Some(body@),
        None => None,
    }
}

impl<'source> Parser<'source> {
    /// Reads a `for` loop, if there is one.
    pub(crate) fn parse_for_loop(
        &mut self,
        inline_body: Option<&Vec<AstIndex>>,
        primary_expression: bool,
    ) -> (r: Result<Option<AstIndex>, ParserError>)
        requires
            old(self).wf(),
            inline_body matches Some(body) ==> old(self).has_nodes(body@),
        ensures
            old(self).attempts_form(
                final(self),
                r,
                grammar::optional_loop(
                    old(self).script(),
                    old(self).state(),
                    Token::For,
                    body_view(inline_body),
                    primary_expression,
                ),
                inline_body matches Some(body) ==> body@.len() > 0,
            ),
        decreases old(self).left(), 20nat,
    {
        reveal(grammar::loop_form);
        reveal(grammar::for_loop);
        reveal(grammar::for_condition);
        reveal(grammar::for_ranges);
        reveal(grammar::loop_body);
        if self.skip_whitespace_and_peek() != Some(Token::For) {
            return Ok(None);
        }
        let current_indent = self.current_indent();
        self.consume_token();
        let args = self.parse_for_args()?;
        if args.len() == 0 {
            return Err(self.syntax_error(SyntaxError::ExpectedForArgs));
        }
        if self.skip_whitespace_and_next() != Some(Token::In) {
            return Err(self.syntax_error(SyntaxError::ExpectedForInKeyword));
        }
        let ranges = self.parse_for_ranges()?;
        if ranges.len() == 0 {
            return Err(self.syntax_error(SyntaxError::ExpectedForRanges));
        }
        let condition = if self.skip_whitespace_and_peek() == Some(Token::If) {
            self.consume_token();
            match self.parse_primary_expression()? {
                Some(condition) => Some(condition),
                None => {
                    return Err(self.syntax_error(SyntaxError::ExpectedForCondition));
                },
            }
        } else {
            None
        };
        let body = self.parse_loop_body(
            inline_body,
            primary_expression,
            current_indent,
            SyntaxError::ExpectedForBody,
        )?;
        let node = Node::For(AstFor { args, ranges, condition, body });
        Ok(Some(self.push_node(node)?))
    }

    /// Reads the ids that a `for` loop gives values to.
    #[verifier::loop_isolation(false)]
    fn parse_for_args(&mut self) -> (r: Result<Vec<ConstantIndex>, ParserError>)
        requires
            old(self).wf(),
        ensures
            r is Ok,
            (final(self).state(), r->Ok_0@) == grammar::for_args(
                old(self).script(),
                old(self).state(),
                Seq::empty(),
            ),
            old(self).leads_to(final(self)),
            tree::are_strings(final(self).state().constants, r->Ok_0@),
    {
        let mut args: Vec<ConstantIndex> = Vec::new();
        assert(args@ =~= Seq::<ConstantIndex>::empty());
        let ghost e = self.script();
        let ghost from_here = grammar::for_args(e, self.state(), args@);
        loop
            invariant
                self.script() == e,
                old(self).leads_to(self),
                tree::are_strings(self.state().constants, args@),
                grammar::for_args(e, self.state(), args@) == from_here,
            decreases self.left(),
        {
            reveal(grammar::for_args);
            match self.parse_id(true) {
                Some(arg) => {
                    args.push(arg);
                    self.assign_id(arg)?;
                },
                None => {
                    return Ok(args);
                },
            }
            if self.skip_whitespace_and_peek() == Some(Token::Separator) {
                self.consume_token();
            }
        }
    }

    /// Reads what a `for` loop runs over.
    #[verifier::loop_isolation(false)]
    fn parse_for_ranges(&mut self) -> (r: Result<Vec<AstIndex>, ParserError>)
        requires
            old(self).wf(),
        ensures
            old(self).reads_list(
                final(self),
                r,
                grammar::for_ranges(old(self).script(), old(self).state(), Seq::empty()),
            ),
            r matches Ok(ranges) ==> final(self).has_nodes(ranges@),
        decreases old(self).left(), 60nat,
    {
        let mut ranges: Vec<AstIndex> = Vec::new();
        assert(ranges@ =~= Seq::<AstIndex>::empty());
        let ghost e = self.script();
        let ghost from_here = grammar::for_ranges(e, self.state(), ranges@);
        loop
            invariant
                self.script() == e,
                old(self).leads_to(self),
                self.has_nodes(ranges@),
                grammar::for_ranges(e, self.state(), ranges@) == from_here,
            decreases self.left(),
        {
            reveal(grammar::for_ranges);
            match self.parse_non_primary_expression()? {
                Some(range) => ranges.push(range),
                None => {
                    return Ok(ranges);
                },
            }
            if self.skip_whitespace_and_peek() != Some(Token::Separator) {
                return Ok(ranges);
            }
            self.consume_token();
        }
    }

    /// Reads a `while` loop, if there is one.
    pub(crate) fn parse_while_loop(
        &mut self,
        inline_body: Option<&Vec<AstIndex>>,
        primary_expression: bool,
    ) -> (r: Result<Option<AstIndex>, ParserError>)
        requires
            old(self).wf(),
            inline_body matches Some(body) ==> old(self).has_nodes(body@),
        ensures
            old(self).attempts_form(
                final(self),
                r,
                grammar::optional_loop(
                    old(self).script(),
                    old(self).state(),
                    Token::While,
                    body_view(inline_body),
                    primary_expression,
                ),
                inline_body matches Some(body) ==> body@.len() > 0,
            ),
        decreases old(self).left(), 20nat,
    {
        reveal(grammar::loop_form);
        reveal(grammar::while_loop);
        reveal(grammar::loop_body);
        if self.skip_whitespace_and_peek() != Some(Token::While) {
            return Ok(None);
        }
        let current_indent = self.current_indent();
        self.consume_token();
        let condition = match self.parse_primary_expression()? {
            Some(condition) => condition,
            None => {
                return Err(self.syntax_error(SyntaxError::ExpectedWhileCondition));
            },
        };
        let body = self.parse_loop_body(
            inline_body,
            primary_expression,
            current_indent,
            SyntaxError::ExpectedWhileBody,
        )?;
        Ok(Some(self.push_node(Node::While { condition, body })?))
    }

    /// Reads an `until` loop, if there is one.
    pub(crate) fn parse_until_loop(
        &mut self,
        inline_body: Option<&Vec<AstIndex>>,
        primary_expression: bool,
    ) -> (r: Result<Option<AstIndex>, ParserError>)
        requires
            old(self).wf(),
            inline_body matches Some(body) ==> old(self).has_nodes(body@),
        ensures
            old(self).attempts_form(
                final(self),
                r,
                grammar::optional_loop(
                    old(self).script(),
                    old(self).state(),
                    Token::Until,
                    body_view(inline_body),
                    primary_expression,
                ),
                inline_body matches Some(body) ==> body@.len() > 0,
            ),
        decreases old(self).left(), 20nat,
    {
        reveal(grammar::loop_form);
        reveal(grammar::until_loop);
        reveal(grammar::loop_body);
        if self.skip_whitespace_and_peek() != Some(Token::Until) {
            return Ok(None);
        }
        let current_indent = self.current_indent();
        self.consume_token();
        let condition = match self.parse_primary_expression()? {
            Some(condition) => condition,
            None => {
                return Err(self.syntax_error(SyntaxError::ExpectedUntilCondition));
            },
        };
        let body = self.parse_loop_body(
            inline_body,
            primary_expression,
            current_indent,
            SyntaxError::ExpectedUntilBody,
        )?;
        Ok(Some(self.push_node(Node::Until { condition, body })?))
    }

    /// Makes the body of a loop of the expressions before it, or reads the block behind it.
    fn parse_loop_body(
        &mut self,
        inline_body: Option<&Vec<AstIndex>>,
        primary_expression: bool,
        current_indent: usize,
        absent: SyntaxError,
    ) -> (r: Result<AstIndex, ParserError>)
        requires
            old(self).wf(),
            inline_body matches Some(body) ==> old(self).has_nodes(body@),
            absent != SyntaxError::ExpectedListEndInImportItemList,
        ensures
            old(self).attempts_node(
                final(self),
                r,
                grammar::loop_body(
                    old(self).script(),
                    old(self).state(),
                    body_view(inline_body),
                    primary_expression,
                    current_indent,
                    absent,
                ),
                inline_body matches Some(body) ==> body@.len() > 0,
            ),
        decreases old(self).left(), 100nat,
    {
        reveal(grammar::loop_body);
        if let Some(expressions) = inline_body {
            if expressions.len() == 0 {
                Err(self.internal_error(InternalError::ForParseFailure))
            } else if expressions.len() == 1 {
                Ok(expressions[0])
            } else if primary_expression {
                let expressions = expressions.clone();
                assert(expressions@ =~= inline_body->0@);
                self.push_node(Node::Expressions(expressions))
            } else {
                let function = expressions[0];
                let mut args: Vec<AstIndex> = Vec::new();
                let mut k: usize = 1;
                while k < expressions.len()
                    invariant
                        1 <= k <= expressions@.len(),
                        args@ == expressions@.subrange(1, k as int),
                    decreases expressions.len() - k,
                {
                    args.push(expressions[k]);
                    k = k + 1;
                    assert(args@ =~= expressions@.subrange(1, k as int));
                }
                assert(args@ =~= expressions@.skip(1));
                self.push_node(Node::Call { function, args })
            }
        } else {
            match self.parse_indented_block(current_indent, None)? {
                Some(body) => Ok(body),
                None => Err(self.syntax_error(absent)),
            }
        }
    }
}

} // verus!
