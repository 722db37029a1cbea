//! Reading maps.

use crate::error::{ParserError, SyntaxError};
use crate::grammar;
use crate::node::{AstIndex, ConstantIndex, Node};
use crate::parser::Parser;
use crate::script::Script;
use crate::token::{Span, Token};
use crate::tree;
use vstd::prelude::*;

verus! {

broadcast use {crate::script::group_places, crate::script::group_extends};

impl<'source> Parser<'source> {
    /// Whether the entries are made of constants and nodes that have been read.
    pub open spec fn has_entries(&self, entries: Seq<(ConstantIndex, AstIndex)>) -> bool {
        tree::are_entries(self.state().nodes.len() as int, self.state().constants, entries)
    }

    /// Reads a map in braces.
    pub(crate) fn parse_inline_map(&mut self) -> (r: Result<Option<AstIndex>, ParserError>)
        requires
            old(self).wf(),
            old(self).script().next(old(self).state()) == Some(Token::MapStart),
        ensures
            old(self).reads_form(
                final(self),
                r,
                grammar::inline_map(old(self).script(), old(self).state()),
            ),
        decreases old(self).left(), 20nat,
    {
        reveal(grammar::inline_map);
        reveal(grammar::inline_map_from);
        self.consume_token();
        let entries = self.parse_inline_map_entries()?;
        if self.skip_whitespace_and_next() != Some(Token::MapEnd) {
            return Err(self.syntax_error(SyntaxError::ExpectedMapEnd));
        }
        Ok(Some(self.push_node(Node::MapLiteral(entries))?))
    }

    /// Reads the entries of a map in braces.
    #[verifier::loop_isolation(false)]
    pub(crate) fn parse_inline_map_entries(&mut self) -> (r: Result<
        Vec<(ConstantIndex, AstIndex)>,
        ParserError,
    >)
        requires
            old(self).wf(),
        ensures
            old(self).reads_list(
                final(self),
                r,
                grammar::inline_map_from(old(self).script(), old(self).state(), Seq::empty()),
            ),
            r matches Ok(entries) ==> final(self).has_entries(entries@),
        decreases old(self).left(), 60nat,
    {
        let mut entries: Vec<(ConstantIndex, AstIndex)> = Vec::new();
        assert(entries@ =~= Seq::<(ConstantIndex, AstIndex)>::empty());
        let ghost e = self.script();
        let ghost from_here = grammar::inline_map_from(e, self.state(), entries@);
        loop
            invariant
                self.script() == e,
                old(self).leads_to(self),
                self.has_entries(entries@),
                grammar::inline_map_from(e, self.state(), entries@) == from_here,
            decreases self.left(),
        {
            reveal(grammar::inline_map_from);
            self.consume_until_next_token();
            let key = match self.parse_id(false) {
                Some(key) => key,
                None => {
                    return Ok(entries);
                },
            };
            if self.consume_token() != Some(Token::Colon) {
                return Err(self.syntax_error(SyntaxError::ExpectedMapSeparator));
            }
            self.consume_until_next_token();
            match self.parse_primary_expression()? {
                Some(value) => entries.push((key, value)),
                None => {
                    return Err(self.syntax_error(SyntaxError::ExpectedMapValue));
                },
            }
            if self.skip_whitespace_and_peek() == Some(Token::Separator) {
                self.consume_token();
            } else {
                return Ok(entries);
            }
        }
    }

    /// Reads a map over several lines.
    pub(crate) fn parse_map_block(
        &mut self,
        current_indent: usize,
        block_indent: Option<usize>,
    ) -> (r: Result<Option<AstIndex>, ParserError>)
        requires
            old(self).wf(),
        ensures
            old(self).reads_form(
                final(self),
                r,
                grammar::map_block(
                    old(self).script(),
                    old(self).state(),
                    current_indent,
                    block_indent,
                ),
            ),
        decreases old(self).left(), 20nat,
    {
        reveal(grammar::map_block);
        reveal(grammar::map_block_at);
        reveal(grammar::map_block_from);
        let block_indent = match block_indent {
            Some(indent) => indent,
            None => {
                if self.skip_whitespace_and_peek() != Some(Token::NewLineIndented) {
                    return Ok(None);
                }
                let block_indent = self.next_indent();
                if block_indent <= current_indent {
                    return Ok(None);
                }
                self.consume_token();
                block_indent
            },
        };
        // A map has at least one entry
        if self.consume_until_next_token() != Some(Token::Id) {
            return Ok(None);
        }
        if self.peek_token_n(1) != Some(Token::Colon) {
            return Ok(None);
        }
        let entries = self.parse_map_block_entries(block_indent)?;
        Ok(Some(self.push_spanned_node(Node::MapLiteral(entries), Span::default())?))
    }

    /// Reads the value of an entry of a map over several lines.
    fn parse_map_block_value(&mut self) -> (r: Result<AstIndex, ParserError>)
        requires
            old(self).wf(),
        ensures
            old(self).reads_node(
                final(self),
                r,
                grammar::map_block_value(old(self).script(), old(self).state()),
            ),
        decreases old(self).left(), 60nat,
    {
        reveal(grammar::map_block_value);
        if let Some(value) = self.parse_primary_expression()? {
            return Ok(value);
        }
        // Without a value on the line of the key, it is on a line behind it
        self.consume_until_next_token();
        match self.parse_primary_expression()? {
            Some(value) => Ok(value),
            None => Err(self.syntax_error(SyntaxError::ExpectedMapValue)),
        }
    }

    /// Reads the entries of a map over several lines.
    #[verifier::loop_isolation(false)]
    pub(crate) fn parse_map_block_entries(&mut self, block_indent: usize) -> (r: Result<
        Vec<(ConstantIndex, AstIndex)>,
        ParserError,
    >)
        requires
            old(self).wf(),
            old(self).script().next(old(self).state()) == Some(Token::Id),
        ensures
            old(self).reads_list(
                final(self),
                r,
                grammar::map_block_from(
                    old(self).script(),
                    old(self).state(),
                    block_indent,
                    Seq::empty(),
                ),
            ),
            r matches Ok(entries) ==> final(self).has_entries(entries@),
            r is Ok ==> final(self).left() < old(self).left(),
        decreases old(self).left(), 10nat,
    {
        let mut entries: Vec<(ConstantIndex, AstIndex)> = Vec::new();
        assert(entries@ =~= Seq::<(ConstantIndex, AstIndex)>::empty());
        let ghost e = self.script();
        let ghost from_here = grammar::map_block_from(e, self.state(), block_indent, entries@);
        loop
            invariant
                self.script() == e,
                old(self).leads_to(self),
                entries@.len() == 0 ==> self.state() == old(self).state(),
                entries@.len() > 0 ==> self.left() < old(self).left(),
                self.has_entries(entries@),
                grammar::map_block_from(e, self.state(), block_indent, entries@) == from_here,
            decreases self.left(),
        {
            reveal(grammar::map_block_from);
            reveal(grammar::map_block_value);
            reveal(Script::id);
            let key = match self.parse_id(false) {
                Some(key) => key,
                None => {
                    return Ok(entries);
                },
            };
            if self.skip_whitespace_and_next() != Some(Token::Colon) {
                return Err(self.syntax_error(SyntaxError::ExpectedMapSeparator));
            }
            let value = self.parse_map_block_value()?;
            entries.push((key, value));
            self.consume_until_next_token();
            let next_indent = self.next_indent();
            if next_indent < block_indent {
                return Ok(entries);
            } else if next_indent > block_indent {
                return Err(self.syntax_error(SyntaxError::UnexpectedIndentation));
            }
        }
    }
}

} // verus!
