//! Reading blocks of lines.

use crate::error::{ParserError, SyntaxError};
use crate::grammar;
use crate::node::{AstIndex, Node};
use crate::parser::Parser;
use crate::token::{Span, Token};
use vstd::prelude::*;

verus! {

broadcast use {crate::script::group_places, crate::script::group_extends};

impl<'source> Parser<'source> {
    /// Reads a map over several lines, or a block.
    pub(crate) fn parse_indented_map_or_block(&mut self, current_indent: usize) -> (r: Result<
        Option<AstIndex>,
        ParserError,
    >)
        requires
            old(self).wf(),
        ensures
            old(self).reads(
                final(self),
                r,
                grammar::map_or_block(old(self).script(), old(self).state(), current_indent),
            ),
            r matches Ok(Some(node)) ==> node < final(self).state().nodes.len(),
        decreases old(self).left(), 90nat,
    {
        reveal(grammar::map_or_block);
        reveal(grammar::indented_block);
        self.consume_until_next_token();
        let expected_indent = self.next_indent();
        if let Some(map_block) = self.parse_map_block(current_indent, Some(expected_indent))? {
            Ok(Some(map_block))
        } else {
            self.parse_indented_block(current_indent, Some(expected_indent))
        }
    }

    /// Reads a block.
    pub(crate) fn parse_indented_block(
        &mut self,
        current_indent: usize,
        block_indent: Option<usize>,
    ) -> (r: Result<Option<AstIndex>, ParserError>)
        requires
            old(self).wf(),
        ensures
            old(self).reads(
                final(self),
                r,
                grammar::indented_block(
                    old(self).script(),
                    old(self).state(),
                    current_indent,
                    block_indent,
                ),
            ),
            r matches Ok(Some(node)) ==> node < final(self).state().nodes.len(),
        decreases old(self).left(), 80nat,
    {
        reveal(grammar::indented_block);
        reveal(grammar::block_from);
        let block_indent = match block_indent {
            Some(indent) => indent,
            None => {
                if self.skip_whitespace_and_peek() != Some(Token::NewLineIndented) {
                    return Ok(None);
                }
                let block_indent = self.next_indent();
                if block_indent <= current_indent {
                    return Ok(None);
                }
                self.consume_token();
                block_indent
            },
        };
        if block_indent <= current_indent {
            return Ok(None);
        }
        self.consume_until_next_token();
        Ok(Some(self.parse_block_lines(block_indent)?))
    }

    /// Reads the lines of a block.
    #[verifier::loop_isolation(false)]
    fn parse_block_lines(&mut self, block_indent: usize) -> (r: Result<AstIndex, ParserError>)
        requires
            old(self).wf(),
        ensures
            old(self).reads_node(
                final(self),
                r,
                grammar::block_from(
                    old(self).script(),
                    old(self).state(),
                    block_indent,
                    Seq::empty(),
                ),
            ),
        decreases old(self).left(), 75nat,
    {
        let mut body: Vec<AstIndex> = Vec::new();
        assert(body@ =~= Seq::<AstIndex>::empty());
        let ghost e = self.script();
        let ghost from_here = grammar::block_from(e, self.state(), block_indent, body@);
        loop
            invariant
                self.script() == e,
                old(self).leads_to(self),
                self.has_nodes(body@),
                grammar::block_from(e, self.state(), block_indent, body@) == from_here,
            decreases self.left(),
        {
            reveal(grammar::block_from);
            match self.parse_line()? {
                Some(line) => body.push(line),
                None => {
                    break;
                },
            }
            self.consume_until_next_token();
            let next_indent = self.current_indent();
            if next_indent < block_indent {
                break;
            } else if next_indent > block_indent {
                return Err(self.syntax_error(SyntaxError::UnexpectedIndentation));
            }
        }
        // A single line needs no block around it
        if body.len() == 1 {
            Ok(body[0])
        } else {
            self.push_spanned_node(Node::Block(body), Span::default())
        }
    }
}

} // verus!
