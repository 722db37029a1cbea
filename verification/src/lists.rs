//! Reading lists.

use crate::error::{InternalError, ParserError, SyntaxError};
use crate::grammar;
use crate::node::{AstIndex, Node};
use crate::parser::Parser;
use crate::token::Token;
use vstd::prelude::*;

verus! {

broadcast use {crate::script::group_places, crate::script::group_extends};

impl<'source> Parser<'source> {
    /// Reads a list in brackets.
    pub(crate) fn parse_list(&mut self) -> (r: Result<Option<AstIndex>, ParserError>)
        requires
            old(self).wf(),
            old(self).script().next(old(self).state()) == Some(Token::ListStart),
        ensures
            old(self).reads_form(
                final(self),
                r,
                grammar::list(old(self).script(), old(self).state()),
            ),
        decreases old(self).left(), 20nat,
    {
        reveal(grammar::list);
        reveal(grammar::list_from);
        self.consume_token();
        let entries = self.parse_list_entries()?;
        self.consume_until_next_token();
        if self.consume_token() != Some(Token::ListEnd) {
            return Err(self.syntax_error(SyntaxError::ExpectedListEnd));
        }
        Ok(Some(self.push_node(Node::List(entries))?))
    }

    /// Reads the entries of a list.
    #[verifier::loop_isolation(false)]
    pub(crate) fn parse_list_entries(&mut self) -> (r: Result<Vec<AstIndex>, ParserError>)
        requires
            old(self).wf(),
        ensures
            old(self).reads_list(
                final(self),
                r,
                grammar::list_from(old(self).script(), old(self).state(), Seq::empty()),
            ),
            r matches Ok(entries) ==> final(self).has_nodes(entries@),
        decreases old(self).left(), 40nat,
    {
        let mut entries: Vec<AstIndex> = Vec::new();
        assert(entries@ =~= Seq::<AstIndex>::empty());
        let ghost e = self.script();
        let ghost from_here = grammar::list_from(e, self.state(), entries@);
        loop
            invariant
                self.script() == e,
                old(self).leads_to(self),
                self.has_nodes(entries@),
                grammar::list_from(e, self.state(), entries@) == from_here,
            decreases self.left(),
        {
            reveal(grammar::list_from);
            if self.consume_until_next_token() == Some(Token::ListEnd) {
                return Ok(entries);
            }
            if let Some(range) = self.parse_range(None)? {
                entries.push(range);
            } else {
                if entries.len() > 0 {
                    if let Some(comprehension) = self.parse_comprehension(&entries)? {
                        let mut entries: Vec<AstIndex> = Vec::new();
                        entries.push(comprehension);
                        assert(entries@ =~= seq![comprehension]);
                        return Ok(entries);
                    }
                }
                let term = match self.parse_term(false)? {
                    Some(term) => term,
                    None => {
                        return Ok(entries);
                    },
                };
                if matches!(self.peek_token(), Some(Token::Range) | Some(Token::RangeInclusive)) {
                    match self.parse_range(Some(term))? {
                        Some(range) => entries.push(range),
                        None => {
                            return Err(self.internal_error(InternalError::RangeParseFailure));
                        },
                    }
                } else {
                    entries.push(term);
                }
            }
        }
    }

    /// Reads a loop that has the entries of a list before it as its body, if there is one.
    pub(crate) fn parse_comprehension(&mut self, entries: &Vec<AstIndex>) -> (r: Result<
        Option<AstIndex>,
        ParserError,
    >)
        requires
            old(self).wf(),
            old(self).has_nodes(entries@),
            entries@.len() > 0,
            old(self).script().spaced(old(self).state()) == old(self).state(),
        ensures
            old(self).reads_form(
                final(self),
                r,
                if grammar::is_loop(old(self).script().next(old(self).state())) {
                    grammar::present(
                        grammar::loop_form(
                            old(self).script(),
                            old(self).state(),
                            Some(entries@),
                            false,
                        ),
                    )
                } else {
                    Ok((old(self).state(), None))
                },
            ),
        decreases old(self).left(), 30nat,
    {
        if let Some(for_loop) = self.parse_for_loop(Some(entries), false)? {
            Ok(Some(for_loop))
        } else if let Some(while_loop) = self.parse_while_loop(Some(entries), false)? {
            Ok(Some(while_loop))
        } else {
            self.parse_until_loop(Some(entries), false)
        }
    }
}

} // verus!
