//! Reading `num2` and `num4`.

use crate::error::{ParserError, SyntaxError};
use crate::grammar;
use crate::node::{AstIndex, Node};
use crate::parser::Parser;
use crate::token::Token;
use vstd::prelude::*;

verus! {

broadcast use {crate::script::group_places, crate::script::group_extends};

impl<'source> Parser<'source> {
    /// Reads a `num2` or a `num4`.
    pub(crate) fn parse_num(&mut self, limit: usize, too_many: SyntaxError) -> (r: Result<
        Option<AstIndex>,
        ParserError,
    >)
        requires
            old(self).wf(),
            limit == 2 || limit == 4,
            too_many != SyntaxError::ExpectedListEndInImportItemList,
            old(self).script().next(old(self).state()) is Some,
            old(self).script().next(old(self).state()) != Some(Token::Error),
        ensures
            old(self).reads_form(
                final(self),
                r,
                grammar::num(old(self).script(), old(self).state(), limit as nat, too_many),
            ),
        decreases old(self).left(), 20nat,
    {
        reveal(grammar::num);
        reveal(grammar::num_terms);
        self.consume_token();
        let terms = self.parse_num_terms()?;
        if terms.len() == 0 {
            return Err(self.syntax_error(SyntaxError::ExpectedExpression));
        } else if terms.len() > limit {
            return Err(self.syntax_error(too_many));
        }
        let node = if limit == 2 {
            Node::Num2(terms)
        } else {
            Node::Num4(terms)
        };
        Ok(Some(self.push_node(node)?))
    }

    /// Reads arguments in parentheses, or terms one after the other.
    #[verifier::loop_isolation(false)]
    pub(crate) fn parse_num_terms(&mut self) -> (r: Result<Vec<AstIndex>, ParserError>)
        requires
            old(self).wf(),
        ensures
            old(self).reads_list(
                final(self),
                r,
                grammar::num_terms(old(self).script(), old(self).state()),
            ),
            r matches Ok(terms) ==> final(self).has_nodes(terms@),
        decreases old(self).left(), 40nat,
    {
        reveal(grammar::num_terms);
        reveal(grammar::terms_from);
        if self.peek_token() == Some(Token::ParenOpen) {
            return self.parse_parenthesized_args();
        }
        let mut terms: Vec<AstIndex> = Vec::new();
        assert(terms@ =~= Seq::<AstIndex>::empty());
        let ghost e = self.script();
        let ghost from_here = grammar::terms_from(e, self.state(), terms@);
        loop
            invariant
                self.script() == e,
                old(self).leads_to(self),
                self.has_nodes(terms@),
                grammar::terms_from(e, self.state(), terms@) == from_here,
            decreases self.left(),
        {
            reveal(grammar::terms_from);
            match self.parse_term(false)? {
                Some(term) => terms.push(term),
                None => {
                    return Ok(terms);
                },
            }
        }
    }
}

} // verus!
