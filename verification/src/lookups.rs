//! Reading lookups.

use crate::error::{ParserError, SyntaxError};
use crate::grammar;
use crate::node::{self, AstIndex, ConstantIndex, LookupNode, LookupNodeView, Node};
use crate::parser::Parser;
use crate::token::Token;
use crate::tree;
use vstd::prelude::*;

verus! {

broadcast use {crate::script::group_places, crate::script::group_extends};

impl<'source> Parser<'source> {
    /// Reads what follows the id that a lookup starts at.
    #[verifier::loop_isolation(false)]
    pub(crate) fn parse_lookup(&mut self, id: ConstantIndex, primary_expression: bool) -> (r:
        Result<AstIndex, ParserError>)
        requires
            old(self).wf(),
            tree::is_string(old(self).state().constants, id),
        ensures
            old(self).reads_node(
                final(self),
                r,
                grammar::lookup_from(
                    old(self).script(),
                    old(self).state(),
                    primary_expression,
                    seq![LookupNodeView::Id(id)],
                ),
            ),
        decreases old(self).left(), 70nat,
    {
        let mut lookup: Vec<LookupNode> = Vec::new();
        lookup.push(LookupNode::Id(id));
        assert(node::lookup_view(lookup@) =~= seq![LookupNodeView::Id(id)]);
        let ghost e = self.script();
        let ghost from_here = grammar::lookup_from(
            e,
            self.state(),
            primary_expression,
            node::lookup_view(lookup@),
        );
        loop
            invariant
                self.script() == e,
                old(self).leads_to(self),
                tree::is_lookup(
                    self.state().nodes.len() as int,
                    self.state().constants,
                    node::lookup_view(lookup@),
                ),
                grammar::lookup_from(
                    e,
                    self.state(),
                    primary_expression,
                    node::lookup_view(lookup@),
                ) == from_here,
            decreases self.left(),
        {
            reveal(grammar::lookup_from);
            reveal(grammar::index);
            let ghost before = *self;
            let step = match self.peek_token() {
                Some(Token::ParenOpen) => LookupNode::Call(self.parse_parenthesized_args()?),
                Some(Token::ListStart) => LookupNode::Index(self.parse_index()?),
                Some(Token::Dot) => {
                    self.consume_token();
                    match self.parse_id(false) {
                        Some(key) => LookupNode::Id(key),
                        None => {
                            return Err(self.syntax_error(SyntaxError::ExpectedMapKey));
                        },
                    }
                },
                Some(Token::Whitespace) if primary_expression => {
                    self.consume_token();
                    if let Some(args) = self.parse_open_args()? {
                        let step = LookupNode::Call(args);
                        proof {
                            node::lemma_lookup_push(lookup@, step);
                            before.lemma_lookup_step(self, lookup@, step);
                        }
                        lookup.push(step);
                    } else {
                        proof {
                            before.lemma_lookup_stays(self, lookup@);
                        }
                    }
                    return self.push_node(Node::Lookup(lookup));
                },
                _ => {
                    return self.push_node(Node::Lookup(lookup));
                },
            };
            proof {
                node::lemma_lookup_push(lookup@, step);
                before.lemma_lookup_step(self, lookup@, step);
            }
            lookup.push(step);
        }
    }

    /// The steps of a lookup are there after reading on.
    proof fn lemma_lookup_stays(&self, next: &Parser<'source>, lookup: Seq<LookupNode>)
        requires
            self.leads_to(next),
            tree::is_lookup(
                self.state().nodes.len() as int,
                self.state().constants,
                node::lookup_view(lookup),
            ),
        ensures
            tree::is_lookup(
                next.state().nodes.len() as int,
                next.state().constants,
                node::lookup_view(lookup),
            ),
    {
        let steps = node::lookup_view(lookup);
        assert forall|k: int| 0 <= k < steps.len() implies tree::is_step(
            next.state().nodes.len() as int,
            next.state().constants,
            #[trigger] steps[k],
        ) by {
            assert(tree::is_step(
                self.state().nodes.len() as int,
                self.state().constants,
                steps[k],
            ));
        }
    }

    /// A lookup with a step that was read behind it.
    proof fn lemma_lookup_step(
        &self,
        next: &Parser<'source>,
        lookup: Seq<LookupNode>,
        step: LookupNode,
    )
        requires
            self.leads_to(next),
            tree::is_lookup(
                self.state().nodes.len() as int,
                self.state().constants,
                node::lookup_view(lookup),
            ),
            tree::is_step(next.state().nodes.len() as int, next.state().constants, step@),
        ensures
            tree::is_lookup(
                next.state().nodes.len() as int,
                next.state().constants,
                node::lookup_view(lookup.push(step)),
            ),
    {
        self.lemma_lookup_stays(next, lookup);
        node::lemma_lookup_push(lookup, step);
    }

    /// Reads an index in brackets.
    fn parse_index(&mut self) -> (r: Result<AstIndex, ParserError>)
        requires
            old(self).wf(),
            old(self).script().next(old(self).state()) == Some(Token::ListStart),
        ensures
            old(self).reads_node(
                final(self),
                r,
                grammar::index(old(self).script(), old(self).state()),
            ),
            r is Ok ==> final(self).left() < old(self).left(),
        decreases old(self).left(), 60nat,
    {
        reveal(grammar::index);
        reveal(grammar::index_range);
        self.consume_token();
        let index = match self.parse_non_primary_expression()? {
            Some(start) => match self.peek_token() {
                Some(Token::Range) | Some(Token::RangeInclusive) => {
                    self.parse_index_range(Some(start))?
                },
                _ => start,
            },
            None => match self.skip_whitespace_and_peek() {
                Some(Token::Range) | Some(Token::RangeInclusive) => self.parse_index_range(None)?,
                _ => {
                    return Err(self.syntax_error(SyntaxError::ExpectedIndexExpression));
                },
            },
        };
        if let Some(Token::ListEnd) = self.skip_whitespace_and_peek() {
            self.consume_token();
            Ok(index)
        } else {
            Err(self.syntax_error(SyntaxError::ExpectedIndexEnd))
        }
    }

    /// Reads a range symbol in an index, and the expression behind it.
    fn parse_index_range(&mut self, start: Option<AstIndex>) -> (r: Result<AstIndex, ParserError>)
        requires
            old(self).wf(),
            grammar::is_range(old(self).script().next(old(self).state())),
            start matches Some(start) ==> start < old(self).state().nodes.len(),
        ensures
            old(self).reads_node(
                final(self),
                r,
                grammar::index_range(old(self).script(), old(self).state(), start),
            ),
        decreases old(self).left(), 60nat,
    {
        reveal(grammar::index_range);
        let inclusive = matches!(self.peek_token(), Some(Token::RangeInclusive));
        self.consume_token();
        let end = self.parse_non_primary_expression()?;
        let node = Parser::range_node(start, end, inclusive);
        self.push_node(node)
    }
}

} // verus!
