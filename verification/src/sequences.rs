//! Reading expressions with separators between them.

use crate::error::{ParserError, SyntaxError};
use crate::grammar;
use crate::node::{AstIndex, Node};
use crate::parser::Parser;
use crate::token::Token;
use vstd::prelude::*;

verus! {

broadcast use {crate::script::group_places, crate::script::group_extends};

impl<'source> Parser<'source> {
    /// Reads expressions with separators between them.
    pub(crate) fn parse_primary_expressions(&mut self, allow_initial_indentation: bool) -> (r:
        Result<Option<AstIndex>, ParserError>)
        requires
            old(self).wf(),
        ensures
            old(self).reads_form(
                final(self),
                r,
                grammar::expressions(
                    old(self).script(),
                    old(self).state(),
                    allow_initial_indentation,
                ),
            ),
        decreases old(self).left(), 60nat,
    {
        reveal(grammar::expressions);
        reveal(grammar::expressions_at);
        reveal(grammar::expressions_from);
        let current_indent = self.current_indent();
        let mut expected_indent: Option<usize> = None;
        if allow_initial_indentation && self.skip_whitespace_and_peek() == Some(
            Token::NewLineIndented,
        ) {
            self.consume_until_next_token();
            let indent = self.current_indent();
            if indent <= current_indent {
                return Ok(None);
            }
            expected_indent = Some(indent);
            if let Some(map_block) = self.parse_map_block(current_indent, expected_indent)? {
                return Ok(Some(map_block));
            }
        }
        let first = match self.parse_primary_expression()? {
            Some(first) => first,
            None => {
                return Ok(None);
            },
        };
        Ok(Some(self.parse_more_expressions(first, current_indent, expected_indent)?))
    }

    /// Reads the expressions behind the first one.
    #[verifier::loop_isolation(false)]
    fn parse_more_expressions(
        &mut self,
        first: AstIndex,
        current_indent: usize,
        first_indent: Option<usize>,
    ) -> (r: Result<AstIndex, ParserError>)
        requires
            old(self).wf(),
            first < old(self).state().nodes.len(),
        ensures
            old(self).reads_node(
                final(self),
                r,
                grammar::expressions_from(
                    old(self).script(),
                    old(self).state(),
                    current_indent,
                    first_indent,
                    seq![first],
                ),
            ),
        decreases old(self).left(), 55nat,
    {
        let mut expected_indent = first_indent;
        let mut list: Vec<AstIndex> = Vec::new();
        list.push(first);
        assert(list@ =~= seq![first]);
        let ghost e = self.script();
        let ghost from_here = grammar::expressions_from(
            e,
            self.state(),
            current_indent,
            expected_indent,
            list@,
        );
        loop
            invariant
                self.script() == e,
                old(self).leads_to(self),
                list@.len() > 0,
                self.has_nodes(list@),
                grammar::expressions_from(
                    e,
                    self.state(),
                    current_indent,
                    expected_indent,
                    list@,
                ) == from_here,
            decreases self.left(),
        {
            reveal(grammar::expressions_from);
            reveal(grammar::next_expression);
            if self.skip_whitespace_and_peek() != Some(Token::Separator) {
                break;
            }
            self.consume_token();
            if self.skip_whitespace_and_peek() == Some(Token::NewLineIndented) {
                self.consume_until_next_token();
                let next_indent = self.next_indent();
                match expected_indent {
                    Some(expected) => {
                        if next_indent < expected {
                            break;
                        } else if next_indent > expected {
                            return Err(self.syntax_error(SyntaxError::UnexpectedIndentation));
                        }
                    },
                    None => {
                        if next_indent <= current_indent {
                            break;
                        }
                        expected_indent = Some(next_indent);
                    },
                }
            }
            if let Some(next) = self.parse_primary_expression_with_lhs(&list)? {
                match self.node(next).node {
                    Node::Assign { .. }
                    | Node::MultiAssign { .. }
                    | Node::For(_)
                    | Node::While { .. }
                    | Node::Until { .. } => {
                        // The expressions before it belong to this node
                        return Ok(next);
                    },
                    _ => {},
                }
                list.push(next);
            }
        }
        if list.len() == 1 {
            Ok(list[0])
        } else {
            self.push_node(Node::Expressions(list))
        }
    }
}

} // verus!
