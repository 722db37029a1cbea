//! Reading functions.

use crate::error::{InternalError, ParserError, SyntaxError};
use crate::frame::{self, FrameView};
use crate::grammar;
use crate::node::{AstIndex, ConstantIndex, Function, Node};
use crate::parser::Parser;
use crate::scopes::laws;
use crate::script;
use crate::token::Token;
use crate::tree;
use vstd::prelude::*;

verus! {

broadcast use {crate::script::group_places, crate::script::group_extends};

impl<'source> Parser<'source> {
    /// Reads a function.
    pub(crate) fn parse_function(&mut self) -> (r: Result<Option<AstIndex>, ParserError>)
        requires
            old(self).wf(),
        ensures
            old(self).attempts_form(
                final(self),
                r,
                grammar::function(old(self).script(), old(self).state()),
                old(self).script().next(old(self).state()) == Some(Token::Function),
            ),
            r matches Ok(found) ==> found matches Some(node) && exists|body: FrameView|
                {
                    &&& #[trigger] laws::is_function_with(
                        old(self).state(),
                        final(self).state(),
                        node,
                        body,
                    )
                    &&& laws::counts_locals(final(self).state(), node, body)
                },
        decreases old(self).left(), 20nat,
    {
        reveal(grammar::function);
        reveal(grammar::function_body);
        proof {
            self.lemma_reached();
            laws::law_function_closes_its_scope(self.script(), self.state());
        }
        if self.skip_whitespace_and_peek() != Some(Token::Function) {
            return Err(self.internal_error(InternalError::FunctionParseFailure));
        }
        let current_indent = self.current_indent();
        self.consume_token();
        let start_span = self.span();
        let args = self.parse_function_args();
        if self.skip_whitespace_and_next() != Some(Token::Function) {
            return Err(self.syntax_error(SyntaxError::ExpectedFunctionArgsEnd));
        }
        let is_instance_function = if args.len() > 0 {
            self.constant_is(args[0], "self")
        } else {
            false
        };
        let ghost before = *self;
        self.push_frame(&args);
        let ghost opened = self.state().top();
        let body = self.parse_function_body(current_indent)?;
        proof {
            old(self).lemma_frames(0);
            reveal(script::extends);
            assert(opened.grows_to(self.state().top()));
        }
        let frame = self.pop_frame()?;
        assert(before.leads_to(self));
        let accessed_non_locals = frame.non_locals();
        proof {
            broadcast use vstd::seq_lib::group_to_multiset_ensures;

            assert forall|id: ConstantIndex|
                accessed_non_locals@.to_multiset().contains(
                    id,
                ) implies #[trigger] tree::is_string(self.state().constants, id) by {
                assert(accessed_non_locals@.to_set().contains(id));
            }
            assert forall|k: int|
                0 <= k < args@.len() implies !accessed_non_locals@.to_multiset().contains(
                #[trigger] args@[k],
            ) by {
                assert(args@.to_set().contains(args@[k]));
                assert(opened.was_assigned(args@[k]));
                assert(!accessed_non_locals@.to_set().contains(args@[k]));
            }
        }
        let local_count = frame.local_count();
        proof {
            frame::lemma_each_once(frame@.non_locals);
            assert forall|arg: ConstantIndex| args@.to_set().contains(arg) implies #[trigger]
                frame@.locals().contains(arg) by {
                assert(opened.was_assigned(arg));
            }
            vstd::set_lib::lemma_len_subset(args@.to_set(), frame@.locals());
        }
        let node = Node::Function(
            Function {
                args,
                local_count,
                accessed_non_locals,
                body,
                is_instance_function,
            },
        );
        Ok(Some(self.push_node_with_start_span(node, start_span)?))
    }

    /// Reads the arguments of a function.
    #[verifier::loop_isolation(false)]
    fn parse_function_args(&mut self) -> (args: Vec<ConstantIndex>)
        requires
            old(self).wf(),
        ensures
            (final(self).state(), args@) == grammar::function_args(
                old(self).script(),
                old(self).state(),
                Seq::empty(),
            ),
            old(self).leads_to(final(self)),
            tree::are_strings(final(self).state().constants, args@),
    {
        let mut args: Vec<ConstantIndex> = Vec::new();
        assert(args@ =~= Seq::<ConstantIndex>::empty());
        let ghost e = self.script();
        let ghost from_here = grammar::function_args(e, self.state(), args@);
        loop
            invariant
                self.script() == e,
                old(self).leads_to(self),
                tree::are_strings(self.state().constants, args@),
                grammar::function_args(e, self.state(), args@) == from_here,
            decreases self.left(),
        {
            reveal(grammar::function_args);
            self.consume_until_next_token();
            match self.parse_id(true) {
                Some(arg) => args.push(arg),
                None => {
                    return args;
                },
            }
        }
    }

    /// Reads the body of a function.
    fn parse_function_body(&mut self, current_indent: usize) -> (r: Result<AstIndex, ParserError>)
        requires
            old(self).wf(),
        ensures
            old(self).reads_node(
                final(self),
                r,
                grammar::function_body(old(self).script(), old(self).state(), current_indent),
            ),
        decreases old(self).left(), 100nat,
    {
        reveal(grammar::function_body);
        match self.skip_whitespace_and_peek() {
            Some(Token::NewLineIndented) if self.next_indent() > current_indent => {
                match self.parse_indented_map_or_block(current_indent)? {
                    Some(block) => Ok(block),
                    None => Err(self.internal_error(InternalError::FunctionParseFailure)),
                }
            },
            _ => {
                match self.parse_line()? {
                    Some(body) => Ok(body),
                    None => Err(self.syntax_error(SyntaxError::ExpectedFunctionBody)),
                }
            },
        }
    }
}

} // verus!
