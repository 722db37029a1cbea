//! Reading assignments.

use crate::error::{InternalError, ParserError, SyntaxError};
use crate::grammar;
use crate::node::{AssignOp, AssignTarget, AstIndex, Node, Scope};
use crate::parser::Parser;
use crate::token::Token;
use crate::tree;
use vstd::prelude::*;

verus! {

broadcast use {crate::script::group_places, crate::script::group_extends};

impl<'source> Parser<'source> {
    /// Reads an assignment to the given nodes.
    #[verifier::loop_isolation(false)]
    pub(crate) fn parse_assign_expression(&mut self, lhs: &Vec<AstIndex>, assign_op: AssignOp) -> (
    r: Result<Option<AstIndex>, ParserError>)
        requires
            old(self).wf(),
            old(self).has_nodes(lhs@),
            old(self).script().next(old(self).state()) is Some,
            old(self).script().next(old(self).state()) != Some(Token::Error),
        ensures
            old(self).attempts_form(
                final(self),
                r,
                grammar::assignment(old(self).script(), old(self).state(), lhs@, assign_op),
                lhs@.len() > 0,
            ),
            r is Ok ==> r->Ok_0 is Some,
        decreases old(self).left(), 20nat,
    {
        reveal(grammar::assignment);
        self.consume_token();
        let ghost e = self.script();
        let ghost s1 = self.state();
        proof {
            self.lemma_frames(0);
        }
        let scope = if self.exports_top_level() && self.frame()?.is_top_level() {
            Scope::Global
        } else {
            Scope::Local
        };
        let mut targets: Vec<AssignTarget> = Vec::new();
        let mut k: usize = 0;
        let ghost from_here = grammar::targets_from(e, s1, lhs@, 0, assign_op, scope);
        while k < lhs.len()
            invariant
                self.script() == e,
                old(self).leads_to(self),
                self.left() < old(self).left(),
                self.state().at == s1.at,
                self.state().nodes == s1.nodes,
                k <= lhs@.len(),
                targets@ == grammar::assign_targets(lhs@.take(k as int), scope),
                tree::are_targets(self.state().nodes, targets@),
                grammar::targets_from(e, self.state(), lhs@, k as int, assign_op, scope)
                    == from_here,
            decreases lhs.len() - k,
        {
            reveal(grammar::targets_from);
            let ghost before = self.state();
            let target_index = lhs[k];
            match self.node(target_index).node {
                Node::Id(id) => {
                    proof {
                        self.lemma_id_node(target_index);
                    }
                    if matches!(assign_op, AssignOp::Equal) {
                        self.unread_id(id)?;
                        if matches!(scope, Scope::Local) {
                            self.assign_target(id)?;
                            assert(self.state().frames =~= before.frames.drop_last().push(
                                before.top().without_access(id).with_target(id),
                            ));
                        }
                    }
                },
                Node::Lookup(_) => {},
                _ => {
                    return Err(self.syntax_error(SyntaxError::ExpectedAssignmentTarget));
                },
            }
            targets.push(AssignTarget { target_index, scope });
            k = k + 1;
            assert(targets@ =~= grammar::assign_targets(lhs@.take(k as int), scope));
        }
        reveal(grammar::targets_from);
        assert(lhs@.take(k as int) =~= lhs@);
        if targets.len() == 0 {
            return Err(self.internal_error(InternalError::MissingAssignmentTarget));
        }
        let rhs = match self.parse_primary_expressions(true)? {
            Some(rhs) => rhs,
            None => {
                return Err(self.syntax_error(SyntaxError::ExpectedRhsExpression));
            },
        };
        if matches!(assign_op, AssignOp::Equal) && matches!(scope, Scope::Local) {
            self.complete_targets(lhs)?;
        }
        let node = if targets.len() == 1 {
            Node::Assign { target: targets[0], op: assign_op, expression: rhs }
        } else {
            Node::MultiAssign { targets, expressions: rhs }
        };
        Ok(Some(self.push_node(node)?))
    }

    /// Ends the assignment to the given nodes.
    #[verifier::loop_isolation(false)]
    fn complete_targets(&mut self, lhs: &Vec<AstIndex>) -> (r: Result<(), ParserError>)
        requires
            old(self).wf(),
            old(self).has_nodes(lhs@),
        ensures
            r is Ok,
            final(self).state() == grammar::complete_from(old(self).state(), lhs@, 0),
            final(self).state().nodes == old(self).state().nodes,
            old(self).leads_to(final(self)),
            final(self).state().at == old(self).state().at,
    {
        let mut k: usize = 0;
        let ghost from_here = grammar::complete_from(self.state(), lhs@, 0);
        while k < lhs.len()
            invariant
                k <= lhs@.len(),
                old(self).leads_to(self),
                self.state().at == old(self).state().at,
                self.state().nodes == old(self).state().nodes,
                grammar::complete_from(self.state(), lhs@, k as int) == from_here,
            decreases lhs.len() - k,
        {
            reveal(grammar::complete_from);
            proof {
                self.lemma_id_node(lhs@[k as int]);
            }
            if let Node::Id(id) = self.node(lhs[k]).node {
                self.complete_target(id)?;
            }
            k = k + 1;
        }
        reveal(grammar::complete_from);
        Ok(())
    }
}

} // verus!
