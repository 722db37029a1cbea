//! What terms, operators and assignments do to the scopes. Each lemma says that a form keeps them,
//! as [`scopes::keeps`] has it.

use crate::error::SyntaxError;
use crate::grammar;
use crate::node::{AssignOp, AstIndex, NodeView, Scope};
use crate::scopes;
use crate::scopes::{conditions, lines, lookups, loops, values};
use crate::script::{Script, State};
use crate::token::Token;
use vstd::prelude::*;

verus! {

broadcast use {crate::script::group_places, crate::scopes::group_keeps};

pub(crate) proof fn lemma_term(e: Script, s: State, primary: bool)
    requires
        s.frames.len() > 0,
    ensures
        scopes::outcome_keeps(e, s, grammar::term(e, s, primary)),
    decreases e.left(s), 3nat,
{
    reveal(grammar::term);
    let s1 = e.spaced(s);
    if let Some(token) = e.next(s1) {
        match token {
            Token::Number => {
                values::lemma_number(e, s1);
            },
            Token::Str => {
                values::lemma_string(e, s1);
            },
            Token::ParenOpen => {
                values::lemma_nested_expression(e, s1);
            },
            Token::Id => {
                lookups::lemma_id_expression(e, s1, primary);
            },
            Token::ListStart => {
                values::lemma_list(e, s1);
            },
            Token::MapStart => {
                values::lemma_inline_map(e, s1);
            },
            Token::Num2 => {
                values::lemma_num(e, s1, 2, SyntaxError::TooManyNum2Terms);
            },
            Token::Num4 => {
                values::lemma_num(e, s1, 4, SyntaxError::TooManyNum4Terms);
            },
            Token::If => {
                conditions::lemma_if_expression(e, s1);
            },
            Token::Function => {
                lines::lemma_function(e, s1);
            },
            Token::Copy => {
                values::lemma_operand(e, s1, true);
            },
            Token::Not => {
                values::lemma_operand(e, s1, false);
            },
            Token::Import => {
                lines::lemma_import(e, s1);
            },
            Token::NewLineIndented => {
                values::lemma_map_block(e, s1, e.indent(s), None);
            },
            _ => {},
        }
    }
}

pub(crate) proof fn lemma_expression(e: Script, s: State, lhs: Seq<AstIndex>, min_precedence: u8)
    requires
        s.frames.len() > 0,
    ensures
        scopes::outcome_keeps(e, s, grammar::expression(e, s, lhs, min_precedence)),
    decreases e.left(s), 5nat,
{
    reveal(grammar::expression);
    reveal(grammar::first_operand);
    reveal(grammar::continued);
    lemma_first_operand(e, s, min_precedence == 0);
    if let Ok((s1, start)) = e.forward(s, grammar::first_operand(e, s, min_precedence == 0)) {
        if grammar::is_range(e.next(s1)) {
            values::lemma_range(e, s1, start);
        } else if let Some(start) = start {
            if e.line(s) == e.line(s1) {
                lemma_continued(e, s1, lhs.push(start), min_precedence);
            }
        }
    }
}

pub(crate) proof fn lemma_first_operand(e: Script, s: State, primary: bool)
    requires
        s.frames.len() > 0,
    ensures
        scopes::outcome_keeps(e, s, grammar::first_operand(e, s, primary)),
    decreases e.left(s), 4nat,
{
    reveal(grammar::first_operand);
    reveal(grammar::negated);
    reveal(grammar::term);
    lemma_negated(e, s);
    if let Ok((s1, None)) = e.onward(s, grammar::negated(e, s)) {
        lookups::lemma_id_expression(e, s1, primary);
        if let Ok((s2, None)) = e.onward(s1, grammar::id_expression(e, s1, primary)) {
            lemma_term(e, s2, primary);
        }
    }
}

pub(crate) proof fn lemma_negated(e: Script, s: State)
    requires
        s.frames.len() > 0,
    ensures
        scopes::outcome_keeps(e, s, grammar::negated(e, s)),
    decreases e.left(s), 2nat,
{
    reveal(grammar::negated);
    reveal(grammar::negatable);
    let s1 = e.spaced(s);
    if e.next(s1) == Some(Token::Subtract) {
        lemma_negatable(e, e.taken(s1));
    }
}

pub(crate) proof fn lemma_negatable(e: Script, s: State)
    requires
        s.frames.len() > 0,
    ensures
        scopes::outcome_keeps(e, s, grammar::negatable(e, s)),
    decreases e.left(s), 3nat,
{
    reveal(grammar::negatable);
    lookups::lemma_id_expression(e, s, false);
    values::lemma_nested_expression(e, s);
}

pub(crate) proof fn lemma_continued(e: Script, s: State, lhs: Seq<AstIndex>, min_precedence: u8)
    requires
        s.frames.len() > 0,
    ensures
        scopes::outcome_keeps(e, s, grammar::continued(e, s, lhs, min_precedence)),
    decreases e.left(s), 4nat,
{
    reveal(grammar::continued);
    reveal(grammar::assignment);
    reveal(grammar::operation);
    let s1 = e.spaced(s);
    if let Some(next) = e.next(s1) {
        if lhs.len() == 0 {
        } else if next == Token::NewLine || next == Token::NewLineIndented {
            if grammar::is_operator(e.token_at(e.skip_fillers(s1.at))) {
                assert(e.skip_fillers(s1.at) == e.skip_fillers(s1.at + 1));
                lemma_continued(e, e.filled(s1), lhs, min_precedence);
            }
        } else if grammar::is_loop(Some(next)) {
            loops::lemma_loop_form(e, s1, Some(lhs), min_precedence == 0);
        } else if grammar::assign_op(next) is Some {
            lemma_assignment(e, s1, lhs, grammar::assign_op(next)->0);
        } else if grammar::is_operator(Some(next)) && grammar::left_precedence(next)
            >= min_precedence && grammar::is_followed_by_whitespace(e, s1) {
            lemma_operation(e, s1, lhs.last());
            if let Ok((s2, node)) = e.past(s1, grammar::operation(e, s1, lhs.last())) {
                lemma_continued(e, s2, seq![node], min_precedence);
            }
        }
    }
}

pub(crate) proof fn lemma_operation(e: Script, s: State, lhs: AstIndex)
    requires
        s.frames.len() > 0,
        e.next(s) is Some,
    ensures
        scopes::outcome_keeps(e, s, grammar::operation(e, s, lhs)),
    decreases e.left(s), 2nat,
{
    reveal(grammar::operation);
    reveal(grammar::expression);
    let s1 = e.taken(s);
    let op = e.tokens[s.at].token;
    values::lemma_map_block(e, s1, e.indent(s1), None);
    if let Ok((s2, None)) = e.onward(s1, grammar::map_block(e, s1, e.indent(s1), None)) {
        lemma_expression(e, s2, Seq::empty(), grammar::right_precedence(op));
    }
}

proof fn lemma_targets_from(
    e: Script,
    s: State,
    lhs: Seq<AstIndex>,
    k: int,
    op: AssignOp,
    scope: Scope,
)
    requires
        s.frames.len() > 0,
    ensures
        grammar::targets_from(e, s, lhs, k, op, scope) matches Ok(s1) ==> scopes::keeps(e, s, s1)
            && s1.at == s.at,
    decreases lhs.len() - k,
{
    reveal(grammar::targets_from);
    if k < lhs.len() {
        if let Ok(s1) = grammar::target(e, s, lhs[k], op, scope) {
            if let NodeView::Id(id) = s.nodes[lhs[k] as int].node {
                if op == AssignOp::Equal {
                    let frame = s.top().without_access(id);
                    assert(s.top().accesses.contains_key(id));
                    scopes::lemma_top(e, s, frame);
                    scopes::lemma_top(e, s, frame.with_target(id));
                }
            }
            lemma_targets_from(e, s1, lhs, k + 1, op, scope);
        }
    }
}

proof fn lemma_complete_from(e: Script, s: State, lhs: Seq<AstIndex>, k: int)
    requires
        s.frames.len() > 0,
    ensures
        scopes::keeps(e, s, grammar::complete_from(s, lhs, k)),
    decreases lhs.len() - k,
{
    reveal(grammar::complete_from);
    if k < lhs.len() {
        if let NodeView::Id(id) = s.nodes[lhs[k] as int].node {
            scopes::lemma_top(e, s, s.top().with_complete(id));
            lemma_complete_from(e, s.with_top(s.top().with_complete(id)), lhs, k + 1);
        } else {
            lemma_complete_from(e, s, lhs, k + 1);
        }
    }
}

pub(crate) proof fn lemma_assignment(e: Script, s: State, lhs: Seq<AstIndex>, op: AssignOp)
    requires
        s.frames.len() > 0,
        e.next(s) is Some,
    ensures
        scopes::outcome_keeps(e, s, grammar::assignment(e, s, lhs, op)),
    decreases e.left(s), 2nat,
{
    reveal(grammar::assignment);
    let s1 = e.taken(s);
    let scope = grammar::assignment_scope(e, s1);
    lemma_targets_from(e, s1, lhs, 0, op, scope);
    if let Ok(s2) = grammar::targets_from(e, s1, lhs, 0, op, scope) {
        lookups::lemma_expressions(e, s2, true);
        if let Ok((s3, _)) = grammar::expressions(e, s2, true) {
            lemma_complete_from(e, s3, lhs, 0);
        }
    }
}

} // verus!
