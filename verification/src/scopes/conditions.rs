//! What `if` expressions do to the scopes. Each lemma says that a form keeps them, as
//! [`scopes::keeps`] has it.

use crate::grammar;
use crate::node::AstIndex;
use crate::scopes;
use crate::scopes::{expressions, lines, lookups};
use crate::script::{Script, State};
use crate::token::Token;
use vstd::prelude::*;

verus! {

broadcast use {crate::script::group_places, crate::scopes::group_keeps};

pub(crate) proof fn lemma_if_expression(e: Script, s: State)
    requires
        s.frames.len() > 0,
    ensures
        scopes::outcome_keeps(e, s, grammar::if_expression(e, s)),
    decreases e.left(s), 2nat,
{
    reveal(grammar::if_expression);
    reveal(grammar::if_then);
    reveal(grammar::if_block);
    let s1 = e.taken(s);
    if e.next(s) == Some(Token::If) {
        expressions::lemma_expression(e, s1, Seq::empty(), 0);
        if let Ok((s2, Some(condition))) = e.onward(
            s1,
            grammar::expression(e, s1, Seq::empty(), 0),
        ) {
            let s3 = e.spaced(s2);
            if e.next(s3) == Some(Token::Then) {
                lemma_if_then(e, s3, condition);
            } else {
                lemma_if_block(e, s3, condition, e.indent(s));
            }
        }
    }
}

pub(crate) proof fn lemma_if_then(e: Script, s: State, condition: AstIndex)
    requires
        s.frames.len() > 0,
        e.next(s) is Some,
    ensures
        scopes::outcome_keeps(e, s, grammar::if_then(e, s, condition)),
    decreases e.left(s), 2nat,
{
    reveal(grammar::if_then);
    let s1 = e.taken(s);
    lookups::lemma_expressions(e, s1, false);
    if let Ok((s2, Some(_))) = e.onward(s1, grammar::expressions(e, s1, false)) {
        lookups::lemma_expressions(e, e.taken(e.spaced(s2)), false);
    }
}

pub(crate) proof fn lemma_if_block(e: Script, s: State, condition: AstIndex, current_indent: usize)
    requires
        s.frames.len() > 0,
    ensures
        scopes::outcome_keeps(e, s, grammar::if_block(e, s, condition, current_indent)),
    decreases e.left(s), 13nat,
{
    reveal(grammar::if_block);
    reveal(grammar::else_if_blocks_from);
    reveal(grammar::else_block);
    lines::lemma_map_or_block(e, s, current_indent);
    if let Ok((s1, Some(_))) = e.onward(s, grammar::map_or_block(e, s, current_indent)) {
        lemma_else_if_blocks_from(e, s1, current_indent, Seq::empty());
        if let Ok((s2, _)) = e.onward(
            s1,
            grammar::else_if_blocks_from(e, s1, current_indent, Seq::empty()),
        ) {
            lemma_else_block(e, s2, current_indent);
        }
    }
}

pub(crate) proof fn lemma_else_if_blocks_from(
    e: Script,
    s: State,
    current_indent: usize,
    blocks: Seq<(AstIndex, AstIndex)>,
)
    requires
        s.frames.len() > 0,
    ensures
        scopes::outcome_keeps(e, s, grammar::else_if_blocks_from(e, s, current_indent, blocks)),
    decreases e.left(s), 2nat,
{
    reveal(grammar::else_if_blocks_from);
    let s1 = e.spaced(s);
    if e.next(s1) == Some(Token::ElseIf) {
        let s2 = e.taken(s1);
        expressions::lemma_expression(e, s2, Seq::empty(), 0);
        if let Ok((s3, Some(condition))) = e.onward(
            s2,
            grammar::expression(e, s2, Seq::empty(), 0),
        ) {
            lines::lemma_map_or_block(e, s3, current_indent);
            if let Ok((s4, Some(block))) = e.onward(
                s3,
                grammar::map_or_block(e, s3, current_indent),
            ) {
                lemma_else_if_blocks_from(e, s4, current_indent, blocks.push((condition, block)));
            }
        }
    }
}

pub(crate) proof fn lemma_else_block(e: Script, s: State, current_indent: usize)
    requires
        s.frames.len() > 0,
    ensures
        scopes::outcome_keeps(e, s, grammar::else_block(e, s, current_indent)),
    decreases e.left(s), 2nat,
{
    reveal(grammar::else_block);
    let s1 = e.spaced(s);
    if e.next(s1) == Some(Token::Else) {
        lines::lemma_map_or_block(e, e.taken(s1), current_indent);
    }
}

} // verus!
