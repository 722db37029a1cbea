//! What numbers, strings, lists, maps, ranges and arguments do to the scopes. Each lemma says that
//! a form keeps them, as [`scopes::keeps`] has it.

use crate::constant_pool::ConstantView;
use crate::error::SyntaxError;
use crate::grammar;
use crate::node::{AstIndex, ConstantIndex};
use crate::scopes;
use crate::scopes::{expressions, loops};
use crate::script::{Script, State};
use crate::text;
use crate::token::Token;
use vstd::prelude::*;

verus! {

broadcast use {crate::script::group_places, crate::scopes::group_keeps};

pub(crate) proof fn lemma_number(e: Script, s: State)
    requires
        s.frames.len() > 0,
        e.next(s) is Some,
    ensures
        scopes::outcome_keeps(e, s, grammar::number(e, s)),
{
    reveal(grammar::number);
    if let Some(bits) = e.tokens[s.at].number {
        scopes::lemma_constant(e, s, e.taken(s), ConstantView::Number(bits));
    }
}

pub(crate) proof fn lemma_string(e: Script, s: State)
    requires
        s.frames.len() > 0,
        e.next(s) is Some,
    ensures
        scopes::outcome_keeps(e, s, grammar::string(e, s)),
{
    reveal(grammar::string);
    let s1 = e.taken(s);
    scopes::lemma_constant(e, s, s1, ConstantView::Str(text::unquoted(e.text(s1))));
}

pub(crate) proof fn lemma_operand(e: Script, s: State, copy: bool)
    requires
        s.frames.len() > 0,
        e.next(s) is Some,
    ensures
        scopes::outcome_keeps(e, s, grammar::operand(e, s, copy)),
    decreases e.left(s), 2nat,
{
    reveal(grammar::operand);
    expressions::lemma_expression(e, e.taken(s), Seq::empty(), 0);
}

pub(crate) proof fn lemma_nested_expression(e: Script, s: State)
    requires
        s.frames.len() > 0,
    ensures
        scopes::outcome_keeps(e, s, grammar::nested_expression(e, s)),
    decreases e.left(s), 2nat,
{
    reveal(grammar::nested_expression);
    let s1 = e.spaced(s);
    if e.next(s1) == Some(Token::ParenOpen) {
        expressions::lemma_expression(e, e.taken(s1), Seq::empty(), 0);
    }
}

pub(crate) proof fn lemma_num(e: Script, s: State, limit: nat, too_many: SyntaxError)
    requires
        s.frames.len() > 0,
        e.next(s) is Some,
    ensures
        scopes::outcome_keeps(e, s, grammar::num(e, s, limit, too_many)),
    decreases e.left(s), 2nat,
{
    reveal(grammar::num);
    reveal(grammar::num_terms);
    lemma_num_terms(e, e.taken(s));
}

pub(crate) proof fn lemma_num_terms(e: Script, s: State)
    requires
        s.frames.len() > 0,
    ensures
        scopes::outcome_keeps(e, s, grammar::num_terms(e, s)),
    decreases e.left(s), 5nat,
{
    reveal(grammar::num_terms);
    reveal(grammar::parenthesized_args);
    reveal(grammar::terms_from);
    if e.next(s) == Some(Token::ParenOpen) {
        lemma_parenthesized_args(e, s);
    } else {
        lemma_terms_from(e, s, Seq::empty());
    }
}

pub(crate) proof fn lemma_terms_from(e: Script, s: State, terms: Seq<AstIndex>)
    requires
        s.frames.len() > 0,
    ensures
        scopes::outcome_keeps(e, s, grammar::terms_from(e, s, terms)),
    decreases e.left(s), 4nat,
{
    reveal(grammar::terms_from);
    expressions::lemma_term(e, s, false);
    if let Ok((s1, Some(node))) = e.forward(s, grammar::term(e, s, false)) {
        lemma_terms_from(e, s1, terms.push(node));
    }
}

pub(crate) proof fn lemma_list(e: Script, s: State)
    requires
        s.frames.len() > 0,
        e.next(s) is Some,
    ensures
        scopes::outcome_keeps(e, s, grammar::list(e, s)),
    decreases e.left(s), 2nat,
{
    reveal(grammar::list);
    reveal(grammar::list_from);
    lemma_list_from(e, e.taken(s), Seq::empty());
}

pub(crate) proof fn lemma_list_from(e: Script, s: State, entries: Seq<AstIndex>)
    requires
        s.frames.len() > 0,
    ensures
        scopes::outcome_keeps(e, s, grammar::list_from(e, s, entries)),
    decreases e.left(s), 4nat,
{
    reveal(grammar::list_from);
    reveal(grammar::range);
    let s1 = e.filled(s);
    if e.next(s1) == Some(Token::ListEnd) {
    } else if grammar::is_range(e.next(s1)) {
        lemma_range(e, s1, None);
        if let Ok((s2, node)) = e.past(s1, grammar::range(e, s1, None)) {
            lemma_list_from(e, s2, entries.push(node));
        }
    } else if entries.len() > 0 && grammar::is_loop(e.next(s1)) {
        loops::lemma_loop_form(e, s1, Some(entries), false);
    } else {
        expressions::lemma_term(e, s1, false);
        if let Ok((s2, Some(node))) = e.forward(s1, grammar::term(e, s1, false)) {
            if grammar::is_range(e.next(s2)) {
                lemma_range(e, s2, Some(node));
                if let Ok((s3, node)) = e.onward(s2, grammar::range(e, s2, Some(node))) {
                    lemma_list_from(e, s3, entries.push(node));
                }
            } else {
                lemma_list_from(e, s2, entries.push(node));
            }
        }
    }
}

pub(crate) proof fn lemma_inline_map(e: Script, s: State)
    requires
        s.frames.len() > 0,
        e.next(s) is Some,
    ensures
        scopes::outcome_keeps(e, s, grammar::inline_map(e, s)),
    decreases e.left(s), 2nat,
{
    reveal(grammar::inline_map);
    reveal(grammar::inline_map_from);
    lemma_inline_map_from(e, e.taken(s), Seq::empty());
}

pub(crate) proof fn lemma_inline_map_from(
    e: Script,
    s: State,
    entries: Seq<(ConstantIndex, AstIndex)>,
)
    requires
        s.frames.len() > 0,
    ensures
        scopes::outcome_keeps(e, s, grammar::inline_map_from(e, s, entries)),
    decreases e.left(s), 5nat,
{
    reveal(grammar::inline_map_from);
    if let (s1, Some(key)) = e.id(e.filled(s), false) {
        if e.next(s1) == Some(Token::Colon) {
            let s3 = e.filled(e.taken(s1));
            expressions::lemma_expression(e, s3, Seq::empty(), 0);
            if let Ok((s4, Some(value))) = e.onward(
                s3,
                grammar::expression(e, s3, Seq::empty(), 0),
            ) {
                let s5 = e.spaced(s4);
                if e.next(s5) == Some(Token::Separator) {
                    lemma_inline_map_from(e, e.taken(s5), entries.push((key, value)));
                }
            }
        }
    }
}

pub(crate) proof fn lemma_map_block(
    e: Script,
    s: State,
    current_indent: usize,
    block_indent: Option<usize>,
)
    requires
        s.frames.len() > 0,
    ensures
        scopes::outcome_keeps(e, s, grammar::map_block(e, s, current_indent, block_indent)),
    decreases e.left(s), 2nat,
{
    reveal(grammar::map_block);
    reveal(grammar::map_block_at);
    match block_indent {
        Some(block_indent) => {
            lemma_map_block_at(e, e.filled(s), block_indent);
        },
        None => {
            let s1 = e.spaced(s);
            lemma_map_block_at(e, e.filled(e.taken(s1)), e.next_indent(s1));
        },
    }
}

pub(crate) proof fn lemma_map_block_at(e: Script, s: State, block_indent: usize)
    requires
        s.frames.len() > 0,
    ensures
        scopes::outcome_keeps(e, s, grammar::map_block_at(e, s, block_indent)),
    decreases e.left(s), 1nat,
{
    reveal(grammar::map_block_at);
    reveal(grammar::map_block_from);
    lemma_map_block_from(e, s, block_indent, Seq::empty());
}

pub(crate) proof fn lemma_map_block_from(
    e: Script,
    s: State,
    block_indent: usize,
    entries: Seq<(ConstantIndex, AstIndex)>,
)
    requires
        s.frames.len() > 0,
    ensures
        scopes::outcome_keeps(e, s, grammar::map_block_from(e, s, block_indent, entries)),
    decreases e.left(s), 0nat,
{
    reveal(grammar::map_block_from);
    reveal(grammar::map_block_value);
    if let (s1, Some(key)) = e.id(s, false) {
        let s3 = e.taken(e.spaced(s1));
        lemma_map_block_value(e, s3);
        if let Ok((s4, value)) = e.onward(s3, grammar::map_block_value(e, s3)) {
            lemma_map_block_from(e, e.filled(s4), block_indent, entries.push((key, value)));
        }
    }
}

pub(crate) proof fn lemma_map_block_value(e: Script, s: State)
    requires
        s.frames.len() > 0,
    ensures
        scopes::outcome_keeps(e, s, grammar::map_block_value(e, s)),
    decreases e.left(s), 6nat,
{
    reveal(grammar::map_block_value);
    expressions::lemma_expression(e, s, Seq::empty(), 0);
    if let Ok((s1, None)) = e.onward(s, grammar::expression(e, s, Seq::empty(), 0)) {
        expressions::lemma_expression(e, e.filled(s1), Seq::empty(), 0);
    }
}

pub(crate) proof fn lemma_range(e: Script, s: State, start: Option<AstIndex>)
    requires
        s.frames.len() > 0,
        e.next(s) is Some,
    ensures
        scopes::outcome_keeps(e, s, grammar::range(e, s, start)),
    decreases e.left(s), 2nat,
{
    reveal(grammar::range);
    expressions::lemma_term(e, e.taken(s), false);
}

pub(crate) proof fn lemma_parenthesized_args(e: Script, s: State)
    requires
        s.frames.len() > 0,
    ensures
        scopes::outcome_keeps(e, s, grammar::parenthesized_args(e, s)),
    decreases e.left(s), 2nat,
{
    reveal(grammar::parenthesized_args);
    reveal(grammar::parenthesized_args_from);
    let s1 = e.spaced(s);
    if e.next(s1) == Some(Token::ParenOpen) {
        lemma_parenthesized_args_from(e, e.taken(s1), Seq::empty());
    }
}

pub(crate) proof fn lemma_parenthesized_args_from(e: Script, s: State, args: Seq<AstIndex>)
    requires
        s.frames.len() > 0,
    ensures
        scopes::outcome_keeps(e, s, grammar::parenthesized_args_from(e, s, args)),
    decreases e.left(s), 6nat,
{
    reveal(grammar::parenthesized_args_from);
    let s1 = e.filled(s);
    expressions::lemma_expression(e, s1, Seq::empty(), 1);
    if let Ok((s2, Some(arg))) = e.forward(s1, grammar::expression(e, s1, Seq::empty(), 1)) {
        lemma_parenthesized_args_from(e, s2, args.push(arg));
    }
}

} // verus!
