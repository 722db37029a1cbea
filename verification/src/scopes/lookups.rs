//! What ids, calls, lookups and sequences of expressions do to the scopes. Each lemma says that a
//! form keeps them, as [`scopes::keeps`] has it.

use crate::grammar;
use crate::node::{AstIndex, LookupNodeView, NodeView};
use crate::scopes;
use crate::scopes::{expressions, values};
use crate::script::{Script, State};
use crate::token::Token;
use vstd::prelude::*;

verus! {

broadcast use {crate::script::group_places, crate::scopes::group_keeps};

pub(crate) proof fn lemma_id_expression(e: Script, s: State, primary: bool)
    requires
        s.frames.len() > 0,
    ensures
        scopes::outcome_keeps(e, s, grammar::id_expression(e, s, primary)),
    decreases e.left(s), 2nat,
{
    reveal(grammar::id_expression);
    reveal(grammar::open_args);
    reveal(grammar::lookup_from);
    if let (s1, Some(constant)) = e.id(s, primary) {
        let s2 = s1.with_top(s1.top().with_access(constant));
        lemma_lookup_from(e, s2, primary, seq![LookupNodeView::Id(constant)]);
        if let Ok((s3, _)) = e.add_node(e.taken(s2), NodeView::Id(constant)) {
            lemma_open_args(e, s3);
        }
    }
}

pub(crate) proof fn lemma_open_args(e: Script, s: State)
    requires
        s.frames.len() > 0,
    ensures
        scopes::outcome_keeps(e, s, grammar::open_args(e, s)),
    decreases e.left(s), 7nat,
{
    reveal(grammar::open_args);
    reveal(grammar::open_args_from);
    expressions::lemma_expression(e, s, Seq::empty(), 1);
    if let Ok((s1, Some(arg))) = e.forward(s, grammar::expression(e, s, Seq::empty(), 1)) {
        lemma_open_args_from(e, s1, e.line(s1), seq![arg]);
    }
}

pub(crate) proof fn lemma_open_args_from(e: Script, s: State, line: u32, args: Seq<AstIndex>)
    requires
        s.frames.len() > 0,
    ensures
        scopes::outcome_keeps(e, s, grammar::open_args_from(e, s, line, args)),
    decreases e.left(s), 6nat,
{
    reveal(grammar::open_args_from);
    expressions::lemma_expression(e, s, Seq::empty(), 1);
    if let Ok((s1, Some(arg))) = e.forward(s, grammar::expression(e, s, Seq::empty(), 1)) {
        lemma_open_args_from(e, s1, line, args.push(arg));
    }
}

pub(crate) proof fn lemma_lookup_from(
    e: Script,
    s: State,
    primary: bool,
    lookup: Seq<LookupNodeView>,
)
    requires
        s.frames.len() > 0,
    ensures
        scopes::outcome_keeps(e, s, grammar::lookup_from(e, s, primary, lookup)),
    decreases e.left(s), 7nat,
{
    reveal(grammar::lookup_from);
    reveal(grammar::index);
    reveal(grammar::open_args);
    match e.next(s) {
        Some(Token::ParenOpen) => {
            values::lemma_parenthesized_args(e, s);
            if let Ok((s1, args)) = e.past(s, grammar::parenthesized_args(e, s)) {
                lemma_lookup_from(e, s1, primary, lookup.push(LookupNodeView::Call(args)));
            }
        },
        Some(Token::ListStart) => {
            lemma_index(e, s);
            if let Ok((s1, index)) = e.past(s, grammar::index(e, s)) {
                lemma_lookup_from(e, s1, primary, lookup.push(LookupNodeView::Index(index)));
            }
        },
        Some(Token::Dot) => {
            if let (s1, Some(key)) = e.id(e.taken(s), false) {
                lemma_lookup_from(e, s1, primary, lookup.push(LookupNodeView::Id(key)));
            }
        },
        Some(Token::Whitespace) => {
            lemma_open_args(e, e.taken(s));
        },
        _ => {},
    }
}

pub(crate) proof fn lemma_index(e: Script, s: State)
    requires
        s.frames.len() > 0,
        e.next(s) is Some,
    ensures
        scopes::outcome_keeps(e, s, grammar::index(e, s)),
    decreases e.left(s), 6nat,
{
    reveal(grammar::index);
    reveal(grammar::index_range);
    let s1 = e.taken(s);
    expressions::lemma_expression(e, s1, Seq::empty(), 1);
    match e.onward(s1, grammar::expression(e, s1, Seq::empty(), 1)) {
        Ok((s2, Some(start))) => {
            if grammar::is_range(e.next(s2)) {
                lemma_index_range(e, s2, Some(start));
            }
        },
        Ok((s2, None)) => {
            let s3 = e.spaced(s2);
            if grammar::is_range(e.next(s3)) {
                lemma_index_range(e, s3, None);
            }
        },
        Err(_) => {},
    }
}

pub(crate) proof fn lemma_index_range(e: Script, s: State, start: Option<AstIndex>)
    requires
        s.frames.len() > 0,
        e.next(s) is Some,
    ensures
        scopes::outcome_keeps(e, s, grammar::index_range(e, s, start)),
    decreases e.left(s), 6nat,
{
    reveal(grammar::index_range);
    expressions::lemma_expression(e, e.taken(s), Seq::empty(), 1);
}

pub(crate) proof fn lemma_expressions(e: Script, s: State, allow_initial_indentation: bool)
    requires
        s.frames.len() > 0,
    ensures
        scopes::outcome_keeps(e, s, grammar::expressions(e, s, allow_initial_indentation)),
    decreases e.left(s), 7nat,
{
    reveal(grammar::expressions);
    reveal(grammar::expressions_at);
    let s1 = if allow_initial_indentation {
        e.spaced(s)
    } else {
        s
    };
    if allow_initial_indentation && e.next(s1) == Some(Token::NewLineIndented) {
        let s2 = e.filled(s1);
        let indent = e.indent(s2);
        values::lemma_map_block(e, s2, e.indent(s), Some(indent));
        if let Ok((s3, None)) = e.onward(
            s2,
            grammar::map_block(e, s2, e.indent(s), Some(indent)),
        ) {
            lemma_expressions_at(e, s3, e.indent(s), Some(indent));
        }
    } else {
        lemma_expressions_at(e, s1, e.indent(s), None);
    }
}

pub(crate) proof fn lemma_expressions_at(
    e: Script,
    s: State,
    current_indent: usize,
    expected_indent: Option<usize>,
)
    requires
        s.frames.len() > 0,
    ensures
        scopes::outcome_keeps(
            e,
            s,
            grammar::expressions_at(e, s, current_indent, expected_indent),
        ),
    decreases e.left(s), 6nat,
{
    reveal(grammar::expressions_at);
    reveal(grammar::expressions_from);
    expressions::lemma_expression(e, s, Seq::empty(), 0);
    if let Ok((s1, Some(first))) = e.forward(s, grammar::expression(e, s, Seq::empty(), 0)) {
        lemma_expressions_from(e, s1, current_indent, expected_indent, seq![first]);
    }
}

pub(crate) proof fn lemma_expressions_from(
    e: Script,
    s: State,
    current_indent: usize,
    expected_indent: Option<usize>,
    list: Seq<AstIndex>,
)
    requires
        s.frames.len() > 0,
    ensures
        scopes::outcome_keeps(
            e,
            s,
            grammar::expressions_from(e, s, current_indent, expected_indent, list),
        ),
    decreases e.left(s), 0nat,
{
    reveal(grammar::expressions_from);
    reveal(grammar::next_expression);
    let s1 = e.spaced(s);
    if e.next(s1) == Some(Token::Separator) {
        let s2 = e.spaced(e.taken(s1));
        if e.next(s2) == Some(Token::NewLineIndented) {
            let s3 = e.filled(s2);
            let indent = e.next_indent(s3);
            lemma_next_expression(e, s3, current_indent, expected_indent, list);
            lemma_next_expression(e, s3, current_indent, Some(indent), list);
        } else {
            lemma_next_expression(e, s2, current_indent, expected_indent, list);
        }
    }
}

pub(crate) proof fn lemma_next_expression(
    e: Script,
    s: State,
    current_indent: usize,
    expected_indent: Option<usize>,
    list: Seq<AstIndex>,
)
    requires
        s.frames.len() > 0,
    ensures
        scopes::outcome_keeps(
            e,
            s,
            grammar::next_expression(e, s, current_indent, expected_indent, list),
        ),
    decreases e.left(s), 6nat,
{
    reveal(grammar::next_expression);
    reveal(grammar::expressions_from);
    expressions::lemma_expression(e, s, list, 0);
    if let Ok((s1, node)) = e.onward(s, grammar::expression(e, s, list, 0)) {
        lemma_expressions_from(e, s1, current_indent, expected_indent, list);
        if let Some(node) = node {
            lemma_expressions_from(e, s1, current_indent, expected_indent, list.push(node));
        }
    }
}

} // verus!
