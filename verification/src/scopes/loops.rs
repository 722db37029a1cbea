//! What loops do to the scopes. Each lemma says that a form keeps them, as [`scopes::keeps`] has
//! it.

use crate::error::SyntaxError;
use crate::grammar;
use crate::node::{AstIndex, ConstantIndex};
use crate::scopes;
use crate::scopes::{expressions, lines};
use crate::script::{Script, State};
use crate::token::Token;
use vstd::prelude::*;

verus! {

broadcast use {crate::script::group_places, crate::scopes::group_keeps};

pub(crate) proof fn lemma_loop_form(
    e: Script,
    s: State,
    inline_body: Option<Seq<AstIndex>>,
    primary: bool,
)
    requires
        s.frames.len() > 0,
        e.next(s) is Some,
    ensures
        scopes::outcome_keeps(e, s, grammar::loop_form(e, s, inline_body, primary)),
    decreases e.left(s), 3nat,
{
    reveal(grammar::loop_form);
    reveal(grammar::for_loop);
    reveal(grammar::while_loop);
    reveal(grammar::until_loop);
    lemma_for_loop(e, s, inline_body, primary);
    lemma_while_loop(e, s, inline_body, primary);
    lemma_until_loop(e, s, inline_body, primary);
}

pub(crate) proof fn lemma_for_loop(
    e: Script,
    s: State,
    inline_body: Option<Seq<AstIndex>>,
    primary: bool,
)
    requires
        s.frames.len() > 0,
        e.next(s) is Some,
    ensures
        scopes::outcome_keeps(e, s, grammar::for_loop(e, s, inline_body, primary)),
    decreases e.left(s), 2nat,
{
    reveal(grammar::for_loop);
    reveal(grammar::for_ranges);
    reveal(grammar::for_condition);
    reveal(grammar::loop_body);
    let s1 = e.taken(s);
    grammar::lemma_for_args(e, s1, Seq::empty());
    lemma_for_args(e, s1, Seq::empty());
    let (s2, args) = grammar::for_args(e, s1, Seq::empty());
    let s4 = e.taken(e.spaced(s2));
    lemma_for_ranges(e, s4, Seq::empty());
    if let Ok((s5, ranges)) = e.onward(s4, grammar::for_ranges(e, s4, Seq::empty())) {
        lemma_for_condition(e, s5);
        if let Ok((s6, condition)) = e.onward(s5, grammar::for_condition(e, s5)) {
            lemma_loop_body(
                e,
                s6,
                inline_body,
                primary,
                e.indent(s),
                SyntaxError::ExpectedForBody,
            );
        }
    }
}

proof fn lemma_for_args(e: Script, s: State, args: Seq<ConstantIndex>)
    requires
        s.frames.len() > 0,
    ensures
        scopes::keeps(e, s, grammar::for_args(e, s, args).0),
    decreases e.left(s),
{
    reveal(grammar::for_args);
    if let (s1, Some(arg)) = e.id(s, true) {
        let s2 = e.spaced(s1.with_top(s1.top().with_assigned(arg)));
        lemma_for_args(e, s2, args.push(arg));
        lemma_for_args(e, e.taken(s2), args.push(arg));
    }
}

pub(crate) proof fn lemma_for_ranges(e: Script, s: State, ranges: Seq<AstIndex>)
    requires
        s.frames.len() > 0,
    ensures
        scopes::outcome_keeps(e, s, grammar::for_ranges(e, s, ranges)),
    decreases e.left(s), 6nat,
{
    reveal(grammar::for_ranges);
    expressions::lemma_expression(e, s, Seq::empty(), 1);
    if let Ok((s1, Some(range))) = e.forward(s, grammar::expression(e, s, Seq::empty(), 1)) {
        lemma_for_ranges(e, e.taken(e.spaced(s1)), ranges.push(range));
    }
}

pub(crate) proof fn lemma_for_condition(e: Script, s: State)
    requires
        s.frames.len() > 0,
    ensures
        scopes::outcome_keeps(e, s, grammar::for_condition(e, s)),
    decreases e.left(s), 2nat,
{
    reveal(grammar::for_condition);
    let s1 = e.spaced(s);
    if e.next(s1) == Some(Token::If) {
        expressions::lemma_expression(e, e.taken(s1), Seq::empty(), 0);
    }
}

pub(crate) proof fn lemma_while_loop(
    e: Script,
    s: State,
    inline_body: Option<Seq<AstIndex>>,
    primary: bool,
)
    requires
        s.frames.len() > 0,
        e.next(s) is Some,
    ensures
        scopes::outcome_keeps(e, s, grammar::while_loop(e, s, inline_body, primary)),
    decreases e.left(s), 2nat,
{
    reveal(grammar::while_loop);
    reveal(grammar::loop_body);
    let s1 = e.taken(s);
    expressions::lemma_expression(e, s1, Seq::empty(), 0);
    if let Ok((s2, Some(_))) = e.onward(s1, grammar::expression(e, s1, Seq::empty(), 0)) {
        lemma_loop_body(
            e,
            s2,
            inline_body,
            primary,
            e.indent(s),
            SyntaxError::ExpectedWhileBody,
        );
    }
}

pub(crate) proof fn lemma_until_loop(
    e: Script,
    s: State,
    inline_body: Option<Seq<AstIndex>>,
    primary: bool,
)
    requires
        s.frames.len() > 0,
        e.next(s) is Some,
    ensures
        scopes::outcome_keeps(e, s, grammar::until_loop(e, s, inline_body, primary)),
    decreases e.left(s), 2nat,
{
    reveal(grammar::until_loop);
    reveal(grammar::loop_body);
    let s1 = e.taken(s);
    expressions::lemma_expression(e, s1, Seq::empty(), 0);
    if let Ok((s2, Some(_))) = e.onward(s1, grammar::expression(e, s1, Seq::empty(), 0)) {
        lemma_loop_body(
            e,
            s2,
            inline_body,
            primary,
            e.indent(s),
            SyntaxError::ExpectedUntilBody,
        );
    }
}

pub(crate) proof fn lemma_loop_body(
    e: Script,
    s: State,
    inline_body: Option<Seq<AstIndex>>,
    primary: bool,
    current_indent: usize,
    absent: SyntaxError,
)
    requires
        s.frames.len() > 0,
    ensures
        scopes::outcome_keeps(
            e,
            s,
            grammar::loop_body(e, s, inline_body, primary, current_indent, absent),
        ),
    decreases e.left(s), 13nat,
{
    reveal(grammar::loop_body);
    lines::lemma_indented_block(e, s, current_indent, None);
}

} // verus!
