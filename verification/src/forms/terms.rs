//! What a term is, by the token that it starts with.

use crate::error::{ParserError, SyntaxError};
use crate::grammar;
use crate::node::{AstIndex, NodeView};
use crate::script::{Script, State};
use crate::token::Token;
use vstd::prelude::*;

verus! {

broadcast use crate::script::group_places;

pub(crate) proof fn lemma_no_term_at_range(e: Script, s: State)
    requires
        e.spaced(s) == s,
        grammar::is_range(e.next(s)),
    ensures
        grammar::term(e, s, false) == Ok::<_, ParserError>((s, None::<AstIndex>)),
{
    reveal(grammar::term);
}

pub(crate) proof fn lemma_term_at_list(e: Script, s: State, primary: bool)
    requires
        e.next(s) == Some(Token::ListStart),
        e.spaced(s) == s,
    ensures
        grammar::term(e, s, primary) == grammar::list(e, s),
{
    reveal(grammar::term);
    reveal(grammar::list);
}

pub(crate) proof fn lemma_term_at_num(e: Script, s: State, primary: bool)
    requires
        e.next(s) == Some(Token::Num2) || e.next(s) == Some(Token::Num4),
        e.token_at(s.at + 1) != Some(Token::ParenOpen),
        e.spaced(s) == s,
    ensures
        ({
            let four = e.next(s) == Some(Token::Num4);
            grammar::term(e, s, primary) == match grammar::terms_from(
                e,
                e.taken(s),
                Seq::empty(),
            ) {
                Err(x) => Err(x),
                Ok((s1, terms)) => if terms.len() == 0 {
                    e.refused(s1, SyntaxError::ExpectedExpression)
                } else if terms.len() > (if four {
                    4nat
                } else {
                    2nat
                }) {
                    e.refused(
                        s1,
                        if four {
                            SyntaxError::TooManyNum4Terms
                        } else {
                            SyntaxError::TooManyNum2Terms
                        },
                    )
                } else if four {
                    grammar::present(e.add_node(s1, NodeView::Num4(terms)))
                } else {
                    grammar::present(e.add_node(s1, NodeView::Num2(terms)))
                },
            }
        }),
{
    reveal(grammar::term);
    reveal(grammar::num);
    reveal(grammar::num_terms);
    reveal(grammar::terms_from);
}

pub(crate) proof fn lemma_term_at_num_args(e: Script, s: State, primary: bool)
    requires
        e.next(s) == Some(Token::Num2) || e.next(s) == Some(Token::Num4),
        e.token_at(s.at + 1) == Some(Token::ParenOpen),
        e.spaced(s) == s,
        grammar::parenthesized_args(e, e.taken(s)) matches Ok((_, args)) && 1 <= args.len() <= (
        if e.next(s) == Some(Token::Num4) {
            4nat
        } else {
            2nat
        }),
    ensures
        ({
            let (s1, args) = grammar::parenthesized_args(e, e.taken(s))->Ok_0;
            grammar::term(e, s, primary) == grammar::present(
                e.add_node(
                    s1,
                    if e.next(s) == Some(Token::Num4) {
                        NodeView::Num4(args)
                    } else {
                        NodeView::Num2(args)
                    },
                ),
            )
        }),
{
    reveal(grammar::term);
    reveal(grammar::num);
    reveal(grammar::num_terms);
}

} // verus!
