//! How literals are read, by themselves, in lists and line by line.

use crate::error::ParserError;
use crate::grammar;
use crate::node::{AstIndex, NodeView};
use crate::script::{Outcome, Script, State};
use crate::token::Token;
use vstd::prelude::*;

verus! {

broadcast use crate::script::group_places;

/// A literal that is a single token.
pub open spec fn is_literal(e: Script, at: int) -> bool {
    match e.token_at(at) {
        Some(Token::True) | Some(Token::False) | Some(Token::Str) => true,
        Some(Token::Number) => e.tokens[at].number is Some,
        _ => false,
    }
}

/// A literal is read as one node.
pub open spec fn literal(e: Script, s: State) -> Outcome<AstIndex> {
    match e.next(s) {
        Some(Token::True) => e.add_node(e.taken(s), NodeView::BoolTrue),
        Some(Token::False) => e.add_node(e.taken(s), NodeView::BoolFalse),
        Some(Token::Number) => grammar::number(e, s),
        _ => grammar::string(e, s),
    }
}

/// A literal takes its token and adds its node.
pub proof fn lemma_literal(e: Script, s: State)
    requires
        is_literal(e, s.at),
        s.nodes.len() <= u32::MAX,
    ensures
        literal(e, s) matches Ok((s1, node)) && node == s.nodes.len() && s1.at == s.at + 1
            && s1.nodes == s.nodes.push(s1.nodes.last()) && s1.frames == s.frames,
{
    reveal(grammar::number);
    reveal(grammar::string);
}

/// An operand that is a literal.
pub proof fn lemma_literal_operand(e: Script, s: State, primary: bool)
    requires
        is_literal(e, e.skip_spaces(s.at)),
        s.nodes.len() <= u32::MAX,
    ensures
        literal(e, e.spaced(s)) matches Ok((s1, node)) && grammar::first_operand(e, s, primary)
            == Ok::<_, ParserError>((s1, Some(node))),
{
    reveal(grammar::first_operand);
    reveal(grammar::negated);
    reveal(grammar::id_expression);
    reveal(grammar::term);
    reveal(Script::id);
    let s0 = e.spaced(s);
    lemma_literal(e, s0);
    assert(e.spaced(s0) == s0);
    assert(grammar::negated(e, s) == Ok::<_, ParserError>((s0, None::<AstIndex>)));
    assert(grammar::id_expression(e, s0, primary) == Ok::<_, ParserError>(
        (s0, None::<AstIndex>),
    ));
}

/// An expression that starts with a literal goes on behind it.
pub proof fn lemma_expression_at_literal(e: Script, s: State, min_precedence: u8)
    requires
        is_literal(e, e.skip_spaces(s.at)),
        s.nodes.len() <= u32::MAX,
        e.line(s) == e.tokens[e.skip_spaces(s.at)].span.end.line,
        !grammar::is_range(e.token_at(e.skip_spaces(s.at) + 1)),
    ensures
        literal(e, e.spaced(s)) matches Ok((s1, node)) && grammar::expression(
            e,
            s,
            Seq::empty(),
            min_precedence,
        ) == grammar::continued(e, s1, seq![node], min_precedence),
{
    reveal(grammar::expression);
    reveal(grammar::first_operand);
    reveal(grammar::continued);
    lemma_literal(e, e.spaced(s));
    lemma_literal_operand(e, s, min_precedence == 0);
    let (s1, node) = literal(e, e.spaced(s))->Ok_0;
    assert(Seq::<AstIndex>::empty().push(node) =~= seq![node]);
}

/// An operator by itself is no expression.
proof fn lemma_expression_at_operator(e: Script, s: State, min_precedence: u8)
    requires
        grammar::is_operator(e.token_at(e.skip_spaces(s.at))),
        e.token_at(e.skip_spaces(s.at) + 1) == Some(Token::Whitespace),
    ensures
        grammar::expression(e, s, Seq::empty(), min_precedence) == Ok::<_, ParserError>(
            (e.spaced(s), None::<AstIndex>),
        ),
{
    reveal(grammar::expression);
    reveal(grammar::first_operand);
    reveal(grammar::negated);
    reveal(grammar::id_expression);
    reveal(grammar::term);
    reveal(Script::id);
    let primary = min_precedence == 0;
    let s1 = e.spaced(s);
    assert(e.spaced(s1) == s1);
    assert(grammar::negated(e, s) == Ok::<_, ParserError>((s1, None::<AstIndex>)));
    assert(grammar::id_expression(e, s1, primary) == Ok::<_, ParserError>((s1, None::<AstIndex>)));
    assert(grammar::term(e, s1, primary) == Ok::<_, ParserError>((s1, None::<AstIndex>)));
}

/// Whether an id stands at a place, without a call or a lookup directly behind it.
pub open spec fn is_plain_id(e: Script, at: int) -> bool {
    &&& e.token_at(at) == Some(Token::Id)
    &&& e.token_at(at + 1) != Some(Token::ParenOpen)
    &&& e.token_at(at + 1) != Some(Token::ListStart)
    &&& e.token_at(at + 1) != Some(Token::Dot)
}

/// An id by itself is read as one node. In a primary position the spaces behind it are taken too,
/// as arguments may follow.
pub open spec fn plain_id(e: Script, s: State, primary: bool) -> Outcome<AstIndex> {
    let (s1, id) = e.id(s, primary);
    let s2 = s1.with_top(s1.top().with_access(id->0));
    if primary && e.next(s2) == Some(Token::Whitespace) {
        match e.add_node(e.taken(s2), NodeView::Id(id->0)) {
            Err(x) => Err(x),
            Ok((s3, node)) => Ok((e.spaced(s3), node)),
        }
    } else {
        e.add_node(s2, NodeView::Id(id->0))
    }
}

/// An operand that is an id. In a primary position an operator follows, so that the id is no call.
pub proof fn lemma_plain_id_operand(e: Script, s: State, primary: bool)
    requires
        is_plain_id(e, s.at),
        s.nodes.len() <= u32::MAX,
        primary && e.token_at(s.at + 1) == Some(Token::Whitespace) ==> {
            &&& grammar::is_operator(e.token_at(e.skip_spaces(s.at + 1)))
            &&& e.token_at(e.skip_spaces(s.at + 1) + 1) == Some(Token::Whitespace)
        },
    ensures
        plain_id(e, s, primary) matches Ok((s1, node)) && grammar::first_operand(e, s, primary)
            == Ok::<_, ParserError>((s1, Some(node))),
{
    reveal(grammar::expression);
    reveal(grammar::first_operand);
    reveal(grammar::negated);
    reveal(grammar::id_expression);
    reveal(grammar::open_args);
    reveal(Script::id);
    assert(e.spaced(s) == s);
    assert(grammar::negated(e, s) == Ok::<_, ParserError>((s, None::<AstIndex>)));
    let (s1, found) = e.id(s, primary);
    let constant = found->0;
    let s2 = s1.with_top(s1.top().with_access(constant));
    if primary && e.next(s2) == Some(Token::Whitespace) {
        let (s3, node) = e.add_node(e.taken(s2), NodeView::Id(constant))->Ok_0;
        lemma_expression_at_operator(e, s3, 1);
        assert(grammar::open_args(e, s3) == Ok::<_, ParserError>(
            (e.spaced(s3), None::<Seq<AstIndex>>),
        ));
    }
}

/// A term that is a literal.
proof fn lemma_term_at_literal(e: Script, s: State)
    requires
        is_literal(e, s.at),
    ensures
        grammar::term(e, s, false) == grammar::present(literal(e, s)),
{
    reveal(grammar::term);
    assert(e.spaced(s) == s);
}

// Lists

/// The indices of the nodes from `first` up to `end`.
pub open spec fn indices(first: AstIndex, end: AstIndex) -> Seq<AstIndex> {
    Seq::new((end - first) as nat, |i: int| (first + i) as AstIndex)
}

/// Whether the rest of a list stands at a place: `count` literals with whitespace between them, and
/// the end of the list.
pub open spec fn is_list_rest(e: Script, at: int, count: nat) -> bool
    decreases count,
{
    if count == 0 {
        e.token_at(at) == Some(Token::ListEnd)
    } else if count == 1 {
        is_literal(e, at) && e.token_at(at + 1) == Some(Token::ListEnd)
    } else {
        &&& is_literal(e, at)
        &&& e.token_at(at + 1) == Some(Token::Whitespace)
        &&& is_list_rest(e, at + 2, (count - 1) as nat)
    }
}

/// A list of literals is read as a list of their nodes, in their order.
pub proof fn law_list_of_literals(e: Script, s: State, count: nat)
    requires
        e.next(s) == Some(Token::ListStart),
        is_list_rest(e, s.at + 1, count),
        s.nodes.len() + count <= u32::MAX,
    ensures
        grammar::list(e, s) matches Ok((s1, Some(node))) && {
            let first = s.nodes.len() as AstIndex;
            &&& node == first + count
            &&& s1.nodes.len() == node + 1
            &&& s1.nodes.take(first as int) == s.nodes
            &&& s1.nodes[node as int].node == NodeView::List(indices(first, node))
        },
{
    reveal(grammar::list);
    reveal(grammar::list_from);
    let first = s.nodes.len() as AstIndex;
    let s1 = e.taken(s);
    assert(indices(first, first) =~= Seq::<AstIndex>::empty());
    lemma_list_rest(e, s1, count, first);
    let s2 = (grammar::list_from(e, s1, indices(first, first))->Ok_0).0;
    assert(e.filled(s2) == s2);
    assert((grammar::list(e, s)->Ok_0).0.nodes.take(first as int) =~= s.nodes);
}

/// The entries of a list of literals.
proof fn lemma_list_rest(e: Script, s: State, count: nat, first: AstIndex)
    requires
        is_list_rest(e, s.at, count),
        first <= s.nodes.len(),
        s.nodes.len() + count <= u32::MAX,
    ensures
        grammar::list_from(e, s, indices(first, s.nodes.len() as AstIndex)) matches Ok(
            (s1, entries),
        ) && {
            &&& e.next(s1) == Some(Token::ListEnd)
            &&& s1.nodes.len() == s.nodes.len() + count
            &&& s1.nodes.take(s.nodes.len() as int) == s.nodes
            &&& entries == indices(first, (s.nodes.len() + count) as AstIndex)
        },
    decreases count,
{
    reveal(grammar::list_from);
    reveal(grammar::term);
    let entries = indices(first, s.nodes.len() as AstIndex);
    assert(e.filled(s) == s);
    if count == 0 {
        assert(s.nodes.take(s.nodes.len() as int) =~= s.nodes);
    } else {
        lemma_term_at_literal(e, s);
        lemma_literal(e, s);
        let (s1, node) = literal(e, s)->Ok_0;
        let more = indices(first, s1.nodes.len() as AstIndex);
        assert(entries.push(node) =~= more);
        if count == 1 {
            lemma_list_rest(e, s1, 0, first);
        } else {
            let s2 = s1.moved(s1.at + 1);
            assert(is_literal(e, s2.at)) by {
                reveal_with_fuel(is_list_rest, 2);
            }
            assert(e.filled(s1) == s2) by {
                reveal_with_fuel(Script::skip_fillers, 3);
            }
            assert(e.filled(s2) == s2);
            lemma_list_rest(e, s2, (count - 1) as nat, first);
            assert(grammar::list_from(e, s1, more) == grammar::list_from(e, s2, more));
        }
        let s3 = (grammar::list_from(e, s, entries)->Ok_0).0;
        assert(s3.nodes.take(s1.nodes.len() as int) == s1.nodes);
        assert forall|i: int| 0 <= i < s.nodes.len() implies s3.nodes[i] == s.nodes[i] by {
            assert(s3.nodes.take(s1.nodes.len() as int)[i] == s1.nodes[i]);
        }
        assert(s3.nodes.take(s.nodes.len() as int) =~= s.nodes);
    }
}

} // verus!
