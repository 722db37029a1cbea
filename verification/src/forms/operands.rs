//! Literals, ids, parentheses, and what stands before an operand.

use crate::error::ParserError;
use crate::grammar;
use crate::grouping::{self, Chain};
use crate::literals;
use crate::node::{AstIndex, NodeView};
use crate::parts::{self, Part};
use crate::script::{Script, State};
use crate::token::Token;
use vstd::prelude::*;

verus! {

broadcast use crate::script::group_places;

// Literals and ids

/// A literal.
pub open spec fn literal_part(e: Script, at: int) -> Part {
    Part {
        from: at,
        to: at + 1,
        read: |s: State| literals::literal(e, s)->Ok_0,
        size: 1,
    }
}

/// A literal is a term, with the node for its token.
pub proof fn law_literal(e: Script, at: int, primary: bool)
    requires
        0 <= at,
        literals::is_literal(e, at),
    ensures
        literal_part(e, at).is_term(e, primary),
        forall|s: State|
            literal_part(e, at).fits(s) && s.constants.len() <= u32::MAX ==> {
                let (s1, node) = #[trigger] (literal_part(e, at).read)(s);
                grouping::is_simple_node(e, at, s1, s1.nodes[node as int].node)
            },
{
    reveal(Part::is_sound);
    reveal(Part::is_operand);
    reveal(Part::is_term);
    let part = literal_part(e, at);
    assert forall|s: State| part.fits(s) implies {
        let (s1, node) = #[trigger] (part.read)(s);
        &&& part.leads_on(s)
        &&& part.is_read(s, grammar::first_operand(e, s, primary))
        &&& part.is_read(s, grammar::term(e, s, primary))
        &&& s.constants.len() <= u32::MAX ==> grouping::is_simple_node(
            e,
            at,
            s1,
            s1.nodes[node as int].node,
        )
    } by {
        assert(e.spaced(s) == s);
        grouping::lemma_simple_operand(e, s, primary);
        literals::lemma_literal(e, s);
        literals::lemma_literal_operand(e, s, primary);
        parts::lemma_ready(s);
        parts::lemma_operand_at(e, s, primary);
        reveal(grammar::number);
        reveal(grammar::string);
        parts::lemma_added(s, (part.read)(s).0);
    }
}

/// An id without a call or a lookup behind it. In a primary position the spaces behind it are part
/// of it.
pub open spec fn id_part(e: Script, at: int, primary: bool) -> Part {
    Part {
        from: at,
        to: if primary && e.token_at(at + 1) == Some(Token::Whitespace) {
            e.skip_spaces(at + 1)
        } else {
            at + 1
        },
        read: |s: State| literals::plain_id(e, s, primary)->Ok_0,
        size: 1,
    }
}

/// An id is a term, with the node for its token, and is read once more in the innermost scope. In a
/// primary position an operator follows.
pub proof fn law_id(e: Script, at: int, primary: bool)
    requires
        0 <= at,
        literals::is_plain_id(e, at),
        primary && e.token_at(at + 1) == Some(Token::Whitespace) ==> {
            &&& grammar::is_operator(e.token_at(e.skip_spaces(at + 1)))
            &&& e.token_at(e.skip_spaces(at + 1) + 1) == Some(Token::Whitespace)
        },
    ensures
        id_part(e, at, primary).is_term(e, primary),
        forall|s: State|
            id_part(e, at, primary).fits(s) && s.constants.len() <= u32::MAX ==> {
                let (s1, node) = #[trigger] (id_part(e, at, primary).read)(s);
                &&& grouping::is_simple_node(e, at, s1, s1.nodes[node as int].node)
                &&& s1.nodes[node as int].node matches NodeView::Id(id) && s1.top()
                    == s.top().with_access(id)
            },
{
    reveal(Part::is_sound);
    reveal(Part::is_operand);
    reveal(Part::is_term);
    let part = id_part(e, at, primary);
    reveal_with_fuel(Script::skip_spaces, 2);
    assert forall|s: State| part.fits(s) implies {
        let (s1, node) = #[trigger] (part.read)(s);
        &&& part.leads_on(s)
        &&& part.is_read(s, grammar::first_operand(e, s, primary))
        &&& part.is_read(s, grammar::term(e, s, primary))
        &&& s.constants.len() <= u32::MAX ==> grouping::is_simple_node(
            e,
            at,
            s1,
            s1.nodes[node as int].node,
        ) && (s1.nodes[node as int].node matches NodeView::Id(id) && s1.top()
            == s.top().with_access(id))
    } by {
        reveal(grammar::term);
        reveal(Script::id);
        parts::lemma_ready(s);
        assert(e.spaced(s) == s);
        grouping::lemma_simple_operand(e, s, primary);
        literals::lemma_plain_id_operand(e, s, primary);
        lemma_id_expression(e, s, primary);
        let (s1, node) = (part.read)(s);
        let id = s1.nodes[node as int].node->Id_0;
        assert(s1.frames =~= s.frames.drop_last().push(s.top().with_access(id)));
        parts::lemma_moved(s, s1.at);
        assert forall|other: u32| #[trigger]
            s.top().with_access(id).access_count(other) <= s1.at by {
            assert(s.top().access_count(other) <= s.at);
        }
        let s2 = s.moved(s1.at);
        let s3 = s2.with_top(s.top().with_access(id));
        parts::lemma_scope(s2, s.top().with_access(id));
        parts::lemma_added(s3, s1);
        parts::lemma_goes_on_trans(s, s2, s3);
        parts::lemma_goes_on_trans(s, s3, s1);
    }
}

/// An operand that starts with an id is what the id starts.
pub(crate) proof fn lemma_id_expression(e: Script, s: State, primary: bool)
    requires
        0 <= s.at,
        e.next(s) == Some(Token::Id),
        grammar::first_operand(e, s, primary) matches Ok((_, Some(_))),
    ensures
        grammar::first_operand(e, s, primary) == grammar::term(e, s, primary),
        grammar::first_operand(e, s, primary) == grammar::id_expression(e, s, primary),
{
    reveal(grammar::first_operand);
    reveal(grammar::negated);
    reveal(grammar::id_expression);
    reveal(grammar::term);
    reveal(Script::id);
    assert(e.spaced(s) == s);
    assert(grammar::negated(e, s) == Ok::<_, ParserError>((s, None::<AstIndex>)));
}

// `not` and `copy`

/// `not` or `copy`, and the expression behind it.
pub open spec fn prefix_part(e: Script, at: int, part: Part, copy: bool) -> Part {
    parts::node_part(
        at,
        part.to,
        parts::one(part),
        |nodes: Seq<u32>|
            if copy {
                NodeView::CopyExpression(nodes[0])
            } else {
                NodeView::Negate(nodes[0])
            },
        parts::span_at(e, part.to),
    )
}

/// `not` negates, and `copy` copies, the whole expression behind it, as far as that goes.
pub proof fn law_prefix(e: Script, at: int, part: Part, copy: bool, primary: bool)
    requires
        0 <= at,
        e.token_at(at) == Some(
            if copy {
                Token::Copy
            } else {
                Token::Not
            },
        ),
        part.is_expression(e, 0),
        part.starts_behind(e, at + 1),
    ensures
        prefix_part(e, at, part, copy).is_term(e, primary),
{
    reveal(Part::is_operand);
    reveal(Part::is_term);
    let whole = prefix_part(e, at, part, copy);
    parts::lemma_is_expression(e, part, 0, arbitrary());
    let make = |nodes: Seq<u32>|
        if copy {
            NodeView::CopyExpression(nodes[0])
        } else {
            NodeView::Negate(nodes[0])
        };
    parts::lemma_one(e, at, part);
    parts::lemma_node_part(e, at, part.to, parts::one(part), make, parts::span_at(e, part.to));
    assert forall|s: State| whole.fits(s) implies {
        let read = #[trigger] (whole.read)(s);
        &&& whole.is_read(s, grammar::first_operand(e, s, primary))
        &&& whole.is_read(s, grammar::term(e, s, primary))
    } by {
        reveal(grammar::term);
        reveal(grammar::operand);
        parts::lemma_ready(s);
        assert(e.spaced(s) == s);
        parts::lemma_operand_at(e, s, primary);
        let s1 = e.taken(s);
        let s2 = s.moved(part.from);
        assert(e.spaced(s1) == s2);
        parts::lemma_moved(s, part.from);
        parts::lemma_is_expression(e, part, 0, s2);
        let (s3, node) = (part.read)(s2);
        parts::lemma_expression_behind_spaces(e, s1, Seq::empty(), 0);
        assert(parts::read_all(parts::one(part), s) == (s3, Seq::<u32>::empty().push(node)));
    }
}

/// `not` or `copy` before a chain of operands takes the whole chain, with operators of any
/// precedence: it ends where the chain ends, and its node holds the group of all operands.
pub proof fn law_prefix_takes_whole_chain(
    e: Script,
    s: State,
    chain: Chain,
    copy: bool,
    primary: bool,
)
    requires
        0 <= s.at,
        e.next(s) == Some(
            if copy {
                Token::Copy
            } else {
                Token::Not
            },
        ),
        chain.stands_in(e, true),
        chain.starts[0] == e.skip_spaces(s.at + 1),
        grouping::line_before(e, s.at + 1) == grouping::line_before(e, chain.starts[0]),
        s.nodes.len() + chain.size + chain.room(chain.count()) <= u32::MAX,
    ensures
        grammar::term(e, s, primary) matches Ok((s1, Some(node))) && {
            &&& s1.at == grouping::operator_place(e, chain.ends[chain.count()])
            &&& s1.nodes[node as int].node == if copy {
                NodeView::CopyExpression(child(s1, node))
            } else {
                NodeView::Negate(child(s1, node))
            }
            &&& chain.is_group(e, s1, child(s1, node), 0, chain.count())
        },
        grammar::first_operand(e, s, primary) == grammar::term(e, s, primary),
{
    reveal(grammar::term);
    reveal(grammar::operand);
    assert(e.spaced(s) == s);
    parts::lemma_operand_at(e, s, primary);
    let s1 = e.taken(s);
    let s2 = e.spaced(s1);
    grouping::law_operators_are_grouped(e, chain, s2, 0);
    parts::lemma_expression_behind_spaces(e, s1, Seq::empty(), 0);
    let (s3, root) = grammar::expression(e, s2, Seq::empty(), 0)->Ok_0;
    let (s4, node) = grammar::term(e, s, primary)->Ok_0;
    grouping::lemma_group_stays(e, chain, s3, s4, root->0, 0, chain.count());
}

/// The node that a node with one child holds.
pub open spec fn child(s: State, node: AstIndex) -> AstIndex {
    match s.nodes[node as int].node {
        NodeView::CopyExpression(expression) => expression,
        NodeView::Negate(expression) => expression,
        _ => arbitrary(),
    }
}

// Parentheses

/// An expression in parentheses.
pub open spec fn paren_part(at: int, part: Part) -> Part {
    Part {
        from: at,
        to: part.to + 1,
        read: |s: State|
            {
                let (s1, node) = (part.read)(s.moved(part.from));
                (s1.moved(part.to + 1), node)
            },
        size: part.size,
    }
}

/// An expression in parentheses is a term, with the node of the expression.
pub proof fn law_parentheses(e: Script, at: int, part: Part, primary: bool)
    requires
        0 <= at,
        e.token_at(at) == Some(Token::ParenOpen),
        part.is_expression(e, 0),
        part.starts_behind(e, at + 1),
        e.token_at(part.to) == Some(Token::ParenClose),
    ensures
        paren_part(at, part).is_term(e, primary),
{
    reveal(Part::is_sound);
    reveal(Part::is_operand);
    reveal(Part::is_term);
    let whole = paren_part(at, part);
    parts::lemma_is_expression(e, part, 0, arbitrary());
    assert forall|s: State| whole.fits(s) implies {
        let (s1, node) = #[trigger] (whole.read)(s);
        &&& whole.leads_on(s)
        &&& whole.is_read(s, grammar::first_operand(e, s, primary))
        &&& whole.is_read(s, grammar::term(e, s, primary))
    } by {
        reveal(grammar::term);
        reveal(grammar::nested_expression);
        parts::lemma_ready(s);
        assert(e.spaced(s) == s);
        parts::lemma_operand_at(e, s, primary);
        let s1 = e.taken(s);
        let s2 = s.moved(part.from);
        assert(e.spaced(s1) == s2);
        parts::lemma_moved(s, part.from);
        parts::lemma_is_expression(e, part, 0, s2);
        let (s3, node) = (part.read)(s2);
        parts::lemma_expression_behind_spaces(e, s1, Seq::empty(), 0);
        parts::lemma_goes_on(s2, s3);
        parts::lemma_moved(s3, part.to + 1);
        parts::lemma_goes_on_trans(s, s2, s3);
        parts::lemma_goes_on_trans(s, s3, s3.moved(part.to + 1));
    }
}

/// Empty parentheses.
pub open spec fn empty_part(e: Script, at: int) -> Part {
    parts::node_part(
        at,
        e.skip_spaces(at + 1) + 1,
        Seq::empty(),
        |nodes: Seq<u32>| NodeView::Empty,
        parts::span_at(e, e.skip_spaces(at + 1)),
    )
}

/// Parentheses with nothing between them are the empty value.
pub proof fn law_empty_parentheses(e: Script, at: int, primary: bool)
    requires
        0 <= at,
        e.token_at(at) == Some(Token::ParenOpen),
        e.token_at(e.skip_spaces(at + 1)) == Some(Token::ParenClose),
    ensures
        empty_part(e, at).is_term(e, primary),
{
    reveal(Part::is_operand);
    reveal(Part::is_term);
    let end = e.skip_spaces(at + 1);
    let whole = empty_part(e, at);
    let make = |nodes: Seq<u32>| NodeView::Empty;
    parts::lemma_node_part(e, at, end + 1, Seq::empty(), make, parts::span_at(e, end));
    assert forall|s: State| whole.fits(s) implies {
        let read = #[trigger] (whole.read)(s);
        &&& whole.is_read(s, grammar::first_operand(e, s, primary))
        &&& whole.is_read(s, grammar::term(e, s, primary))
    } by {
        reveal(grammar::term);
        reveal(grammar::nested_expression);
        parts::lemma_ready(s);
        assert(e.spaced(s) == s);
        parts::lemma_operand_at(e, s, primary);
        parts::lemma_no_expression(e, e.taken(s), Seq::empty(), 0);
    }
}

// Minus signs

/// A minus sign, and the id or the expression in parentheses behind it.
pub open spec fn negative_part(e: Script, at: int, part: Part) -> Part {
    parts::node_part(
        at,
        part.to,
        parts::one(part),
        |nodes: Seq<u32>| NodeView::Negate(nodes[0]),
        parts::span_at(e, part.to),
    )
}

/// A minus sign directly before an id or an expression in parentheses negates that alone.
pub proof fn law_negative(e: Script, at: int, part: Part, primary: bool)
    requires
        0 <= at,
        e.token_at(at) == Some(Token::Subtract),
        e.token_at(at + 1) == Some(Token::Id) || e.token_at(at + 1) == Some(Token::ParenOpen),
        part.is_term(e, false),
        part.from == at + 1,
    ensures
        negative_part(e, at, part).is_operand(e, primary),
{
    reveal(Part::is_operand);
    let whole = negative_part(e, at, part);
    parts::lemma_is_term(e, part, false, arbitrary());
    let make = |nodes: Seq<u32>| NodeView::Negate(nodes[0]);
    parts::lemma_one(e, at, part);
    parts::lemma_node_part(e, at, part.to, parts::one(part), make, parts::span_at(e, part.to));
    assert forall|s: State| whole.fits(s) implies {
        let read = #[trigger] (whole.read)(s);
        whole.is_read(s, grammar::first_operand(e, s, primary))
    } by {
        reveal(grammar::first_operand);
        reveal(grammar::negated);
        reveal(grammar::negatable);
        reveal(grammar::term);
        reveal(grammar::id_expression);
        reveal(grammar::nested_expression);
        assert(e.spaced(s) == s);
        let s1 = e.taken(s);
        assert(e.spaced(s1) == s1);
        parts::lemma_moved(s, part.from);
        parts::lemma_is_term(e, part, false, s1);
        let (s2, node) = (part.read)(s1);
        assert(parts::read_all(parts::one(part), s) == (s2, Seq::<u32>::empty().push(node)));
    }
}

} // verus!
