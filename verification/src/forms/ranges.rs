//! Ranges.

use crate::error::ParserError;
use crate::grammar;
use crate::node::{AstIndex, NodeView};
use crate::parts::{self, Part};
use crate::script::{Script, State};
use crate::token::Token;
use vstd::prelude::*;

verus! {

broadcast use crate::script::group_places;

/// The node of a range, which may be open at either end. Only a range with an end is said to
/// have it as its last value or not.
pub open spec fn range_of(
    start: Option<AstIndex>,
    end: Option<AstIndex>,
    symbol: Token,
) -> NodeView {
    let inclusive = symbol == Token::RangeInclusive;
    match start {
        Some(start) => match end {
            Some(end) => NodeView::Range { start, end, inclusive },
            None => NodeView::RangeFrom { start },
        },
        None => match end {
            Some(end) => NodeView::RangeTo { end, inclusive },
            None => NodeView::RangeFull,
        },
    }
}

/// Whether a range symbol stands at a place, with a term behind it or nothing.
pub open spec fn is_range_end(e: Script, symbol: int, end: Option<Part>) -> bool {
    &&& 0 <= symbol
    &&& e.token_at(symbol) == Some(Token::Range) || e.token_at(symbol) == Some(
        Token::RangeInclusive,
    )
    &&& match end {
        Some(part) => part.is_term(e, false) && part.from == e.skip_spaces(symbol + 1)
            && e.token_at(part.from) != Some(Token::NewLineIndented),
        None => parts::starts_nothing(e, symbol + 1),
    }
}

/// Where a range ends.
pub open spec fn range_end(e: Script, symbol: int, end: Option<Part>) -> int {
    match end {
        Some(part) => part.to,
        None => e.skip_spaces(symbol + 1),
    }
}

/// The most nodes and constants that an end adds.
pub open spec fn end_size(end: Option<Part>) -> nat {
    match end {
        Some(part) => part.size,
        None => 0,
    }
}

/// The state behind a range, and its node.
pub open spec fn read_range(
    e: Script,
    s: State,
    start: Option<AstIndex>,
    symbol: int,
    end: Option<Part>,
) -> (State, AstIndex) {
    let to = range_end(e, symbol, end);
    let token = e.tokens[symbol].token;
    match end {
        Some(part) => {
            let (s1, node) = (part.read)(s.moved(part.from));
            e.add_node(s1.moved(to), range_of(start, Some(node), token))->Ok_0
        },
        None => e.add_node(s.moved(to), range_of(start, None, token))->Ok_0,
    }
}

/// A range has the start that was read before it, if there is one, and the term behind its symbol,
/// if there is one.
pub proof fn law_range_symbol(
    e: Script,
    s: State,
    start: Option<AstIndex>,
    symbol: int,
    end: Option<Part>,
)
    requires
        is_range_end(e, symbol, end),
        s.at == symbol,
        parts::is_ready(s),
        s.nodes.len() + end_size(end) + 1 <= u32::MAX + 1,
    ensures
        ({
            let (s1, node) = read_range(e, s, start, symbol, end);
            &&& grammar::range(e, s, start) == Ok::<_, ParserError>((s1, node))
            &&& node < s1.nodes.len() <= s.nodes.len() + end_size(end) + 1
            &&& s1.constants.len() <= s.constants.len() + end_size(end) + 1
            &&& s1.at == range_end(e, symbol, end)
            &&& parts::goes_on(s, s1)
            &&& symbol < s1.at <= e.tokens.len()
        }),
{
    reveal(grammar::range);
    reveal(grammar::term);
    let s1 = e.taken(s);
    let to = range_end(e, symbol, end);
    parts::lemma_moved(s, symbol + 1);
    match end {
        Some(part) => {
            let s2 = s.moved(part.from);
            parts::lemma_moved(s, part.from);
            parts::lemma_is_term(e, part, false, s2);
            parts::lemma_term_behind_spaces(e, s1, false);
            assert(e.spaced(s1) == s2);
            let (s3, node) = (part.read)(s2);
            parts::lemma_goes_on(s2, s3);
            assert(s3.moved(to) == s3);
            let made = crate::ast::AstNodeView {
                node: range_of(start, Some(node), e.tokens[symbol].token),
                span: e.span(s3),
            };
            parts::lemma_pushed(s3, made);
            parts::lemma_goes_on_trans(s, s2, s3);
            parts::lemma_goes_on_trans(
                s,
                s3,
                State { nodes: s3.nodes.push(made), ..s3 },
            );
        },
        None => {
            parts::lemma_no_term(e, s1, false);
            let s2 = s.moved(to);
            assert(e.spaced(s1) == s2);
            parts::lemma_moved(s, to);
            let made = crate::ast::AstNodeView {
                node: range_of(start, None, e.tokens[symbol].token),
                span: e.span(s2),
            };
            parts::lemma_pushed(s2, made);
            parts::lemma_goes_on_trans(
                s,
                s2,
                State { nodes: s2.nodes.push(made), ..s2 },
            );
        },
    }
}

/// A range, with or without a start.
pub open spec fn range_part(
    e: Script,
    start: Option<Part>,
    symbol: int,
    end: Option<Part>,
) -> Part {
    Part {
        from: match start {
            Some(part) => part.from,
            None => symbol,
        },
        to: range_end(e, symbol, end),
        read: |s: State|
            match start {
                Some(part) => {
                    let (s1, node) = (part.read)(s);
                    read_range(e, s1, Some(node), symbol, end)
                },
                None => read_range(e, s, None, symbol, end),
            },
        size: end_size(start) + end_size(end) + 1,
    }
}

/// An operand, or nothing, with a range symbol directly behind it and a term, or nothing, behind
/// the symbol, is a range between the two.
pub proof fn law_range(
    e: Script,
    start: Option<Part>,
    symbol: int,
    end: Option<Part>,
    min_precedence: u8,
)
    requires
        is_range_end(e, symbol, end),
        start matches Some(part) ==> part.is_operand(e, min_precedence == 0) && part.to == symbol,
    ensures
        range_part(e, start, symbol, end).is_expression(e, min_precedence),
{
    reveal(Part::is_sound);
    reveal(Part::is_expression);
    let whole = range_part(e, start, symbol, end);
    if let Some(part) = start {
        parts::lemma_is_operand(e, part, min_precedence == 0, arbitrary());
    }
    if let Some(part) = end {
        parts::lemma_is_term(e, part, false, arbitrary());
    }
    assert forall|s: State| whole.fits(s) implies {
        let read = #[trigger] (whole.read)(s);
        &&& whole.leads_on(s)
        &&& whole.is_read(s, grammar::expression(e, s, Seq::empty(), min_precedence))
    } by {
        lemma_range_at(e, start, symbol, end, min_precedence, s);
    }
}

proof fn lemma_range_at(
    e: Script,
    start: Option<Part>,
    symbol: int,
    end: Option<Part>,
    min_precedence: u8,
    s: State,
)
    requires
        is_range_end(e, symbol, end),
        start matches Some(part) ==> part.is_operand(e, min_precedence == 0) && part.to == symbol,
        range_part(e, start, symbol, end).fits(s),
    ensures
        ({
            let whole = range_part(e, start, symbol, end);
            &&& whole.leads_on(s)
            &&& whole.is_read(s, grammar::expression(e, s, Seq::empty(), min_precedence))
        }),
{
    reveal(grammar::expression);
    reveal(grammar::range);
    reveal(grammar::first_operand);
    let primary = min_precedence == 0;
    match start {
        Some(part) => {
            parts::lemma_is_operand(e, part, primary, s);
            let (s1, node) = (part.read)(s);
            parts::lemma_goes_on(s, s1);
            law_range_symbol(e, s1, Some(node), symbol, end);
            parts::lemma_goes_on_trans(
                s,
                s1,
                read_range(e, s1, Some(node), symbol, end).0,
            );
        },
        None => {
            law_range_symbol(e, s, None, symbol, end);
            lemma_no_operand(e, s, primary);
        },
    }
}

/// A range symbol by itself is no operand.
proof fn lemma_no_operand(e: Script, s: State, primary: bool)
    requires
        0 <= s.at,
        e.next(s) == Some(Token::Range) || e.next(s) == Some(Token::RangeInclusive),
    ensures
        grammar::first_operand(e, s, primary) == Ok::<_, ParserError>((s, None::<AstIndex>)),
{
    reveal(grammar::first_operand);
    reveal(grammar::negated);
    reveal(grammar::id_expression);
    reveal(grammar::term);
    reveal(Script::id);
    assert(e.spaced(s) == s);
    assert(grammar::negated(e, s) == Ok::<_, ParserError>((s, None::<AstIndex>)));
    assert(grammar::id_expression(e, s, primary) == Ok::<_, ParserError>((s, None::<AstIndex>)));
}

} // verus!
